//! Profile annotations as a tree of strings, integers and nested nodes.

use vstd::prelude::*;

verus! {

/// One annotation value.
///
/// A `Node` whose first child is a `String` is named by that string; the
/// recognised names are `function_entry_count` and `branch_weights`.
/// `FloatValue` carries the bit pattern of an IEEE-754 double.
#[derive(Debug)]
pub enum Metadata {
    String(String),
    Node(Vec<Metadata>),
    IntValue(u64),
    FloatValue(u64),
}

/// The integers held by `items[from..]`.
pub open spec fn int_values(items: Seq<Metadata>, from: int) -> Seq<u64> {
    Seq::new((items.len() - from) as nat, |k: int| items[from + k]->IntValue_0)
}

/// Every item of `items[from..]` is an integer.
pub open spec fn all_ints(items: Seq<Metadata>, from: int) -> bool {
    forall|k: int| from <= k < items.len() ==> (#[trigger] items[k]) is IntValue
}

impl Metadata {
    /// The children of a node whose first child is the string `name`.
    pub open spec fn named(self, name: Seq<char>) -> Option<Seq<Metadata>> {
        match self {
            Metadata::Node(children) => if children@.len() > 0 {
                match children@[0] {
                    Metadata::String(s) => if s@ == name {
                        Some(children@)
                    } else {
                        None
                    },
                    _ => None,
                }
            } else {
                None
            },
            _ => None,
        }
    }

    /// The weights of a `branch_weights` node: the integers after its name.
    /// A node of another name, or with a child that is no integer, has none.
    pub open spec fn spec_branch_weights(self) -> Option<Seq<u64>> {
        match self.named("branch_weights"@) {
            Some(children) => if all_ints(children, 1) {
                Some(int_values(children, 1))
            } else {
                None
            },
            None => None,
        }
    }

    /// The count of a `function_entry_count` node: the integer after its name.
    pub open spec fn spec_entry_count(self) -> Option<u64> {
        match self.named("function_entry_count"@) {
            Some(children) => if children.len() > 1 && children[1] is IntValue {
                Some(children[1]->IntValue_0)
            } else {
                None
            },
            None => None,
        }
    }

    /// Returns the children of `self` if it is a node named `name`.
    fn children_named(&self, name: &str) -> (r: Option<&Vec<Metadata>>)
        ensures
            match r {
                Some(children) => self.named(name@) == Some(children@),
                None => self.named(name@) is None,
            },
    {
        match self {
            Metadata::Node(children) => {
                if children.len() == 0 {
                    return None;
                }
                match &children[0] {
                    Metadata::String(s) => {
                        let wanted: String = name.to_owned();
                        if *s == wanted {
                            Some(children)
                        } else {
                            None
                        }
                    },
                    _ => None,
                }
            },
            _ => None,
        }
    }

    /// Decodes the weights of a `branch_weights` annotation, one per
    /// successor. Anything of another shape yields `None`.
    pub fn branch_weights(&self) -> (r: Option<Vec<u64>>)
        ensures
            match r {
                Some(w) => self.spec_branch_weights() == Some(w@),
                None => self.spec_branch_weights() is None,
            },
    {
        match self.children_named("branch_weights") {
            Some(children) => {
                let mut weights: Vec<u64> = Vec::new();
                let mut k: usize = 1;
                while k < children.len()
                    invariant
                        1 <= k <= children.len(),
                        self.named("branch_weights"@) == Some(children@),
                        weights@.len() == k - 1,
                        forall|i: int| 1 <= i < k ==> (#[trigger] children@[i]) is IntValue,
                        forall|i: int|
                            0 <= i < k - 1 ==> weights@[i] == children@[i + 1]->IntValue_0,
                    decreases children.len() - k,
                {
                    match &children[k] {
                        Metadata::IntValue(w) => {
                            weights.push(*w);
                        },
                        _ => {
                            return None;
                        },
                    }
                    k += 1;
                }
                Some(weights)
            },
            None => None,
        }
    }

    /// Decodes the count of a `function_entry_count` annotation. Anything of
    /// another shape yields `None`.
    pub fn entry_count(&self) -> (r: Option<u64>)
        ensures
            r == self.spec_entry_count(),
    {
        match self.children_named("function_entry_count") {
            Some(children) => {
                if children.len() > 1 {
                    match &children[1] {
                        Metadata::IntValue(v) => Some(*v),
                        _ => None,
                    }
                } else {
                    None
                }
            },
            None => None,
        }
    }
}

} // verus!
