//! Ordering and joining texts, as the log's columns need it.

use vstd::prelude::*;
use vstd::seq_lib::{to_multiset_build, to_multiset_insert};
use vstd::string::{StrSliceExecFns, StringExecFns};

verus! {

/// `a` comes before `b`, or equals it, in the order of the dictionary:
/// at the first place where they differ `a` has the lower character, or `a`
/// ends where `b` goes on.
pub open spec fn text_le(a: Seq<char>, b: Seq<char>) -> bool
    decreases a.len(),
{
    if a.len() == 0 {
        true
    } else if b.len() == 0 {
        false
    } else if a[0] != b[0] {
        (a[0] as int) < (b[0] as int)
    } else {
        text_le(a.skip(1), b.skip(1))
    }
}

/// Each text of `names` comes before the next, or equals it.
pub open spec fn in_text_order(names: Seq<Seq<char>>) -> bool {
    forall|i: int| 0 <= i < names.len() - 1 ==> text_le(#[trigger] names[i], names[i + 1])
}

/// The texts of `names`.
pub open spec fn texts_of(names: Seq<String>) -> Seq<Seq<char>> {
    names.map_values(|s: String| s@)
}

/// The texts of `parts` with `sep` between each two.
pub open spec fn joined(parts: Seq<Seq<char>>, sep: Seq<char>) -> Seq<char>
    decreases parts.len(),
{
    if parts.len() == 0 {
        Seq::empty()
    } else if parts.len() == 1 {
        parts[0]
    } else {
        joined(parts.drop_last(), sep) + sep + parts.last()
    }
}

/// Of any two texts, one comes before the other or equals it.
pub proof fn lemma_text_le_total(a: Seq<char>, b: Seq<char>)
    ensures
        text_le(a, b) || text_le(b, a),
    decreases a.len(),
{
    if a.len() > 0 && b.len() > 0 {
        if a[0] == b[0] {
            lemma_text_le_total(a.skip(1), b.skip(1));
        }
    }
}

/// Tells whether `a` comes before `b`, or equals it, in the order of the
/// dictionary.
pub fn text_before(a: &str, b: &str) -> (le: bool)
    ensures
        le == text_le(a@, b@),
{
    let la = a.unicode_len();
    let lb = b.unicode_len();
    let mut i: usize = 0;
    assert(a@.skip(0) =~= a@ && b@.skip(0) =~= b@);
    while i < la && i < lb
        invariant
            i <= la,
            i <= lb,
            la == a@.len(),
            lb == b@.len(),
            text_le(a@, b@) == text_le(a@.skip(i as int), b@.skip(i as int)),
        decreases la - i,
    {
        let x = a.get_char(i);
        let y = b.get_char(i);
        if x != y {
            return (x as u32) < (y as u32);
        }
        assert(a@.skip(i as int).skip(1) =~= a@.skip(i + 1));
        assert(b@.skip(i as int).skip(1) =~= b@.skip(i + 1));
        i += 1;
    }
    i == la
}

/// Sorts `names` into the order of the dictionary.
pub fn sort_texts(names: Vec<String>) -> (sorted: Vec<String>)
    ensures
        in_text_order(texts_of(sorted@)),
        texts_of(sorted@).to_multiset() == texts_of(names@).to_multiset(),
{
    let ghost all = names@;
    let mut sorted: Vec<String> = Vec::new();
    assert(texts_of(all.take(0)) =~= texts_of(sorted@));
    for name in it: names
        invariant
            all == it.seq(),
            in_text_order(texts_of(sorted@)),
            texts_of(sorted@).to_multiset() == texts_of(all.take(it.index())).to_multiset(),
    {
        let ghost taken = it.index();
        let mut at: usize = 0;
        while at < sorted.len() && text_before(sorted[at].as_str(), name.as_str())
            invariant
                at <= sorted@.len(),
                forall|i: int| 0 <= i < at ==> text_le(#[trigger] texts_of(sorted@)[i], name@),
            decreases sorted@.len() - at,
        {
            at += 1;
        }
        let ghost before = texts_of(sorted@);
        proof {
            if at < sorted@.len() {
                lemma_text_le_total(before[at as int], name@);
            }
        }
        sorted.insert(at, name);
        proof {
            let after = texts_of(sorted@);
            assert(after =~= before.insert(at as int, name@));
            assert forall|i: int| 0 <= i < after.len() - 1 implies text_le(
                #[trigger] after[i],
                after[i + 1],
            ) by {
                if i + 1 < at {
                    assert(after[i] == before[i] && after[i + 1] == before[i + 1]);
                } else if i + 1 == at {
                    assert(after[i] == before[i]);
                } else if i == at {
                    assert(after[i + 1] == before[at as int]);
                }
            }
            let grown = texts_of(all.take(taken));
            assert(texts_of(all.take(taken + 1)) =~= grown.push(name@));
            to_multiset_build(grown, name@);
            to_multiset_insert(before, at as int, name@);
        }
    }
    assert(all.take(all.len() as int) =~= all);
    sorted
}

/// Joins `parts` with `sep` between each two.
pub fn join(parts: &Vec<String>, sep: &str) -> (text: String)
    ensures
        text@ == joined(texts_of(parts@), sep@),
{
    let ghost texts = texts_of(parts@);
    let mut text = String::new();
    let mut i: usize = 0;
    while i < parts.len()
        invariant
            i <= parts@.len(),
            texts == texts_of(parts@),
            text@ == joined(texts.take(i as int), sep@),
        decreases parts@.len() - i,
    {
        assert(texts.take(i + 1).drop_last() =~= texts.take(i as int));
        if i > 0 {
            text.append(sep);
        }
        text.append(parts[i].as_str());
        i += 1;
    }
    assert(texts.take(i as int) =~= texts);
    text
}

} // verus!
