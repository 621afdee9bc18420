//! The control-flow graph of one function, with its profile annotations.

use vstd::prelude::*;
use crate::ir_modifier::{find_block, position_of};
use super::Metadata;

verus! {

/// One function of a module: its blocks, their sizes and successors, and the
/// annotations found on the function and on each block's terminator.
///
/// Block 0 is the entry block. `function_ref` is an opaque handle with which
/// the provider of the module finds the function again.
#[derive(Debug)]
pub struct Function {
    pub name: String,
    pub entry_md: Option<Metadata>,
    pub bb_terminator_md: Vec<Option<Metadata>>,
    pub num_bbs: usize,
    pub function_ref: usize,
    pub bbs_branch_tree: Vec<Vec<usize>>,
    pub bbs_num_instrs: Vec<usize>,
}

/// The branch that ends a block, as a provider reports it: the operands in
/// the provider's order, blocks by their handles, and the annotation.
/// Where there is more than one operand, the first is the condition.
#[derive(Debug)]
pub struct Branch {
    pub operands: Vec<usize>,
    pub md: Option<Metadata>,
}

/// One basic block as a provider reports it: its handle, the number of its
/// instructions, and its branch if it ends in one.
#[derive(Debug)]
pub struct BasicBlock {
    pub id: usize,
    pub num_instrs: usize,
    pub branch: Option<Branch>,
}

/// The blocks that a branch with the operands `operands` leads to, in the
/// order of the textual form: the operands without the condition, last first.
pub open spec fn branch_targets(operands: Seq<usize>) -> Seq<usize> {
    if operands.len() > 1 {
        operands.skip(1).reverse()
    } else {
        operands.reverse()
    }
}

/// The blocks that `block` leads to, by handle.
pub open spec fn targets_of(block: BasicBlock) -> Seq<usize> {
    match block.branch {
        Some(branch) => branch_targets(branch.operands@),
        None => Seq::empty(),
    }
}

/// The annotation on the terminator of `block`; none unless it is a branch.
pub open spec fn annotation_of(block: BasicBlock) -> Option<Metadata> {
    match block.branch {
        Some(branch) => branch.md,
        None => None,
    }
}

/// The handles of `blocks`, in order.
pub open spec fn handles_of(blocks: Seq<BasicBlock>) -> Seq<usize> {
    blocks.map_values(|b: BasicBlock| b.id)
}

/// Every block that a block of `blocks` leads to is one of `blocks`.
pub open spec fn resolves(blocks: Seq<BasicBlock>) -> bool {
    forall|i: int, k: int|
        0 <= i < blocks.len() && 0 <= k < targets_of(blocks[i]).len() ==> handles_of(
            blocks,
        ).contains(#[trigger] targets_of(blocks[i])[k])
}

/// The successors of `block` as positions among `handles`.
pub open spec fn successors_of(handles: Seq<usize>, block: BasicBlock) -> Seq<usize> {
    targets_of(block).map_values(|t: usize| position_of(handles, t) as usize)
}

impl Function {
    /// Builds the graph of a function from the blocks that a provider
    /// reports, in their order.
    ///
    /// Each block leads to the targets of its branch, which are looked up by
    /// handle among the blocks. Returns `None` if there is no block, or if
    /// some target is not among the blocks.
    pub fn from_blocks(
        name: String,
        entry_md: Option<Metadata>,
        function_ref: usize,
        blocks: Vec<BasicBlock>,
    ) -> (r: Option<Function>)
        ensures
            r is Some <==> blocks@.len() > 0 && resolves(blocks@),
            match r {
                Some(f) => {
                    &&& f.wf()
                    &&& f.name == name
                    &&& f.entry_md == entry_md
                    &&& f.function_ref == function_ref
                    &&& f.num_bbs == blocks@.len()
                    &&& forall|i: int|
                        0 <= i < blocks@.len() ==> f.bbs_num_instrs@[i] == (
                        #[trigger] blocks@[i]).num_instrs && f.bb_terminator_md@[i]
                            == annotation_of(blocks@[i]) && f.successors()[i] == successors_of(
                            handles_of(blocks@),
                            blocks@[i],
                        )
                },
                None => true,
            },
    {
        let num_bbs = blocks.len();
        if num_bbs == 0 {
            return None;
        }
        let ghost all = blocks@;
        let ghost handles = handles_of(all);
        let mut ids: Vec<usize> = Vec::new();
        let mut i: usize = 0;
        while i < num_bbs
            invariant
                i <= num_bbs,
                num_bbs == blocks@.len(),
                ids@.len() == i,
                forall|k: int| 0 <= k < i ==> ids@[k] == blocks@[k].id,
            decreases num_bbs - i,
        {
            ids.push(blocks[i].id);
            i += 1;
        }
        let mut branch_tree: Vec<Vec<usize>> = Vec::new();
        let mut bbs_num_instrs: Vec<usize> = Vec::new();
        let mut bb_terminator_md: Vec<Option<Metadata>> = Vec::new();
        for block in it: blocks
            invariant
                all == it.seq(),
                all == blocks@,
                handles == handles_of(all),
                ids@ == handles,
                num_bbs == all.len(),
                branch_tree@.len() == it.index(),
                bbs_num_instrs@.len() == it.index(),
                bb_terminator_md@.len() == it.index(),
                forall|a: int, k: int|
                    0 <= a < it.index() && 0 <= k < targets_of(all[a]).len() ==> handles.contains(
                        #[trigger] targets_of(all[a])[k],
                    ),
                forall|a: int|
                    0 <= a < it.index() ==> bbs_num_instrs@[a] == (#[trigger] all[a]).num_instrs
                        && bb_terminator_md@[a] == annotation_of(all[a]) && branch_tree@[a]@
                        == successors_of(handles, all[a]),
        {
            let ghost at = it.index();
            bbs_num_instrs.push(block.num_instrs);
            let mut successors: Vec<usize> = Vec::new();
            match block.branch {
                Some(branch) => {
                    let operands = &branch.operands;
                    let start: usize = if operands.len() > 1 {
                        1
                    } else {
                        0
                    };
                    let ghost targets = branch_targets(operands@);
                    let mut op_idx: usize = operands.len();
                    while op_idx > start
                        invariant
                            start <= op_idx <= operands@.len(),
                            start == if operands@.len() > 1 { 1int } else { 0int },
                            targets == branch_targets(operands@),
                            targets == targets_of(all[at]),
                            0 <= at < all.len(),
                            all == blocks@,
                            ids@ == handles,
                            handles == handles_of(all),
                            successors@.len() == operands@.len() - op_idx,
                            forall|k: int|
                                0 <= k < successors@.len() ==> handles.contains(
                                    #[trigger] targets[k],
                                ) && successors@[k] == position_of(handles, targets[k]) as usize,
                        decreases op_idx,
                    {
                        op_idx -= 1;
                        let target = operands[op_idx];
                        match find_block(&ids, target) {
                            Some(position) => {
                                successors.push(position);
                            },
                            None => {
                                assert(!resolves(all)) by {
                                    if resolves(all) {
                                        assert(handles.contains(
                                            targets_of(all[at])[successors@.len() as int],
                                        ));
                                    }
                                }
                                return None;
                            },
                        }
                    }
                    bb_terminator_md.push(branch.md);
                },
                None => {
                    bb_terminator_md.push(None);
                },
            }
            branch_tree.push(successors);
        }
        let f = Function {
            name,
            entry_md,
            bb_terminator_md,
            num_bbs,
            function_ref,
            bbs_branch_tree: branch_tree,
            bbs_num_instrs,
        };
        proof {
            assert forall|i: int| 0 <= i < all.len() implies f.successors()[i] == successors_of(
                handles,
                #[trigger] all[i],
            ) by {}
            assert forall|i: int, k: int|
                0 <= i < f.successors().len() && 0 <= k < f.successors()[i].len()
                    implies #[trigger] f.successors()[i][k] < f.num_bbs by {
                let t = targets_of(all[i])[k];
                handles.index_of_first_ensures(t);
            }
        }
        Some(f)
    }

    /// The successor lists of all blocks.
    pub open spec fn successors(&self) -> Seq<Seq<usize>> {
        self.bbs_branch_tree@.map_values(|targets: Vec<usize>| targets@)
    }

    /// There is an entry block, every per-block list has one element per
    /// block, and every successor is a block of the function.
    pub open spec fn wf(&self) -> bool {
        &&& self.num_bbs >= 1
        &&& self.bb_terminator_md@.len() == self.num_bbs
        &&& self.bbs_branch_tree@.len() == self.num_bbs
        &&& self.bbs_num_instrs@.len() == self.num_bbs
        &&& forall|i: int, k: int|
            0 <= i < self.successors().len() && 0 <= k < self.successors()[i].len()
                ==> #[trigger] self.successors()[i][k] < self.num_bbs
    }

    /// The entry count of the function's annotation, if it has one.
    pub open spec fn spec_entry_count(&self) -> Option<u64> {
        match self.entry_md {
            Some(md) => md.spec_entry_count(),
            None => None,
        }
    }

    /// Returns how often the function was entered, according to its
    /// `function_entry_count` annotation; `None` without such an annotation.
    pub fn get_entry_count(&self) -> (r: Option<u64>)
        ensures
            r == self.spec_entry_count(),
    {
        match &self.entry_md {
            Some(md) => md.entry_count(),
            None => None,
        }
    }
}

} // verus!
