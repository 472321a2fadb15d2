//! The allocator and the in-place edits of a body. New blocks and new slots
//! come into existence here and nowhere else, each under the index that
//! follows all those in use.

use crate::ir::{BasicBlockData, BlockView, Body, LocalDecl, Mutability, Statement, Terminator, Ty};
use vstd::prelude::*;

verus! {

/// The largest index below `count`, found by `itertools::max` over the range
/// of indices from zero up to, and without, `count`. Trusted: `itertools::max`
/// gives the greatest item of what it is handed, and nothing for an empty
/// range.
#[verifier::external_body]
fn max_index(count: usize) -> (r: Option<usize>)
    ensures
        count == 0 ==> r is None,
        count > 0 ==> r == Some((count - 1) as usize),
{
    itertools::max(0..count)
}

impl Body {
    /// Whether every block has its terminator, as a session asks of the body
    /// that it starts on.
    pub fn is_terminated(&self) -> (r: bool)
        ensures
            r == self@.all_terminated(),
    {
        let n = self.basic_blocks.len();
        let mut block: usize = 0;
        while block < n
            invariant
                block <= n,
                n == self.basic_blocks@.len(),
                forall|b: int| 0 <= b < block ==> (#[trigger] self@.blocks[b]).terminator is Some,
            decreases n - block,
        {
            if self.basic_blocks[block].terminator.is_none() {
                assert(self@.blocks[block as int].terminator is None);
                return false;
            }
            block = block + 1;
        }
        true
    }

    /// The index that the next slot will get: one past the largest in use,
    /// zero where there is none.
    pub fn fresh_local(&self) -> (local: usize)
        ensures
            local == self@.slots.len(),
    {
        match max_index(self.local_decls.len()) {
            Some(largest) => largest + 1,
            None => 0,
        }
    }

    /// Appends a slot of the given type, marked as injected, and returns its
    /// index. The slots that were there keep their index and their content.
    pub fn allocate_fresh_local(&mut self, ty: Ty, mutability: Mutability) -> (local: usize)
        ensures
            local == old(self)@.slots.len(),
            final(self)@.slots == old(self)@.slots.push(
                LocalDecl { ty, mutability, internal: true },
            ),
            final(self)@.blocks == old(self)@.blocks,
    {
        let local = self.fresh_local();
        self.local_decls.push(LocalDecl { ty, mutability, internal: true });
        assert(self@.blocks =~= old(self)@.blocks);
        local
    }

    /// Appends a block with no statement and no terminator and returns its
    /// index. The blocks that were there keep their index and their content.
    pub fn allocate_block(&mut self) -> (block: usize)
        ensures
            block == old(self)@.blocks.len(),
            final(self)@.blocks == old(self)@.blocks.push(BlockView::empty()),
            final(self)@.slots == old(self)@.slots,
    {
        let block = self.basic_blocks.len();
        self.basic_blocks.push(
            BasicBlockData { statements: Vec::new(), terminator: None, is_cleanup: false },
        );
        assert(self@.blocks =~= old(self)@.blocks.push(BlockView::empty()));
        block
    }

    /// Hands out the block at `block` for editing in place.
    pub fn get_data_mut(&mut self, block: usize) -> (data: &mut BasicBlockData)
        requires
            block < old(self)@.blocks.len(),
        ensures
            data@ == old(self)@.blocks[block as int],
            final(self)@.blocks == old(self)@.blocks.update(block as int, final(data)@),
            final(self)@.slots == old(self)@.slots,
    {
        &mut self.basic_blocks[block]
    }

    /// Replaces the terminator of one block.
    pub fn set_terminator(&mut self, block: usize, terminator: Option<Terminator>)
        requires
            block < old(self)@.blocks.len(),
        ensures
            final(self)@.slots == old(self)@.slots,
            final(self)@.blocks == old(self)@.blocks.update(
                block as int,
                BlockView { terminator, ..old(self)@.blocks[block as int] },
            ),
    {
        let data = self.get_data_mut(block);
        data.terminator = terminator;
    }

    /// Replaces the statements of one block.
    pub fn set_statements(&mut self, block: usize, statements: Vec<Statement>)
        requires
            block < old(self)@.blocks.len(),
        ensures
            final(self)@.slots == old(self)@.slots,
            final(self)@.blocks == old(self)@.blocks.update(
                block as int,
                BlockView { statements: statements@, ..old(self)@.blocks[block as int] },
            ),
    {
        let data = self.get_data_mut(block);
        data.statements = statements;
    }
}

} // verus!
