//! What holds of every edit session, stated over the model of its states
//! and proved once for all of them.

use crate::ir::{BlockView, BodyView, Location, Mutability, Place, Statement, Terminator, Ty};
use crate::kind::SplitKind;
use crate::model::ModifierView;
use vstd::prelude::*;

verus! {

/// One request to the engine.
pub enum Edit {
    /// Split the block that holds `at` in front of it.
    Split { at: Location, kind: SplitKind },
    /// Replace the statement at `at` by the no-op marker.
    Nop { at: Location },
    /// Replace every statement that an original coordinate resolves to.
    NopAll,
    /// Append a slot.
    FreshSlot { ty: Ty, mutability: Mutability },
    /// Generate the probe that moves out of `operand`.
    MoveOutProbe { operand: Place },
    /// Generate the probe that borrows `operand` mutably.
    MutBorrowProbe { operand: Place },
    /// Replace the statements of a synthetic block.
    Populate { block: usize, statements: Seq<Statement> },
}

impl BodyView {
    /// The body after `n` more blocks were allocated.
    pub open spec fn after_blocks(self, n: nat) -> BodyView
        decreases n,
    {
        if n == 0 {
            self
        } else {
            let before = self.after_blocks((n - 1) as nat);
            BodyView { blocks: before.blocks.push(BlockView::empty()), slots: before.slots }
        }
    }

    /// Allocation hands out dense indices: the call that follows `n` others
    /// returns the first block count plus `n`, and no block that was there
    /// before changes.
    pub proof fn lemma_fresh_blocks_dense(self, n: nat)
        ensures
            self.after_blocks(n).blocks.len() == self.blocks.len() + n,
            self.after_blocks(n).slots == self.slots,
            forall|b: int|
                0 <= b < self.blocks.len() ==> #[trigger] self.after_blocks(n).blocks[b]
                    == self.blocks[b],
        decreases n,
    {
        if n > 0 {
            self.lemma_fresh_blocks_dense((n - 1) as nat);
        }
    }

    /// Of any two allocations in a row of them, the later one returns the
    /// larger index: the indices are distinct and strictly increasing.
    pub proof fn lemma_fresh_blocks_increase(self, i: nat, j: nat)
        requires
            i < j,
        ensures
            self.after_blocks(i).blocks.len() < self.after_blocks(j).blocks.len(),
    {
        self.lemma_fresh_blocks_dense(i);
        self.lemma_fresh_blocks_dense(j);
    }
}

impl ModifierView {
    /// The state after one request. A request that the engine refuses
    /// leaves the state as it is.
    pub open spec fn step(self, edit: Edit) -> ModifierView {
        match edit {
            Edit::Split { at, kind } => if self.table.dom().contains(at) {
                self.split(at, kind)
            } else {
                self
            },
            Edit::Nop { at } => if self.table.dom().contains(at) && self.body.has_statement(
                self.table[at],
            ) {
                self.nop(at)
            } else {
                self
            },
            Edit::NopAll => self.nop_all(),
            Edit::FreshSlot { ty, mutability } => self.fresh_slot(ty, mutability),
            Edit::MoveOutProbe { operand } => if operand.local < self.body.slots.len() {
                self.fresh_slot(self.body.slots[operand.local as int].ty, Mutability::Mut)
            } else {
                self
            },
            Edit::MutBorrowProbe { operand } => self,
            Edit::Populate { block, statements } => if self.is_synthetic(block) {
                self.populate(block, statements)
            } else {
                self
            },
        }
    }

    /// The state after a sequence of requests, taken in order.
    pub open spec fn run(self, edits: Seq<Edit>) -> ModifierView
        decreases edits.len(),
    {
        if edits.len() == 0 {
            self
        } else {
            self.run(edits.drop_last()).step(edits.last())
        }
    }

    /// `edit` is a split that takes effect in the block where `loc` now
    /// lies, at the position of `loc` or before it.
    pub open spec fn disturbs(self, edit: Edit, loc: Location) -> bool {
        &&& edit matches Edit::Split { at, .. }
        &&& self.table.dom().contains(at)
        &&& self.table[at].block == self.table[loc].block
        &&& self.table[at].statement_index <= self.table[loc].statement_index
    }

    /// No request of `edits` disturbs `loc` in the state in which it is made.
    pub open spec fn undisturbed(self, edits: Seq<Edit>, loc: Location) -> bool
        decreases edits.len(),
    {
        edits.len() == 0 || (self.undisturbed(edits.drop_last(), loc) && !self.run(
            edits.drop_last(),
        ).disturbs(edits.last(), loc))
    }

    /// One request keeps every key of the table, and changes what a key
    /// resolves to only if it disturbs it.
    pub proof fn lemma_step_stable(self, edit: Edit, loc: Location)
        requires
            self.table.dom().contains(loc),
        ensures
            self.step(edit).table.dom() == self.table.dom(),
            !self.disturbs(edit, loc) ==> self.step(edit).table[loc] == self.table[loc],
    {
        assert(self.step(edit).table.dom() =~= self.table.dom());
    }

    /// Every key of the table stays a key, whatever is asked of the engine.
    pub proof fn lemma_keys_remain(self, edits: Seq<Edit>)
        ensures
            self.run(edits).table.dom() == self.table.dom(),
        decreases edits.len(),
    {
        if edits.len() > 0 {
            self.lemma_keys_remain(edits.drop_last());
            let before = self.run(edits.drop_last());
            assert(before.step(edits.last()).table.dom() =~= before.table.dom());
        }
    }

    /// Coordinate stability: an original coordinate resolves to the same
    /// current coordinate after any sequence of requests, as long as none of
    /// them is a split in its block at or before it.
    pub proof fn lemma_coordinate_stability(self, edits: Seq<Edit>, loc: Location)
        requires
            self.table.dom().contains(loc),
            self.undisturbed(edits, loc),
        ensures
            self.run(edits).table.dom().contains(loc),
            self.run(edits).table[loc] == self.table[loc],
        decreases edits.len(),
    {
        if edits.len() > 0 {
            self.lemma_coordinate_stability(edits.drop_last(), loc);
            self.run(edits.drop_last()).lemma_step_stable(edits.last(), loc);
        }
    }

    /// Split correctness. With `cur` the current coordinate of `loc` before
    /// the split: afterwards `loc` resolves to the start of the continuation;
    /// the continuation holds the statements of `cur.block` from
    /// `cur.statement_index` onward and its terminator; `cur.block` keeps the
    /// statements before; the two new terminators are those of `kind`; every
    /// other block is as it was; and an original coordinate moves to the
    /// continuation if it resolved into `cur.block` at or after `cur`, and
    /// else resolves as before.
    pub proof fn lemma_split_correct(self, loc: Location, kind: SplitKind)
        requires
            self.wf(),
            self.table.dom().contains(loc),
            self.body.blocks.len() + 2 <= usize::MAX,
        ensures
            ({
                let cur = self.table[loc];
                let next = self.split(loc, kind);
                let synthetic = self.body.blocks.len() as int;
                let continuation = (self.body.blocks.len() + 1) as int;
                let old_block = self.body.blocks[cur.block as int];
                &&& next.body.blocks.len() == self.body.blocks.len() + 2
                &&& next.table[loc] == (Location {
                    block: continuation as usize,
                    statement_index: 0,
                })
                &&& next.body.blocks[continuation].statements == old_block.statements.subrange(
                    cur.statement_index as int,
                    old_block.statements.len() as int,
                )
                &&& next.body.blocks[continuation].terminator == old_block.terminator
                &&& next.body.blocks[cur.block as int].statements == old_block.statements.subrange(
                    0,
                    cur.statement_index as int,
                )
                &&& next.body.blocks[cur.block as int].statements
                    + next.body.blocks[continuation].statements == old_block.statements
                &&& next.body.blocks[synthetic].statements == Seq::<Statement>::empty()
                &&& kind == SplitKind::Inline ==> {
                    &&& next.body.blocks[cur.block as int].terminator == Some(
                        Terminator::Goto { target: synthetic as usize },
                    )
                    &&& next.body.blocks[synthetic].terminator == Some(
                        Terminator::Goto { target: continuation as usize },
                    )
                }
                &&& kind == SplitKind::Test ==> {
                    &&& next.body.blocks[cur.block as int].terminator == Some(
                        Terminator::FalseEdge {
                            real_target: continuation as usize,
                            imaginary_target: synthetic as usize,
                        },
                    )
                    &&& next.body.blocks[synthetic].terminator == Some(Terminator::Unreachable)
                }
                &&& kind == SplitKind::Approximator ==> {
                    &&& next.body.blocks[cur.block as int].terminator == Some(
                        Terminator::FalseEdge {
                            real_target: continuation as usize,
                            imaginary_target: synthetic as usize,
                        },
                    )
                    &&& next.body.blocks[synthetic].terminator == Some(
                        Terminator::Goto { target: continuation as usize },
                    )
                }
                &&& forall|b: int|
                    0 <= b < self.body.blocks.len() && b != cur.block ==> #[trigger] next.body.blocks[b]
                        == self.body.blocks[b]
                &&& next.table.dom() == self.table.dom()
                &&& forall|k: Location| #[trigger]
                    self.table.dom().contains(k) ==> next.table[k] == (if self.table[k].block
                        == cur.block && self.table[k].statement_index >= cur.statement_index {
                        Location {
                            block: continuation as usize,
                            statement_index: (self.table[k].statement_index
                                - cur.statement_index) as usize,
                        }
                    } else {
                        self.table[k]
                    })
            }),
    {
        let cur = self.table[loc];
        let next = self.split(loc, kind);
        let old_block = self.body.blocks[cur.block as int];
        assert(self.body.has_location(cur));
        assert(next.table.dom() =~= self.table.dom());
        assert(old_block.statements.subrange(0, cur.statement_index as int)
            + old_block.statements.subrange(
            cur.statement_index as int,
            old_block.statements.len() as int,
        ) =~= old_block.statements);
    }

    /// In a valid state an original statement position resolves to a
    /// statement, and an original terminator position to a terminator.
    pub proof fn lemma_terminators_stay_terminators(self, loc: Location)
        requires
            self.wf(),
            self.table.dom().contains(loc),
        ensures
            self.body.has_location(self.table[loc]),
            self.body.has_statement(self.table[loc]) <==> self.is_original_statement(loc),
    {
    }

    /// No-op idempotence: to replace a statement by the no-op marker a
    /// second time changes nothing.
    pub proof fn lemma_nop_idempotent(self, loc: Location)
        ensures
            self.step(Edit::Nop { at: loc }).step(Edit::Nop { at: loc }) == self.step(
                Edit::Nop { at: loc },
            ),
            self.table.dom().contains(loc) && self.body.has_statement(self.table[loc])
                ==> self.nop(loc).body.statement_at(self.table[loc]) == Statement::Nop
                && self.nop(loc).nop(loc) == self.nop(loc),
    {
        if self.table.dom().contains(loc) && self.body.has_statement(self.table[loc]) {
            let once = self.nop(loc);
            let twice = once.nop(loc);
            let cur = self.table[loc];
            assert(once.body.blocks[cur.block as int].statements
                =~= twice.body.blocks[cur.block as int].statements);
            assert(once.body.blocks =~= twice.body.blocks);
            assert(once.body.has_statement(once.table[loc]));
        }
    }

    /// To overwrite all original statements a second time changes nothing.
    pub proof fn lemma_nop_all_idempotent(self)
        ensures
            self.nop_all().nop_all() == self.nop_all(),
    {
        let once = self.nop_all();
        let twice = once.nop_all();
        assert forall|b: int| 0 <= b < once.body.blocks.len() implies #[trigger] once.body.blocks[b]
            == twice.body.blocks[b] by {
            assert forall|p: int| 0 <= p < once.body.blocks[b].statements.len() implies (
            #[trigger] once.body.blocks[b].statements[p]) == twice.body.blocks[b].statements[p] by {
                assert(once.tracks(b, p) == self.tracks(b, p));
            }
            assert(once.body.blocks[b].statements =~= twice.body.blocks[b].statements);
        }
        assert(once.body.blocks =~= twice.body.blocks);
    }

    /// One request adds at most two blocks, takes none away, and leaves
    /// every slot that was there as it was: no index is ever issued twice. A
    /// split that takes place adds exactly two blocks.
    pub proof fn lemma_step_grows(self, edit: Edit)
        requires
            self.wf(),
        ensures
            self.body.blocks.len() <= self.step(edit).body.blocks.len() <= self.body.blocks.len()
                + 2,
            self.body.slots.len() <= self.step(edit).body.slots.len(),
            forall|i: int|
                0 <= i < self.body.slots.len() ==> #[trigger] self.step(edit).body.slots[i]
                    == self.body.slots[i],
            edit matches Edit::Split { at, .. } && self.table.dom().contains(at) ==> self.step(
                edit,
            ).body.blocks.len() == self.body.blocks.len() + 2,
    {
        match edit {
            Edit::Split { at, kind } => {
                if self.table.dom().contains(at) {
                    assert(self.body.has_location(self.table[at]));
                }
            },
            Edit::Nop { at } => {},
            Edit::NopAll => {},
            Edit::FreshSlot { ty, mutability } => {},
            Edit::MoveOutProbe { operand } => {},
            Edit::MutBorrowProbe { operand } => {},
            Edit::Populate { block, statements } => {},
        }
    }

    /// One request keeps a valid state valid.
    pub proof fn lemma_step_wf(self, edit: Edit)
        requires
            self.wf(),
            self.body.blocks.len() + 2 <= usize::MAX,
        ensures
            self.step(edit).wf(),
    {
        match edit {
            Edit::Split { at, kind } => {
                if self.table.dom().contains(at) {
                    self.lemma_split_wf(at, kind);
                }
            },
            Edit::Nop { at } => {
                if self.table.dom().contains(at) && self.body.has_statement(self.table[at]) {
                    self.lemma_nop_wf(self.table[at]);
                }
            },
            Edit::NopAll => {
                self.lemma_nop_all_wf();
            },
            Edit::FreshSlot { ty, mutability } => {
                self.lemma_fresh_slot_wf(ty, mutability);
            },
            Edit::MoveOutProbe { operand } => {
                if operand.local < self.body.slots.len() {
                    self.lemma_fresh_slot_wf(
                        self.body.slots[operand.local as int].ty,
                        Mutability::Mut,
                    );
                }
            },
            Edit::MutBorrowProbe { operand } => {},
            Edit::Populate { block, statements } => {
                if self.is_synthetic(block) {
                    self.lemma_populate_wf(block, statements);
                }
            },
        }
    }

    /// Terminator invariant: after any sequence of requests the state is
    /// valid, so every block of the body has its terminator. No block is
    /// taken away, each request adds at most two, and every slot that was
    /// there is as it was. The block indices that the requests can take must
    /// fit in the machine's index type.
    pub proof fn lemma_run_wf(self, edits: Seq<Edit>)
        requires
            self.wf(),
            self.body.blocks.len() + 2 * edits.len() <= usize::MAX,
        ensures
            self.run(edits).wf(),
            self.run(edits).body.all_terminated(),
            self.body.blocks.len() <= self.run(edits).body.blocks.len() <= self.body.blocks.len()
                + 2 * edits.len(),
            self.body.slots.len() <= self.run(edits).body.slots.len(),
            forall|i: int|
                0 <= i < self.body.slots.len() ==> #[trigger] self.run(edits).body.slots[i]
                    == self.body.slots[i],
        decreases edits.len(),
    {
        if edits.len() > 0 {
            self.lemma_run_wf(edits.drop_last());
            self.run(edits.drop_last()).lemma_step_grows(edits.last());
            self.run(edits.drop_last()).lemma_step_wf(edits.last());
        }
    }
}

} // verus!
