//! The patch engine: one edit session over one body. Every edit names its
//! target by the coordinates of the body as first supplied; the engine
//! resolves them through its location table, edits the body in place and
//! keeps the table in step.

use crate::error::PatchError;
use crate::ir::{Body, Location, Mutability, Operand, Place, Statement, Ty};
use crate::kind::SplitKind;
use crate::model::{move_out_statements, ModifierView};
use crate::table::LocationTable;
use vstd::prelude::*;

verus! {

/// An edit session: the body under modification, the table from original to
/// current coordinates, and the provenance of each block.
pub struct BodyModifier {
    body: Body,
    location_table: LocationTable,
    synthetic: Vec<bool>,
    original: Ghost<Seq<nat>>,
}

impl View for BodyModifier {
    type V = ModifierView;

    closed spec fn view(&self) -> ModifierView {
        ModifierView {
            body: self.body@,
            table: self.location_table@,
            synthetic: self.synthetic@,
            original: self.original@,
        }
    }
}

impl BodyModifier {
    /// The session's validity: that of its table and that of its state.
    pub closed spec fn wf(&self) -> bool {
        self.location_table.wf() && self@.wf()
    }

    /// A valid session is in a valid state.
    pub proof fn lemma_wf(&self)
        requires
            self.wf(),
        ensures
            self@.wf(),
    {
    }

    /// Starts a session on `body`, every block of which has its terminator.
    /// The table maps each statement position and each terminator position
    /// of `body` to itself.
    pub fn new(body: Body) -> (modifier: Self)
        requires
            body@.all_terminated(),
        ensures
            modifier.wf(),
            modifier@ == ModifierView::initial(body@),
    {
        let mut location_table = LocationTable::new();
        let mut synthetic: Vec<bool> = Vec::new();
        let n = body.basic_blocks.len();
        let mut block: usize = 0;
        while block < n
            invariant
                block <= n,
                n == body.basic_blocks@.len(),
                location_table.wf(),
                location_table@ =~= Map::new(
                    |k: Location| body@.has_location(k) && k.block < block,
                    |k: Location| k,
                ),
                synthetic@ =~= Seq::new(block as nat, |b: int| false),
            decreases n - block,
        {
            let count = body.basic_blocks[block].statements.len();
            let mut statement_index: usize = 0;
            while statement_index < count
                invariant
                    block < n,
                    n == body.basic_blocks@.len(),
                    statement_index <= count,
                    count == body@.blocks[block as int].statements.len(),
                    location_table.wf(),
                    location_table@ =~= Map::new(
                        |k: Location|
                            body@.has_location(k) && (k.block < block || (k.block == block
                                && k.statement_index < statement_index)),
                        |k: Location| k,
                    ),
                decreases count - statement_index,
            {
                location_table.record_identity(Location { block, statement_index });
                statement_index = statement_index + 1;
            }
            location_table.record_identity(Location { block, statement_index: count });
            synthetic.push(false);
            block = block + 1;
        }
        let ghost original = Seq::new(
            body@.blocks.len(),
            |b: int| body@.blocks[b].statements.len(),
        );
        let modifier = BodyModifier { body, location_table, synthetic, original: Ghost(original) };
        proof {
            assert(modifier@.table =~= ModifierView::initial(body@).table);
            assert(modifier@.synthetic =~= ModifierView::initial(body@).synthetic);
            ModifierView::lemma_initial_wf(body@);
        }
        modifier
    }

    /// The body as it is now.
    pub fn body(&self) -> (body: &Body)
        ensures
            body@ == self@.body,
    {
        &self.body
    }

    /// Ends the session and hands the edited body on.
    pub fn into_body(self) -> (body: Body)
        ensures
            body@ == self@.body,
    {
        self.body
    }

    /// The current coordinate of an original one. Fails exactly when
    /// `original` was no position of the body as first supplied.
    pub fn resolve(&self, original: Location) -> (r: Result<Location, PatchError>)
        requires
            self.wf(),
        ensures
            self@.table.dom().contains(original) ==> r == Ok::<Location, PatchError>(
                self@.table[original],
            ),
            !self@.table.dom().contains(original) ==> r == Err::<Location, PatchError>(
                PatchError::UnknownLocation,
            ),
    {
        self.location_table.resolve(original)
    }

    /// Whether `block` exists and came from a split as its synthetic block.
    pub fn is_synthetic(&self, block: usize) -> (r: bool)
        ensures
            r == self@.is_synthetic(block),
    {
        block < self.synthetic.len() && self.synthetic[block]
    }

    /// The place that stands for the whole of slot `local`.
    pub fn local_to_place(&self, local: usize) -> (place: Place)
        ensures
            place == (Place { local }),
    {
        Place { local }
    }

    /// Appends a slot of type `ty`, marked as injected, and returns its
    /// index, which is the number of slots there were.
    pub fn allocate_fresh_local(&mut self, ty: Ty, mutability: Mutability) -> (local: usize)
        requires
            old(self).wf(),
        ensures
            final(self).wf(),
            local == old(self)@.body.slots.len(),
            final(self)@ == old(self)@.fresh_slot(ty, mutability),
    {
        let local = self.body.allocate_fresh_local(ty, mutability);
        proof {
            old(self)@.lemma_fresh_slot_wf(ty, mutability);
        }
        local
    }

    /// Generates the statements that test whether `p` can be moved out of:
    /// a fresh mutable slot of the type of `p`'s slot is declared, brought to
    /// life, assigned by a move out of `p`, and ended.
    pub fn test_move_out(&mut self, p: Place) -> (statements: Vec<Statement>)
        requires
            old(self).wf(),
            p.local < old(self)@.body.slots.len(),
        ensures
            final(self).wf(),
            final(self)@ == old(self)@.fresh_slot(
                old(self)@.body.slots[p.local as int].ty,
                Mutability::Mut,
            ),
            statements@ == move_out_statements(old(self)@.body.slots.len() as usize, p),
    {
        let ty = self.body.local_decls[p.local].ty;
        let test_local = self.allocate_fresh_local(ty, Mutability::Mut);
        let test_place = self.local_to_place(test_local);
        let statements = vec![
            Statement::StorageLive(test_local),
            Statement::Assign { place: test_place, value: Operand::Move(p) },
            Statement::StorageDead(test_local),
        ];
        assert(statements@ =~= move_out_statements(test_local, p));
        statements
    }

    /// Generates the statements that test whether `p` can be borrowed
    /// mutably. How the region of such a borrow is to be made is not
    /// designed: the call always fails and changes nothing.
    pub fn test_mut_borrow(&mut self, p: Place) -> (r: Result<Vec<Statement>, PatchError>)
        ensures
            r is Err,
            r->Err_0 == PatchError::Unsupported,
            *final(self) == *old(self),
    {
        Err(PatchError::Unsupported)
    }

    /// Turns the statement at the original coordinate `loc` into a no-op, in
    /// place: no position changes. Fails, and changes nothing, when `loc` is
    /// unknown or resolves to a terminator.
    pub fn make_nop_at(&mut self, loc: &Location) -> (r: Result<(), PatchError>)
        requires
            old(self).wf(),
        ensures
            final(self).wf(),
            !old(self)@.table.dom().contains(*loc) ==> r == Err::<(), PatchError>(
                PatchError::UnknownLocation,
            ) && final(self)@ == old(self)@,
            old(self)@.table.dom().contains(*loc) && !old(self)@.body.has_statement(
                old(self)@.table[*loc],
            ) ==> r == Err::<(), PatchError>(PatchError::TerminatorNotNoppable) && final(self)@
                == old(self)@,
            old(self)@.table.dom().contains(*loc) && old(self)@.body.has_statement(
                old(self)@.table[*loc],
            ) ==> r == Ok::<(), PatchError>(()) && final(self)@ == old(self)@.nop(*loc),
    {
        let current_loc = match self.location_table.resolve(*loc) {
            Ok(current) => current,
            Err(e) => {
                return Err(e);
            },
        };
        assert(self@.table.dom().contains(*loc));
        assert(self@.body.has_location(current_loc));
        let count = self.body.basic_blocks[current_loc.block].statements.len();
        if current_loc.statement_index >= count {
            return Err(PatchError::TerminatorNotNoppable);
        }
        let data = self.body.get_data_mut(current_loc.block);
        data.statements.set(current_loc.statement_index, Statement::Nop);
        proof {
            assert(self@.body.blocks =~= old(self)@.nop(*loc).body.blocks);
            old(self)@.lemma_nop_wf(current_loc);
        }
        Ok(())
    }

    /// Replaces the statements of a synthetic block, which a split hands out
    /// without any.
    pub fn set_statements(&mut self, block: usize, statements: Vec<Statement>)
        requires
            old(self).wf(),
            old(self)@.is_synthetic(block),
        ensures
            final(self).wf(),
            final(self)@ == old(self)@.populate(block, statements@),
    {
        self.body.set_statements(block, statements);
        proof {
            old(self)@.lemma_populate_wf(block, statements@);
        }
    }

    /// Splits a block before the original coordinate `loc`: what stands at
    /// and after `loc` moves to a new continuation block, and a new, empty
    /// synthetic block is wired in between as `kind` says. Returns the index
    /// of the synthetic block. Fails, and changes nothing, when `loc` is
    /// unknown.
    pub fn allocate_split_branch_before(&mut self, loc: &Location, kind: SplitKind) -> (r: Result<
        usize,
        PatchError,
    >)
        requires
            old(self).wf(),
        ensures
            final(self).wf(),
            !old(self)@.table.dom().contains(*loc) ==> r == Err::<usize, PatchError>(
                PatchError::UnknownLocation,
            ) && final(self)@ == old(self)@,
            old(self)@.table.dom().contains(*loc) ==> r == Ok::<usize, PatchError>(
                old(self)@.body.blocks.len() as usize,
            ) && final(self)@ == old(self)@.split(*loc, kind),
    {
        let current_loc = match self.location_table.resolve(*loc) {
            Ok(current) => current,
            Err(e) => {
                return Err(e);
            },
        };
        assert(self@.table.dom().contains(*loc));
        assert(self@.body.has_location(current_loc));
        let current_block = current_loc.block;

        // Fresh block indices for the synthetic block and the continuation.
        let test_block = self.body.allocate_block();
        let kont_block = self.body.allocate_block();
        assert(old(self)@.body.blocks.len() + 2 <= usize::MAX) by {
            assert(self.body@.blocks.len() == old(self)@.body.blocks.len() + 2);
            assert(self.body.basic_blocks.len() == self.body@.blocks.len());
        }

        // Take out what belongs in the continuation; the split block keeps
        // the statements before the split and gets the entering terminator.
        let current_block_data = self.body.get_data_mut(current_block);
        let kont_statements = current_block_data.statements.split_off(current_loc.statement_index);
        let kont_terminator = current_block_data.terminator;
        current_block_data.terminator = kind.jumping_terminator(kont_block, test_block);

        self.body.set_terminator(kont_block, kont_terminator);
        self.body.set_statements(kont_block, kont_statements);
        self.body.set_terminator(test_block, kind.test_terminator(kont_block));

        // Every coordinate that moved now points into the continuation.
        self.location_table.redirect(current_loc, kont_block);
        self.synthetic.push(true);
        self.synthetic.push(false);

        proof {
            let next = old(self)@.split(*loc, kind);
            assert(self@.body.blocks =~= next.body.blocks);
            assert(self@.table =~= next.table);
            assert(self@.synthetic =~= next.synthetic);
            old(self)@.lemma_split_wf(*loc, kind);
        }
        Ok(test_block)
    }

    /// Overwrites as no-op every statement that an original statement
    /// position resolves to. Statements that were put into synthetic blocks,
    /// and all terminators, stay. No coordinate changes.
    pub fn overwrite_all_as_nop(&mut self)
        requires
            old(self).wf(),
        ensures
            final(self).wf(),
            final(self)@ == old(self)@.nop_all(),
    {
        let n = self.location_table.len();
        let mut rank: usize = 0;
        while rank < n
            invariant
                rank <= n,
                n == self.location_table.keys().len(),
                old(self).wf(),
                self.location_table == old(self).location_table,
                self.synthetic == old(self).synthetic,
                self.original == old(self).original,
                self@.body.slots == old(self)@.body.slots,
                self@.body.blocks.len() == old(self)@.body.blocks.len(),
                forall|b: int|
                    0 <= b < self@.body.blocks.len() ==> {
                        &&& (#[trigger] self@.body.blocks[b]).terminator
                            == old(self)@.body.blocks[b].terminator
                        &&& self@.body.blocks[b].is_cleanup == old(self)@.body.blocks[b].is_cleanup
                        &&& self@.body.blocks[b].statements.len()
                            == old(self)@.body.blocks[b].statements.len()
                    },
                forall|here: Location| #[trigger]
                    old(self)@.body.has_statement(here) ==> self@.body.statement_at(here) == (
                    if old(self).tracks_below(rank as int, here) {
                        Statement::Nop
                    } else {
                        old(self)@.body.statement_at(here)
                    }),
            decreases n - rank,
        {
            let current_loc = self.location_table.current_at(rank);
            proof {
                self.location_table.lemma_keys();
                assert(old(self)@.table.dom().contains(self.location_table.keys()[rank as int]));
                assert(old(self)@.body.has_location(current_loc));
            }
            let ghost before = self@;
            let count = self.body.basic_blocks[current_loc.block].statements.len();
            if current_loc.statement_index < count {
                let data = self.body.get_data_mut(current_loc.block);
                data.statements.set(current_loc.statement_index, Statement::Nop);
            }
            proof {
                assert forall|here: Location| #[trigger]
                    old(self)@.body.has_statement(here) implies self@.body.statement_at(here) == (
                if old(self).tracks_below(rank + 1, here) {
                    Statement::Nop
                } else {
                    old(self)@.body.statement_at(here)
                }) by {
                    assert(before.body.statement_at(here) == (if old(self).tracks_below(
                        rank as int,
                        here,
                    ) {
                        Statement::Nop
                    } else {
                        old(self)@.body.statement_at(here)
                    }));
                    old(self).lemma_tracks_below_step(rank as int, here);
                }
            }
            rank = rank + 1;
        }
        proof {
            let next = old(self)@.nop_all();
            assert forall|b: int| 0 <= b < self@.body.blocks.len() implies #[trigger] self@.body.blocks[b]
                == next.body.blocks[b] by {
                assert forall|p: int| 0 <= p < self@.body.blocks[b].statements.len() implies #[trigger] self@.body.blocks[b].statements[p]
                    == next.body.blocks[b].statements[p] by {
                    assert(old(self).body.basic_blocks@[b].statements.len()
                        == old(self)@.body.blocks[b].statements.len());
                    let here = Location { block: b as usize, statement_index: p as usize };
                    assert(old(self)@.body.has_statement(here));
                    assert(self@.body.statement_at(here) == self@.body.blocks[b].statements[p]);
                    old(self).lemma_tracks_below_all(here);
                }
                assert(self@.body.blocks[b].statements =~= next.body.blocks[b].statements);
            }
            assert(self@.body.blocks =~= next.body.blocks);
            old(self)@.lemma_nop_all_wf();
        }
    }

    /// Some key of rank below `rank` resolves to `current`.
    spec fn tracks_below(&self, rank: int, current: Location) -> bool {
        exists|j: int|
            0 <= j < rank && self.location_table@[#[trigger] self.location_table.keys()[j]]
                == current
    }

    proof fn lemma_tracks_below_step(&self, rank: int, current: Location)
        requires
            0 <= rank < self.location_table.keys().len(),
        ensures
            self.tracks_below(rank + 1, current) <==> self.tracks_below(rank, current)
                || self.location_table@[self.location_table.keys()[rank]] == current,
    {
        if self.tracks_below(rank + 1, current) {
            let j = choose|j: int|
                0 <= j < rank + 1 && self.location_table@[#[trigger] self.location_table.keys()[j]]
                    == current;
            if j < rank {
                assert(self.tracks_below(rank, current));
            }
        }
        if self.tracks_below(rank, current) {
            let j = choose|j: int|
                0 <= j < rank && self.location_table@[#[trigger] self.location_table.keys()[j]]
                    == current;
            assert(0 <= j < rank + 1);
        }
        if self.location_table@[self.location_table.keys()[rank]] == current {
            assert(0 <= rank < rank + 1);
        }
    }

    proof fn lemma_tracks_below_all(&self, current: Location)
        requires
            self.location_table.wf(),
        ensures
            self.tracks_below(self.location_table.keys().len() as int, current) <==> self@.tracks(
                current.block as int,
                current.statement_index as int,
            ),
    {
        self.location_table.lemma_keys();
        let n = self.location_table.keys().len() as int;
        if self.tracks_below(n, current) {
            let j = choose|j: int|
                0 <= j < n && self.location_table@[#[trigger] self.location_table.keys()[j]]
                    == current;
            assert(self@.table.dom().contains(self.location_table.keys()[j]));
        }
        if self@.tracks(current.block as int, current.statement_index as int) {
            let k = choose|k: Location| #[trigger]
                self@.table.dom().contains(k) && self@.table[k].block == current.block
                    && self@.table[k].statement_index == current.statement_index;
            let j = choose|j: int|
                0 <= j < self.location_table.keys().len() && #[trigger] self.location_table.keys()[j]
                    == k;
            assert(self.location_table@[self.location_table.keys()[j]] == current);
        }
    }
}

} // verus!
