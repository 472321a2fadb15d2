//! The mathematical model of an edit session: the body, the location table
//! and the provenance of each block, with every edit as a function from one
//! such state to the next.

use crate::ir::{
    BlockView, BodyView, LocalDecl, Location, Mutability, Operand, Place, Statement, Ty,
};
use crate::kind::SplitKind;
use crate::table::redirected;
use vstd::prelude::*;

verus! {

/// The state of an edit session.
pub struct ModifierView {
    /// The body as it is now.
    pub body: BodyView,
    /// From the coordinates of the body as first supplied to those of `body`.
    pub table: Map<Location, Location>,
    /// For each block of `body`, whether a split made it as a synthetic block.
    pub synthetic: Seq<bool>,
    /// The statement count of each block of the body as first supplied.
    pub original: Seq<nat>,
}

/// The three statements that probe whether `operand` can be moved out:
/// bring slot `local` to life, move the operand into it, end its life.
pub open spec fn move_out_statements(local: usize, operand: Place) -> Seq<Statement> {
    seq![
        Statement::StorageLive(local),
        Statement::Assign { place: Place { local }, value: Operand::Move(operand) },
        Statement::StorageDead(local),
    ]
}

impl ModifierView {
    /// The state in which a session starts: the table maps every statement
    /// position and every terminator position of `body` to itself.
    pub open spec fn initial(body: BodyView) -> ModifierView {
        ModifierView {
            body,
            table: Map::new(|k: Location| body.has_location(k), |k: Location| k),
            synthetic: Seq::new(body.blocks.len(), |b: int| false),
            original: Seq::new(body.blocks.len(), |b: int| body.blocks[b].statements.len()),
        }
    }

    /// `loc` was a statement or terminator position of the body as first supplied.
    pub open spec fn is_original(self, loc: Location) -> bool {
        &&& loc.block < self.original.len()
        &&& loc.statement_index <= self.original[loc.block as int]
    }

    /// `loc` was a statement position of the body as first supplied.
    pub open spec fn is_original_statement(self, loc: Location) -> bool {
        &&& loc.block < self.original.len()
        &&& loc.statement_index < self.original[loc.block as int]
    }

    /// Block `block` exists and came from a split as its synthetic block.
    pub open spec fn is_synthetic(self, block: usize) -> bool {
        block < self.synthetic.len() && self.synthetic[block as int]
    }

    /// Some original coordinate resolves to position `position` of block `block`.
    pub open spec fn tracks(self, block: int, position: int) -> bool {
        exists|k: Location| #[trigger]
            self.table.dom().contains(k) && self.table[k].block == block
                && self.table[k].statement_index == position
    }

    /// What holds of every state that a session can reach:
    /// every block has its terminator; the keys of the table are the
    /// coordinates of the body as first supplied; each resolves to a position
    /// of a block that no split made as its synthetic block, a statement to a
    /// statement and a terminator to a terminator.
    pub open spec fn wf(self) -> bool {
        &&& self.body.blocks.len() <= usize::MAX
        &&& self.body.all_terminated()
        &&& self.synthetic.len() == self.body.blocks.len()
        &&& forall|k: Location| #[trigger] self.table.dom().contains(k) <==> self.is_original(k)
        &&& forall|k: Location| #[trigger]
            self.table.dom().contains(k) ==> {
                &&& self.body.has_location(self.table[k])
                &&& !self.synthetic[self.table[k].block as int]
                &&& self.body.has_statement(self.table[k]) <==> self.is_original_statement(k)
            }
    }

    /// The state after the block that holds `loc` is split in front of `loc`.
    /// With `cur` the current coordinate of `loc`: the statements of
    /// `cur.block` from `cur.statement_index` onward, and its terminator, go
    /// to a new continuation block; the block keeps what stood before and
    /// gets the terminator by which `kind` enters the split; a new synthetic
    /// block, without statements, gets the terminator by which `kind` leaves
    /// it; every table entry at or after `cur` in its block moves along. The
    /// synthetic block takes the first free index, the continuation the next.
    pub open spec fn split(self, loc: Location, kind: SplitKind) -> ModifierView
        recommends
            self.table.dom().contains(loc),
    {
        let cur = self.table[loc];
        let synthetic = self.body.blocks.len() as usize;
        let continuation = (self.body.blocks.len() + 1) as usize;
        let block = self.body.blocks[cur.block as int];
        let before = BlockView {
            statements: block.statements.subrange(0, cur.statement_index as int),
            terminator: Some(kind.jumping(continuation, synthetic)),
            is_cleanup: block.is_cleanup,
        };
        let inserted = BlockView {
            statements: Seq::empty(),
            terminator: Some(kind.landing(continuation)),
            is_cleanup: false,
        };
        let after = BlockView {
            statements: block.statements.subrange(
                cur.statement_index as int,
                block.statements.len() as int,
            ),
            terminator: block.terminator,
            is_cleanup: false,
        };
        ModifierView {
            body: BodyView {
                blocks: self.body.blocks.update(cur.block as int, before).push(inserted).push(
                    after,
                ),
                slots: self.body.slots,
            },
            table: self.table.map_values(|v: Location| redirected(v, cur, continuation)),
            synthetic: self.synthetic.push(true).push(false),
            original: self.original,
        }
    }

    /// The state after the statement at the current coordinate `cur` is
    /// replaced by the no-op marker.
    pub open spec fn nop_current(self, cur: Location) -> ModifierView
        recommends
            self.body.has_statement(cur),
    {
        let block = self.body.blocks[cur.block as int];
        ModifierView {
            body: BodyView {
                blocks: self.body.blocks.update(
                    cur.block as int,
                    BlockView {
                        statements: block.statements.update(
                            cur.statement_index as int,
                            Statement::Nop,
                        ),
                        ..block
                    },
                ),
                slots: self.body.slots,
            },
            ..self
        }
    }

    /// The state after the statement that the original coordinate `loc`
    /// resolves to is replaced by the no-op marker.
    pub open spec fn nop(self, loc: Location) -> ModifierView
        recommends
            self.table.dom().contains(loc),
            self.body.has_statement(self.table[loc]),
    {
        self.nop_current(self.table[loc])
    }

    /// The state after every statement that some original coordinate
    /// resolves to is replaced by the no-op marker. Statements that no
    /// original coordinate resolves to, and all terminators, stay.
    pub open spec fn nop_all(self) -> ModifierView {
        ModifierView {
            body: BodyView {
                blocks: Seq::new(
                    self.body.blocks.len(),
                    |b: int|
                        BlockView {
                            statements: Seq::new(
                                self.body.blocks[b].statements.len(),
                                |p: int|
                                    if self.tracks(b, p) {
                                        Statement::Nop
                                    } else {
                                        self.body.blocks[b].statements[p]
                                    },
                            ),
                            ..self.body.blocks[b]
                        },
                ),
                slots: self.body.slots,
            },
            ..self
        }
    }

    /// The state after a slot of type `ty`, marked as injected, is appended.
    pub open spec fn fresh_slot(self, ty: Ty, mutability: Mutability) -> ModifierView {
        ModifierView {
            body: BodyView {
                blocks: self.body.blocks,
                slots: self.body.slots.push(LocalDecl { ty, mutability, internal: true }),
            },
            ..self
        }
    }

    /// The state after the statements of block `block` are replaced.
    pub open spec fn populate(self, block: usize, statements: Seq<Statement>) -> ModifierView
        recommends
            self.is_synthetic(block),
    {
        ModifierView {
            body: BodyView {
                blocks: self.body.blocks.update(
                    block as int,
                    BlockView { statements, ..self.body.blocks[block as int] },
                ),
                slots: self.body.slots,
            },
            ..self
        }
    }

    /// A split keeps a valid state valid, as long as two more block indices
    /// fit in the machine's index type.
    pub proof fn lemma_split_wf(self, loc: Location, kind: SplitKind)
        requires
            self.wf(),
            self.table.dom().contains(loc),
            self.body.blocks.len() + 2 <= usize::MAX,
        ensures
            self.split(loc, kind).wf(),
    {
        let next = self.split(loc, kind);
        let cur = self.table[loc];
        let n = self.body.blocks.len() as int;
        assert(self.body.has_location(cur));
        assert(self.body.blocks[cur.block as int].terminator is Some);
        assert forall|b: int| 0 <= b < next.body.blocks.len() implies (
        #[trigger] next.body.blocks[b]).terminator is Some by {
            if b < n && b != cur.block {
                assert(self.body.blocks[b].terminator is Some);
            }
        }
        assert forall|k: Location| #[trigger] next.table.dom().contains(k) implies {
            &&& next.body.has_location(next.table[k])
            &&& !next.synthetic[next.table[k].block as int]
            &&& next.body.has_statement(next.table[k]) <==> next.is_original_statement(k)
        } by {
            assert(self.table.dom().contains(k));
            let v = self.table[k];
            assert(self.body.has_location(v));
            assert(next.table[k] == redirected(v, cur, (n + 1) as usize));
        }
    }

    /// Replacing a statement by the no-op marker keeps a valid state valid.
    pub proof fn lemma_nop_wf(self, cur: Location)
        requires
            self.wf(),
            self.body.has_statement(cur),
        ensures
            self.nop_current(cur).wf(),
    {
        let next = self.nop_current(cur);
        assert forall|b: int| 0 <= b < next.body.blocks.len() implies (
        #[trigger] next.body.blocks[b]).terminator is Some by {
            assert(self.body.blocks[b].terminator is Some);
        }
        assert forall|k: Location| #[trigger] next.table.dom().contains(k) implies {
            &&& next.body.has_location(next.table[k])
            &&& !next.synthetic[next.table[k].block as int]
            &&& next.body.has_statement(next.table[k]) <==> next.is_original_statement(k)
        } by {
            assert(self.body.has_location(self.table[k]));
        }
    }

    /// Replacing all tracked statements by the no-op marker keeps a valid
    /// state valid.
    pub proof fn lemma_nop_all_wf(self)
        requires
            self.wf(),
        ensures
            self.nop_all().wf(),
    {
        let next = self.nop_all();
        assert forall|b: int| 0 <= b < next.body.blocks.len() implies (
        #[trigger] next.body.blocks[b]).terminator is Some by {
            assert(self.body.blocks[b].terminator is Some);
        }
        assert forall|k: Location| #[trigger] next.table.dom().contains(k) implies {
            &&& next.body.has_location(next.table[k])
            &&& !next.synthetic[next.table[k].block as int]
            &&& next.body.has_statement(next.table[k]) <==> next.is_original_statement(k)
        } by {
            assert(self.body.has_location(self.table[k]));
        }
    }

    /// Replacing the statements of a synthetic block keeps a valid state
    /// valid: no original coordinate resolves into such a block.
    pub proof fn lemma_populate_wf(self, block: usize, statements: Seq<Statement>)
        requires
            self.wf(),
            self.is_synthetic(block),
        ensures
            self.populate(block, statements).wf(),
    {
        let next = self.populate(block, statements);
        assert forall|b: int| 0 <= b < next.body.blocks.len() implies (
        #[trigger] next.body.blocks[b]).terminator is Some by {
            assert(self.body.blocks[b].terminator is Some);
        }
        assert forall|k: Location| #[trigger] next.table.dom().contains(k) implies {
            &&& next.body.has_location(next.table[k])
            &&& !next.synthetic[next.table[k].block as int]
            &&& next.body.has_statement(next.table[k]) <==> next.is_original_statement(k)
        } by {
            assert(self.body.has_location(self.table[k]));
        }
    }

    /// Appending a slot keeps a valid state valid.
    pub proof fn lemma_fresh_slot_wf(self, ty: Ty, mutability: Mutability)
        requires
            self.wf(),
        ensures
            self.fresh_slot(ty, mutability).wf(),
    {
        let next = self.fresh_slot(ty, mutability);
        assert forall|b: int| 0 <= b < next.body.blocks.len() implies (
        #[trigger] next.body.blocks[b]).terminator is Some by {
            assert(self.body.blocks[b].terminator is Some);
        }
        assert forall|k: Location| #[trigger] next.table.dom().contains(k) implies {
            &&& next.body.has_location(next.table[k])
            &&& !next.synthetic[next.table[k].block as int]
            &&& next.body.has_statement(next.table[k]) <==> next.is_original_statement(k)
        } by {
            assert(self.body.has_location(self.table[k]));
        }
    }

    /// A session starts in a valid state when every block of the supplied
    /// body has its terminator.
    pub proof fn lemma_initial_wf(body: BodyView)
        requires
            body.all_terminated(),
            body.blocks.len() <= usize::MAX,
        ensures
            Self::initial(body).wf(),
    {
    }
}

} // verus!
