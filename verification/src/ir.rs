//! The intermediate representation that the patch engine edits: a procedure
//! body made of basic blocks and variable slots. These are passive data
//! definitions; every value is addressed by a dense integer index.

use vstd::prelude::*;

verus! {

/// A program point: a statement position inside a block. A position equal to
/// the block's statement count denotes the block's terminator.
#[derive(Clone, Copy, Debug, PartialEq, Eq, Structural)]
pub struct Location {
    pub block: usize,
    pub statement_index: usize,
}

/// A handle for a type of the host representation. The engine never looks
/// inside a type; it only copies handles from one slot to another.
#[derive(Clone, Copy, Debug, PartialEq, Eq, Structural)]
pub struct Ty {
    pub id: u64,
}

/// Whether a variable slot may be written more than once.
#[derive(Clone, Copy, Debug, PartialEq, Eq, Structural)]
pub enum Mutability {
    Not,
    Mut,
}

/// A reference to the storage of one variable slot.
#[derive(Clone, Copy, Debug, PartialEq, Eq, Structural)]
pub struct Place {
    pub local: usize,
}

/// A value read by a statement.
#[derive(Clone, Copy, Debug, PartialEq, Eq, Structural)]
pub enum Operand {
    /// Reads the place and leaves it usable.
    Copy(Place),
    /// Reads the place and consumes it.
    Move(Place),
}

/// One instruction of a block.
#[derive(Clone, Copy, Debug, PartialEq, Eq, Structural)]
pub enum Statement {
    /// The designated marker that does nothing.
    Nop,
    /// Marks the storage of a slot as live.
    StorageLive(usize),
    /// Marks the storage of a slot as dead.
    StorageDead(usize),
    /// Writes the value of an operand to a place.
    Assign { place: Place, value: Operand },
    /// Any other instruction of the host representation, carried by handle.
    Foreign(u64),
}

/// The control transfer that ends a block.
#[derive(Clone, Copy, Debug, PartialEq, Eq, Structural)]
pub enum Terminator {
    /// Unconditional jump.
    Goto { target: usize },
    /// A fork of which only `real_target` is ever taken when the procedure
    /// runs; `imaginary_target` is visible to analyses only.
    FalseEdge { real_target: usize, imaginary_target: usize },
    /// Marks the block as never executed.
    Unreachable,
    /// Leaves the procedure.
    Return,
    /// Any other control transfer of the host representation, carried by handle.
    Foreign(u64),
}

/// The declaration of one variable slot.
#[derive(Clone, Copy, Debug, PartialEq, Eq, Structural)]
pub struct LocalDecl {
    pub ty: Ty,
    pub mutability: Mutability,
    /// True for a slot that the engine injected, false for one of the program.
    pub internal: bool,
}

/// A basic block: statements in order, then one terminator. The terminator is
/// absent only between the block's allocation and its first assignment.
#[derive(Clone, Debug, PartialEq, Eq)]
pub struct BasicBlockData {
    pub statements: Vec<Statement>,
    pub terminator: Option<Terminator>,
    pub is_cleanup: bool,
}

/// The mathematical value of a basic block.
pub struct BlockView {
    pub statements: Seq<Statement>,
    pub terminator: Option<Terminator>,
    pub is_cleanup: bool,
}

impl View for BasicBlockData {
    type V = BlockView;

    open spec fn view(&self) -> BlockView {
        BlockView {
            statements: self.statements@,
            terminator: self.terminator,
            is_cleanup: self.is_cleanup,
        }
    }
}

impl BlockView {
    /// The block as it is right after allocation: nothing in it yet.
    pub open spec fn empty() -> BlockView {
        BlockView { statements: Seq::empty(), terminator: None, is_cleanup: false }
    }
}

/// The procedure under edit. Blocks and slots are only ever appended.
#[derive(Clone, Debug, PartialEq, Eq)]
pub struct Body {
    pub basic_blocks: Vec<BasicBlockData>,
    pub local_decls: Vec<LocalDecl>,
}

/// The mathematical value of a body.
pub struct BodyView {
    pub blocks: Seq<BlockView>,
    pub slots: Seq<LocalDecl>,
}

impl View for Body {
    type V = BodyView;

    open spec fn view(&self) -> BodyView {
        BodyView {
            blocks: Seq::new(self.basic_blocks@.len(), |i: int| self.basic_blocks@[i]@),
            slots: self.local_decls@,
        }
    }
}

impl BodyView {
    /// Every block ends in a terminator.
    pub open spec fn all_terminated(self) -> bool {
        forall|b: int| 0 <= b < self.blocks.len() ==> (#[trigger] self.blocks[b]).terminator is Some
    }

    /// `loc` addresses a statement or the terminator of an existing block.
    pub open spec fn has_location(self, loc: Location) -> bool {
        &&& loc.block < self.blocks.len()
        &&& loc.statement_index <= self.blocks[loc.block as int].statements.len()
    }

    /// The statement at `loc`.
    pub open spec fn statement_at(self, loc: Location) -> Statement
        recommends
            self.has_statement(loc),
    {
        self.blocks[loc.block as int].statements[loc.statement_index as int]
    }

    /// `loc` addresses a statement, not a terminator.
    pub open spec fn has_statement(self, loc: Location) -> bool {
        &&& loc.block < self.blocks.len()
        &&& loc.statement_index < self.blocks[loc.block as int].statements.len()
    }
}

} // verus!
