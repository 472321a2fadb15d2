//! The strategies by which a block can be split. Each one only says which
//! two terminators wire the new blocks into the graph.

use crate::ir::Terminator;
use vstd::prelude::*;

verus! {

/// How the block that is split reaches the synthetic block, and how the
/// synthetic block leaves again.
#[derive(Clone, Copy, Debug, PartialEq, Eq, Structural)]
pub enum SplitKind {
    /// A probe for analyses only: the split block forks to a synthetic block
    /// that can never run.
    Test,
    /// The synthetic block runs every time, then control resumes.
    Inline,
    /// The split block forks to a synthetic block that analyses see and that
    /// rejoins the continuation.
    Approximator,
}

impl SplitKind {
    /// The terminator that the split block gets.
    pub open spec fn jumping(self, kont_block: usize, test_block: usize) -> Terminator {
        match self {
            SplitKind::Inline => Terminator::Goto { target: test_block },
            SplitKind::Test | SplitKind::Approximator => Terminator::FalseEdge {
                real_target: kont_block,
                imaginary_target: test_block,
            },
        }
    }

    /// The terminator that the synthetic block gets.
    pub open spec fn landing(self, kont_block: usize) -> Terminator {
        match self {
            SplitKind::Test => Terminator::Unreachable,
            SplitKind::Inline | SplitKind::Approximator => Terminator::Goto { target: kont_block },
        }
    }

    /// Terminator to jump into the split: a fork whose real target is the
    /// continuation and whose imaginary target is the synthetic block, or,
    /// for an inline split, a jump to the synthetic block.
    pub fn jumping_terminator(&self, kont_block: usize, test_block: usize) -> (t: Option<
        Terminator,
    >)
        ensures
            t == Some(self.jumping(kont_block, test_block)),
    {
        let terminator = match self {
            SplitKind::Approximator | SplitKind::Test => Terminator::FalseEdge {
                real_target: kont_block,
                imaginary_target: test_block,
            },
            SplitKind::Inline => Terminator::Goto { target: test_block },
        };
        Some(terminator)
    }

    /// Terminator of the synthetic block: unreachable for a test split, else
    /// a jump to the continuation.
    pub fn test_terminator(&self, kont_block: usize) -> (t: Option<Terminator>)
        ensures
            t == Some(self.landing(kont_block)),
    {
        let terminator = match self {
            SplitKind::Approximator | SplitKind::Inline => Terminator::Goto { target: kont_block },
            SplitKind::Test => Terminator::Unreachable,
        };
        Some(terminator)
    }
}

} // verus!
