//! The rule of an automaton: for which neighbour counts a cell survives or is
//! born, how many states a cell passes through, and which cells are neighbours.

use crate::cell::CellStatus;
use std::ops::Range;
use vstd::prelude::*;

verus! {

/// Which lattice points count as the neighbours of a point.
#[derive(Debug, Clone, Copy, PartialEq, Eq, Structural)]
pub enum Neighbors {
    /// All 26 points that differ by at most one on every axis.
    Moore,
    /// The 6 points that differ by exactly one on exactly one axis.
    Neumann,
}

/// Why a rule was turned down.
#[derive(Debug, Clone, Copy, PartialEq, Eq, Structural)]
pub enum RuleError {
    /// The text breaks the grammar: at byte `position` something else than
    /// `expected` was found.
    Syntax { position: usize, expected: Token },
    /// The count that starts at byte `position` is too large to be stored.
    CountTooLarge { position: usize },
    /// A rule needs at least two states, alive and dead.
    TooFewStates { states: u8 },
}

/// What the grammar of a rule's text asks for at some position.
#[derive(Debug, Clone, Copy, PartialEq, Eq, Structural)]
pub enum Token {
    /// A decimal digit.
    Digit,
    /// The `/` between two segments.
    Slash,
    /// One of the neighbourhood letters `M` and `N`.
    Topology,
    /// The end of the text.
    End,
}

/// A rule of the "Generations" family.
///
/// Each range `lo..hi` of `survival` and `birth` stands for the neighbour
/// counts `lo, .., hi - 1`.
#[derive(Debug, Clone, PartialEq, Eq)]
pub struct Rule {
    pub survival: Vec<Range<u8>>,
    pub birth: Vec<Range<u8>>,
    pub states: u8,
    pub neighbors: Neighbors,
}

/// The mathematical content of a [`Rule`].
pub struct RuleView {
    pub survival: Seq<Range<u8>>,
    pub birth: Seq<Range<u8>>,
    pub states: u8,
    pub neighbors: Neighbors,
}

impl View for Rule {
    type V = RuleView;

    open spec fn view(&self) -> RuleView {
        RuleView {
            survival: self.survival@,
            birth: self.birth@,
            states: self.states,
            neighbors: self.neighbors,
        }
    }
}

/// Whether `n` lies in one of `ranges`.
pub open spec fn ranges_contain(ranges: Seq<Range<u8>>, n: int) -> bool {
    exists|i: int| 0 <= i < ranges.len() && (#[trigger] ranges[i]).start <= n < ranges[i].end
}

impl RuleView {
    /// A rule can drive an automaton if it has at least two states.
    pub open spec fn valid(self) -> bool {
        self.states >= 2
    }

    /// Whether a live cell with `count` live neighbours stays alive.
    pub open spec fn passes_survive(self, count: int) -> bool {
        ranges_contain(self.survival, count)
    }

    /// Whether a dead cell with `count` live neighbours comes alive.
    pub open spec fn passes_birth(self, count: int) -> bool {
        ranges_contain(self.birth, count)
    }

    /// What a live cell becomes when it stops surviving: with two states it
    /// is dead at once, with more it starts to decay from `states - 2`.
    pub open spec fn kill_cell(self) -> CellStatus {
        if self.states <= 2 {
            CellStatus::Dead
        } else {
            CellStatus::Dying { health: (self.states - 2) as u8 }
        }
    }
}

/// Whether `n` lies in one of the ranges of `range`.
pub fn rule_contains(n: u8, range: &[Range<u8>]) -> (found: bool)
    ensures
        found == ranges_contain(range@, n as int),
{
    let mut i: usize = 0;
    while i < range.len()
        invariant
            i <= range.len(),
            forall|j: int| 0 <= j < i ==> !((#[trigger] range@[j]).start <= n < range@[j].end),
        decreases range.len() - i,
    {
        if range[i].start <= n && n < range[i].end {
            return true;
        }
        i += 1;
    }
    false
}

impl Rule {
    /// Checks that the rule has at least two states.
    pub fn validate(&self) -> (checked: Result<(), RuleError>)
        ensures
            self@.valid() ==> checked == Ok::<(), RuleError>(()),
            !self@.valid() ==> checked == Err::<(), RuleError>(
                RuleError::TooFewStates { states: self.states },
            ),
    {
        if self.states >= 2 {
            Ok(())
        } else {
            Err(RuleError::TooFewStates { states: self.states })
        }
    }

    /// Whether a live cell with `count` live neighbours stays alive. No
    /// range holds a count over 255.
    pub fn passes_survive(&self, count: usize) -> (passes: bool)
        ensures
            passes == self@.passes_survive(count as int),
    {
        if count > u8::MAX as usize {
            return false;
        }
        rule_contains(count as u8, self.survival.as_slice())
    }

    /// Whether a dead cell with `count` live neighbours comes alive. No
    /// range holds a count over 255.
    pub fn passes_birth(&self, count: usize) -> (passes: bool)
        ensures
            passes == self@.passes_birth(count as int),
    {
        if count > u8::MAX as usize {
            return false;
        }
        rule_contains(count as u8, self.birth.as_slice())
    }

    /// The state of a cell that was alive and does not survive.
    pub fn kill_cell(&self) -> (cell: CellStatus)
        requires
            self@.valid(),
        ensures
            cell == self@.kill_cell(),
    {
        if self.states == 2 {
            CellStatus::Dead
        } else {
            CellStatus::Dying { health: self.states - 2 }
        }
    }
}

} // verus!
