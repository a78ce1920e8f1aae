//! The state of one cell and how it changes from one generation to the next.

use crate::rule::Rule;
use crate::rule::RuleView;
use vstd::prelude::*;

verus! {

/// The state of a cell.
#[derive(Debug, Clone, Copy, PartialEq, Eq, Structural)]
pub enum CellStatus {
    Alive,
    /// On its way from alive to dead, with `health` generations to go.
    Dying { health: u8 },
    Dead,
}

impl CellStatus {
    /// A decaying cell has at least one generation left: a cell with none is
    /// dead.
    pub open spec fn wf(self) -> bool {
        self matches CellStatus::Dying { health } ==> health >= 1
    }

    /// Whether the cell is one that an automaton with `states` states can
    /// hold: a decaying cell has between 1 and `states - 2` generations left.
    pub open spec fn fits(self, states: u8) -> bool {
        self matches CellStatus::Dying { health } ==> 1 <= health <= states - 2
    }

    /// Whether the cell counts as a live neighbour: it does unless it is dead.
    pub open spec fn live(self) -> bool {
        !(self is Dead)
    }

    /// The state that follows `self` under `rule` when `count` of the cell's
    /// neighbours are live.
    pub open spec fn next(self, rule: RuleView, count: int) -> CellStatus {
        match self {
            CellStatus::Alive => if rule.passes_survive(count) {
                CellStatus::Alive
            } else {
                rule.kill_cell()
            },
            CellStatus::Dying { health } => if health <= 1 {
                CellStatus::Dead
            } else {
                CellStatus::Dying { health: (health - 1) as u8 }
            },
            CellStatus::Dead => if rule.passes_birth(count) {
                CellStatus::Alive
            } else {
                CellStatus::Dead
            },
        }
    }

    /// The state that follows `self` after one generation for each of
    /// `counts`, the numbers of the cell's live neighbours in those
    /// generations.
    pub open spec fn after(self, rule: RuleView, counts: Seq<int>) -> CellStatus
        decreases counts.len(),
    {
        if counts.len() == 0 {
            self
        } else {
            self.next(rule, counts[0]).after(rule, counts.drop_first())
        }
    }

    /// The state of the cell in the next generation.
    pub fn next_state(&self, rule: &Rule, neighbor_count: usize) -> (next: Self)
        requires
            rule@.valid(),
            self.wf(),
        ensures
            next == self.next(rule@, neighbor_count as int),
            next.wf(),
            self.fits(rule.states) ==> next.fits(rule.states),
    {
        match self {
            CellStatus::Alive => {
                if rule.passes_survive(neighbor_count) {
                    CellStatus::Alive
                } else {
                    rule.kill_cell()
                }
            },
            CellStatus::Dying { health } => {
                if *health == 1 {
                    CellStatus::Dead
                } else {
                    CellStatus::Dying { health: *health - 1 }
                }
            },
            CellStatus::Dead => {
                if rule.passes_birth(neighbor_count) {
                    CellStatus::Alive
                } else {
                    CellStatus::Dead
                }
            },
        }
    }

    /// Whether the cell counts as a live neighbour.
    pub fn is_live(&self) -> (live: bool)
        ensures
            live == self.live(),
    {
        match self {
            CellStatus::Dead => false,
            _ => true,
        }
    }
}

/// A cell that decays goes on to decay whatever its neighbours do: it loses
/// one generation in each generation and is dead when none is left.
pub proof fn lemma_decay(health: u8, rule: RuleView, counts: Seq<int>)
    requires
        1 <= counts.len() <= health,
    ensures
        (CellStatus::Dying { health }).after(rule, counts) == if counts.len() == health {
            CellStatus::Dead
        } else {
            CellStatus::Dying { health: (health - counts.len()) as u8 }
        },
    decreases counts.len(),
{
    if counts.len() > 1 {
        lemma_decay((health - 1) as u8, rule, counts.drop_first());
    } else {
        assert(counts.drop_first().len() == 0);
        reveal_with_fuel(CellStatus::after, 2);
    }
}

/// A live cell that does not survive passes through all the states of the
/// rule: with `states - 1` generations from alive to dead.
pub proof fn lemma_passes_through_states(rule: RuleView, counts: Seq<int>)
    requires
        rule.valid(),
        counts.len() == rule.states - 1,
        !rule.passes_survive(counts[0]),
    ensures
        CellStatus::Alive.after(rule, counts) == CellStatus::Dead,
        forall|k: int|
            1 <= k < counts.len() ==> CellStatus::Alive.after(rule, #[trigger] counts.take(k))
                == (CellStatus::Dying { health: (rule.states - 1 - k) as u8 }),
{
    let rest = counts.drop_first();
    reveal_with_fuel(CellStatus::after, 2);
    if rule.states > 2 {
        lemma_decay((rule.states - 2) as u8, rule, rest);
    } else {
        assert(rest.len() == 0);
    }
    assert forall|k: int| 1 <= k < counts.len() implies CellStatus::Alive.after(
        rule,
        #[trigger] counts.take(k),
    ) == (CellStatus::Dying { health: (rule.states - 1 - k) as u8 }) by {
        let some = counts.take(k);
        assert(some[0] == counts[0]);
        if k > 1 {
            lemma_decay((rule.states - 2) as u8, rule, some.drop_first());
        } else {
            assert(some.drop_first().len() == 0);
        }
    }
}

} // verus!
