use generations3d::cell::CellStatus;
use generations3d::rule::{Neighbors, Rule};

fn rule_4_5_4_6_n() -> Rule {
    Rule {
        survival: vec![4..6],
        birth: vec![4..5],
        states: 6,
        neighbors: Neighbors::Neumann,
    }
}

#[test]
fn cell_next() {
    // 4-5/4/6/N
    let rule = Rule {
        survival: vec![4..6],
        birth: vec![4..5],
        states: 6,
        neighbors: Neighbors::Neumann,
    };
    let c = CellStatus::Alive;
    // stays alive at 4 or 5
    let c = c.next_state(&rule, 4);
    assert_eq!(c, CellStatus::Alive);
    let c = c.next_state(&rule, 5);
    assert_eq!(c, CellStatus::Alive);
    {
        // starts dying at 3
        let c = c.next_state(&rule, 3);
        assert_eq!(c, CellStatus::Dying { health: 4 });
    }
    // ... or at 6
    let c = c.next_state(&rule, 6);
    assert_eq!(c, CellStatus::Dying { health: 4 });
    // once it starts dying, it won't stop
    let c = c.next_state(&rule, 4);
    assert_eq!(c, CellStatus::Dying { health: 3 });
    let c = c.next_state(&rule, 4);
    assert_eq!(c, CellStatus::Dying { health: 2 });
    let c = c.next_state(&rule, 2);
    assert_eq!(c, CellStatus::Dying { health: 1 });
    let c = c.next_state(&rule, 4);
    assert_eq!(c, CellStatus::Dead);
    let c = c.next_state(&rule, 3);
    assert_eq!(c, CellStatus::Dead);
    let c = c.next_state(&rule, 5);
    assert_eq!(c, CellStatus::Dead);
    // comes back at 4
    let c = c.next_state(&rule, 4);
    assert_eq!(c, CellStatus::Alive);
}

#[test]
fn two_states_die_at_once() {
    let rule = Rule {
        survival: vec![2..4],
        birth: vec![3..4],
        states: 2,
        neighbors: Neighbors::Moore,
    };
    assert_eq!(CellStatus::Alive.next_state(&rule, 1), CellStatus::Dead);
    assert_eq!(CellStatus::Alive.next_state(&rule, 4), CellStatus::Dead);
    assert_eq!(CellStatus::Alive.next_state(&rule, 3), CellStatus::Alive);
    assert_eq!(rule.kill_cell(), CellStatus::Dead);
}

#[test]
fn three_states_decay_for_one_generation() {
    let rule = Rule {
        survival: vec![],
        birth: vec![],
        states: 3,
        neighbors: Neighbors::Moore,
    };
    assert_eq!(rule.kill_cell(), CellStatus::Dying { health: 1 });
    let c = CellStatus::Alive.next_state(&rule, 0);
    assert_eq!(c, CellStatus::Dying { health: 1 });
    assert_eq!(c.next_state(&rule, 0), CellStatus::Dead);
}

#[test]
fn most_states_decay_from_253() {
    let rule = Rule {
        survival: vec![],
        birth: vec![0..27],
        states: 255,
        neighbors: Neighbors::Moore,
    };
    assert_eq!(rule.kill_cell(), CellStatus::Dying { health: 253 });
    assert_eq!(
        CellStatus::Dying { health: 253 }.next_state(&rule, 7),
        CellStatus::Dying { health: 252 }
    );
}

#[test]
fn decay_ignores_the_count() {
    let rule = rule_4_5_4_6_n();
    for count in 0..=26 {
        assert_eq!(
            CellStatus::Dying { health: 3 }.next_state(&rule, count),
            CellStatus::Dying { health: 2 }
        );
        assert_eq!(
            CellStatus::Dying { health: 1 }.next_state(&rule, count),
            CellStatus::Dead
        );
    }
}

#[test]
fn health_stays_within_the_states() {
    let rule = rule_4_5_4_6_n();
    let mut c = CellStatus::Alive;
    for step in 0..40 {
        c = c.next_state(&rule, if step % 7 == 0 { 4 } else { 0 });
        if let CellStatus::Dying { health } = c {
            assert!(1 <= health && health <= rule.states - 2);
        }
    }
}

#[test]
fn dead_cells_are_not_live() {
    assert!(CellStatus::Alive.is_live());
    assert!(CellStatus::Dying { health: 1 }.is_live());
    assert!(CellStatus::Dying { health: 200 }.is_live());
    assert!(!CellStatus::Dead.is_live());
}

#[test]
fn large_counts_pass_nothing() {
    let rule = Rule {
        survival: vec![0..255],
        birth: vec![0..1],
        states: 5,
        neighbors: Neighbors::Moore,
    };
    assert!(rule.passes_survive(254));
    assert!(!rule.passes_survive(255));
    assert!(!rule.passes_survive(256));
    assert!(!rule.passes_survive(usize::MAX));
    assert!(rule.passes_birth(0));
    assert!(!rule.passes_birth(256));
    assert_eq!(CellStatus::Dead.next_state(&rule, 256), CellStatus::Dead);
}

#[test]
fn a_cell_passes_through_all_states() {
    for states in [2u8, 3, 6, 255] {
        let rule = Rule {
            survival: vec![3..4],
            birth: vec![],
            states,
            neighbors: Neighbors::Moore,
        };
        let mut c = CellStatus::Alive.next_state(&rule, 3);
        assert_eq!(c, CellStatus::Alive);
        // the cell leaves the live state with 4 neighbours, and what follows
        // does not depend on the count
        for k in 1..states - 1 {
            c = c.next_state(&rule, if k == 1 { 4 } else { 3 });
            assert_eq!(c, CellStatus::Dying { health: states - 1 - k });
        }
        c = c.next_state(&rule, if states == 2 { 4 } else { 3 });
        assert_eq!(c, CellStatus::Dead);
    }
}
