use generations3d::point::{wrapping_step, Point};
use generations3d::rule::Neighbors;

#[test]
fn neighbors_neumann() {
    let p = Point::new(1, 1, 1);
    assert_eq!(
        p.neighbors(&Neighbors::Neumann),
        vec![
            Point::new(0, 1, 1),
            Point::new(2, 1, 1),
            Point::new(1, 0, 1),
            Point::new(1, 2, 1),
            Point::new(1, 1, 0),
            Point::new(1, 1, 2)
        ]
    );
}

#[test]
fn neighbors_moore() {
    let p = Point::new(1, 1, 1);
    let ne = p.neighbors(&Neighbors::Moore);
    assert_eq!(ne.len(), 26);
    assert_eq!(
        ne,
        vec![
            Point::new(0, 0, 0),
            Point::new(0, 0, 1),
            Point::new(0, 0, 2),
            Point::new(0, 1, 0),
            Point::new(0, 1, 1),
            Point::new(0, 1, 2),
            Point::new(0, 2, 0),
            Point::new(0, 2, 1),
            Point::new(0, 2, 2),
            Point::new(1, 0, 0),
            Point::new(1, 0, 1),
            Point::new(1, 0, 2),
            Point::new(1, 1, 0),
            // (1, 1, 1), the point itself, is left out
            Point::new(1, 1, 2),
            Point::new(1, 2, 0),
            Point::new(1, 2, 1),
            Point::new(1, 2, 2),
            Point::new(2, 0, 0),
            Point::new(2, 0, 1),
            Point::new(2, 0, 2),
            Point::new(2, 1, 0),
            Point::new(2, 1, 1),
            Point::new(2, 1, 2),
            Point::new(2, 2, 0),
            Point::new(2, 2, 1),
            Point::new(2, 2, 2),
        ]
    );
}

#[test]
fn neighbors_wrapping() {
    let p = Point::new(0, usize::MAX, 0);
    assert_eq!(
        p.neighbors(&Neighbors::Neumann),
        vec![
            Point::new(usize::MAX, usize::MAX, 0),
            Point::new(1, usize::MAX, 0),
            Point::new(0, usize::MAX - 1, 0),
            Point::new(0, 0, 0),
            Point::new(0, usize::MAX, usize::MAX),
            Point::new(0, usize::MAX, 1)
        ]
    )
}

#[test]
fn steps_wrap_at_both_ends() {
    assert_eq!(wrapping_step(0, -1, 49), 49);
    assert_eq!(wrapping_step(49, 1, 49), 0);
    assert_eq!(wrapping_step(0, -1, usize::MAX), usize::MAX);
    assert_eq!(wrapping_step(usize::MAX, 1, usize::MAX), 0);
    assert_eq!(wrapping_step(0, -1, 0), 0);
    assert_eq!(wrapping_step(0, 1, 0), 0);
    assert_eq!(wrapping_step(7, 0, 9), 7);
    assert_eq!(wrapping_step(7, 1, 9), 8);
    assert_eq!(wrapping_step(7, -1, 9), 6);
}

#[test]
fn long_steps_go_round_several_times() {
    // (3 + 25) mod 10, (3 - 25) mod 10
    assert_eq!(wrapping_step(3, 25, 9), 8);
    assert_eq!(wrapping_step(3, -25, 9), 8);
    assert_eq!(wrapping_step(3, -3, 9), 0);
    assert_eq!(wrapping_step(3, -4, 9), 9);
    assert_eq!(wrapping_step(3, isize::MIN, 9), (3 + 10 - 8) % 10);
    assert_eq!(wrapping_step(3, isize::MAX, 9), (3 + 7) % 10);
    assert_eq!(wrapping_step(usize::MAX, isize::MAX, usize::MAX), isize::MAX as usize - 1);
    assert_eq!(wrapping_step(0, isize::MIN, usize::MAX), isize::MIN as usize);
}

#[test]
fn offsets_move_each_axis_on_its_own() {
    let p = Point::new(0, 5, 9);
    assert_eq!(p.offset(-1, 0, 1, 9), Point::new(9, 5, 0));
    assert_eq!(p.offset(0, 0, 0, 9), p);
    assert_eq!(p.offset(1, -1, -1, 9), Point::new(1, 4, 8));
}

#[test]
fn neighbors_in_a_lattice_wrap_at_its_faces() {
    let p = Point::new(0, 4, 2);
    assert_eq!(
        p.neighbors_in(&Neighbors::Neumann, 4),
        vec![
            Point::new(4, 4, 2),
            Point::new(1, 4, 2),
            Point::new(0, 3, 2),
            Point::new(0, 0, 2),
            Point::new(0, 4, 1),
            Point::new(0, 4, 3)
        ]
    );
    let around = p.neighbors_in(&Neighbors::Moore, 4);
    assert_eq!(around.len(), 26);
    assert_eq!(around[0], Point::new(4, 3, 1));
    assert_eq!(around[12], Point::new(0, 4, 1));
    assert_eq!(around[13], Point::new(0, 4, 3));
    assert_eq!(around[25], Point::new(1, 0, 3));
}

#[test]
fn neighbors_are_distinct_and_leave_the_point_out() {
    for last in [2usize, 3, 7] {
        for n in [Neighbors::Moore, Neighbors::Neumann] {
            for p in [Point::new(0, 0, 0), Point::new(1, 1, 1), Point::new(last, 0, 1)] {
                let around = p.neighbors_in(&n, last);
                assert_eq!(around.len(), if n == Neighbors::Moore { 26 } else { 6 });
                for (i, a) in around.iter().enumerate() {
                    assert_ne!(*a, p);
                    assert!(a.x <= last && a.y <= last && a.z <= last);
                    for b in &around[..i] {
                        assert_ne!(a, b);
                    }
                }
            }
        }
    }
}

#[test]
fn on_one_point_every_neighbor_is_the_point() {
    let p = Point::new(0, 0, 0);
    for q in p.neighbors_in(&Neighbors::Moore, 0) {
        assert_eq!(q, p);
    }
}

#[test]
fn closer_than_compares_the_straight_line() {
    let c = Point::new(25, 25, 25);
    assert!(c.closer_than(&c, 1));
    assert!(!c.closer_than(&c, 0));
    // 9² + 4² + 1² = 98 < 100
    assert!(Point::new(34, 21, 26).closer_than(&c, 10));
    // 9² + 4² + 2² = 101
    assert!(!Point::new(34, 21, 27).closer_than(&c, 10));
    // 10² = 100 is not less than 100
    assert!(!Point::new(25, 35, 25).closer_than(&c, 10));
    // 6² + 8² = 100
    assert!(!Point::new(19, 25, 33).closer_than(&c, 10));
    assert!(Point::new(19, 25, 33).closer_than(&c, 11));
    assert!(!Point::new(0, 0, 0).closer_than(&Point::new(usize::MAX, usize::MAX, usize::MAX), usize::MAX));
    assert!(Point::new(0, 0, 0).closer_than(&Point::new(usize::MAX - 1, 0, 0), usize::MAX));
}
