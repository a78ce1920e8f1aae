use generations3d::cell::CellStatus;
use generations3d::grid::Grid;
use generations3d::lattice::SEED_RADIUS;
use generations3d::point::Point;
use generations3d::rule::{Neighbors, Rule};

/// A lattice so small that all of it lies in the ball that is seeded.
fn alive_at(size: usize, alive: &[(usize, usize, usize)]) -> Grid {
    assert!(size <= 11);
    Grid::new_noise(size, |p: Point| alive.contains(&(p.x, p.y, p.z)))
}

fn cells(g: &Grid) -> Vec<CellStatus> {
    g.iter().into_iter().map(|(_, c)| c).collect()
}

#[test]
fn grid_successor() {
    // 4-5/4/6/N on a lattice of side 5: a cross around (2, 2, 2)
    let rule: Rule = "4-5/4/6/N".parse().unwrap();
    let g = alive_at(5, &[(1, 2, 2), (3, 2, 2), (2, 1, 2), (2, 3, 2), (2, 2, 2)]);
    let next = g.next(&rule);
    assert_eq!(next.len(), 5);
    // the centre has 4 live neighbours and survives
    assert_eq!(next.get(&Point::new(2, 2, 2)), Some(&CellStatus::Alive));
    // each arm has 1 live neighbour and starts to decay
    assert_eq!(next.get(&Point::new(1, 2, 2)), Some(&CellStatus::Dying { health: 4 }));
    assert_eq!(next.get(&Point::new(2, 3, 2)), Some(&CellStatus::Dying { health: 4 }));
    // a dead cell above the centre has 1 live neighbour
    assert_eq!(next.get(&Point::new(2, 2, 1)), Some(&CellStatus::Dead));
    let live = cells(&next).iter().filter(|c| c.is_live()).count();
    assert_eq!(live, 5);
    // decaying cells still count as live neighbours
    let third = next.next(&rule);
    assert_eq!(third.get(&Point::new(2, 2, 2)), Some(&CellStatus::Alive));
    assert_eq!(third.get(&Point::new(1, 2, 2)), Some(&CellStatus::Dying { health: 3 }));
    // the input is left as it was
    assert_eq!(g.get(&Point::new(1, 2, 2)), Some(&CellStatus::Alive));
}

#[test]
fn a_new_grid_is_dead() {
    for size in [1usize, 2, 7] {
        let g = Grid::new(size);
        assert_eq!(g.len(), size);
        let all = g.iter();
        assert_eq!(all.len(), size * size * size);
        assert!(all.iter().all(|(_, c)| *c == CellStatus::Dead));
    }
}

#[test]
fn get_knows_the_lattice() {
    let g = alive_at(3, &[(0, 1, 2)]);
    assert_eq!(g.get(&Point::new(0, 1, 2)), Some(&CellStatus::Alive));
    assert_eq!(g.get(&Point::new(2, 1, 0)), Some(&CellStatus::Dead));
    assert_eq!(g.get(&Point::new(3, 0, 0)), None);
    assert_eq!(g.get(&Point::new(0, 3, 0)), None);
    assert_eq!(g.get(&Point::new(0, 0, 3)), None);
    assert_eq!(g.get(&Point::new(usize::MAX, 0, 0)), None);
}

#[test]
fn points_come_with_z_fastest() {
    let g = Grid::new(2);
    assert_eq!(
        g.points(),
        vec![
            Point::new(0, 0, 0),
            Point::new(0, 0, 1),
            Point::new(0, 1, 0),
            Point::new(0, 1, 1),
            Point::new(1, 0, 0),
            Point::new(1, 0, 1),
            Point::new(1, 1, 0),
            Point::new(1, 1, 1),
        ]
    );
    let g = Grid::new(4);
    let points = g.points();
    assert_eq!(points.len(), 64);
    for (i, p) in points.iter().enumerate() {
        assert_eq!(*p, Point::new(i / 16, (i / 4) % 4, i % 4));
        assert_eq!((p.x * 4 + p.y) * 4 + p.z, i);
    }
}

#[test]
fn iter_visits_every_point_once() {
    let g = alive_at(3, &[(0, 1, 2), (2, 2, 2)]);
    let all = g.iter();
    assert_eq!(all.len(), 27);
    for x in 0..3 {
        for y in 0..3 {
            for z in 0..3 {
                let p = Point::new(x, y, z);
                let found: Vec<_> = all.iter().filter(|(q, _)| *q == p).collect();
                assert_eq!(found.len(), 1);
                assert_eq!(Some(&found[0].1), g.get(&p));
            }
        }
    }
    assert_eq!(all[5], (Point::new(0, 1, 2), CellStatus::Alive));
    assert_eq!(all[26], (Point::new(2, 2, 2), CellStatus::Alive));
    assert_eq!(all[0], (Point::new(0, 0, 0), CellStatus::Dead));
}

#[test]
fn seeds_stay_within_the_radius() {
    assert_eq!(SEED_RADIUS, 10);
    let size = 30;
    let mid = size / 2;
    let g = Grid::new_noise(size, |_| true);
    for (p, c) in g.iter() {
        let d = |a: usize| (a as i64 - mid as i64) * (a as i64 - mid as i64);
        let near = d(p.x) + d(p.y) + d(p.z) < 100;
        assert_eq!(c, if near { CellStatus::Alive } else { CellStatus::Dead });
    }
    assert_eq!(g.get(&Point::new(15, 15, 15)), Some(&CellStatus::Alive));
    assert_eq!(g.get(&Point::new(24, 15, 15)), Some(&CellStatus::Alive));
    assert_eq!(g.get(&Point::new(25, 15, 15)), Some(&CellStatus::Dead));
    assert_eq!(g.get(&Point::new(5, 15, 15)), Some(&CellStatus::Dead));
    assert_eq!(g.get(&Point::new(6, 15, 15)), Some(&CellStatus::Alive));
}

#[test]
fn seeds_follow_the_field() {
    let g = Grid::new_noise(9, |p: Point| (p.x + p.y + p.z) % 2 == 0);
    for (p, c) in g.iter() {
        let alive = (p.x + p.y + p.z) % 2 == 0;
        assert_eq!(c, if alive { CellStatus::Alive } else { CellStatus::Dead });
    }
    let none = Grid::new_noise(9, |_| false);
    assert!(cells(&none).iter().all(|c| *c == CellStatus::Dead));
}

#[test]
fn the_field_is_asked_within_the_radius_only() {
    let asked = std::cell::RefCell::new(Vec::new());
    let g = Grid::new_noise(24, |p: Point| {
        asked.borrow_mut().push(p);
        false
    });
    assert_eq!(g.len(), 24);
    let asked = asked.into_inner();
    assert!(!asked.is_empty());
    for p in &asked {
        assert!(p.closer_than(&Point::new(12, 12, 12), 10));
    }
    let inside = g
        .points()
        .into_iter()
        .filter(|p| p.closer_than(&Point::new(12, 12, 12), 10))
        .count();
    assert_eq!(asked.len(), inside);
}

#[test]
fn count_live_counts_what_is_not_dead() {
    let rule: Rule = "/1/4/N".parse().unwrap();
    let g = alive_at(3, &[(0, 0, 0), (1, 1, 1)]).next(&rule);
    // both seeds decay, and their neighbours are born
    assert_eq!(g.get(&Point::new(0, 0, 0)), Some(&CellStatus::Dying { health: 2 }));
    assert_eq!(g.get(&Point::new(1, 1, 1)), Some(&CellStatus::Dying { health: 2 }));
    assert_eq!(g.get(&Point::new(0, 1, 1)), Some(&CellStatus::Alive));
    assert_eq!(g.get(&Point::new(2, 2, 2)), Some(&CellStatus::Dead));
    let points = vec![
        Point::new(0, 0, 0),
        Point::new(0, 1, 1),
        Point::new(2, 2, 2),
        Point::new(0, 0, 0),
    ];
    assert_eq!(g.count_live(&points), 3);
    assert_eq!(g.count_live(&Vec::new()), 0);
    assert_eq!(g.count_live(&g.points()), cells(&g).iter().filter(|c| c.is_live()).count());
}

#[test]
fn neighbors_are_counted_round_the_faces() {
    // born with exactly one live neighbour, 6 neighbours
    let rule: Rule = "0-6/1/2/N".parse().unwrap();
    let g = alive_at(4, &[(0, 0, 0)]);
    let next = g.next(&rule);
    let born = [
        (3, 0, 0),
        (1, 0, 0),
        (0, 3, 0),
        (0, 1, 0),
        (0, 0, 3),
        (0, 0, 1),
    ];
    for (p, c) in next.iter() {
        let expected = (p.x, p.y, p.z) == (0, 0, 0) || born.contains(&(p.x, p.y, p.z));
        assert_eq!(c == CellStatus::Alive, expected, "{:?}", p);
    }
    // 26 neighbours
    let rule: Rule = "0-26/1/2/M".parse().unwrap();
    let next = g.next(&rule);
    for (p, c) in next.iter() {
        let near = |a: usize| a == 0 || a == 1 || a == 3;
        let expected = near(p.x) && near(p.y) && near(p.z);
        assert_eq!(c == CellStatus::Alive, expected, "{:?}", p);
    }
}

#[test]
fn a_lattice_of_one_cell_is_its_own_neighbor() {
    let g = alive_at(1, &[(0, 0, 0)]);
    let rule: Rule = "26/6/2/M".parse().unwrap();
    assert_eq!(g.next_as_point(&Point::new(0, 0, 0), &rule), CellStatus::Alive);
    let rule: Rule = "25/6/2/M".parse().unwrap();
    assert_eq!(g.next_as_point(&Point::new(0, 0, 0), &rule), CellStatus::Dead);
    let rule: Rule = "6/6/2/N".parse().unwrap();
    assert_eq!(cells(&g.next(&rule)), vec![CellStatus::Alive]);
    let dead = Grid::new(1);
    let rule: Rule = "/0/2/N".parse().unwrap();
    assert_eq!(cells(&dead.next(&rule)), vec![CellStatus::Alive]);
}

#[test]
fn next_is_the_same_every_time() {
    let rule: Rule = "4/4/5/M".parse().unwrap();
    let mut g = Grid::new_noise(8, |p: Point| (p.x * 7 + p.y * 3 + p.z * 5) % 4 < 2);
    for _ in 0..4 {
        let a = g.next(&rule);
        let b = g.next(&rule);
        let c = g.clone().next(&rule.clone());
        assert_eq!(a.len(), g.len());
        assert_eq!(a.iter(), b.iter());
        assert_eq!(a.iter(), c.iter());
        g = a;
    }
}

#[test]
fn next_takes_each_cell_on_its_own() {
    let rule: Rule = "2-5/3-4/4/M".parse().unwrap();
    let g = Grid::new_noise(6, |p: Point| (p.x + 2 * p.y + 3 * p.z) % 3 == 0).next(&rule);
    let next = g.next(&rule);
    // in the order of the points, and in the opposite order
    let mut points = g.points();
    for p in &points {
        assert_eq!(next.get(p), Some(&g.next_as_point(p, &rule)));
    }
    points.reverse();
    for p in &points {
        let around = p.neighbors_in(&Neighbors::Moore, 5);
        let count = g.count_live(&around);
        assert_eq!(next.get(p), Some(&g.get(p).unwrap().next_state(&rule, count)));
    }
}

#[test]
fn clone_keeps_the_cells() {
    let g = alive_at(4, &[(1, 2, 3), (3, 3, 3)]);
    let h = g.clone();
    assert_eq!(h.len(), 4);
    assert_eq!(g.iter(), h.iter());
}
