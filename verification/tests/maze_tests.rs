use ring_maze::angle::Angle;
use ring_maze::circular_grid::build_grid;
use ring_maze::components::{Border, BorderType, CellState, CircleCoordinate, Direction, MazeError, random_nr};
use ring_maze::maze::{create_maze, steps_in_circle};
use ring_maze::maze_builder::merge_borders;

fn coord(circle: u32, num: u64, den: u64) -> CircleCoordinate {
    CircleCoordinate { circle, angle: Angle::new(num, den) }
}

fn ring_steps(circle: u32, slices: u32) -> u64 {
    (circle as u64 + 1) * slices as u64
}

fn step_index(a: &Angle, d: u64) -> u64 {
    a.num * (d / a.den)
}

/// The number of elementary grid segments a border covers.
fn segment_count(b: &Border, slices: u32) -> u64 {
    if b.start.circle == b.end.circle {
        let d = ring_steps(b.start.circle, slices);
        let ks = step_index(&b.start.angle, d);
        let ke = step_index(&b.end.angle, d);
        if ks == ke {
            d
        } else {
            (ke + d - ks) % d
        }
    } else {
        (b.end.circle - b.start.circle) as u64
    }
}

#[test]
fn angle_new_reduces_to_lowest_terms() {
    assert_eq!(Angle::new(4, 8), Angle { num: 1, den: 2 });
    assert_eq!(Angle::new(0, 5), Angle { num: 0, den: 1 });
    assert_eq!(Angle::new(9, 12), Angle { num: 3, den: 4 });
    assert_eq!(Angle::new(5, 7), Angle { num: 5, den: 7 });
}

#[test]
fn angle_next_prev_round_trip() {
    let a = Angle::new(3, 8);
    let next = a.next_on_ring(8);
    assert_eq!(next, Angle { num: 1, den: 2 });
    assert_eq!(next.prev_on_ring(8), a);
    let last = Angle::new(7, 8);
    let wrapped = last.next_on_ring(8);
    assert_eq!(wrapped, Angle { num: 0, den: 1 });
    assert_eq!(wrapped.prev_on_ring(8), last);
    // Round trips in both orders, across a whole ring.
    let d = 12;
    for k in 0..d {
        let x = Angle::new(k, d);
        assert_eq!(x.next_on_ring(d).prev_on_ring(d), x);
        assert_eq!(x.prev_on_ring(d).next_on_ring(d), x);
    }
}

#[test]
fn grid_ring_zero_holds_base_subdivision() {
    let g = build_grid(2, 4, 0, 1).unwrap();
    assert_eq!(g.coords.len(), 3);
    assert_eq!(g.coords[0].len(), 4);
}

#[test]
fn grid_rings_full_when_min_distance_zero() {
    let g = build_grid(2, 4, 0, 1).unwrap();
    assert_eq!(g.coords[1].len(), 8);
    assert_eq!(g.coords[2].len(), 12);
    for (r, ring) in g.coords.iter().enumerate() {
        for (i, c) in ring.iter().enumerate() {
            assert_eq!(c.circle as usize, r);
            // Sorted ascending by angle, exactly.
            if i > 0 {
                let prev = &ring[i - 1];
                assert!((prev.angle.num as u128) * (c.angle.den as u128)
                    < (c.angle.num as u128) * (prev.angle.den as u128));
            }
        }
    }
}

#[test]
fn grid_rejects_zero_configuration() {
    assert_eq!(build_grid(0, 4, 0, 1).unwrap_err(), MazeError::InvalidConfiguration);
    assert_eq!(build_grid(3, 0, 0, 1).unwrap_err(), MazeError::InvalidConfiguration);
}

#[test]
fn grid_minimum_distance_rejection() {
    // One ring around three base slices, with a full-step minimum
    // distance: ring one keeps every sixth, since each off-grid
    // candidate sits exactly one local step from an aligned position.
    let g = build_grid(1, 3, 1, 1).unwrap();
    let ring1 = &g.coords[1];
    assert!(ring1.contains(&coord(1, 0, 1)));
    assert!(ring1.contains(&coord(1, 2, 3)));
    // An angle that is not on the ring's own grid is never a position.
    assert!(!ring1.iter().any(|c| c.angle == Angle { num: 1, den: 4 }));
}

#[test]
fn grid_minimum_distance_drops_close_candidates() {
    // A minimum distance of two local steps removes every candidate
    // that does not align with the coarser ring.
    let g = build_grid(1, 3, 2, 1).unwrap();
    assert_eq!(g.coords[0].len(), 3);
    assert_eq!(
        g.coords[1].iter().map(|c| c.angle).collect::<Vec<_>>(),
        vec![Angle { num: 0, den: 1 }, Angle { num: 1, den: 3 }, Angle { num: 2, den: 3 }]
    );
}

#[test]
fn distributor_neighbours_by_angle_arithmetic() {
    let g = build_grid(1, 4, 0, 1).unwrap();
    let mut d = g.dist();
    let c00 = coord(0, 0, 1);
    assert_eq!(d.take_neighbour(&c00, &Direction::In), None);
    assert_eq!(
        d.take_neighbour(&c00, &Direction::Out),
        Some((coord(1, 0, 1), CellState::Free))
    );
    assert_eq!(
        d.take_neighbour(&c00, &Direction::Clockwise),
        Some((coord(0, 1, 4), CellState::Free))
    );
    assert_eq!(
        d.take_neighbour(&c00, &Direction::CounterClockwise),
        Some((coord(0, 3, 4), CellState::Free))
    );
    // Outward from the outermost ring leads nowhere.
    assert_eq!(d.take_neighbour(&coord(1, 0, 1), &Direction::Out), None);
    // Inward from a position that has no aligned inner coordinate.
    assert_eq!(d.take_neighbour(&coord(1, 1, 8), &Direction::In), None);
    // Inward from an aligned position reaches the already claimed one.
    assert_eq!(
        d.take_neighbour(&coord(1, 1, 4), &Direction::In),
        Some((coord(0, 1, 4), CellState::Taken))
    );
}

#[test]
fn distributor_claims_are_monotonic() {
    let g = build_grid(1, 4, 0, 1).unwrap();
    let mut d = g.dist();
    // A neighbour claim holds: probing the same move again reports
    // Taken, and keeps reporting it.
    let c00 = coord(0, 0, 1);
    assert_eq!(
        d.take_neighbour(&c00, &Direction::Clockwise),
        Some((coord(0, 1, 4), CellState::Free))
    );
    assert_eq!(
        d.take_neighbour(&c00, &Direction::Clockwise),
        Some((coord(0, 1, 4), CellState::Taken))
    );
    assert_eq!(
        d.take_neighbour(&c00, &Direction::Clockwise),
        Some((coord(0, 1, 4), CellState::Taken))
    );
    // After consuming the outer ring, any outer pick reports Taken.
    d.consume_outer_circle();
    let (c, state) = d.take_from_outer_circle();
    assert_eq!(c.circle, 1);
    assert_eq!(state, CellState::Taken);
}

#[test]
fn distributor_take_free_claims_everything_exactly_once() {
    let g = build_grid(1, 4, 0, 1).unwrap();
    let mut d = g.dist();
    let mut seen: Vec<CircleCoordinate> = Vec::new();
    while let Some(c) = d.take_free() {
        // Never handed out twice.
        assert!(!seen.contains(&c));
        seen.push(c);
    }
    // Four coordinates on ring zero plus eight on ring one.
    assert_eq!(seen.len(), 12);
    // Once everything is claimed, the answer stays None.
    assert_eq!(d.take_free(), None);
}

#[test]
fn merge_borders_extends_backward_and_forward() {
    let mut borders: Vec<Border> = Vec::new();
    let a = coord(0, 0, 1);
    let b = coord(0, 1, 4);
    let c = coord(0, 1, 2);
    merge_borders(&mut borders, b, c, BorderType::Arc);
    assert_eq!(borders.len(), 1);
    // The new segment ends where the existing one starts: they splice.
    merge_borders(&mut borders, a, b, BorderType::Arc);
    assert_eq!(borders.len(), 1);
    assert_eq!(borders[0].start, a);
    assert_eq!(borders[0].end, c);
    // A radial line elsewhere does not merge with arcs.
    merge_borders(&mut borders, coord(0, 3, 4), coord(1, 3, 4), BorderType::Line);
    assert_eq!(borders.len(), 2);
    // A segment bridging two existing ones removes both.
    let e = coord(0, 3, 4);
    merge_borders(&mut borders, c, e, BorderType::Arc);
    assert_eq!(
        borders.iter().filter(|x| x.border_type() == BorderType::Arc).count(),
        1
    );
    let arc = borders.iter().find(|x| x.border_type() == BorderType::Arc).unwrap();
    assert_eq!(arc.start, a);
    assert_eq!(arc.end, e);
}

#[test]
fn border_type_and_accessors() {
    let arc = Border { start: coord(2, 0, 1), end: coord(2, 1, 3) };
    assert_eq!(arc.border_type(), BorderType::Arc);
    let line = Border { start: coord(0, 1, 4), end: coord(1, 1, 4) };
    assert_eq!(line.border_type(), BorderType::Line);
    assert_eq!(line.start(), coord(0, 1, 4));
    assert_eq!(line.end(), coord(1, 1, 4));
}

#[test]
fn create_maze_rejects_bad_configuration() {
    assert_eq!(create_maze(0, 4, 0, 1).unwrap_err(), MazeError::InvalidConfiguration);
    assert_eq!(create_maze(2, 0, 0, 1).unwrap_err(), MazeError::InvalidConfiguration);
}

#[test]
fn create_maze_small_scenario() {
    // One ring around four base slices: four inner and eight outer
    // coordinates. The walls decompose into exactly twelve elementary
    // segments: the eight arcs of the closed outer ring plus one
    // recorded opening move per interior coordinate.
    let borders = create_maze(1, 4, 0, 1).unwrap();
    assert!(!borders.is_empty());
    let total: u64 = borders.iter().map(|b| segment_count(b, 4)).sum();
    assert_eq!(total, 12);
    // No two same-kind segments are left unmerged.
    for (i, x) in borders.iter().enumerate() {
        for (j, y) in borders.iter().enumerate() {
            if i != j && x.border_type() == y.border_type() {
                assert_ne!(x.end, y.start);
            }
        }
    }
}

#[test]
fn create_maze_borders_stay_minimal_across_sizes() {
    for (rings, slices) in [(1, 1), (1, 5), (2, 3), (3, 4), (4, 5)] {
        let borders = create_maze(rings, slices, 0, 1).unwrap();
        let d = ring_steps(rings, slices);
        let interior: u64 = (1..=rings as u64).map(|r| r * slices as u64).sum();
        let total: u64 = borders.iter().map(|b| segment_count(b, slices)).sum();
        assert_eq!(total, d + interior);
        for (i, x) in borders.iter().enumerate() {
            for (j, y) in borders.iter().enumerate() {
                if i != j && x.border_type() == y.border_type() {
                    assert_ne!(x.end, y.start);
                }
            }
        }
    }
}

#[test]
fn create_maze_reports_carving_exhaustion() {
    // One ring of one slice surrounded by three more, with a minimum
    // distance of two thirds of a local step: the ring-three position
    // at one half survives the filter, but its rotational neighbours
    // and its aligned positions inward and outward are all pruned, so
    // it has no neighbour at all. A carving walk seeded there finds no
    // usable move, and every generation run ends with the internal
    // invariant violation.
    let g = build_grid(4, 1, 2, 3).unwrap();
    let isolated = coord(3, 1, 2);
    assert!(g.coords[3].contains(&isolated));
    let mut d = g.dist();
    assert_eq!(d.take_neighbour(&isolated, &Direction::In), None);
    assert_eq!(d.take_neighbour(&isolated, &Direction::Out), None);
    assert_eq!(d.take_neighbour(&isolated, &Direction::Clockwise), None);
    assert_eq!(d.take_neighbour(&isolated, &Direction::CounterClockwise), None);
    assert_eq!(create_maze(4, 1, 2, 3).unwrap_err(), MazeError::CarvingExhausted);
}

#[test]
fn create_maze_keeps_closed_outer_ring() {
    let borders = create_maze(2, 3, 0, 1).unwrap();
    // The seeded boundary survives carving: exactly one closed ring,
    // on the outermost circle.
    let closed: Vec<&Border> = borders.iter().filter(|b| b.start == b.end).collect();
    assert_eq!(closed.len(), 1);
    assert_eq!(closed[0].start.circle, 2);
}

#[test]
fn random_nr_stays_below_bound() {
    assert_eq!(random_nr(1), 0);
    for n in 1..64 {
        assert!(random_nr(n) < n);
    }
}

#[test]
fn steps_in_circle_uses_default_subdivision() {
    assert_eq!(steps_in_circle(0), 5);
    assert_eq!(steps_in_circle(2), 15);
    assert_eq!(steps_in_circle(9), 50);
}
