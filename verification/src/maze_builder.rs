use vstd::prelude::*;
use crate::components::{Border, BorderType, CellState, CircleCoordinate, Direction, MazeError, random_nr};
use crate::circular_grid::{
    CircularDist, claims_sub, lemma_claim_monotonic, lemma_claims_sub_trans,
    lemma_closed_reaches_outer, lemma_full_grid_stable, lemma_neighbour_stable,
    lemma_outer_claimed_monotonic, lemma_unclaimed_is_interior, path_closed, same_grid,
    spec_coord,
};
use crate::counting::{lemma_count_rows_le, lemma_count_rows_sub, lemma_total_slots_congruence};

verus! {

/// Wall segments are well oriented: every segment runs from its start
/// ring outward (strictly, for a line) or stays on one ring (an arc).
pub open spec fn borders_wf(bs: Seq<Border>) -> bool {
    forall|i: int| 0 <= i < bs.len() ==> (#[trigger] bs[i]).start.circle <= bs[i].end.circle
}

/// The wall list is minimal: no two distinct segments of the same kind
/// are left where one ends at the other's start, so nothing could
/// still be merged.
pub open spec fn no_mergeable_pair(bs: Seq<Border>) -> bool {
    forall|i: int, j: int|
        0 <= i < bs.len() && 0 <= j < bs.len() && i != j && (#[trigger] bs[i]).spec_border_type()
            == (#[trigger] bs[j]).spec_border_type() ==> bs[i].end != bs[j].start
}

/// The first segment of the given kind that ends at the coordinate.
pub open spec fn find_first_end(bs: Seq<Border>, c: CircleCoordinate, t: BorderType) -> Option<int>
    decreases bs.len(),
{
    if bs.len() == 0 {
        None
    } else if bs[0].spec_border_type() == t && bs[0].end == c {
        Some(0)
    } else {
        match find_first_end(bs.subrange(1, bs.len() as int), c, t) {
            Some(i) => Some(i + 1),
            None => None,
        }
    }
}

/// The first segment of the given kind that starts at the coordinate.
pub open spec fn find_first_start(bs: Seq<Border>, c: CircleCoordinate, t: BorderType) -> Option<
    int,
>
    decreases bs.len(),
{
    if bs.len() == 0 {
        None
    } else if bs[0].spec_border_type() == t && bs[0].start == c {
        Some(0)
    } else {
        match find_first_start(bs.subrange(1, bs.len() as int), c, t) {
            Some(i) => Some(i + 1),
            None => None,
        }
    }
}

/// find_first_end names the first match, if the list holds one.
proof fn lemma_find_first_end(bs: Seq<Border>, c: CircleCoordinate, t: BorderType)
    ensures
        match find_first_end(bs, c, t) {
            Some(i) => 0 <= i < bs.len() && (#[trigger] bs[i]).spec_border_type() == t && bs[i].end
                == c && forall|j: int|
                0 <= j < i ==> !((#[trigger] bs[j]).spec_border_type() == t && bs[j].end == c),
            None => forall|j: int|
                0 <= j < bs.len() ==> !((#[trigger] bs[j]).spec_border_type() == t && bs[j].end
                    == c),
        },
    decreases bs.len(),
{
    if bs.len() > 0 {
        let tail = bs.subrange(1, bs.len() as int);
        lemma_find_first_end(tail, c, t);
        assert(forall|j: int| 0 <= j < tail.len() ==> #[trigger] tail[j] == bs[j + 1]);
        if !(bs[0].spec_border_type() == t && bs[0].end == c) {
            match find_first_end(tail, c, t) {
                Some(i) => {
                    assert(find_first_end(bs, c, t) == Some(i + 1));
                    assert(tail[i] == bs[i + 1]);
                    assert forall|j: int|
                        0 <= j < i + 1 implies !((#[trigger] bs[j]).spec_border_type() == t
                            && bs[j].end == c) by {
                        if j > 0 {
                            assert(tail[j - 1] == bs[j]);
                        }
                    }
                },
                None => {
                    assert forall|j: int|
                        0 <= j < bs.len() implies !((#[trigger] bs[j]).spec_border_type() == t
                            && bs[j].end == c) by {
                        if j > 0 {
                            assert(tail[j - 1] == bs[j]);
                        }
                    }
                },
            }
        }
    }
}

/// find_first_start names the first match, if the list holds one.
proof fn lemma_find_first_start(bs: Seq<Border>, c: CircleCoordinate, t: BorderType)
    ensures
        match find_first_start(bs, c, t) {
            Some(i) => 0 <= i < bs.len() && (#[trigger] bs[i]).spec_border_type() == t
                && bs[i].start == c && forall|j: int|
                0 <= j < i ==> !((#[trigger] bs[j]).spec_border_type() == t && bs[j].start == c),
            None => forall|j: int|
                0 <= j < bs.len() ==> !((#[trigger] bs[j]).spec_border_type() == t && bs[j].start
                    == c),
        },
    decreases bs.len(),
{
    if bs.len() > 0 {
        let tail = bs.subrange(1, bs.len() as int);
        lemma_find_first_start(tail, c, t);
        assert(forall|j: int| 0 <= j < tail.len() ==> #[trigger] tail[j] == bs[j + 1]);
        if !(bs[0].spec_border_type() == t && bs[0].start == c) {
            match find_first_start(tail, c, t) {
                Some(i) => {
                    assert(find_first_start(bs, c, t) == Some(i + 1));
                    assert(tail[i] == bs[i + 1]);
                    assert forall|j: int|
                        0 <= j < i + 1 implies !((#[trigger] bs[j]).spec_border_type() == t
                            && bs[j].start == c) by {
                        if j > 0 {
                            assert(tail[j - 1] == bs[j]);
                        }
                    }
                },
                None => {
                    assert forall|j: int|
                        0 <= j < bs.len() implies !((#[trigger] bs[j]).spec_border_type() == t
                            && bs[j].start == c) by {
                        if j > 0 {
                            assert(tail[j - 1] == bs[j]);
                        }
                    }
                },
            }
        }
    }
}

/// The wall list after recording one opening from start to end: the
/// same-kind segment ending at start donates its start, the one
/// starting at end donates its end, both donors leave the list, and
/// the spliced segment is pushed.
pub open spec fn spec_merge(
    bs: Seq<Border>,
    s: CircleCoordinate,
    e: CircleCoordinate,
    t: BorderType,
) -> Seq<Border> {
    let pfound = find_first_end(bs, s, t);
    let ns = match pfound {
        Some(p) => bs[p].start,
        None => s,
    };
    let bs1 = match pfound {
        Some(p) => bs.remove(p),
        None => bs,
    };
    let qfound = find_first_start(bs1, e, t);
    let ne = match qfound {
        Some(q) => bs1[q].end,
        None => e,
    };
    let bs2 = match qfound {
        Some(q) => bs1.remove(q),
        None => bs1,
    };
    bs2.push(Border { start: ns, end: ne })
}

/// A segment that is of another kind than the recorded opening, or
/// that neither ends at its start nor starts at its end, survives the
/// merge.
proof fn lemma_merge_keeps(
    bs: Seq<Border>,
    s: CircleCoordinate,
    e: CircleCoordinate,
    t: BorderType,
    b: Border,
)
    requires
        bs.contains(b),
        b.spec_border_type() != t || (b.end != s && b.start != e),
    ensures
        spec_merge(bs, s, e, t).contains(b),
{
    lemma_find_first_end(bs, s, t);
    let pfound = find_first_end(bs, s, t);
    let bs1 = match pfound {
        Some(p) => bs.remove(p),
        None => bs,
    };
    if let Some(p) = pfound {
        bs.remove_ensures(p);
    }
    let w = choose|w: int| 0 <= w < bs.len() && bs[w] == b;
    let w1: int;
    match pfound {
        Some(p) => {
            // The backward donor has this kind and ends at s, so it is
            // not b.
            assert(bs[p] != b);
            assert(w != p);
            if w < p {
                w1 = w;
                assert(bs1[w1] == b);
            } else {
                w1 = w - 1;
                assert(bs1[w1] == b);
            }
        },
        None => {
            w1 = w;
            assert(bs1[w1] == b);
        },
    }
    lemma_find_first_start(bs1, e, t);
    let qfound = find_first_start(bs1, e, t);
    let bs2 = match qfound {
        Some(q) => bs1.remove(q),
        None => bs1,
    };
    if let Some(q) = qfound {
        bs1.remove_ensures(q);
    }
    match qfound {
        Some(q) => {
            assert(bs1[q] != b);
            assert(w1 != q);
            if w1 < q {
                assert(bs2[w1] == b);
            } else {
                assert(bs2[w1 - 1] == b);
            }
        },
        None => {
            assert(bs2[w1] == b);
        },
    }
    assert(bs2.contains(b));
    let v = choose|v: int| 0 <= v < bs2.len() && bs2[v] == b;
    assert(spec_merge(bs, s, e, t)[v] == b);
}

/// Merging preserves orientation and minimality of the wall list.
proof fn lemma_merge_preserves(
    bs: Seq<Border>,
    s: CircleCoordinate,
    e: CircleCoordinate,
    t: BorderType,
)
    requires
        no_mergeable_pair(bs),
        borders_wf(bs),
        t == BorderType::Arc ==> s.circle == e.circle,
        t == BorderType::Line ==> s.circle < e.circle,
    ensures
        no_mergeable_pair(spec_merge(bs, s, e, t)),
        borders_wf(spec_merge(bs, s, e, t)),
        spec_merge(bs, s, e, t).len() >= 1,
{
    lemma_find_first_end(bs, s, t);
    let pfound = find_first_end(bs, s, t);
    let ns = match pfound {
        Some(p) => bs[p].start,
        None => s,
    };
    let bs1 = match pfound {
        Some(p) => bs.remove(p),
        None => bs,
    };
    if let Some(p) = pfound {
        bs.remove_ensures(p);
    }
    lemma_find_first_start(bs1, e, t);
    let qfound = find_first_start(bs1, e, t);
    let ne = match qfound {
        Some(q) => bs1[q].end,
        None => e,
    };
    let bs2 = match qfound {
        Some(q) => bs1.remove(q),
        None => bs1,
    };
    if let Some(q) = qfound {
        bs1.remove_ensures(q);
    }
    let nb = Border { start: ns, end: ne };
    // The original position of the forward donor.
    let q0 = match qfound {
        Some(q) => match pfound {
            Some(p) => if q < p { q } else { q + 1 },
            None => q,
        },
        None => -1,
    };
    if let Some(q) = qfound {
        assert(bs1[q] == bs[q0]);
        if let Some(p) = pfound {
            assert(q0 != p);
        }
    }
    // The spliced segment keeps the kind and the orientation.
    if t == BorderType::Arc {
        if let Some(p) = pfound {
            assert(bs[p].start.circle == s.circle);
        }
        if let Some(q) = qfound {
            assert(bs[q0].end.circle == e.circle);
        }
        assert(nb.start.circle == nb.end.circle);
        assert(nb.spec_border_type() == BorderType::Arc);
    } else {
        if let Some(p) = pfound {
            assert(bs[p].spec_border_type() == BorderType::Line);
            assert(bs[p].start.circle < bs[p].end.circle);
            assert(ns.circle < s.circle);
        }
        if let Some(q) = qfound {
            assert(bs[q0].spec_border_type() == BorderType::Line);
            assert(bs[q0].start.circle < bs[q0].end.circle);
            assert(ne.circle > e.circle);
        }
        assert(nb.start.circle < nb.end.circle);
        assert(nb.spec_border_type() == BorderType::Line);
    }
    let res = bs2.push(nb);
    // Each surviving position maps back to its original position in
    // the input list, skipping both donors; the map is injective.
    assert forall|j: int| 0 <= j < bs2.len() implies {
        &&& 0 <= origin(pfound, qfound, j) < bs.len()
        &&& #[trigger] bs2[j] == bs[origin(pfound, qfound, j)]
        &&& (pfound matches Some(p) ==> origin(pfound, qfound, j) != p)
        &&& (qfound matches Some(_) ==> origin(pfound, qfound, j) != q0)
    } by {
        let j1 = match qfound {
            Some(q) => if j < q { j } else { j + 1 },
            None => j,
        };
        assert(bs2[j] == bs1[j1]);
        let j0 = match pfound {
            Some(p) => if j1 < p { j1 } else { j1 + 1 },
            None => j1,
        };
        assert(bs1[j1] == bs[j0]);
        assert(j0 == origin(pfound, qfound, j));
    }
    // Minimality: no surviving segment of this kind ends at the new
    // start or starts at the new end.
    assert forall|j: int|
        0 <= j < bs2.len() && (#[trigger] bs2[j]).spec_border_type() == t implies bs2[j].end != ns
            && bs2[j].start != ne by {
        let j0 = origin(pfound, qfound, j);
        assert(bs2[j] == bs[j0]);
        match pfound {
            Some(p) => {
                assert(bs[j0].end != bs[p].start);
            },
            None => {
                assert(!(bs[j0].spec_border_type() == t && bs[j0].end == s));
            },
        }
        match qfound {
            Some(_) => {
                assert(bs[q0].end != bs[j0].start);
            },
            None => {
                // bs2[j] survives inside bs1, where no segment of this
                // kind starts at e.
                let j1 = match pfound {
                    Some(p) => if j0 < p { j0 } else { j0 - 1 },
                    None => j0,
                };
                assert(bs1[j1] == bs[j0]);
                assert(!(bs1[j1].spec_border_type() == t && bs1[j1].start == e));
            },
        }
    }
    // Distinct survivors keep distinct origins, so the old minimality
    // carries over; pairs with the new segment use the two facts above.
    assert forall|i: int, j: int|
        0 <= i < res.len() && 0 <= j < res.len() && i != j && (#[trigger] res[i]).spec_border_type()
            == (#[trigger] res[j]).spec_border_type() implies res[i].end != res[j].start by {
        if i < bs2.len() && j < bs2.len() {
            let i0 = origin(pfound, qfound, i);
            let j0 = origin(pfound, qfound, j);
            assert(i0 != j0);
            assert(bs[i0].end != bs[j0].start);
        }
    }
    assert forall|j: int| 0 <= j < res.len() implies (#[trigger] res[j]).start.circle
        <= res[j].end.circle by {
        if j < bs2.len() {
            let j0 = origin(pfound, qfound, j);
            assert(bs2[j] == bs[j0]);
        }
    }
}

/// The index in the input list that a surviving position held before
/// the two donor removals.
spec fn origin(pfound: Option<int>, qfound: Option<int>, j: int) -> int {
    let j1 = match qfound {
        Some(q) => if j < q {
            j
        } else {
            j + 1
        },
        None => j,
    };
    match pfound {
        Some(p) => if j1 < p {
            j1
        } else {
            j1 + 1
        },
        None => j1,
    }
}


/// Find the index of the first segment of the given kind that ends at
/// the coordinate.
fn find_merge_start(
    borders: &Vec<Border>,
    from_coord: &CircleCoordinate,
    border_type: &BorderType,
) -> (r: Option<usize>)
    ensures
        match r {
            Some(i) => i < borders@.len() && find_first_end(borders@, *from_coord, *border_type)
                == Some(i as int),
            None => find_first_end(borders@, *from_coord, *border_type) is None,
        },
{
    let mut i: usize = 0;
    while i < borders.len()
        invariant
            i <= borders@.len(),
            forall|j: int|
                0 <= j < i ==> !((#[trigger] borders@[j]).spec_border_type() == *border_type
                    && borders@[j].end == *from_coord),
        decreases borders@.len() - i,
    {
        let b = borders[i];
        if b.border_type() == *border_type && b.end == *from_coord {
            proof {
                lemma_find_first_end(borders@, *from_coord, *border_type);
            }
            return Some(i);
        }
        i = i + 1;
    }
    proof {
        lemma_find_first_end(borders@, *from_coord, *border_type);
    }
    None
}

/// Find the index of the first segment of the given kind that starts
/// at the coordinate.
fn find_merge_end(
    borders: &Vec<Border>,
    to_coord: &CircleCoordinate,
    border_type: &BorderType,
) -> (r: Option<usize>)
    ensures
        match r {
            Some(i) => i < borders@.len() && find_first_start(borders@, *to_coord, *border_type)
                == Some(i as int),
            None => find_first_start(borders@, *to_coord, *border_type) is None,
        },
{
    let mut i: usize = 0;
    while i < borders.len()
        invariant
            i <= borders@.len(),
            forall|j: int|
                0 <= j < i ==> !((#[trigger] borders@[j]).spec_border_type() == *border_type
                    && borders@[j].start == *to_coord),
        decreases borders@.len() - i,
    {
        let b = borders[i];
        if b.border_type() == *border_type && b.start == *to_coord {
            proof {
                lemma_find_first_start(borders@, *to_coord, *border_type);
            }
            return Some(i);
        }
        i = i + 1;
    }
    proof {
        lemma_find_first_start(borders@, *to_coord, *border_type);
    }
    None
}

/// Record one wall opening and keep the wall list minimal: the new
/// segment is spliced together with the existing same-kind segment it
/// extends on either side.
pub fn merge_borders(
    borders: &mut Vec<Border>,
    start: CircleCoordinate,
    end: CircleCoordinate,
    border_type: BorderType,
)
    requires
        no_mergeable_pair(old(borders)@),
        borders_wf(old(borders)@),
        border_type == BorderType::Arc ==> start.circle == end.circle,
        border_type == BorderType::Line ==> start.circle < end.circle,
    ensures
        final(borders)@ == spec_merge(old(borders)@, start, end, border_type),
        no_mergeable_pair(final(borders)@),
        borders_wf(final(borders)@),
        final(borders)@.len() >= 1,
        forall|b: Border|
            #[trigger] old(borders)@.contains(b) && (b.spec_border_type() != border_type || (b.end
                != start && b.start != end)) ==> final(borders)@.contains(b),
{
    proof {
        lemma_merge_preserves(old(borders)@, start, end, border_type);
        assert forall|b: Border|
            #[trigger] old(borders)@.contains(b) && (b.spec_border_type() != border_type || (b.end
                != start && b.start != end)) implies spec_merge(
            old(borders)@,
            start,
            end,
            border_type,
        ).contains(b) by {
            lemma_merge_keeps(old(borders)@, start, end, border_type, b);
        }
    }
    let mut merged_start = start;
    let mut merged_end = end;
    if let Some(before_index) = find_merge_start(borders, &merged_start, &border_type) {
        let before = borders.remove(before_index);
        merged_start = before.start;
    }
    if let Some(after_index) = find_merge_end(borders, &merged_end, &border_type) {
        let after = borders.remove(after_index);
        merged_end = after.end;
    }
    borders.push(Border { start: merged_start, end: merged_end });
}


/// Whether a coordinate list holds a coordinate.
fn coords_contain(v: &Vec<CircleCoordinate>, c: &CircleCoordinate) -> (r: bool)
    ensures
        r == v@.contains(*c),
{
    let mut i: usize = 0;
    while i < v.len()
        invariant
            i <= v@.len(),
            forall|j: int| 0 <= j < i ==> v@[j] != *c,
        decreases v@.len() - i,
    {
        if v[i] == *c {
            return true;
        }
        i = i + 1;
    }
    assert(!v@.contains(*c));
    false
}

/// An option that can no longer advance this path: its neighbour does
/// not exist on the grid, or already lies on the path.
pub open spec fn option_dead(
    d: CircularDist,
    path: Seq<CircleCoordinate>,
    o: (CircleCoordinate, Direction),
) -> bool {
    match d.spec_neighbour(o.0, o.1) {
        Some(n) => path.contains(n),
        None => true,
    }
}

/// A move away from a path coordinate is accounted for: its neighbour
/// does not exist, or already lies on the path, or the option is still
/// queued.
pub open spec fn option_covered(
    d: CircularDist,
    path: Seq<CircleCoordinate>,
    opts: Seq<(CircleCoordinate, Direction)>,
    c: CircleCoordinate,
    dir: Direction,
) -> bool {
    match d.spec_neighbour(c, dir) {
        Some(n) => path.contains(n) || opts.contains((c, dir)),
        None => true,
    }
}

/// Queue the four directional options of a freshly reached coordinate.
fn add_options(options: &mut Vec<(CircleCoordinate, Direction)>, coord: &CircleCoordinate)
    ensures
        final(options)@ == old(options)@ + seq![
            (*coord, Direction::In),
            (*coord, Direction::Out),
            (*coord, Direction::Clockwise),
            (*coord, Direction::CounterClockwise),
        ],
{
    options.push((*coord, Direction::In));
    options.push((*coord, Direction::Out));
    options.push((*coord, Direction::Clockwise));
    options.push((*coord, Direction::CounterClockwise));
    proof {
        assert(options@ =~= old(options)@ + seq![
            (*coord, Direction::In),
            (*coord, Direction::Out),
            (*coord, Direction::Clockwise),
            (*coord, Direction::CounterClockwise),
        ]);
    }
}

/// Draw queued options at random, without replacement, until one
/// yields a usable neighbour: one that exists on the grid and is not
/// part of the current path. That neighbour is claimed, and its
/// previous state tells the caller whether the path may continue. The
/// move returned was drawn from the queue, every discarded option was
/// unusable, and the exhaustion error is reported only once every
/// queued option has proved unusable.
fn next_move(
    dist: &mut CircularDist,
    options: &mut Vec<(CircleCoordinate, Direction)>,
    path: &Vec<CircleCoordinate>,
) -> (r: Result<(CircleCoordinate, CircleCoordinate, Direction, CellState), MazeError>)
    requires
        old(dist).wf(),
        forall|t: int|
            0 <= t < old(options)@.len() ==> old(dist).coord_in_grid(
                (#[trigger] old(options)@[t]).0,
            ),
        forall|k: int| 0 <= k < path@.len() ==> old(dist).is_claimed(#[trigger] path@[k]),
    ensures
        final(dist).wf(),
        same_grid(*old(dist), *final(dist)),
        claims_sub(*old(dist), *final(dist)),
        forall|t: int|
            0 <= t < final(options)@.len() ==> final(dist).coord_in_grid(
                (#[trigger] final(options)@[t]).0,
            ),
        forall|t: int|
            0 <= t < final(options)@.len() ==> old(options)@.contains(#[trigger] final(options)@[t]),
        match r {
            Ok(step) => {
                &&& old(options)@.contains((step.0, step.2))
                &&& old(dist).coord_in_grid(step.0)
                &&& old(dist).spec_neighbour(step.0, step.2) == Some(step.1)
                &&& old(dist).coord_in_grid(step.1)
                &&& !path@.contains(step.1)
                &&& (step.3 == CellState::Taken <==> old(dist).is_claimed(step.1))
                &&& final(dist).is_claimed(step.1)
                &&& (step.3 == CellState::Taken ==> *final(dist) == *old(dist))
                &&& (step.3 == CellState::Free ==> final(dist).count_claimed() == old(
                    dist,
                ).count_claimed() + 1 && forall|c2: CircleCoordinate| #[trigger]
                    final(dist).is_claimed(c2) ==> c2 == step.1 || old(dist).is_claimed(c2))
                &&& forall|t: int|
                    0 <= t < old(options)@.len() ==> (final(options)@.contains(
                        #[trigger] old(options)@[t],
                    ) || option_dead(*old(dist), path@, old(options)@[t]) || old(options)@[t] == (
                    step.0,
                    step.2,
                ))
            },
            Err(e) => {
                &&& e == MazeError::CarvingExhausted
                &&& *final(dist) == *old(dist)
                &&& forall|t: int|
                    0 <= t < old(options)@.len() ==> option_dead(
                        *old(dist),
                        path@,
                        #[trigger] old(options)@[t],
                    )
            },
        },
{
    while options.len() != 0
        invariant
            dist.wf(),
            *dist == *old(dist),
            forall|t: int|
                0 <= t < options@.len() ==> dist.coord_in_grid((#[trigger] options@[t]).0),
            forall|k: int| 0 <= k < path@.len() ==> dist.is_claimed(#[trigger] path@[k]),
            forall|t: int|
                0 <= t < options@.len() ==> old(options)@.contains(#[trigger] options@[t]),
            forall|t: int|
                0 <= t < old(options)@.len() ==> (options@.contains(#[trigger] old(options)@[t])
                    || option_dead(*old(dist), path@, old(options)@[t])),
        decreases options@.len(),
    {
        let ghost pre_opts = options@;
        let idx = random_nr(options.len());
        let opt = options.remove(idx);
        proof {
            pre_opts.remove_ensures(idx as int);
            assert forall|t: int| 0 <= t < options@.len() implies old(options)@.contains(
                #[trigger] options@[t],
            ) && dist.coord_in_grid(options@[t].0) by {
                if t < idx {
                    assert(options@[t] == pre_opts[t]);
                } else {
                    assert(options@[t] == pre_opts[t + 1]);
                }
            }
            assert(pre_opts[idx as int] == opt);
        }
        let candidate_start = opt.0;
        let candidate_direction = opt.1;
        match dist.take_neighbour(&candidate_start, &candidate_direction) {
            Some(pair) => {
                let end_coord = pair.0;
                let status = pair.1;
                if !coords_contain(path, &end_coord) {
                    proof {
                        lemma_queue_coverage(
                            old(options)@,
                            pre_opts,
                            idx as int,
                            *old(dist),
                            path@,
                            opt,
                        );
                    }
                    return Ok((candidate_start, end_coord, candidate_direction, status));
                }
                // The neighbour is part of this path, hence already
                // claimed, so the probe changed nothing; the option is
                // unusable, discard it and draw again.
                proof {
                    let k = choose|k: int| 0 <= k < path@.len() && path@[k] == end_coord;
                    assert(dist.is_claimed(path@[k]));
                    assert(option_dead(*old(dist), path@, opt));
                    lemma_queue_coverage(
                        old(options)@,
                        pre_opts,
                        idx as int,
                        *old(dist),
                        path@,
                        opt,
                    );
                }
            },
            None => {
                proof {
                    assert(option_dead(*old(dist), path@, opt));
                    lemma_queue_coverage(
                        old(options)@,
                        pre_opts,
                        idx as int,
                        *old(dist),
                        path@,
                        opt,
                    );
                }
            },
        }
    }
    Err(MazeError::CarvingExhausted)
}

/// Removing one entry from the queue keeps every other entry covered:
/// an entry that was in the queue or unusable before is still in the
/// shrunken queue, unusable, or the removed entry itself.
proof fn lemma_queue_coverage(
    orig: Seq<(CircleCoordinate, Direction)>,
    pre: Seq<(CircleCoordinate, Direction)>,
    idx: int,
    d: CircularDist,
    path: Seq<CircleCoordinate>,
    removed: (CircleCoordinate, Direction),
)
    requires
        0 <= idx < pre.len(),
        pre[idx] == removed,
        forall|t: int|
            0 <= t < orig.len() ==> (pre.contains(#[trigger] orig[t]) || option_dead(
                d,
                path,
                orig[t],
            )),
    ensures
        forall|t: int|
            0 <= t < orig.len() ==> (pre.remove(idx).contains(#[trigger] orig[t]) || option_dead(
                d,
                path,
                orig[t],
            ) || orig[t] == removed),
{
    pre.remove_ensures(idx);
    assert forall|t: int|
        0 <= t < orig.len() && !option_dead(d, path, orig[t]) && orig[t]
            != removed implies pre.remove(idx).contains(#[trigger] orig[t]) by {
        assert(pre.contains(orig[t]));
        let w = choose|w: int| 0 <= w < pre.len() && pre[w] == orig[t];
        assert(w != idx);
        if w < idx {
            assert(pre.remove(idx)[w] == orig[t]);
        } else {
            assert(pre.remove(idx)[w - 1] == orig[t]);
        }
    }
}

/// Carve one path: starting at a freshly claimed interior coordinate,
/// keep opening a wall toward a usable neighbour and merging the
/// recorded segment, until the path runs into already-carved
/// territory. Every move of every path coordinate stays accounted for
/// in the queue, so on a full grid a usable option always remains and
/// carving cannot exhaust.
fn create_path(
    dist: &mut CircularDist,
    start: CircleCoordinate,
    borders: &mut Vec<Border>,
) -> (r: Result<(), MazeError>)
    requires
        old(dist).wf(),
        old(dist).coord_in_grid(start),
        old(dist).is_claimed(start),
        old(dist).outer_ring_claimed(),
        (start.circle as int) < old(dist).coords@.len() - 1,
        no_mergeable_pair(old(borders)@),
        borders_wf(old(borders)@),
    ensures
        final(dist).wf(),
        same_grid(*old(dist), *final(dist)),
        claims_sub(*old(dist), *final(dist)),
        no_mergeable_pair(final(borders)@),
        borders_wf(final(borders)@),
        old(borders)@.len() >= 1 ==> final(borders)@.len() >= 1,
        forall|b: Border|
            #[trigger] old(borders)@.contains(b) && b.spec_border_type() == BorderType::Arc && (
            b.start.circle as int) >= old(dist).coords@.len() - 1 ==> final(borders)@.contains(b),
        old(dist).full_grid() ==> r is Ok,
        r matches Err(e) ==> e == MazeError::CarvingExhausted,
{
    let mut path: Vec<CircleCoordinate> = Vec::new();
    path.push(start);
    let mut options: Vec<(CircleCoordinate, Direction)> = Vec::new();
    let mut coord = start;
    proof {
        lemma_count_rows_le(dist.claimed@, dist.claimed@.len() as int);
    }
    loop
        invariant
            dist.wf(),
            same_grid(*old(dist), *dist),
            claims_sub(*old(dist), *dist),
            dist.outer_ring_claimed(),
            path@.len() >= 1,
            coord == path@.last(),
            forall|k: int| 0 <= k < path@.len() ==> dist.coord_in_grid(#[trigger] path@[k]),
            forall|k: int| 0 <= k < path@.len() ==> dist.is_claimed(#[trigger] path@[k]),
            forall|k: int|
                0 <= k < path@.len() ==> ((#[trigger] path@[k]).circle as int) < dist.coords@.len()
                    - 1,
            forall|t: int|
                0 <= t < options@.len() ==> dist.coord_in_grid((#[trigger] options@[t]).0),
            forall|t: int|
                0 <= t < options@.len() ==> ((#[trigger] options@[t]).0.circle as int)
                    < dist.coords@.len() - 1,
            forall|k: int, dir: Direction|
                0 <= k < path@.len() - 1 ==> #[trigger] option_covered(
                    *dist,
                    path@,
                    options@,
                    path@[k],
                    dir,
                ),
            no_mergeable_pair(borders@),
            borders_wf(borders@),
            old(borders)@.len() >= 1 ==> borders@.len() >= 1,
            forall|b: Border|
                #[trigger] old(borders)@.contains(b) && b.spec_border_type() == BorderType::Arc && (
                b.start.circle as int) >= dist.coords@.len() - 1 ==> borders@.contains(b),
            dist.count_claimed() <= dist.total_coords(),
        decreases dist.total_coords() - dist.count_claimed(),
    {
        let ghost opts0 = options@;
        add_options(&mut options, &coord);
        proof {
            assert forall|t: int|
                0 <= t < options@.len() implies dist.coord_in_grid((#[trigger] options@[t]).0) && (
                options@[t].0.circle as int) < dist.coords@.len() - 1 by {
                if t < opts0.len() {
                    assert(options@[t] == opts0[t]);
                } else {
                    assert(options@[t].0 == coord);
                    assert(path@.contains(coord)) by {
                        assert(path@[path@.len() - 1] == coord);
                    }
                }
            }
            // Every move of every path coordinate, the last one
            // included, is now accounted for in the queue.
            assert forall|k: int, dir: Direction| 0 <= k < path@.len() implies option_covered(
                *dist,
                path@,
                options@,
                path@[k],
                dir,
            ) by {
                if k < path@.len() - 1 {
                    assert(option_covered(*dist, path@, opts0, path@[k], dir));
                    match dist.spec_neighbour(path@[k], dir) {
                        Some(n) => {
                            if !path@.contains(n) {
                                let w = choose|w: int|
                                    0 <= w < opts0.len() && opts0[w] == (path@[k], dir);
                                assert(options@[w] == (path@[k], dir));
                            }
                        },
                        None => {},
                    }
                } else {
                    assert(path@[k] == coord);
                    match dir {
                        Direction::In => {
                            assert(options@[opts0.len() as int] == (coord, Direction::In));
                        },
                        Direction::Out => {
                            assert(options@[opts0.len() as int + 1] == (coord, Direction::Out));
                        },
                        Direction::Clockwise => {
                            assert(options@[opts0.len() as int + 2] == (coord, Direction::Clockwise));
                        },
                        Direction::CounterClockwise => {
                            assert(options@[opts0.len() as int + 3] == (
                                coord,
                                Direction::CounterClockwise,
                            ));
                        },
                    }
                    assert(options@.contains((coord, dir)));
                }
            }
        }
        let ghost pre = *dist;
        let ghost opts_pre = options@;
        let ghost path_pre = path@;
        let step = match next_move(dist, &mut options, &path) {
            Ok(x) => x,
            Err(e) => {
                proof {
                    lemma_full_grid_stable(*old(dist), pre);
                    if pre.full_grid() {
                        // Every queued option is unusable, so the path
                        // is neighbour-closed, yet it is interior: it
                        // cannot reach the outermost ring.
                        assert forall|k: int, dir: Direction| 0 <= k < path@.len() implies (
                        match #[trigger] dist.spec_neighbour(path@[k], dir) {
                            Some(n) => path@.contains(n),
                            None => true,
                        }) by {
                            assert(option_covered(pre, path@, opts_pre, path@[k], dir));
                            lemma_neighbour_stable(pre, *dist, path@[k], dir);
                            match dist.spec_neighbour(path@[k], dir) {
                                Some(n) => {
                                    if !path@.contains(n) {
                                        let t = choose|t: int|
                                            0 <= t < opts_pre.len() && opts_pre[t] == (
                                            path@[k],
                                            dir,
                                            );
                                        assert(option_dead(pre, path@, opts_pre[t]));
                                    }
                                },
                                None => {},
                            }
                        }
                        assert(path_closed(*dist, path@));
                        lemma_closed_reaches_outer(&*dist, path@);
                        let z = spec_coord(
                            (dist.coords@.len() - 1) as nat,
                            dist.inner_slices as nat,
                            0,
                        );
                        let w = choose|w: int| 0 <= w < path@.len() && path@[w] == z;
                        assert((path@[w].circle as int) < dist.coords@.len() - 1);
                        assert(false);
                    }
                }
                return Err(e);
            },
        };
        let from_coord = step.0;
        let to_coord = step.1;
        let direction = step.2;
        let state = step.3;
        proof {
            // The move was drawn from the queue, so it starts at an
            // interior coordinate; rotational moves stay on its ring.
            assert(opts_pre.contains((from_coord, direction)));
            let t = choose|t: int|
                0 <= t < opts_pre.len() && opts_pre[t] == (from_coord, direction);
            assert((opts_pre[t].0.circle as int) < pre.coords@.len() - 1);
        }
        match direction {
            Direction::Out => merge_borders(borders, from_coord, to_coord, BorderType::Line),
            Direction::In => merge_borders(borders, to_coord, from_coord, BorderType::Line),
            Direction::Clockwise => merge_borders(borders, from_coord, to_coord, BorderType::Arc),
            Direction::CounterClockwise => merge_borders(
                borders,
                to_coord,
                from_coord,
                BorderType::Arc,
            ),
        }
        proof {
            // Arcs on the outermost ring are untouched: a rotational
            // move records an arc on the interior ring it happened on.
            assert forall|b: Border|
                #[trigger] old(borders)@.contains(b) && b.spec_border_type() == BorderType::Arc && (
                b.start.circle as int) >= dist.coords@.len() - 1 implies borders@.contains(b) by {}
        }
        if state == CellState::Taken {
            return Ok(());
        }
        path.push(to_coord);
        coord = to_coord;
        proof {
            lemma_claims_sub_trans(*old(dist), pre, *dist);
            lemma_outer_claimed_monotonic(pre, *dist);
            lemma_unclaimed_is_interior(&pre, to_coord);
            assert forall|k: int| 0 <= k < path@.len() implies dist.is_claimed(
                #[trigger] path@[k],
            ) && dist.coord_in_grid(path@[k]) && ((path@[k].circle as int) < dist.coords@.len()
                - 1) by {
                if k < path@.len() - 1 {
                    assert(path@[k] == path_pre[k]);
                    lemma_claim_monotonic(pre, *dist, path@[k]);
                } else {
                    assert(path@[k] == to_coord);
                }
            }
            // Queue entries survive as values of the earlier queue.
            assert forall|t: int|
                0 <= t < options@.len() implies ((#[trigger] options@[t]).0.circle as int)
                    < dist.coords@.len() - 1 by {
                assert(opts_pre.contains(options@[t]));
                let w = choose|w: int| 0 <= w < opts_pre.len() && opts_pre[w] == options@[t];
                assert((opts_pre[w].0.circle as int) < pre.coords@.len() - 1);
            }
            // Coverage: a discarded option's neighbour was already on
            // the path, and the drawn option's neighbour was pushed.
            assert forall|k: int, dir: Direction|
                0 <= k < path@.len() - 1 implies #[trigger] option_covered(
                *dist,
                path@,
                options@,
                path@[k],
                dir,
            ) by {
                assert(path@[k] == path_pre[k]);
                assert(option_covered(pre, path_pre, opts_pre, path_pre[k], dir));
                lemma_neighbour_stable(pre, *dist, path@[k], dir);
                match dist.spec_neighbour(path@[k], dir) {
                    Some(n) => {
                        if path_pre.contains(n) {
                            let w = choose|w: int|
                                0 <= w < path_pre.len() && path_pre[w] == n;
                            assert(path@[w] == n);
                        } else {
                            assert(opts_pre.contains((path@[k], dir)));
                            let t = choose|t: int|
                                0 <= t < opts_pre.len() && opts_pre[t] == (path@[k], dir);
                            if options@.contains(opts_pre[t]) {
                            } else if option_dead(pre, path_pre, opts_pre[t]) {
                                let w = choose|w: int|
                                    0 <= w < path_pre.len() && path_pre[w] == n;
                                assert(path@[w] == n);
                            } else {
                                assert(opts_pre[t] == (from_coord, direction));
                                assert(n == to_coord);
                                assert(path@[path@.len() - 1] == to_coord);
                            }
                        }
                    },
                    None => {},
                }
            }
            lemma_count_rows_le(dist.claimed@, dist.claimed@.len() as int);
            lemma_total_slots_congruence(pre.claimed@, dist.claimed@, dist.claimed@.len() as int);
        }
    }
}

/// Build a maze over a distributor: seed one opening on the outermost
/// ring, record that ring's closed boundary, consume the rest of the
/// ring, then carve paths from random unclaimed coordinates until
/// every coordinate of the grid has been claimed. The wall list that
/// comes back is minimal and still holds the closed outer-ring
/// boundary; on a full grid generation always succeeds.
pub fn build_maze(dist: &mut CircularDist) -> (r: Result<Vec<Border>, MazeError>)
    requires
        old(dist).wf(),
    ensures
        final(dist).wf(),
        same_grid(*old(dist), *final(dist)),
        claims_sub(*old(dist), *final(dist)),
        old(dist).full_grid() ==> r is Ok,
        match r {
            Ok(bs) => {
                &&& final(dist).all_claimed()
                &&& no_mergeable_pair(bs@)
                &&& borders_wf(bs@)
                &&& bs@.len() >= 1
                &&& exists|i: int|
                    0 <= i < bs@.len() && (#[trigger] bs@[i]).start == bs@[i].end
                        && bs@[i].start.circle == old(dist).outer_circle && old(
                        dist,
                    ).coord_in_grid(bs@[i].start)
            },
            Err(e) => e == MazeError::CarvingExhausted,
        },
{
    let mut borders: Vec<Border> = Vec::new();
    let pair = dist.take_from_outer_circle();
    let outer_coord = pair.0;
    let ghost seed = Border { start: outer_coord, end: outer_coord };
    borders.push(Border { start: outer_coord, end: outer_coord });
    let ghost mid = *dist;
    dist.consume_outer_circle();
    proof {
        lemma_claims_sub_trans(*old(dist), mid, *dist);
        lemma_count_rows_le(dist.claimed@, dist.claimed@.len() as int);
        assert(borders@[0] == seed);
    }
    loop
        invariant
            dist.wf(),
            same_grid(*old(dist), *dist),
            claims_sub(*old(dist), *dist),
            dist.outer_ring_claimed(),
            no_mergeable_pair(borders@),
            borders_wf(borders@),
            borders@.len() >= 1,
            borders@.contains(seed),
            seed.start == outer_coord && seed.end == outer_coord,
            outer_coord.circle == old(dist).outer_circle,
            (outer_coord.circle as int) == old(dist).coords@.len() - 1,
            old(dist).coord_in_grid(outer_coord),
            dist.count_claimed() <= dist.total_coords(),
        decreases dist.total_coords() - dist.count_claimed(),
    {
        let ghost pre = *dist;
        match dist.take_free() {
            None => {
                proof {
                    let w = choose|w: int| 0 <= w < borders@.len() && borders@[w] == seed;
                    assert(borders@[w].start == borders@[w].end && borders@[w].start.circle == old(
                        dist,
                    ).outer_circle);
                }
                return Ok(borders);
            },
            Some(c) => {
                let ghost claimed_one = *dist;
                proof {
                    lemma_unclaimed_is_interior(&pre, c);
                    lemma_outer_claimed_monotonic(pre, claimed_one);
                    lemma_full_grid_stable(*old(dist), claimed_one);
                }
                match create_path(dist, c, &mut borders) {
                    Ok(()) => {},
                    Err(e) => {
                        proof {
                            lemma_claims_sub_trans(*old(dist), pre, claimed_one);
                            lemma_claims_sub_trans(*old(dist), claimed_one, *dist);
                        }
                        return Err(e);
                    },
                };
                proof {
                    lemma_claims_sub_trans(*old(dist), pre, claimed_one);
                    lemma_claims_sub_trans(*old(dist), claimed_one, *dist);
                    lemma_outer_claimed_monotonic(claimed_one, *dist);
                    // The seed is an arc on the outermost ring, which
                    // carving never touches.
                    assert(borders@.contains(seed));
                    lemma_count_rows_le(dist.claimed@, dist.claimed@.len() as int);
                    lemma_total_slots_congruence(
                        pre.claimed@,
                        dist.claimed@,
                        dist.claimed@.len() as int,
                    );
                    lemma_count_rows_sub(
                        claimed_one.claimed@,
                        dist.claimed@,
                        dist.claimed@.len() as int,
                    );
                    lemma_total_slots_congruence(
                        claimed_one.claimed@,
                        dist.claimed@,
                        dist.claimed@.len() as int,
                    );
                }
            },
        }
    }
}

} // verus!
