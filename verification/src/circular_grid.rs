use vstd::prelude::*;
use vstd::arithmetic::mul::lemma_mul_upper_bound;
use vstd::arithmetic::div_mod::lemma_mod_multiples_basic;
use vstd::arithmetic::div_mod::{lemma_mod_self_0, lemma_small_mod};
use crate::angle::{
    Angle, angle_lt, on_grid, reduced_angle, spec_next, spec_prev, step_of,
    lemma_angle_round_trip, lemma_reduced_identity, lemma_reduced_props, lemma_reduced_order,
    lemma_reduced_zero, lemma_step_bound,
};
use crate::components::{CellState, CircleCoordinate, Direction, MazeError, random_nr};
use crate::counting::{
    count_rows, total_slots, lemma_count_true_update, lemma_count_rows_update,
    lemma_count_rows_congruence,
};

verus! {

/// The number of equal angular steps on a ring: each ring outward is
/// one subdivision finer than the innermost one.
pub open spec fn spec_steps(circle: nat, slices: nat) -> nat {
    (circle + 1) * slices
}

/// The candidate position at step k of a ring.
pub open spec fn spec_coord(circle: nat, slices: nat, k: nat) -> CircleCoordinate {
    CircleCoordinate { circle: circle as u32, angle: reduced_angle(k, spec_steps(circle, slices)) }
}

/// Whether step k of a ring is a valid grid position: on the innermost
/// ring every step is valid; further out a step must align with the
/// next-coarser ring's grid, or else keep at least the minimum angular
/// distance (a fraction min_num / min_den of the ring's own step) from
/// the nearest coarser-aligned position on both sides.
pub open spec fn valid_step(circle: nat, slices: nat, min_num: nat, min_den: nat, k: nat) -> bool {
    if circle == 0 {
        true
    } else {
        let d = spec_steps(circle, slices) as int;
        let dc = (circle * slices) as int;
        let rem = ((k * (circle * slices)) as int) % d;
        ||| rem == 0
        ||| (rem * min_den as int >= min_num as int * dc
            && (d - rem) * min_den as int >= min_num as int * dc)
    }
}

/// The valid positions among the first upto steps of a ring, in step
/// order.
pub open spec fn spec_ring_upto(
    circle: nat,
    slices: nat,
    min_num: nat,
    min_den: nat,
    upto: nat,
) -> Seq<CircleCoordinate>
    decreases upto,
{
    if upto == 0 {
        Seq::empty()
    } else {
        spec_ring_upto(circle, slices, min_num, min_den, (upto - 1) as nat) + (
        if valid_step(circle, slices, min_num, min_den, (upto - 1) as nat) {
            seq![spec_coord(circle, slices, (upto - 1) as nat)]
        } else {
            Seq::empty()
        })
    }
}

/// All valid positions of one ring, sorted ascending by angle.
pub open spec fn spec_ring(circle: nat, slices: nat, min_num: nat, min_den: nat) -> Seq<
    CircleCoordinate,
> {
    spec_ring_upto(circle, slices, min_num, min_den, spec_steps(circle, slices))
}

/// What holds of every coordinate a ring list carries: it sits on its
/// own ring's grid, its step is valid, and it is the reduction of its
/// own step fraction.
pub open spec fn ring_elem_ok(
    circle: nat,
    slices: nat,
    min_num: nat,
    min_den: nat,
    c: CircleCoordinate,
) -> bool {
    let d = spec_steps(circle, slices);
    &&& c.circle as nat == circle
    &&& on_grid(c.angle, d)
    &&& valid_step(circle, slices, min_num, min_den, step_of(c.angle, d))
    &&& c == spec_coord(circle, slices, step_of(c.angle, d))
}

/// Step zero of any ring is always valid: it aligns with every grid.
proof fn lemma_step_zero_valid(circle: nat, slices: nat, min_num: nat, min_den: nat)
    requires
        slices > 0,
    ensures
        valid_step(circle, slices, min_num, min_den, 0),
{
    if circle > 0 {
        let d = spec_steps(circle, slices) as int;
        assert((circle + 1) * slices > 0) by (nonlinear_arith)
            requires slices > 0,
        ;
        assert(0 * (circle * slices) == 0) by (nonlinear_arith);
        lemma_mod_multiples_basic(0, d);
        assert((0int * d) % d == 0);
        assert(0int * d == 0) by (nonlinear_arith);
    }
}

/// With a zero minimum distance every step of every ring is valid.
proof fn lemma_step_valid_zero_min(circle: nat, slices: nat, min_den: nat, k: nat)
    requires
        slices > 0,
    ensures
        valid_step(circle, slices, 0, min_den, k),
{
    if circle > 0 {
        let d = spec_steps(circle, slices) as int;
        let dc = (circle * slices) as int;
        assert((circle + 1) * slices > 0) by (nonlinear_arith)
            requires slices > 0,
        ;
        let rem = ((k * (circle * slices)) as int) % d;
        assert(0 <= rem < d);
        assert(rem * min_den as int >= 0 && (d - rem) * min_den as int >= 0) by (nonlinear_arith)
            requires 0 <= rem < d,
        ;
        assert(0int * dc == 0) by (nonlinear_arith);
    }
}

/// The portion of a ring enumerated so far never exceeds the step
/// count, and matches it exactly on the innermost ring or when the
/// minimum distance is zero.
proof fn lemma_ring_upto_len(circle: nat, slices: nat, min_num: nat, min_den: nat, upto: nat)
    requires
        slices > 0,
    ensures
        spec_ring_upto(circle, slices, min_num, min_den, upto).len() <= upto,
        circle == 0 || min_num == 0 ==> spec_ring_upto(circle, slices, min_num, min_den, upto).len()
            == upto,
    decreases upto,
{
    if upto > 0 {
        lemma_ring_upto_len(circle, slices, min_num, min_den, (upto - 1) as nat);
        if min_num == 0 {
            lemma_step_valid_zero_min(circle, slices, min_den, (upto - 1) as nat);
        }
    }
}

/// Law: the innermost ring always holds exactly the base subdivision
/// count of coordinates.
pub proof fn lemma_ring_zero_count(slices: nat, min_num: nat, min_den: nat)
    requires
        slices > 0,
    ensures
        spec_ring(0, slices, min_num, min_den).len() == slices,
{
    lemma_ring_upto_len(0, slices, min_num, min_den, spec_steps(0, slices));
    assert(spec_steps(0, slices) == slices) by (nonlinear_arith);
}

/// Law: a ring holds at most as many coordinates as its own step
/// count, and exactly that many when the minimum distance is zero.
pub proof fn lemma_ring_count_bound(circle: nat, slices: nat, min_num: nat, min_den: nat)
    requires
        slices > 0,
    ensures
        spec_ring(circle, slices, min_num, min_den).len() <= spec_steps(circle, slices),
        min_num == 0 ==> spec_ring(circle, slices, min_num, min_den).len() == spec_steps(
            circle,
            slices,
        ),
{
    lemma_ring_upto_len(circle, slices, min_num, min_den, spec_steps(circle, slices));
}

/// With a zero minimum distance a ring holds every candidate step.
pub proof fn lemma_ring_complete_zero_min(circle: nat, slices: nat, min_den: nat, k: nat)
    requires
        slices > 0,
        spec_steps(circle, slices) <= u32::MAX,
        k < spec_steps(circle, slices),
    ensures
        spec_ring(circle, slices, 0, min_den).contains(spec_coord(circle, slices, k)),
{
    lemma_step_valid_zero_min(circle, slices, min_den, k);
    lemma_ring_upto_elems(circle, slices, 0, min_den, spec_steps(circle, slices));
}

/// Every element of an enumerated ring prefix is a valid coordinate of
/// that ring; elements appear in strictly increasing step order; and
/// every valid step below the prefix bound appears.
proof fn lemma_ring_upto_elems(circle: nat, slices: nat, min_num: nat, min_den: nat, upto: nat)
    requires
        slices > 0,
        spec_steps(circle, slices) <= u32::MAX,
        upto <= spec_steps(circle, slices),
    ensures
        forall|i: int|
            0 <= i < spec_ring_upto(circle, slices, min_num, min_den, upto).len() ==> {
                &&& ring_elem_ok(
                    circle,
                    slices,
                    min_num,
                    min_den,
                    #[trigger] spec_ring_upto(circle, slices, min_num, min_den, upto)[i],
                )
                &&& step_of(
                    spec_ring_upto(circle, slices, min_num, min_den, upto)[i].angle,
                    spec_steps(circle, slices),
                ) < upto
            },
        forall|i: int, j: int|
            0 <= i < j < spec_ring_upto(circle, slices, min_num, min_den, upto).len() ==> step_of(
                #[trigger] spec_ring_upto(circle, slices, min_num, min_den, upto)[i].angle,
                spec_steps(circle, slices),
            ) < step_of(
                #[trigger] spec_ring_upto(circle, slices, min_num, min_den, upto)[j].angle,
                spec_steps(circle, slices),
            ),
        forall|k: nat|
            k < upto && #[trigger] valid_step(circle, slices, min_num, min_den, k)
                ==> spec_ring_upto(circle, slices, min_num, min_den, upto).contains(
                spec_coord(circle, slices, k),
            ),
    decreases upto,
{
    let d = spec_steps(circle, slices);
    assert(circle < u32::MAX) by (nonlinear_arith)
        requires slices > 0 && (circle + 1) * slices <= u32::MAX,
    ;
    if upto > 0 {
        lemma_ring_upto_elems(circle, slices, min_num, min_den, (upto - 1) as nat);
        let prev = spec_ring_upto(circle, slices, min_num, min_den, (upto - 1) as nat);
        let cur = spec_ring_upto(circle, slices, min_num, min_den, upto);
        if valid_step(circle, slices, min_num, min_den, (upto - 1) as nat) {
            lemma_reduced_props((upto - 1) as nat, d);
            assert(cur == prev + seq![spec_coord(circle, slices, (upto - 1) as nat)]);
            assert forall|k: nat|
                k < upto && #[trigger] valid_step(circle, slices, min_num, min_den, k)
                    implies cur.contains(spec_coord(circle, slices, k)) by {
                if k < upto - 1 {
                    assert(prev.contains(spec_coord(circle, slices, k)));
                    let w = choose|w: int| 0 <= w < prev.len() && prev[w] == spec_coord(circle, slices, k);
                    assert(cur[w] == spec_coord(circle, slices, k));
                } else {
                    assert(cur[cur.len() - 1] == spec_coord(circle, slices, k));
                }
            }
        } else {
            assert(cur == prev);
            assert forall|k: nat|
                k < upto && #[trigger] valid_step(circle, slices, min_num, min_den, k)
                    implies cur.contains(spec_coord(circle, slices, k)) by {
                assert(k != upto - 1);
                assert(prev.contains(spec_coord(circle, slices, k)));
            }
        }
    }
}

/// Law: each ring list is sorted strictly ascending by angle, and no
/// ring is empty.
pub proof fn lemma_ring_sorted(circle: nat, slices: nat, min_num: nat, min_den: nat)
    requires
        slices > 0,
        spec_steps(circle, slices) <= u32::MAX,
    ensures
        forall|i: int, j: int|
            0 <= i < j < spec_ring(circle, slices, min_num, min_den).len() ==> angle_lt(
                #[trigger] spec_ring(circle, slices, min_num, min_den)[i].angle,
                #[trigger] spec_ring(circle, slices, min_num, min_den)[j].angle,
            ),
        spec_ring(circle, slices, min_num, min_den).len() >= 1,
        forall|i: int|
            0 <= i < spec_ring(circle, slices, min_num, min_den).len() ==> ring_elem_ok(
                circle,
                slices,
                min_num,
                min_den,
                #[trigger] spec_ring(circle, slices, min_num, min_den)[i],
            ),
{
    let d = spec_steps(circle, slices);
    assert((circle + 1) * slices >= 1) by (nonlinear_arith)
        requires slices > 0,
    ;
    lemma_ring_upto_elems(circle, slices, min_num, min_den, d);
    let s = spec_ring(circle, slices, min_num, min_den);
    assert forall|i: int, j: int| 0 <= i < j < s.len() implies angle_lt(
        s[i].angle,
        s[j].angle,
    ) by {
        let ki = step_of(s[i].angle, d);
        let kj = step_of(s[j].angle, d);
        assert(ring_elem_ok(circle, slices, min_num, min_den, s[i]));
        assert(ring_elem_ok(circle, slices, min_num, min_den, s[j]));
        lemma_reduced_order(ki, kj, d);
    }
    lemma_step_zero_valid(circle, slices, min_num, min_den);
    assert(s.contains(spec_coord(circle, slices, 0)));
}

/// The enumerated grid: per ring, every valid coordinate in angle
/// order. Built once and then read only.
#[derive(Debug)]
pub struct CircularGrid {
    pub outer_circle: u32,
    pub inner_slices: u32,
    pub min_num: u32,
    pub min_den: u32,
    pub coords: Vec<Vec<CircleCoordinate>>,
}

impl CircularGrid {
    /// The grid holds one list per ring, and each list is exactly the
    /// ring's valid positions in step order.
    pub open spec fn wf(&self) -> bool {
        &&& self.outer_circle > 0
        &&& self.inner_slices > 0
        &&& self.min_den > 0
        &&& spec_steps(self.outer_circle as nat, self.inner_slices as nat) <= u32::MAX
        &&& self.coords@.len() == self.outer_circle as nat + 1
        &&& forall|r: int|
            0 <= r < self.coords@.len() ==> self.coords@[r]@ == spec_ring(
                r as nat,
                self.inner_slices as nat,
                self.min_num as nat,
                self.min_den as nat,
            )
    }
}

/// Enumerate every valid coordinate of every ring from the innermost
/// ring out to outer_circle. A configuration without rings or without
/// slices is rejected.
pub fn build_grid(outer_circle: u32, inner_slices: u32, min_num: u32, min_den: u32) -> (r: Result<
    CircularGrid,
    MazeError,
>)
    requires
        (outer_circle as nat + 1) * (inner_slices as nat) <= u32::MAX,
        min_den > 0,
    ensures
        match r {
            Ok(g) => {
                &&& g.wf()
                &&& g.outer_circle == outer_circle
                &&& g.inner_slices == inner_slices
                &&& g.min_num == min_num
                &&& g.min_den == min_den
                &&& outer_circle > 0
                &&& inner_slices > 0
                &&& g.coords@[0]@.len() == inner_slices
                &&& forall|r2: int|
                    0 <= r2 < g.coords@.len() ==> #[trigger] g.coords@[r2]@.len() <= spec_steps(
                        r2 as nat,
                        inner_slices as nat,
                    )
                &&& min_num == 0 ==> forall|r2: int|
                    0 <= r2 < g.coords@.len() ==> #[trigger] g.coords@[r2]@.len() == spec_steps(
                        r2 as nat,
                        inner_slices as nat,
                    )
            },
            Err(e) => {
                &&& e == MazeError::InvalidConfiguration
                &&& (outer_circle == 0 || inner_slices == 0)
            },
        },
{
    if outer_circle == 0 || inner_slices == 0 {
        return Err(MazeError::InvalidConfiguration);
    }
    proof {
        assert(outer_circle as nat + 1 <= (outer_circle as nat + 1) * (inner_slices as nat))
            by (nonlinear_arith)
            requires inner_slices >= 1,
        ;
    }
    let mut coords: Vec<Vec<CircleCoordinate>> = Vec::new();
    let mut circle: u32 = 0;
    while circle <= outer_circle
        invariant
            circle <= outer_circle + 1,
            outer_circle < u32::MAX,
            outer_circle > 0,
            inner_slices > 0,
            min_den > 0,
            (outer_circle as nat + 1) * (inner_slices as nat) <= u32::MAX,
            coords@.len() == circle as nat,
            forall|r: int|
                0 <= r < coords@.len() ==> coords@[r]@ == spec_ring(
                    r as nat,
                    inner_slices as nat,
                    min_num as nat,
                    min_den as nat,
                ),
        decreases outer_circle + 1 - circle,
    {
        proof {
            lemma_steps_monotonic(circle as nat, outer_circle as nat, inner_slices as nat);
        }
        let ring = build_ring(circle, inner_slices, min_num, min_den);
        coords.push(ring);
        circle = circle + 1;
    }
    let g = CircularGrid { outer_circle, inner_slices, min_num, min_den, coords };
    proof {
        lemma_ring_zero_count(inner_slices as nat, min_num as nat, min_den as nat);
        assert forall|r2: int| 0 <= r2 < g.coords@.len() implies #[trigger] g.coords@[r2]@.len()
            <= spec_steps(r2 as nat, inner_slices as nat) && (min_num == 0 ==> g.coords@[r2]@.len()
            == spec_steps(r2 as nat, inner_slices as nat)) by {
            lemma_ring_count_bound(r2 as nat, inner_slices as nat, min_num as nat, min_den as nat);
        }
        assert(spec_steps(0, inner_slices as nat) == inner_slices) by (nonlinear_arith);
    }
    Ok(g)
}

/// An inner ring never has more steps than an outer one.
proof fn lemma_steps_monotonic(c1: nat, c2: nat, slices: nat)
    requires
        c1 <= c2,
    ensures
        spec_steps(c1, slices) <= spec_steps(c2, slices),
{
    assert((c1 + 1) * slices <= (c2 + 1) * slices) by (nonlinear_arith)
        requires c1 <= c2,
    ;
}

/// The stateful view over the grid used while carving: the immutable
/// geometry plus one claimed flag per coordinate. Claiming is
/// monotonic: a set flag is never cleared.
#[derive(Debug)]
pub struct CircularDist {
    pub outer_circle: u32,
    pub inner_slices: u32,
    pub coords: Vec<Vec<CircleCoordinate>>,
    pub claimed: Vec<Vec<bool>>,
}

/// Two distributor states that share the same geometry.
pub open spec fn same_grid(pre: CircularDist, post: CircularDist) -> bool {
    &&& post.outer_circle == pre.outer_circle
    &&& post.inner_slices == pre.inner_slices
    &&& post.coords == pre.coords
    &&& post.claimed@.len() == pre.claimed@.len()
    &&& forall|r: int|
        0 <= r < pre.claimed@.len() ==> #[trigger] post.claimed@[r]@.len() == pre.claimed@[r]@.len()
}

/// Every flag set in the earlier state is still set in the later one.
pub open spec fn claims_sub(pre: CircularDist, post: CircularDist) -> bool {
    forall|r: int, i: int|
        0 <= r < pre.claimed@.len() && 0 <= i < pre.claimed@[r]@.len() && #[trigger] pre.claimed@[r]@[i]
            ==> #[trigger] post.claimed@[r]@[i]
}

impl CircularDist {
    /// The flag of the coordinate at one grid index.
    pub open spec fn claimed_at(&self, r: int, i: int) -> bool {
        self.claimed@[r]@[i]
    }

    /// How many coordinates are claimed.
    pub open spec fn count_claimed(&self) -> nat {
        count_rows(self.claimed@, self.claimed@.len() as int)
    }

    /// How many coordinates the grid holds in all.
    pub open spec fn total_coords(&self) -> nat {
        total_slots(self.claimed@, self.claimed@.len() as int)
    }

    /// Whether a coordinate appears in the grid.
    pub open spec fn coord_in_grid(&self, c: CircleCoordinate) -> bool {
        &&& (c.circle as int) < self.coords@.len()
        &&& self.coords@[c.circle as int]@.contains(c)
    }

    /// Whether a grid coordinate is claimed.
    pub open spec fn is_claimed(&self, c: CircleCoordinate) -> bool {
        &&& (c.circle as int) < self.coords@.len()
        &&& exists|i: int|
            0 <= i < self.coords@[c.circle as int]@.len() && self.coords@[c.circle as int]@[i] == c
                && self.claimed@[c.circle as int]@[i]
    }

    /// Whether every coordinate of the grid is claimed.
    pub open spec fn all_claimed(&self) -> bool {
        forall|r: int, i: int|
            0 <= r < self.claimed@.len() && 0 <= i < self.claimed@[r]@.len()
                ==> #[trigger] self.claimed@[r]@[i]
    }

    /// Every candidate step of every ring is a coordinate of the grid,
    /// as a grid built with a zero minimum distance is.
    pub open spec fn full_grid(&self) -> bool {
        forall|r: int, k: nat|
            0 <= r < self.coords@.len() && k < spec_steps(r as nat, self.inner_slices as nat)
                ==> #[trigger] self.coords@[r]@.contains(
                spec_coord(r as nat, self.inner_slices as nat, k),
            )
    }

    /// Every coordinate of the outermost ring is claimed.
    pub open spec fn outer_ring_claimed(&self) -> bool {
        forall|i: int|
            0 <= i < self.claimed@[self.claimed@.len() - 1]@.len() ==> #[trigger] self.claimed_at(
                self.claimed@.len() - 1,
                i,
            )
    }

    /// The geometry is a well-formed grid with one flag per coordinate:
    /// ring r holds only coordinates of ring r, each on its ring's own
    /// step grid, pairwise distinct, and no ring is empty.
    pub open spec fn wf(&self) -> bool {
        &&& self.outer_circle > 0
        &&& self.inner_slices > 0
        &&& spec_steps(self.outer_circle as nat, self.inner_slices as nat) <= u32::MAX
        &&& self.coords@.len() == self.outer_circle as nat + 1
        &&& self.claimed@.len() == self.coords@.len()
        &&& forall|r: int|
            0 <= r < self.coords@.len() ==> #[trigger] self.claimed@[r]@.len()
                == self.coords@[r]@.len()
        &&& forall|r: int| 0 <= r < self.coords@.len() ==> #[trigger] self.coords@[r]@.len() >= 1
        &&& forall|r: int, i: int|
            0 <= r < self.coords@.len() && 0 <= i < self.coords@[r]@.len() ==> (#[trigger] self.coords@[r]@[i]).circle as int == r && on_grid(
                self.coords@[r]@[i].angle,
                spec_steps(r as nat, self.inner_slices as nat),
            )
        &&& forall|r: int, i: int, j: int|
            0 <= r < self.coords@.len() && 0 <= i < self.coords@[r]@.len() && 0 <= j
                < self.coords@[r]@.len() && i != j ==> #[trigger] self.coords@[r]@[i]
                != #[trigger] self.coords@[r]@[j]
    }

    /// The coordinate a neighbour query answers: rotational moves step
    /// one grid step along the same ring, radial moves keep the angle
    /// and move one ring in or out, and the answer is None when the
    /// target position is not a valid coordinate of the target ring.
    pub open spec fn spec_neighbour(&self, c: CircleCoordinate, dir: Direction) -> Option<
        CircleCoordinate,
    > {
        let d = spec_steps(c.circle as nat, self.inner_slices as nat);
        match dir {
            Direction::In => {
                if c.circle == 0 {
                    None
                } else {
                    let cand = CircleCoordinate { circle: (c.circle - 1) as u32, angle: c.angle };
                    if self.coords@[c.circle as int - 1]@.contains(cand) {
                        Some(cand)
                    } else {
                        None
                    }
                }
            },
            Direction::Out => {
                if c.circle as int + 1 >= self.coords@.len() {
                    None
                } else {
                    let cand = CircleCoordinate { circle: (c.circle + 1) as u32, angle: c.angle };
                    if self.coords@[c.circle as int + 1]@.contains(cand) {
                        Some(cand)
                    } else {
                        None
                    }
                }
            },
            Direction::Clockwise => {
                let a2 = spec_next(c.angle, d);
                if a2 == c.angle {
                    None
                } else {
                    let cand = CircleCoordinate { circle: c.circle, angle: a2 };
                    if self.coords@[c.circle as int]@.contains(cand) {
                        Some(cand)
                    } else {
                        None
                    }
                }
            },
            Direction::CounterClockwise => {
                let a2 = spec_prev(c.angle, d);
                if a2 == c.angle {
                    None
                } else {
                    let cand = CircleCoordinate { circle: c.circle, angle: a2 };
                    if self.coords@[c.circle as int]@.contains(cand) {
                        Some(cand)
                    } else {
                        None
                    }
                }
            },
        }
    }

    /// Set the flag at one grid index, reporting whether it was
    /// already set. Nothing changes when it was.
    fn take_at(&mut self, r: usize, i: usize) -> (st: CellState)
        requires
            old(self).wf(),
            r < old(self).coords@.len(),
            i < old(self).coords@[r as int]@.len(),
        ensures
            final(self).wf(),
            same_grid(*old(self), *final(self)),
            claims_sub(*old(self), *final(self)),
            final(self).claimed_at(r as int, i as int),
            st == CellState::Taken <==> old(self).claimed_at(r as int, i as int),
            st == CellState::Taken ==> *final(self) == *old(self),
            st == CellState::Free ==> {
                &&& forall|r2: int, i2: int|
                    0 <= r2 < old(self).claimed@.len() && 0 <= i2 < old(self).claimed@[r2]@.len()
                        && !(r2 == r as int && i2 == i as int)
                        ==> #[trigger] final(self).claimed_at(r2, i2) == old(self).claimed_at(
                        r2,
                        i2,
                    )
                &&& final(self).count_claimed() == old(self).count_claimed() + 1
            },
    {
        if self.claimed[r][i] {
            return CellState::Taken;
        }
        self.claimed[r][i] = true;
        proof {
            let pre = old(self).claimed@;
            let post = self.claimed@;
            assert(post[r as int]@ =~= pre[r as int]@.update(i as int, true));
            assert(post =~= pre.update(r as int, post[r as int]));
            lemma_count_true_update(pre[r as int]@, i as int);
            lemma_count_rows_update(pre, pre.len() as int, r as int, post[r as int]);
            lemma_count_rows_congruence(
                post,
                pre.update(r as int, post[r as int]),
                post.len() as int,
            );
        }
        CellState::Free
    }
}

/// Law: stepping to the clockwise neighbour and then to its
/// counter-clockwise neighbour returns to the same coordinate, and the
/// other way around.
pub proof fn lemma_neighbour_round_trip(d: &CircularDist, c: CircleCoordinate, n: CircleCoordinate)
    requires
        d.wf(),
        d.coord_in_grid(c),
    ensures
        d.spec_neighbour(c, Direction::Clockwise) == Some(n) ==> d.spec_neighbour(
            n,
            Direction::CounterClockwise,
        ) == Some(c),
        d.spec_neighbour(c, Direction::CounterClockwise) == Some(n) ==> d.spec_neighbour(
            n,
            Direction::Clockwise,
        ) == Some(c),
{
    let steps = spec_steps(c.circle as nat, d.inner_slices as nat);
    d.lemma_coord_on_grid(c);
    lemma_steps_in_range(c.circle as nat, d.outer_circle as nat, d.inner_slices as nat);
    lemma_angle_round_trip(c.angle, steps);
    if d.spec_neighbour(c, Direction::Clockwise) == Some(n) {
        assert(n.circle == c.circle && n.angle == spec_next(c.angle, steps));
        assert(spec_prev(n.angle, steps) == c.angle);
        assert(d.coords@[c.circle as int]@.contains(c));
        assert(CircleCoordinate { circle: n.circle, angle: spec_prev(n.angle, steps) } == c);
    }
    if d.spec_neighbour(c, Direction::CounterClockwise) == Some(n) {
        assert(n.circle == c.circle && n.angle == spec_prev(c.angle, steps));
        assert(spec_next(n.angle, steps) == c.angle);
        assert(d.coords@[c.circle as int]@.contains(c));
        assert(CircleCoordinate { circle: n.circle, angle: spec_next(n.angle, steps) } == c);
    }
}

/// A coordinate list closed under the neighbour relation: every
/// existing neighbour of a listed coordinate is itself listed.
pub open spec fn path_closed(d: CircularDist, path: Seq<CircleCoordinate>) -> bool {
    forall|k: int, dir: Direction|
        0 <= k < path.len() ==> match #[trigger] d.spec_neighbour(path[k], dir) {
            Some(n) => path.contains(n),
            None => true,
        }
}

/// On a full grid, a neighbour-closed list holding a coordinate also
/// holds the zero-angle coordinate of the same ring: walking clockwise
/// step by step reaches it.
proof fn lemma_walk_to_zero(d: &CircularDist, path: Seq<CircleCoordinate>, c: CircleCoordinate)
    requires
        d.wf(),
        d.full_grid(),
        path_closed(*d, path),
        path.contains(c),
        d.coord_in_grid(c),
    ensures
        path.contains(spec_coord(c.circle as nat, d.inner_slices as nat, 0)),
    decreases
            spec_steps(c.circle as nat, d.inner_slices as nat) - step_of(
                c.angle,
                spec_steps(c.circle as nat, d.inner_slices as nat),
            ),
{
    let s = d.inner_slices as nat;
    let r = c.circle as nat;
    let dd = spec_steps(r, s);
    d.lemma_coord_on_grid(c);
    lemma_steps_in_range(r, d.outer_circle as nat, s);
    let k = step_of(c.angle, dd);
    lemma_step_bound(c.angle, dd);
    lemma_reduced_identity(c.angle, dd);
    assert(c == spec_coord(r, s, k));
    if k != 0 {
        let k2 = ((k + 1) % dd) as nat;
        if k + 1 == dd {
            lemma_mod_self_0(dd as int);
            assert(k2 == 0);
        } else {
            lemma_small_mod((k + 1) as nat, dd);
            assert(k2 == k + 1);
        }
        lemma_reduced_props(k2, dd);
        let n = spec_coord(r, s, k2);
        assert(spec_next(c.angle, dd) == n.angle);
        assert(step_of(n.angle, dd) == k2 && k2 != k);
        assert(n.angle != c.angle);
        assert(d.coords@[c.circle as int]@.contains(n));
        assert(d.spec_neighbour(c, Direction::Clockwise) == Some(n));
        let w = choose|w: int| 0 <= w < path.len() && path[w] == c;
        assert(match d.spec_neighbour(path[w], Direction::Clockwise) {
            Some(m) => path.contains(m),
            None => true,
        });
        assert(path.contains(n));
        if k2 != 0 {
            assert(n.circle == c.circle && d.coord_in_grid(n));
            lemma_walk_to_zero(d, path, n);
        }
    }
}

/// On a full grid, a neighbour-closed list holding a ring's zero
/// coordinate also holds the outermost ring's zero coordinate: the
/// zero angle exists on every ring, so the list climbs outward.
proof fn lemma_climb_to_outer(d: &CircularDist, path: Seq<CircleCoordinate>, r: nat)
    requires
        d.wf(),
        d.full_grid(),
        path_closed(*d, path),
        (r as int) < d.coords@.len(),
        path.contains(spec_coord(r, d.inner_slices as nat, 0)),
    ensures
        path.contains(spec_coord((d.coords@.len() - 1) as nat, d.inner_slices as nat, 0)),
    decreases d.coords@.len() - r,
{
    let s = d.inner_slices as nat;
    if (r as int) < d.coords@.len() - 1 {
        let z = spec_coord(r, s, 0);
        let z2 = spec_coord((r + 1) as nat, s, 0);
        assert((r + 1) * s >= 1 && (r + 1 + 1) * s >= 1) by (nonlinear_arith)
            requires s >= 1,
        ;
        lemma_reduced_zero(spec_steps(r, s));
        lemma_reduced_zero(spec_steps((r + 1) as nat, s));
        assert(z2.angle == z.angle);
        assert(z.circle as int == r && z2.circle as int == r + 1);
        assert(d.coords@[r as int + 1]@.contains(z2));
        assert(d.spec_neighbour(z, Direction::Out) == Some(z2));
        let w = choose|w: int| 0 <= w < path.len() && path[w] == z;
        assert(match d.spec_neighbour(path[w], Direction::Out) {
            Some(m) => path.contains(m),
            None => true,
        });
        assert(path.contains(z2));
        lemma_climb_to_outer(d, path, (r + 1) as nat);
    }
}

/// On a full grid, a nonempty neighbour-closed coordinate list always
/// reaches the outermost ring: following its first coordinate's ring
/// clockwise to the zero angle and then outward ring by ring lands on
/// the outermost ring's zero coordinate. A list of strictly interior
/// coordinates therefore cannot be closed.
pub proof fn lemma_closed_reaches_outer(d: &CircularDist, path: Seq<CircleCoordinate>)
    requires
        d.wf(),
        d.full_grid(),
        path.len() > 0,
        forall|k: int| 0 <= k < path.len() ==> d.coord_in_grid(#[trigger] path[k]),
        path_closed(*d, path),
    ensures
        path.contains(
            spec_coord((d.coords@.len() - 1) as nat, d.inner_slices as nat, 0),
        ),
        spec_coord((d.coords@.len() - 1) as nat, d.inner_slices as nat, 0).circle as int
            == d.coords@.len() - 1,
{
    let c = path[0];
    assert(path.contains(c));
    lemma_walk_to_zero(d, path, c);
    lemma_climb_to_outer(d, path, c.circle as nat);
}

/// The neighbour relation reads only the geometry, so it is the same
/// in any two states that share the grid.
pub proof fn lemma_neighbour_stable(
    a: CircularDist,
    b: CircularDist,
    c: CircleCoordinate,
    dir: Direction,
)
    requires
        same_grid(a, b),
    ensures
        a.spec_neighbour(c, dir) == b.spec_neighbour(c, dir),
{
    assert(b.coords@ == a.coords@);
    assert(b.inner_slices == a.inner_slices);
}

/// Grid fullness reads only the geometry, so it is the same in any two
/// states that share the grid.
pub proof fn lemma_full_grid_stable(a: CircularDist, b: CircularDist)
    requires
        same_grid(a, b),
    ensures
        a.full_grid() == b.full_grid(),
{
    assert(b.coords@ == a.coords@);
    assert(b.inner_slices == a.inner_slices);
    if a.full_grid() {
        assert forall|r: int, k: nat|
            0 <= r < b.coords@.len() && k < spec_steps(
                r as nat,
                b.inner_slices as nat,
            ) implies #[trigger] b.coords@[r]@.contains(
            spec_coord(r as nat, b.inner_slices as nat, k),
        ) by {
            assert(a.coords@[r]@.contains(spec_coord(r as nat, a.inner_slices as nat, k)));
        }
    }
    if b.full_grid() {
        assert forall|r: int, k: nat|
            0 <= r < a.coords@.len() && k < spec_steps(
                r as nat,
                a.inner_slices as nat,
            ) implies #[trigger] a.coords@[r]@.contains(
            spec_coord(r as nat, a.inner_slices as nat, k),
        ) by {
            assert(b.coords@[r]@.contains(spec_coord(r as nat, b.inner_slices as nat, k)));
        }
    }
}

/// Claim inclusion is transitive.
pub proof fn lemma_claims_sub_trans(a: CircularDist, b: CircularDist, c: CircularDist)
    requires
        same_grid(a, b),
        claims_sub(a, b),
        claims_sub(b, c),
    ensures
        claims_sub(a, c),
{
    assert forall|r: int, i: int|
        0 <= r < a.claimed@.len() && 0 <= i < a.claimed@[r]@.len() && #[trigger] a.claimed@[r]@[i]
            implies #[trigger] c.claimed@[r]@[i] by {
        assert(b.claimed@[r]@[i]);
    }
}

/// Law: claiming is monotonic. A coordinate that is claimed stays
/// claimed across any later state that only adds claims, so a further
/// claim attempt on it reports Taken.
pub proof fn lemma_claim_monotonic(pre: CircularDist, post: CircularDist, c: CircleCoordinate)
    requires
        pre.wf(),
        same_grid(pre, post),
        claims_sub(pre, post),
        pre.is_claimed(c),
    ensures
        post.is_claimed(c),
{
    let r = c.circle as int;
    let j = choose|j: int|
        0 <= j < pre.coords@[r]@.len() && pre.coords@[r]@[j] == c && pre.claimed@[r]@[j];
    assert(0 <= r < pre.claimed@.len());
    assert(0 <= j < pre.claimed@[r]@.len());
    assert(post.claimed@[r]@[j]);
    assert(post.coords@[r]@[j] == c);
}

/// Once the outermost ring is wholly claimed it stays so.
pub proof fn lemma_outer_claimed_monotonic(pre: CircularDist, post: CircularDist)
    requires
        pre.wf(),
        same_grid(pre, post),
        claims_sub(pre, post),
        pre.outer_ring_claimed(),
    ensures
        post.outer_ring_claimed(),
{
    let o = pre.claimed@.len() - 1;
    assert forall|i: int|
        0 <= i < post.claimed@[post.claimed@.len() - 1]@.len() implies #[trigger] post.claimed_at(
        post.claimed@.len() - 1,
        i,
    ) by {
        assert(post.claimed@[o]@.len() == pre.claimed@[o]@.len());
        assert(pre.claimed_at(o, i));
        assert(pre.claimed@[o]@[i]);
        assert(post.claimed@[o]@[i]);
    }
}

/// While the outermost ring is wholly claimed, an unclaimed grid
/// coordinate must lie strictly inside it.
pub proof fn lemma_unclaimed_is_interior(d: &CircularDist, c: CircleCoordinate)
    requires
        d.wf(),
        d.outer_ring_claimed(),
        d.coord_in_grid(c),
        !d.is_claimed(c),
    ensures
        (c.circle as int) < d.coords@.len() - 1,
{
    let r = c.circle as int;
    if r == d.coords@.len() - 1 {
        let j = choose|j: int| 0 <= j < d.coords@[r]@.len() && d.coords@[r]@[j] == c;
        assert(d.claimed@[r]@.len() == d.coords@[r]@.len());
        assert(d.claimed_at(r, j));
        assert(d.claimed@[r]@[j]);
        assert(d.is_claimed(c));
    }
}

/// Setting one clear flag claims exactly that coordinate: nothing else
/// becomes claimed.
proof fn lemma_claim_one(pre: CircularDist, post: CircularDist, r: int, i: int)
    requires
        pre.wf(),
        post.wf(),
        same_grid(pre, post),
        0 <= r < pre.coords@.len(),
        0 <= i < pre.coords@[r]@.len(),
        post.claimed_at(r, i),
        !pre.claimed_at(r, i),
        forall|r2: int, i2: int|
            0 <= r2 < pre.claimed@.len() && 0 <= i2 < pre.claimed@[r2]@.len() && !(r2 == r && i2
                == i) ==> #[trigger] post.claimed_at(r2, i2) == pre.claimed_at(r2, i2),
    ensures
        !pre.is_claimed(pre.coords@[r]@[i]),
        post.is_claimed(pre.coords@[r]@[i]),
        forall|c2: CircleCoordinate| #[trigger]
            post.is_claimed(c2) ==> c2 == pre.coords@[r]@[i] || pre.is_claimed(c2),
{
    let c = pre.coords@[r]@[i];
    assert(c.circle as int == r);
    if pre.is_claimed(c) {
        let j = choose|j: int|
            0 <= j < pre.coords@[r]@.len() && pre.coords@[r]@[j] == c && pre.claimed@[r]@[j];
        assert(j == i);
        assert(false);
    }
    assert(post.coords@[r]@[i] == c);
    assert(post.is_claimed(c));
    assert forall|c2: CircleCoordinate| #[trigger] post.is_claimed(c2) implies c2 == c
        || pre.is_claimed(c2) by {
        let rc = c2.circle as int;
        let j = choose|j: int|
            0 <= j < post.coords@[rc]@.len() && post.coords@[rc]@[j] == c2 && post.claimed@[rc]@[j];
        if rc == r && j == i {
            assert(c2 == c);
        } else {
            assert(0 <= rc < pre.claimed@.len());
            assert(0 <= j < pre.claimed@[rc]@.len());
            assert(post.claimed_at(rc, j) == pre.claimed_at(rc, j));
            assert(pre.claimed@[rc]@[j]);
            assert(pre.coords@[rc]@[j] == c2);
        }
    }
}

impl CircularDist {
    /// Claim the coordinate of a ring at a given angle, if the ring
    /// holds one, and report its previous state.
    fn claim_candidate(&mut self, target: usize, angle: Angle) -> (r: Option<
        (CircleCoordinate, CellState),
    >)
        requires
            old(self).wf(),
            target < old(self).coords@.len(),
        ensures
            final(self).wf(),
            same_grid(*old(self), *final(self)),
            claims_sub(*old(self), *final(self)),
            match r {
                None => {
                    &&& *final(self) == *old(self)
                    &&& !old(self).coords@[target as int]@.contains(
                        CircleCoordinate { circle: target as u32, angle },
                    )
                },
                Some((n, st)) => {
                    &&& n == (CircleCoordinate { circle: target as u32, angle })
                    &&& old(self).coord_in_grid(n)
                    &&& (st == CellState::Taken <==> old(self).is_claimed(n))
                    &&& final(self).is_claimed(n)
                    &&& (st == CellState::Taken ==> *final(self) == *old(self))
                    &&& (st == CellState::Free ==> final(self).count_claimed() == old(
                        self,
                    ).count_claimed() + 1 && !old(self).is_claimed(n) && forall|
                        c2: CircleCoordinate,
                    | #[trigger]
                        final(self).is_claimed(c2) ==> c2 == n || old(self).is_claimed(c2))
                },
            },
    {
        let cand = CircleCoordinate { circle: target as u32, angle };
        let found = find_coord(&self.coords[target], cand);
        match found {
            None => None,
            Some(i) => {
                let st = self.take_at(target, i);
                proof {
                    let pre = *old(self);
                    assert(pre.coords@[target as int]@[i as int] == cand);
                    if st == CellState::Free {
                        lemma_claim_one(pre, *self, target as int, i as int);
                    } else {
                        assert(pre.claimed@[target as int]@[i as int]);
                        assert(pre.is_claimed(cand));
                        assert(self.is_claimed(cand));
                    }
                    if pre.is_claimed(cand) {
                        let j = choose|j: int|
                            0 <= j < pre.coords@[target as int]@.len() && pre.coords@[
                            target as int]@[j] == cand && pre.claimed@[target as int]@[j];
                        assert(j == i as int);
                        assert(st == CellState::Taken);
                    }
                }
                let c = self.coords[target][i];
                Some((c, st))
            },
        }
    }

    /// Claim a randomly chosen coordinate of the outermost ring and
    /// report whether it was already claimed.
    pub fn take_from_outer_circle(&mut self) -> (r: (CircleCoordinate, CellState))
        requires
            old(self).wf(),
        ensures
            final(self).wf(),
            same_grid(*old(self), *final(self)),
            claims_sub(*old(self), *final(self)),
            r.0.circle == old(self).outer_circle,
            old(self).coord_in_grid(r.0),
            (r.1 == CellState::Taken <==> old(self).is_claimed(r.0)),
            final(self).is_claimed(r.0),
            r.1 == CellState::Taken ==> *final(self) == *old(self),
            r.1 == CellState::Free ==> final(self).count_claimed() == old(self).count_claimed() + 1
                && !old(self).is_claimed(r.0) && forall|c2: CircleCoordinate| #[trigger]
                final(self).is_claimed(c2) ==> c2 == r.0 || old(self).is_claimed(c2),
    {
        let outer = self.coords.len() - 1;
        let n = self.coords[outer].len();
        let i = random_nr(n);
        let ghost cand = self.coords@[outer as int]@[i as int];
        let st = self.take_at(outer, i);
        proof {
            let pre = *old(self);
            assert(pre.coords@[outer as int]@.contains(cand)) by {
                assert(pre.coords@[outer as int]@[i as int] == cand);
            }
            if st == CellState::Free {
                lemma_claim_one(pre, *self, outer as int, i as int);
            } else {
                assert(pre.is_claimed(cand)) by {
                    assert(pre.coords@[outer as int]@[i as int] == cand && pre.claimed@[
                    outer as int]@[i as int]);
                }
                assert(self.is_claimed(cand));
            }
            if pre.is_claimed(cand) {
                let j = choose|j: int|
                    0 <= j < pre.coords@[outer as int]@.len() && pre.coords@[outer as int]@[j]
                        == cand && pre.claimed@[outer as int]@[j];
                assert(j == i as int);
                assert(st == CellState::Taken);
            }
        }
        (self.coords[outer][i], st)
    }

    /// Claim every coordinate of the outermost ring.
    pub fn consume_outer_circle(&mut self)
        requires
            old(self).wf(),
        ensures
            final(self).wf(),
            same_grid(*old(self), *final(self)),
            claims_sub(*old(self), *final(self)),
            final(self).outer_ring_claimed(),
            forall|r2: int, i2: int|
                0 <= r2 < old(self).claimed@.len() - 1 && 0 <= i2 < old(self).claimed@[r2]@.len()
                    ==> final(self).claimed_at(r2, i2) == old(self).claimed_at(r2, i2),
    {
        let outer = self.coords.len() - 1;
        let n = self.coords[outer].len();
        let mut i: usize = 0;
        while i < n
            invariant
                self.wf(),
                same_grid(*old(self), *self),
                claims_sub(*old(self), *self),
                outer as int == self.coords@.len() - 1,
                n == self.coords@[outer as int]@.len(),
                i <= n,
                forall|j: int| 0 <= j < i ==> self.claimed_at(outer as int, j),
                forall|r2: int, i2: int|
                    0 <= r2 < old(self).claimed@.len() - 1 && 0 <= i2 < old(self).claimed@[r2]@.len()
                        ==> self.claimed_at(r2, i2) == old(self).claimed_at(r2, i2),
            decreases n - i,
        {
            let ghost mid = *self;
            let st = self.take_at(outer, i);
            proof {
                lemma_claims_sub_trans(*old(self), mid, *self);
            }
            i = i + 1;
        }
    }

    /// Claim one randomly chosen unclaimed coordinate of the whole
    /// grid, or report that every coordinate is claimed.
    pub fn take_free(&mut self) -> (r: Option<CircleCoordinate>)
        requires
            old(self).wf(),
        ensures
            final(self).wf(),
            same_grid(*old(self), *final(self)),
            claims_sub(*old(self), *final(self)),
            match r {
                None => {
                    &&& *final(self) == *old(self)
                    &&& final(self).all_claimed()
                },
                Some(c) => {
                    &&& old(self).coord_in_grid(c)
                    &&& !old(self).is_claimed(c)
                    &&& final(self).is_claimed(c)
                    &&& final(self).count_claimed() == old(self).count_claimed() + 1
                    &&& forall|c2: CircleCoordinate| #[trigger]
                        final(self).is_claimed(c2) ==> c2 == c || old(self).is_claimed(c2)
                },
            },
    {
        let mut options: Vec<(usize, usize)> = Vec::new();
        let mut r: usize = 0;
        while r < self.coords.len()
            invariant
                self.wf(),
                r <= self.coords@.len(),
                forall|t: int|
                    0 <= t < options@.len() ==> {
                        &&& (#[trigger] options@[t]).0 < self.coords@.len()
                        &&& options@[t].1 < self.coords@[options@[t].0 as int]@.len()
                        &&& !self.claimed_at(options@[t].0 as int, options@[t].1 as int)
                    },
                options@.len() == 0 ==> forall|r2: int, i2: int|
                    0 <= r2 < r && 0 <= i2 < self.claimed@[r2]@.len() ==> #[trigger] self.claimed@[r2]@[i2],
            decreases self.coords@.len() - r,
        {
            let n = self.claimed[r].len();
            let mut i: usize = 0;
            while i < n
                invariant
                    self.wf(),
                    r < self.coords@.len(),
                    n == self.claimed@[r as int]@.len(),
                    i <= n,
                    forall|t: int|
                        0 <= t < options@.len() ==> {
                            &&& (#[trigger] options@[t]).0 < self.coords@.len()
                            &&& options@[t].1 < self.coords@[options@[t].0 as int]@.len()
                            &&& !self.claimed_at(options@[t].0 as int, options@[t].1 as int)
                        },
                    options@.len() == 0 ==> forall|r2: int, i2: int|
                        0 <= r2 < r && 0 <= i2 < self.claimed@[r2]@.len() ==> #[trigger] self.claimed@[r2]@[i2],
                    options@.len() == 0 ==> forall|i2: int|
                        0 <= i2 < i ==> #[trigger] self.claimed@[r as int]@[i2],
                decreases n - i,
            {
                if !self.claimed[r][i] {
                    options.push((r, i));
                }
                i = i + 1;
            }
            r = r + 1;
        }
        if options.len() == 0 {
            return None;
        }
        let pick = random_nr(options.len());
        let p = options[pick];
        let rr = p.0;
        let ii = p.1;
        let ghost cand = self.coords@[rr as int]@[ii as int];
        let st = self.take_at(rr, ii);
        proof {
            let pre = *old(self);
            assert(st == CellState::Free);
            lemma_claim_one(pre, *self, rr as int, ii as int);
            assert(pre.coords@[rr as int]@.contains(cand)) by {
                assert(pre.coords@[rr as int]@[ii as int] == cand);
            }
        }
        Some(self.coords[rr][ii])
    }

    /// Compute the neighbouring coordinate in one direction by exact
    /// angle arithmetic, claim it if the grid holds it, and report its
    /// previous state. None when no such grid position exists.
    pub fn take_neighbour(&mut self, coord: &CircleCoordinate, direction: &Direction) -> (r: Option<
        (CircleCoordinate, CellState),
    >)
        requires
            old(self).wf(),
            old(self).coord_in_grid(*coord),
        ensures
            final(self).wf(),
            same_grid(*old(self), *final(self)),
            claims_sub(*old(self), *final(self)),
            match r {
                None => {
                    &&& *final(self) == *old(self)
                    &&& old(self).spec_neighbour(*coord, *direction) is None
                },
                Some((n, st)) => {
                    &&& old(self).spec_neighbour(*coord, *direction) == Some(n)
                    &&& old(self).coord_in_grid(n)
                    &&& (st == CellState::Taken <==> old(self).is_claimed(n))
                    &&& final(self).is_claimed(n)
                    &&& (st == CellState::Taken ==> *final(self) == *old(self))
                    &&& (st == CellState::Free ==> final(self).count_claimed() == old(
                        self,
                    ).count_claimed() + 1 && !old(self).is_claimed(n) && forall|
                        c2: CircleCoordinate,
                    | #[trigger]
                        final(self).is_claimed(c2) ==> c2 == n || old(self).is_claimed(c2))
                },
            },
    {
        match direction {
            Direction::In => {
                if coord.circle == 0 {
                    return None;
                }
                let target = (coord.circle - 1) as usize;
                self.claim_candidate(target, coord.angle)
            },
            Direction::Out => {
                if coord.circle >= self.outer_circle {
                    return None;
                }
                let target = (coord.circle + 1) as usize;
                self.claim_candidate(target, coord.angle)
            },
            Direction::Clockwise => {
                proof {
                    self.lemma_coord_on_grid(*coord);
                    lemma_steps_in_range(
                        coord.circle as nat,
                        self.outer_circle as nat,
                        self.inner_slices as nat,
                    );
                }
                let d: u64 = (coord.circle as u64 + 1) * (self.inner_slices as u64);
                let a2 = coord.angle.next_on_ring(d);
                if a2 == coord.angle {
                    return None;
                }
                self.claim_candidate(coord.circle as usize, a2)
            },
            Direction::CounterClockwise => {
                proof {
                    self.lemma_coord_on_grid(*coord);
                    lemma_steps_in_range(
                        coord.circle as nat,
                        self.outer_circle as nat,
                        self.inner_slices as nat,
                    );
                }
                let d: u64 = (coord.circle as u64 + 1) * (self.inner_slices as u64);
                let a2 = coord.angle.prev_on_ring(d);
                if a2 == coord.angle {
                    return None;
                }
                self.claim_candidate(coord.circle as usize, a2)
            },
        }
    }

    /// A coordinate the grid holds lies on its own ring's step grid.
    pub proof fn lemma_coord_on_grid(&self, c: CircleCoordinate)
        requires
            self.wf(),
            self.coord_in_grid(c),
        ensures
            on_grid(c.angle, spec_steps(c.circle as nat, self.inner_slices as nat)),
            c.circle < self.coords@.len(),
    {
        let r = c.circle as int;
        let j = choose|j: int| 0 <= j < self.coords@[r]@.len() && self.coords@[r]@[j] == c;
        assert(on_grid(
            self.coords@[r]@[j].angle,
            spec_steps(r as nat, self.inner_slices as nat),
        ));
    }
}

/// Find a coordinate in one ring list.
fn find_coord(ring: &Vec<CircleCoordinate>, c: CircleCoordinate) -> (r: Option<usize>)
    ensures
        match r {
            Some(i) => i < ring@.len() && ring@[i as int] == c,
            None => !ring@.contains(c),
        },
{
    let mut i: usize = 0;
    while i < ring.len()
        invariant
            i <= ring@.len(),
            forall|j: int| 0 <= j < i ==> ring@[j] != c,
        decreases ring@.len() - i,
    {
        if ring[i] == c {
            return Some(i);
        }
        i = i + 1;
    }
    None
}

/// A row of clear flags.
fn false_row(n: usize) -> (r: Vec<bool>)
    ensures
        r@.len() == n,
        forall|i: int| 0 <= i < n ==> !r@[i],
{
    let mut r: Vec<bool> = Vec::new();
    let mut i: usize = 0;
    while i < n
        invariant
            i <= n,
            r@.len() == i,
            forall|j: int| 0 <= j < i ==> !r@[j],
        decreases n - i,
    {
        r.push(false);
        i = i + 1;
    }
    r
}

impl CircularGrid {
    /// A fresh distributor over this grid: the same geometry with no
    /// coordinate claimed yet.
    pub fn dist(&self) -> (d: CircularDist)
        requires
            self.wf(),
        ensures
            d.wf(),
            d.outer_circle == self.outer_circle,
            d.inner_slices == self.inner_slices,
            d.coords@.len() == self.coords@.len(),
            forall|r: int| 0 <= r < self.coords@.len() ==> #[trigger] d.coords@[r]@ == self.coords@[r]@,
            forall|r: int, i: int|
                0 <= r < d.claimed@.len() && 0 <= i < d.claimed@[r]@.len() ==> !#[trigger] d.claimed@[r]@[i],
            self.min_num == 0 ==> d.full_grid(),
    {
        let mut coords: Vec<Vec<CircleCoordinate>> = Vec::new();
        let mut claimed: Vec<Vec<bool>> = Vec::new();
        let mut r: usize = 0;
        while r < self.coords.len()
            invariant
                self.wf(),
                r <= self.coords@.len(),
                coords@.len() == r,
                claimed@.len() == r,
                forall|r2: int| 0 <= r2 < r ==> #[trigger] coords@[r2]@ == self.coords@[r2]@,
                forall|r2: int|
                    0 <= r2 < r ==> #[trigger] claimed@[r2]@.len() == self.coords@[r2]@.len(),
                forall|r2: int, i: int|
                    0 <= r2 < r && 0 <= i < claimed@[r2]@.len() ==> !#[trigger] claimed@[r2]@[i],
            decreases self.coords@.len() - r,
        {
            let mut ring: Vec<CircleCoordinate> = Vec::new();
            let n = self.coords[r].len();
            let mut i: usize = 0;
            while i < n
                invariant
                    self.wf(),
                    r < self.coords@.len(),
                    n == self.coords@[r as int]@.len(),
                    i <= n,
                    ring@.len() == i,
                    forall|j: int| 0 <= j < i ==> #[trigger] ring@[j] == self.coords@[r as int]@[j],
                decreases n - i,
            {
                let c = self.coords[r][i];
                ring.push(c);
                i = i + 1;
            }
            assert(ring@ =~= self.coords@[r as int]@);
            let flags = false_row(n);
            coords.push(ring);
            claimed.push(flags);
            r = r + 1;
        }
        let d = CircularDist {
            outer_circle: self.outer_circle,
            inner_slices: self.inner_slices,
            coords,
            claimed,
        };
        proof {
            lemma_grid_rings_ok(self, &d);
            if self.min_num == 0 {
                let slices = self.inner_slices as nat;
                assert forall|r2: int, k: nat|
                    0 <= r2 < d.coords@.len() && k < spec_steps(
                        r2 as nat,
                        slices,
                    ) implies #[trigger] d.coords@[r2]@.contains(
                    spec_coord(r2 as nat, slices, k),
                ) by {
                    lemma_steps_in_range(r2 as nat, self.outer_circle as nat, slices);
                    lemma_ring_complete_zero_min(r2 as nat, slices, self.min_den as nat, k);
                }
            }
        }
        d
    }
}

/// A distributor built over a well-formed grid is itself well formed:
/// each ring list carries only coordinates of its own ring, all on the
/// ring's step grid, pairwise distinct, and nonempty.
proof fn lemma_grid_rings_ok(g: &CircularGrid, d: &CircularDist)
    requires
        g.wf(),
        d.outer_circle == g.outer_circle,
        d.inner_slices == g.inner_slices,
        d.coords@.len() == g.coords@.len(),
        forall|r: int| 0 <= r < g.coords@.len() ==> #[trigger] d.coords@[r]@ == g.coords@[r]@,
        d.claimed@.len() == d.coords@.len(),
        forall|r: int|
            0 <= r < d.coords@.len() ==> #[trigger] d.claimed@[r]@.len() == d.coords@[r]@.len(),
    ensures
        d.wf(),
{
    let slices = g.inner_slices as nat;
    assert forall|r: int| 0 <= r < d.coords@.len() implies #[trigger] d.coords@[r]@.len() >= 1 by {
        lemma_steps_in_range(r as nat, g.outer_circle as nat, slices);
        lemma_ring_sorted(r as nat, slices, g.min_num as nat, g.min_den as nat);
    }
    assert forall|r: int, i: int|
        0 <= r < d.coords@.len() && 0 <= i < d.coords@[r]@.len() implies (
    #[trigger] d.coords@[r]@[i]).circle as int == r && on_grid(
        d.coords@[r]@[i].angle,
        spec_steps(r as nat, slices),
    ) by {
        lemma_steps_in_range(r as nat, g.outer_circle as nat, slices);
        lemma_ring_sorted(r as nat, slices, g.min_num as nat, g.min_den as nat);
        assert(ring_elem_ok(r as nat, slices, g.min_num as nat, g.min_den as nat, d.coords@[r]@[i]));
    }
    assert forall|r: int, i: int, j: int|
        0 <= r < d.coords@.len() && 0 <= i < d.coords@[r]@.len() && 0 <= j < d.coords@[r]@.len()
            && i != j implies #[trigger] d.coords@[r]@[i] != #[trigger] d.coords@[r]@[j] by {
        lemma_steps_in_range(r as nat, g.outer_circle as nat, slices);
        lemma_ring_sorted(r as nat, slices, g.min_num as nat, g.min_den as nat);
        if i < j {
            assert(angle_lt(d.coords@[r]@[i].angle, d.coords@[r]@[j].angle));
        } else {
            assert(angle_lt(d.coords@[r]@[j].angle, d.coords@[r]@[i].angle));
        }
    }
}

/// Every ring of the grid has a step count within the machine bound.
proof fn lemma_steps_in_range(circle: nat, outer: nat, slices: nat)
    requires
        circle <= outer,
        spec_steps(outer, slices) <= u32::MAX,
    ensures
        spec_steps(circle, slices) <= u32::MAX,
{
    lemma_steps_monotonic(circle, outer, slices);
}

/// Walk the candidate steps of one ring and keep the valid ones.
fn build_ring(circle: u32, slices: u32, min_num: u32, min_den: u32) -> (r: Vec<CircleCoordinate>)
    requires
        slices > 0,
        min_den > 0,
        spec_steps(circle as nat, slices as nat) <= u32::MAX,
    ensures
        r@ == spec_ring(circle as nat, slices as nat, min_num as nat, min_den as nat),
{
    proof {
        assert((circle as int) * (slices as int) >= 0 && (circle as int) * (slices as int) <= (
        circle as int + 1) * (slices as int) && (circle as int + 1) * (slices as int) >= slices
            as int) by (nonlinear_arith)
            requires slices > 0,
        ;
    }
    let d: u64 = (circle as u64 + 1) * (slices as u64);
    let dc: u64 = (circle as u64) * (slices as u64);
    let mut result: Vec<CircleCoordinate> = Vec::new();
    let mut k: u64 = 0;
    while k < d
        invariant
            k <= d,
            d == spec_steps(circle as nat, slices as nat),
            dc == (circle as nat) * (slices as nat),
            d <= u32::MAX,
            dc <= d,
            d > 0,
            min_den > 0,
            result@ == spec_ring_upto(
                circle as nat,
                slices as nat,
                min_num as nat,
                min_den as nat,
                k as nat,
            ),
        decreases d - k,
    {
        let valid: bool;
        if circle == 0 {
            valid = true;
        } else {
            proof {
                lemma_mul_upper_bound(k as int, u32::MAX as int, dc as int, u32::MAX as int);
            }
            let rem = (k * dc) % d;
            if rem == 0 {
                valid = true;
            } else {
                proof {
                    lemma_mul_upper_bound(rem as int, u32::MAX as int, min_den as int, u32::MAX as int);
                    lemma_mul_upper_bound(min_num as int, u32::MAX as int, dc as int, u32::MAX as int);
                    lemma_mul_upper_bound((d - rem) as int, u32::MAX as int, min_den as int, u32::MAX as int);
                }
                valid = rem * (min_den as u64) >= (min_num as u64) * dc && (d - rem) * (
                min_den as u64) >= (min_num as u64) * dc;
            }
        }
        assert(valid == valid_step(
            circle as nat,
            slices as nat,
            min_num as nat,
            min_den as nat,
            k as nat,
        ));
        if valid {
            let a = Angle::new(k, d);
            result.push(CircleCoordinate { circle, angle: a });
        }
        k = k + 1;
        assert(result@ == spec_ring_upto(
            circle as nat,
            slices as nat,
            min_num as nat,
            min_den as nat,
            k as nat,
        ));
    }
    result
}

} // verus!
