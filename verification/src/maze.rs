use vstd::prelude::*;
use crate::circular_grid::{build_grid, spec_steps};
use crate::components::{Border, MazeError};
use crate::maze_builder::{borders_wf, build_maze, no_mergeable_pair};

verus! {

/// The base angular subdivision used when none is chosen by the
/// caller.
pub const INNER_CIRCLE_PARTS: u32 = 5;

/// The number of angular steps on one ring under the default base
/// subdivision.
pub fn steps_in_circle(circle: u32) -> (r: u32)
    requires
        (circle as nat + 1) * (INNER_CIRCLE_PARTS as nat) <= u32::MAX,
    ensures
        r as nat == spec_steps(circle as nat, INNER_CIRCLE_PARTS as nat),
{
    proof {
        assert(circle as nat + 1 <= (circle as nat + 1) * (INNER_CIRCLE_PARTS as nat))
            by (nonlinear_arith)
            requires INNER_CIRCLE_PARTS >= 1,
        ;
    }
    (circle + 1) * INNER_CIRCLE_PARTS
}

/// Generate a maze: enumerate the grid, seed and close the outermost
/// ring, and carve until every coordinate is claimed. The wall list
/// that comes back is well oriented and minimal — no two same-kind
/// segments are left unmerged — and holds the closed outer-ring
/// boundary. A configuration without rings or without slices is
/// rejected. With a zero minimum distance every ring is full and every
/// coordinate chains to the outermost ring, so generation succeeds;
/// a positive minimum distance can prune a coordinate's every
/// neighbour, and a carving walk seeded there exhausts its moves,
/// the internal invariant violation reported instead of a panic.
pub fn create_maze(circles: u32, inner_slices: u32, min_num: u32, min_den: u32) -> (r: Result<
    Vec<Border>,
    MazeError,
>)
    requires
        (circles as nat + 1) * (inner_slices as nat) <= u32::MAX,
        min_den > 0,
    ensures
        r == Err::<Vec<Border>, MazeError>(MazeError::InvalidConfiguration) <==> (circles == 0
            || inner_slices == 0),
        circles >= 1 && inner_slices >= 1 && min_num == 0 ==> r is Ok,
        match r {
            Ok(bs) => {
                &&& no_mergeable_pair(bs@)
                &&& borders_wf(bs@)
                &&& bs@.len() >= 1
                &&& exists|i: int|
                    0 <= i < bs@.len() && (#[trigger] bs@[i]).start == bs@[i].end
                        && bs@[i].start.circle == circles
            },
            Err(e) => e == MazeError::InvalidConfiguration || e == MazeError::CarvingExhausted,
        },
{
    let grid = match build_grid(circles, inner_slices, min_num, min_den) {
        Ok(g) => g,
        Err(e) => {
            return Err(e);
        },
    };
    let mut d = grid.dist();
    build_maze(&mut d)
}

} // verus!
