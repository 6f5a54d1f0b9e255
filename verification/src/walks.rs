//! Randomized self-avoiding walks over the fillable cells of a grid.

use crate::grid::{
    all_fillable_visited, marks_one, same_grid, same_occupancy, visited_monotone, Grid,
};
use crate::rng::{xorshift_pick, xorshift_step, RandomSource};
use vstd::prelude::*;

verus! {

broadcast use vstd::seq_lib::lemma_seq_contains_after_push;

/// Maximum number of points a walk may gain after its start, so a walk holds
/// at most `MAX_EXTRA_STEPS + 1` points.
pub const MAX_EXTRA_STEPS: usize = 9;

/// An ordered, non-empty sequence of grid coordinates `(x, y)`.
pub struct Walk {
    pub points: Vec<(usize, usize)>,
}

/// The two cells differ by at most one in each axis and are not equal:
/// 8-directional adjacency.
pub open spec fn adjacent8(a: (usize, usize), b: (usize, usize)) -> bool {
    let dx = b.0 as int - a.0 as int;
    let dy = b.1 as int - a.1 as int;
    &&& -1 <= dx <= 1
    &&& -1 <= dy <= 1
    &&& !(dx == 0 && dy == 0)
}

/// `p` is a legal next step from `from`: in bounds, fillable, unvisited and
/// 8-adjacent.
pub open spec fn step_candidate(g: Grid, from: (usize, usize), p: (usize, usize)) -> bool {
    &&& g.in_bounds(p.0 as int, p.1 as int)
    &&& g.fillable(p.0 as int, p.1 as int)
    &&& !g.visited(p.0 as int, p.1 as int)
    &&& adjacent8(from, p)
}

/// A valid emitted walk over `g`: non-empty, within the length bound, all
/// points in bounds and fillable, pairwise distinct, and consecutive points
/// 8-adjacent.
pub open spec fn walk_ok(g: Grid, pts: Seq<(usize, usize)>) -> bool {
    &&& 1 <= pts.len() <= MAX_EXTRA_STEPS + 1
    &&& forall|i: int|
        0 <= i < pts.len() ==> g.in_bounds(#[trigger] pts[i].0 as int, pts[i].1 as int)
            && g.fillable(pts[i].0 as int, pts[i].1 as int)
    &&& forall|i: int, j: int| 0 <= i < j < pts.len() ==> #[trigger] pts[i] != #[trigger] pts[j]
    &&& forall|i: int| 0 <= i < pts.len() - 1 ==> adjacent8(#[trigger] pts[i], pts[i + 1])
}

/// The start candidates of row `y` among columns `0..upto`, in column
/// order: the fillable, unvisited cells.
pub open spec fn row_starts(g: Grid, y: int, upto: int) -> Seq<(usize, usize)>
    decreases upto,
{
    if upto <= 0 {
        Seq::empty()
    } else {
        let p = row_starts(g, y, upto - 1);
        if g.fillable(upto - 1, y) && !g.visited(upto - 1, y) {
            p.push((((upto - 1) as usize), (y as usize)))
        } else {
            p
        }
    }
}

/// The start candidates of rows `0..upto_y`, row by row.
pub open spec fn starts_upto(g: Grid, upto_y: int) -> Seq<(usize, usize)>
    decreases upto_y,
{
    if upto_y <= 0 {
        Seq::empty()
    } else {
        starts_upto(g, upto_y - 1) + row_starts(g, upto_y - 1, g.width())
    }
}

/// All start candidates of the grid, in row-major order: a function of the
/// grid alone, so start scanning is deterministic.
pub open spec fn available_starts(g: Grid) -> Seq<(usize, usize)> {
    starts_upto(g, g.height())
}

/// What one `push_candidate` appends depends only on the grid's cells.
proof fn lemma_push_candidate_same_grid(
    g1: Grid,
    g2: Grid,
    s: Seq<(usize, usize)>,
    nx: int,
    ny: int,
)
    requires
        same_grid(g1, g2),
    ensures
        push_candidate(g1, s, nx, ny) == push_candidate(g2, s, nx, ny),
{
    if 0 <= nx < g1.width() && 0 <= ny < g1.height() {
        assert(g1.in_bounds(nx, ny));
        assert(g1.fillable(nx, ny) == g2.fillable(nx, ny));
        assert(g1.visited(nx, ny) == g2.visited(nx, ny));
    }
}

/// Determinism under fixed randomness, at the level of one choice: grids
/// that agree pointwise present the same start-candidate sequence and, from
/// any cell, the same step-candidate sequence. Every choice the walk
/// generator makes is a pick from one of these two sequences, and for a
/// seeded source the pick is a function of the generator state and the
/// sequence length alone (see `RandomSource::pick`), so equal grids and
/// equal seeds are offered, and take, the same cells.
pub proof fn lemma_choices_deterministic(g1: Grid, g2: Grid, x: usize, y: usize)
    requires
        same_grid(g1, g2),
    ensures
        available_starts(g1) == available_starts(g2),
        step_candidates(g1, x as int, y as int) == step_candidates(g2, x as int, y as int),
{
    lemma_available_starts_same_grid(g1, g2);
    let xi = x as int;
    let yi = y as int;
    let s1 = push_candidate(g1, Seq::empty(), xi + 1, yi);
    let s2 = push_candidate(g1, s1, xi, yi + 1);
    let s3 = push_candidate(g1, s2, xi - 1, yi);
    let s4 = push_candidate(g1, s3, xi, yi - 1);
    let s5 = push_candidate(g1, s4, xi + 1, yi + 1);
    let s6 = push_candidate(g1, s5, xi - 1, yi - 1);
    let s7 = push_candidate(g1, s6, xi + 1, yi - 1);
    lemma_push_candidate_same_grid(g1, g2, Seq::empty(), xi + 1, yi);
    lemma_push_candidate_same_grid(g1, g2, s1, xi, yi + 1);
    lemma_push_candidate_same_grid(g1, g2, s2, xi - 1, yi);
    lemma_push_candidate_same_grid(g1, g2, s3, xi, yi - 1);
    lemma_push_candidate_same_grid(g1, g2, s4, xi + 1, yi + 1);
    lemma_push_candidate_same_grid(g1, g2, s5, xi - 1, yi - 1);
    lemma_push_candidate_same_grid(g1, g2, s6, xi + 1, yi - 1);
    lemma_push_candidate_same_grid(g1, g2, s7, xi - 1, yi + 1);
}

/// Grids that agree pointwise have the same start candidates.
pub proof fn lemma_available_starts_same_grid(g1: Grid, g2: Grid)
    requires
        same_grid(g1, g2),
    ensures
        available_starts(g1) == available_starts(g2),
{
    lemma_starts_upto_same_grid(g1, g2, g1.height());
}

proof fn lemma_row_starts_same_grid(g1: Grid, g2: Grid, y: int, upto: int)
    requires
        same_grid(g1, g2),
        0 <= y < g1.height(),
        upto <= g1.width(),
    ensures
        row_starts(g1, y, upto) == row_starts(g2, y, upto),
    decreases upto,
{
    if upto > 0 {
        lemma_row_starts_same_grid(g1, g2, y, upto - 1);
        assert(g1.in_bounds(upto - 1, y));
        assert(g1.fillable(upto - 1, y) == g2.fillable(upto - 1, y));
        assert(g1.visited(upto - 1, y) == g2.visited(upto - 1, y));
    }
}

proof fn lemma_starts_upto_same_grid(g1: Grid, g2: Grid, upto_y: int)
    requires
        same_grid(g1, g2),
        upto_y <= g1.height(),
    ensures
        starts_upto(g1, upto_y) == starts_upto(g2, upto_y),
    decreases upto_y,
{
    if upto_y > 0 {
        lemma_starts_upto_same_grid(g1, g2, upto_y - 1);
        lemma_row_starts_same_grid(g1, g2, upto_y - 1, g1.width());
    }
}

/// All coordinates that are fillable and unvisited, scanned row by row.
/// These are the cells a new walk may start from: exactly
/// `available_starts`, so the scan is a deterministic function of the grid.
pub fn find_available_starts(g: &Grid) -> (v: Vec<(usize, usize)>)
    requires
        g.wf(),
    ensures
        v@ == available_starts(*g),
        forall|k: int|
            0 <= k < v@.len() ==> g.in_bounds(#[trigger] v@[k].0 as int, v@[k].1 as int)
                && g.fillable(v@[k].0 as int, v@[k].1 as int) && !g.visited(
                v@[k].0 as int,
                v@[k].1 as int,
            ),
        forall|x: int, y: int|
            g.in_bounds(x, y) && #[trigger] g.fillable(x, y) && !g.visited(x, y) ==> v@.contains(
                (x as usize, y as usize),
            ),
        forall|k1: int, k2: int| 0 <= k1 < k2 < v@.len() ==> #[trigger] v@[k1] != #[trigger] v@[k2],
{
    let h = g.num_rows();
    let w = g.num_cols();
    let mut v: Vec<(usize, usize)> = Vec::new();
    let mut y: usize = 0;
    while y < h
        invariant
            g.wf(),
            h == g.height(),
            w == g.width(),
            y <= h,
            v@ == starts_upto(*g, y as int),
            forall|k: int|
                0 <= k < v@.len() ==> g.in_bounds(#[trigger] v@[k].0 as int, v@[k].1 as int)
                    && g.fillable(v@[k].0 as int, v@[k].1 as int) && !g.visited(
                    v@[k].0 as int,
                    v@[k].1 as int,
                ),
            forall|x: int, j: int|
                0 <= x < w && 0 <= j < y && #[trigger] g.fillable(x, j) && !g.visited(x, j)
                    ==> v@.contains((x as usize, j as usize)),
            forall|k: int| 0 <= k < v@.len() ==> (#[trigger] v@[k]).1 < y,
            forall|k1: int, k2: int| 0 <= k1 < k2 < v@.len() ==> #[trigger] v@[k1] != #[trigger] v@[k2],
        decreases h - y,
    {
        let mut x: usize = 0;
        proof {
            assert(v@ =~= starts_upto(*g, y as int) + row_starts(*g, y as int, 0));
        }
        while x < w
            invariant
                g.wf(),
                h == g.height(),
                w == g.width(),
                y < h,
                x <= w,
                v@ == starts_upto(*g, y as int) + row_starts(*g, y as int, x as int),
                forall|k: int|
                    0 <= k < v@.len() ==> g.in_bounds(#[trigger] v@[k].0 as int, v@[k].1 as int)
                        && g.fillable(v@[k].0 as int, v@[k].1 as int) && !g.visited(
                        v@[k].0 as int,
                        v@[k].1 as int,
                    ),
                forall|i: int, j: int|
                    0 <= i < w && 0 <= j < y && #[trigger] g.fillable(i, j) && !g.visited(i, j)
                        ==> v@.contains((i as usize, j as usize)),
                forall|i: int|
                    0 <= i < x && #[trigger] g.fillable(i, y as int) && !g.visited(i, y as int)
                        ==> v@.contains((i as usize, y)),
                forall|k: int|
                    0 <= k < v@.len() ==> (#[trigger] v@[k]).1 < y || (v@[k].1 == y && v@[k].0
                        < x),
                forall|k1: int, k2: int| 0 <= k1 < k2 < v@.len() ==> #[trigger] v@[k1] != #[trigger] v@[k2],
            decreases w - x,
        {
            if g.is_fillable(x, y) && !g.is_visited(x, y) {
                v.push((x, y));
                proof {
                    assert((starts_upto(*g, y as int) + row_starts(*g, y as int, x as int)).push(
                        (x, y),
                    ) =~= starts_upto(*g, y as int) + row_starts(*g, y as int, x as int).push(
                        (x, y),
                    ));
                    assert(row_starts(*g, y as int, x as int + 1) == row_starts(
                        *g,
                        y as int,
                        x as int,
                    ).push((x, y)));
                }
            }
            x = x + 1;
        }
        y = y + 1;
    }
    v
}

/// Picks a start for a new walk: one of the fillable, unvisited cells,
/// chosen by the random source, and marks it visited. Returns `None`
/// exactly when every fillable cell has been visited, leaving the grid
/// unchanged.
pub fn find_random_start(g: &mut Grid, rng: &mut RandomSource) -> (r: Option<(usize, usize)>)
    requires
        old(g).wf(),
    ensures
        final(g).wf(),
        r is None <==> all_fillable_visited(*old(g)),
        r is None ==> same_grid(*old(g), *final(g)) && final(g).unvisited_count() == old(
            g,
        ).unvisited_count(),
        r matches Some(p) ==> marks_one(*old(g), *final(g), p.0 as int, p.1 as int) && old(
            g,
        ).fillable(p.0 as int, p.1 as int) && final(g).unvisited_count() + 1 == old(
            g,
        ).unvisited_count(),
        *old(rng) matches RandomSource::Seeded(l) ==> {
            let cs = available_starts(*old(g));
            &&& (cs.len() == 0 ==> r is None && *final(rng) == *old(rng))
            &&& (cs.len() > 0 ==> r == Some(
                cs[xorshift_pick(l.state, cs.len() as usize) as int],
            ) && (*final(rng) matches RandomSource::Seeded(l2) && l2.state == xorshift_step(
                l.state,
            )))
        },
{
    let starts = find_available_starts(g);
    if starts.len() == 0 {
        proof {
            assert forall|x: int, y: int|
                g.in_bounds(x, y) && #[trigger] g.fillable(x, y) implies g.visited(x, y) by {
                if !g.visited(x, y) {
                    assert(starts@.contains((x as usize, y as usize)));
                }
            }
        }
        None
    } else {
        let idx = rng.pick(starts.len());
        let p = starts[idx];
        g.mark(p.0, p.1);
        Some(p)
    }
}

/// Appends `(nx, ny)` to `s` when that cell is a legal step target (in
/// bounds, fillable, unvisited); else leaves `s` unchanged.
pub open spec fn push_candidate(g: Grid, s: Seq<(usize, usize)>, nx: int, ny: int) -> Seq<
    (usize, usize),
> {
    if 0 <= nx < g.width() && 0 <= ny < g.height() && g.fillable(nx, ny) && !g.visited(nx, ny) {
        s.push(((nx as usize), (ny as usize)))
    } else {
        s
    }
}

/// The legal next steps from `(x, y)` in the canonical neighbour order
/// (cardinal then diagonal): a function of the grid and the cell alone, so
/// step enumeration is deterministic.
pub open spec fn step_candidates(g: Grid, x: int, y: int) -> Seq<(usize, usize)> {
    let s1 = push_candidate(g, Seq::empty(), x + 1, y);
    let s2 = push_candidate(g, s1, x, y + 1);
    let s3 = push_candidate(g, s2, x - 1, y);
    let s4 = push_candidate(g, s3, x, y - 1);
    let s5 = push_candidate(g, s4, x + 1, y + 1);
    let s6 = push_candidate(g, s5, x - 1, y - 1);
    let s7 = push_candidate(g, s6, x + 1, y - 1);
    push_candidate(g, s7, x - 1, y + 1)
}

/// What one `push_candidate` adds: either `p` was already there, or `p` is
/// that very cell and the cell is a legal step target.
proof fn lemma_push_candidate_sound(g: Grid, s: Seq<(usize, usize)>, nx: int, ny: int, p: (usize, usize))
    ensures
        push_candidate(g, s, nx, ny).contains(p) ==> (s.contains(p) || (g.in_bounds(nx, ny)
            && g.fillable(nx, ny) && !g.visited(nx, ny) && p == (((nx as usize)), (
        (ny as usize))))),
{
    if 0 <= nx < g.width() && 0 <= ny < g.height() && g.fillable(nx, ny) && !g.visited(nx, ny) {
        vstd::seq_lib::lemma_seq_contains_after_push(s, (((nx as usize)), ((ny as usize))), p);
    }
}

/// Everything a step-candidate sequence contains is a legal step.
proof fn lemma_step_candidates_sound(g: Grid, x: usize, y: usize)
    requires
        g.wf(),
        g.in_bounds(x as int, y as int),
    ensures
        forall|p: (usize, usize)|
            step_candidates(g, x as int, y as int).contains(p) ==> step_candidate(g, (x, y), p),
{
    assert forall|p: (usize, usize)|
        step_candidates(g, x as int, y as int).contains(p) implies step_candidate(
        g,
        (x, y),
        p,
    ) by {
        let xi = x as int;
        let yi = y as int;
        crate::grid::lemma_wf_dims(g);
        let s1 = push_candidate(g, Seq::empty(), xi + 1, yi);
        let s2 = push_candidate(g, s1, xi, yi + 1);
        let s3 = push_candidate(g, s2, xi - 1, yi);
        let s4 = push_candidate(g, s3, xi, yi - 1);
        let s5 = push_candidate(g, s4, xi + 1, yi + 1);
        let s6 = push_candidate(g, s5, xi - 1, yi - 1);
        let s7 = push_candidate(g, s6, xi + 1, yi - 1);
        lemma_push_candidate_sound(g, s7, xi - 1, yi + 1, p);
        lemma_push_candidate_sound(g, s6, xi + 1, yi - 1, p);
        lemma_push_candidate_sound(g, s5, xi - 1, yi - 1, p);
        lemma_push_candidate_sound(g, s4, xi + 1, yi + 1, p);
        lemma_push_candidate_sound(g, s3, xi, yi - 1, p);
        lemma_push_candidate_sound(g, s2, xi - 1, yi, p);
        lemma_push_candidate_sound(g, s1, xi, yi + 1, p);
        lemma_push_candidate_sound(g, Seq::empty(), xi + 1, yi, p);
        assert(!Seq::<(usize, usize)>::empty().contains(p));
        assert(g.in_bounds(xi + 1, yi) && g.fillable(xi + 1, yi) && !g.visited(xi + 1, yi) && p
            == ((((xi + 1) as usize)), ((yi as usize))) ==> step_candidate(g, (x, y), p));
        assert(g.in_bounds(xi, yi + 1) && g.fillable(xi, yi + 1) && !g.visited(xi, yi + 1) && p
            == (((xi as usize)), (((yi + 1) as usize))) ==> step_candidate(g, (x, y), p));
        assert(g.in_bounds(xi - 1, yi) && g.fillable(xi - 1, yi) && !g.visited(xi - 1, yi) && p
            == ((((xi - 1) as usize)), ((yi as usize))) ==> step_candidate(g, (x, y), p));
        assert(g.in_bounds(xi, yi - 1) && g.fillable(xi, yi - 1) && !g.visited(xi, yi - 1) && p
            == (((xi as usize)), (((yi - 1) as usize))) ==> step_candidate(g, (x, y), p));
        assert(g.in_bounds(xi + 1, yi + 1) && g.fillable(xi + 1, yi + 1) && !g.visited(
            xi + 1,
            yi + 1,
        ) && p == ((((xi + 1) as usize)), (((yi + 1) as usize))) ==> step_candidate(g, (x, y), p));
        assert(g.in_bounds(xi - 1, yi - 1) && g.fillable(xi - 1, yi - 1) && !g.visited(
            xi - 1,
            yi - 1,
        ) && p == ((((xi - 1) as usize)), (((yi - 1) as usize))) ==> step_candidate(g, (x, y), p));
        assert(g.in_bounds(xi + 1, yi - 1) && g.fillable(xi + 1, yi - 1) && !g.visited(
            xi + 1,
            yi - 1,
        ) && p == ((((xi + 1) as usize)), (((yi - 1) as usize))) ==> step_candidate(g, (x, y), p));
        assert(g.in_bounds(xi - 1, yi + 1) && g.fillable(xi - 1, yi + 1) && !g.visited(
            xi - 1,
            yi + 1,
        ) && p == ((((xi - 1) as usize)), (((yi + 1) as usize))) ==> step_candidate(g, (x, y), p));
    }
}

/// Every legal step is in the step-candidate sequence.
proof fn lemma_step_candidates_complete(g: Grid, x: usize, y: usize)
    requires
        g.in_bounds(x as int, y as int),
    ensures
        forall|p: (usize, usize)|
            step_candidate(g, (x, y), p) ==> step_candidates(g, x as int, y as int).contains(p),
{
    assert forall|p: (usize, usize)|
        step_candidate(g, (x, y), p) implies step_candidates(g, x as int, y as int).contains(
        p,
    ) by {
        let xi = x as int;
        let yi = y as int;
        let dx = p.0 as int - xi;
        let dy = p.1 as int - yi;
        assert(-1 <= dx <= 1 && -1 <= dy <= 1 && !(dx == 0 && dy == 0));
        if dx == 1 && dy == 0 {
            assert(p == (((xi + 1) as usize), (yi as usize)));
        } else if dx == 0 && dy == 1 {
            assert(p == ((xi as usize), ((yi + 1) as usize)));
        } else if dx == -1 && dy == 0 {
            assert(p == (((xi - 1) as usize), (yi as usize)));
        } else if dx == 0 && dy == -1 {
            assert(p == ((xi as usize), ((yi - 1) as usize)));
        } else if dx == 1 && dy == 1 {
            assert(p == (((xi + 1) as usize), ((yi + 1) as usize)));
        } else if dx == -1 && dy == -1 {
            assert(p == (((xi - 1) as usize), ((yi - 1) as usize)));
        } else if dx == 1 && dy == -1 {
            assert(p == (((xi + 1) as usize), ((yi - 1) as usize)));
        } else {
            assert(dx == -1 && dy == 1);
            assert(p == (((xi - 1) as usize), ((yi + 1) as usize)));
        }
    }
}

/// Collects the legal next steps from `(x, y)` in the canonical neighbour
/// order: exactly `step_candidates`.
#[verifier::rlimit(100)]
#[verifier::spinoff_prover]
fn collect_step_candidates(g: &Grid, x: usize, y: usize) -> (cands: Vec<(usize, usize)>)
    requires
        g.wf(),
        g.in_bounds(x as int, y as int),
    ensures
        cands@ == step_candidates(*g, x as int, y as int),
{
    let w = g.num_cols();
    let h = g.num_rows();
    let mut cands: Vec<(usize, usize)> = Vec::new();
    let ghost xi = x as int;
    let ghost yi = y as int;
    let ghost s1 = push_candidate(*g, Seq::empty(), xi + 1, yi);
    let ghost s2 = push_candidate(*g, s1, xi, yi + 1);
    let ghost s3 = push_candidate(*g, s2, xi - 1, yi);
    let ghost s4 = push_candidate(*g, s3, xi, yi - 1);
    let ghost s5 = push_candidate(*g, s4, xi + 1, yi + 1);
    let ghost s6 = push_candidate(*g, s5, xi - 1, yi - 1);
    let ghost s7 = push_candidate(*g, s6, xi + 1, yi - 1);
    let ghost s8 = push_candidate(*g, s7, xi - 1, yi + 1);
    // Canonical neighbour order: E, S, W, N, SE, NW, NE, SW.
    if x + 1 < w && g.is_fillable(x + 1, y) && !g.is_visited(x + 1, y) {
        cands.push((x + 1, y));
    }
    proof {
        assert(cands@ == s1);
    }
    if y + 1 < h && g.is_fillable(x, y + 1) && !g.is_visited(x, y + 1) {
        cands.push((x, y + 1));
    }
    proof {
        assert(cands@ == s2);
    }
    if x > 0 && g.is_fillable(x - 1, y) && !g.is_visited(x - 1, y) {
        cands.push((x - 1, y));
    }
    proof {
        assert(cands@ == s3);
    }
    if y > 0 && g.is_fillable(x, y - 1) && !g.is_visited(x, y - 1) {
        cands.push((x, y - 1));
    }
    proof {
        assert(cands@ == s4);
    }
    if x + 1 < w && y + 1 < h && g.is_fillable(x + 1, y + 1) && !g.is_visited(x + 1, y + 1) {
        cands.push((x + 1, y + 1));
    }
    proof {
        assert(cands@ == s5);
    }
    if x > 0 && y > 0 && g.is_fillable(x - 1, y - 1) && !g.is_visited(x - 1, y - 1) {
        cands.push((x - 1, y - 1));
    }
    proof {
        assert(cands@ == s6);
    }
    if x + 1 < w && y > 0 && g.is_fillable(x + 1, y - 1) && !g.is_visited(x + 1, y - 1) {
        cands.push((x + 1, y - 1));
    }
    proof {
        assert(cands@ == s7);
    }
    if x > 0 && y + 1 < h && g.is_fillable(x - 1, y + 1) && !g.is_visited(x - 1, y + 1) {
        cands.push((x - 1, y + 1));
    }
    proof {
        assert(cands@ == s8);
        assert(cands@ == step_candidates(*g, xi, yi));
    }
    cands
}

/// Enumerates the 8 neighbours of `(x, y)` in the canonical order (cardinal
/// then diagonal), keeps those that are in bounds, fillable and unvisited
/// (exactly `step_candidates`), picks one by the random source and marks it
/// visited. Returns `None` exactly when no such neighbour exists, leaving
/// the grid unchanged.
pub fn find_next_step(g: &mut Grid, x: usize, y: usize, rng: &mut RandomSource) -> (r: Option<
    (usize, usize),
>)
    requires
        old(g).wf(),
        old(g).in_bounds(x as int, y as int),
    ensures
        final(g).wf(),
        r is None <==> (forall|p: (usize, usize)| !step_candidate(*old(g), (x, y), p)),
        r is None ==> same_grid(*old(g), *final(g)) && final(g).unvisited_count() == old(
            g,
        ).unvisited_count(),
        r matches Some(p) ==> step_candidate(*old(g), (x, y), p) && marks_one(
            *old(g),
            *final(g),
            p.0 as int,
            p.1 as int,
        ) && final(g).unvisited_count() + 1 == old(g).unvisited_count(),
        *old(rng) matches RandomSource::Seeded(l) ==> {
            let cs = step_candidates(*old(g), x as int, y as int);
            &&& (cs.len() == 0 ==> r is None && *final(rng) == *old(rng))
            &&& (cs.len() > 0 ==> r == Some(
                cs[xorshift_pick(l.state, cs.len() as usize) as int],
            ) && (*final(rng) matches RandomSource::Seeded(l2) && l2.state == xorshift_step(
                l.state,
            )))
        },
{
    let cands = collect_step_candidates(g, x, y);
    proof {
        lemma_step_candidates_sound(*g, x, y);
        lemma_step_candidates_complete(*g, x, y);
    }
    if cands.len() == 0 {
        proof {
            assert forall|p: (usize, usize)| !step_candidate(*g, (x, y), p) by {
                if step_candidate(*g, (x, y), p) {
                    assert(cands@.contains(p));
                }
            }
        }
        None
    } else {
        let idx = rng.pick(cands.len());
        let p = cands[idx];
        proof {
            assert(cands@[idx as int] == p);
            assert(cands@.contains(p));
        }
        g.mark(p.0, p.1);
        Some(p)
    }
}

/// A valid walk stays valid on a grid with the same occupancy: validity
/// never reads the mask.
pub proof fn lemma_walk_ok_same_occupancy(g1: Grid, g2: Grid, pts: Seq<(usize, usize)>)
    requires
        same_occupancy(g1, g2),
        walk_ok(g1, pts),
    ensures
        walk_ok(g2, pts),
{
    assert forall|i: int| 0 <= i < pts.len() implies g2.in_bounds(
        #[trigger] pts[i].0 as int,
        pts[i].1 as int,
    ) && g2.fillable(pts[i].0 as int, pts[i].1 as int) by {
        assert(g1.in_bounds(pts[i].0 as int, pts[i].1 as int));
        assert(g1.fillable(pts[i].0 as int, pts[i].1 as int));
    }
}

/// Drives walk generation to exhaustion: while any fillable cell is
/// unvisited, starts a walk there and greedily extends it through unvisited
/// fillable neighbours, up to `MAX_EXTRA_STEPS` additional points. On
/// return every fillable cell is visited, no blocked cell ever was, and
/// every emitted walk is valid.
pub fn generate_walks(g: &mut Grid, rng: &mut RandomSource) -> (walks: Vec<Walk>)
    requires
        old(g).wf(),
    ensures
        final(g).wf(),
        same_occupancy(*old(g), *final(g)),
        visited_monotone(*old(g), *final(g)),
        all_fillable_visited(*final(g)),
        forall|k: int| 0 <= k < walks@.len() ==> walk_ok(*final(g), (#[trigger] walks@[k]).points@),
        walks@.len() == 0 <==> all_fillable_visited(*old(g)),
{
    let mut walks: Vec<Walk> = Vec::new();
    let mut done = false;
    while !done
        invariant
            g.wf(),
            same_occupancy(*old(g), *g),
            visited_monotone(*old(g), *g),
            forall|k: int| 0 <= k < walks@.len() ==> walk_ok(*g, (#[trigger] walks@[k]).points@),
            done ==> all_fillable_visited(*g),
            walks@.len() == 0 ==> same_grid(*old(g), *g),
            all_fillable_visited(*old(g)) ==> walks@.len() == 0,
        decreases g.unvisited_count() + (if done {
            0int
        } else {
            1int
        }),
    {
        let ghost g_iter = *g;
        match find_random_start(g, rng) {
            None => {
                proof {
                    crate::grid::lemma_same_grid_parts(g_iter, *g);
                    crate::grid::lemma_same_occupancy_trans(*old(g), g_iter, *g);
                    crate::grid::lemma_visited_monotone_trans(*old(g), g_iter, *g);
                    crate::grid::lemma_all_visited_same_grid(g_iter, *g);
                    if walks@.len() == 0 {
                        crate::grid::lemma_same_grid_trans(*old(g), g_iter, *g);
                    }
                }
                done = true;
            },
            Some(start) => {
                proof {
                    let sx = start.0 as int;
                    let sy = start.1 as int;
                    assert(same_occupancy(g_iter, *g));
                    assert forall|xx: int, yy: int|
                        g_iter.in_bounds(xx, yy) && #[trigger] g_iter.visited(
                            xx,
                            yy,
                        ) implies g.visited(xx, yy) by {
                        assert(g.visited(xx, yy) == (g_iter.visited(xx, yy) || (xx == sx && yy
                            == sy)));
                    }
                    crate::grid::lemma_same_occupancy_trans(*old(g), g_iter, *g);
                    crate::grid::lemma_visited_monotone_trans(*old(g), g_iter, *g);
                    assert(old(g).in_bounds(sx, sy));
                    assert(old(g).fillable(sx, sy) == g_iter.fillable(sx, sy));
                    assert(!old(g).visited(sx, sy));
                    assert(!all_fillable_visited(*old(g)));
                    assert(g.visited(sx, sy));
                    assert(g.fillable(sx, sy));
                }
                let mut points: Vec<(usize, usize)> = Vec::new();
                points.push(start);
                let mut cx = start.0;
                let mut cy = start.1;
                let mut steps: usize = 0;
                let mut ended = false;
                let ghost g_walk = *g;
                while steps < MAX_EXTRA_STEPS && !ended
                    invariant
                        g.wf(),
                        same_occupancy(g_walk, *g),
                        visited_monotone(g_walk, *g),
                        g.unvisited_count() <= g_walk.unvisited_count(),
                        g.in_bounds(cx as int, cy as int),
                        steps <= MAX_EXTRA_STEPS,
                        points@.len() == steps + 1,
                        points@[points@.len() - 1] == (cx, cy),
                        forall|i: int|
                            0 <= i < points@.len() ==> g.in_bounds(
                                #[trigger] points@[i].0 as int,
                                points@[i].1 as int,
                            ) && g.fillable(points@[i].0 as int, points@[i].1 as int)
                                && g.visited(points@[i].0 as int, points@[i].1 as int),
                        forall|i: int, j: int|
                            0 <= i < j < points@.len() ==> #[trigger] points@[i] != #[trigger] points@[j],
                        forall|i: int|
                            0 <= i < points@.len() - 1 ==> adjacent8(
                                #[trigger] points@[i],
                                points@[i + 1],
                            ),
                    decreases MAX_EXTRA_STEPS - steps + (if ended {
                        0int
                    } else {
                        1int
                    }),
                {
                    match find_next_step(g, cx, cy, rng) {
                        Some(next) => {
                            points.push(next);
                            cx = next.0;
                            cy = next.1;
                            steps = steps + 1;
                        },
                        None => {
                            ended = true;
                        },
                    }
                }
                proof {
                    crate::grid::lemma_same_occupancy_trans(g_iter, g_walk, *g);
                    crate::grid::lemma_same_occupancy_trans(*old(g), g_iter, *g);
                    crate::grid::lemma_visited_monotone_trans(*old(g), g_walk, *g);
                    assert forall|k: int| 0 <= k < walks@.len() implies walk_ok(
                        *g,
                        (#[trigger] walks@[k]).points@,
                    ) by {
                        assert(walk_ok(g_iter, walks@[k].points@));
                        lemma_walk_ok_same_occupancy(g_iter, *g, walks@[k].points@);
                    }
                    assert(walk_ok(*g, points@));
                    assert(g.unvisited_count() < g_iter.unvisited_count());
                }
                walks.push(Walk { points });
            },
        }
    }
    proof {
        if walks@.len() == 0 {
            crate::grid::lemma_same_grid_sym(*old(g), *g);
            crate::grid::lemma_all_visited_same_grid(*g, *old(g));
        }
    }
    walks
}

} // verus!
