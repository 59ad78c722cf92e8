//! Game rules: move legality scanning, piece placement with capture flips,
//! turn switching, and winner counting.

use vstd::prelude::*;
use vstd::string::StringExecFns;
use crate::board::{
    Board, Cell, Color, Move, Pos, cidx, count_color, dir_dx, dir_dy, in_bounds, is_unit_dir,
    lemma_count_color_pointwise, lemma_num_pieces_pointwise, lemma_num_pieces_update, num_pieces,
};

verus! {

// ---------------------------------------------------------------------------
// Specification: directional runs, captures, and the legality recomputation.
// ---------------------------------------------------------------------------

/// The k-th step from (x, y) along (dx, dy) is on the board and holds a
/// piece of the color opposing c.
pub open spec fn opp_at(g: Seq<Cell>, x: int, y: int, dx: int, dy: int, c: Color, k: int) -> bool {
    in_bounds(x + k * dx, y + k * dy) && g[cidx(x + k * dx, y + k * dy)] == Cell::Piece(c.other())
}

/// The k-th step from (x, y) along (dx, dy) is on the board and holds a
/// piece of color c itself.
pub open spec fn anchor_at(g: Seq<Cell>, x: int, y: int, dx: int, dy: int, c: Color, k: int) -> bool {
    in_bounds(x + k * dx, y + k * dy) && g[cidx(x + k * dx, y + k * dy)] == Cell::Piece(c)
}

/// Steps 1..=n from (x, y) along (dx, dy) form a run of opposing pieces,
/// terminated in bounds at step n+1 by an anchor piece of color c. This is
/// exactly the condition under which the direction captures from (x, y).
pub open spec fn run_then_anchor(
    g: Seq<Cell>,
    x: int,
    y: int,
    dx: int,
    dy: int,
    c: Color,
    n: int,
) -> bool {
    &&& 1 <= n
    &&& forall|k: int| 1 <= k <= n ==> #[trigger] opp_at(g, x, y, dx, dy, c, k)
    &&& anchor_at(g, x, y, dx, dy, c, n + 1)
}

/// Direction (dx, dy) qualifies from (x, y): some run of opposing pieces is
/// bracketed by an anchor of c.
pub open spec fn dir_qualifies(g: Seq<Cell>, x: int, y: int, dx: int, dy: int, c: Color) -> bool {
    exists|n: int| run_then_anchor(g, x, y, dx, dy, c, n)
}

/// The length of the qualifying run (meaningful only when the direction
/// qualifies; the length is then unique).
pub open spec fn run_len(g: Seq<Cell>, x: int, y: int, dx: int, dy: int, c: Color) -> int {
    choose|n: int| run_then_anchor(g, x, y, dx, dy, c, n)
}

/// The step count from (x, y) along the unit vector (dx, dy) that reaches
/// the cell with coordinates (ix, iy), read off the moving axis.
pub open spec fn ray_offset(x: int, y: int, dx: int, dy: int, ix: int, iy: int) -> int {
    if dx != 0 {
        (ix - x) * dx
    } else {
        (iy - y) * dy
    }
}

/// Cell index i lies on the ray from (x, y) along (dx, dy) at a step count
/// between 1 and j.
pub open spec fn on_ray_prefix(x: int, y: int, dx: int, dy: int, j: int, i: int) -> bool {
    let k = ray_offset(x, y, dx, dy, i % 8, i / 8);
    1 <= k <= j && i == cidx(x + k * dx, y + k * dy)
}

/// Cell index i is recolored when the capture run from (x, y) along
/// (dx, dy) commits: the direction qualifies and i lies within the run.
pub open spec fn ray_flips(g: Seq<Cell>, x: int, y: int, dx: int, dy: int, c: Color, i: int) -> bool {
    dir_qualifies(g, x, y, dx, dy, c) && on_ray_prefix(x, y, dx, dy, run_len(g, x, y, dx, dy, c), i)
}

/// The board after the capture run from (x, y) along (dx, dy) commits (the
/// board unchanged if the direction does not qualify).
pub open spec fn flip_ray(g: Seq<Cell>, x: int, y: int, dx: int, dy: int, c: Color) -> Seq<Cell> {
    Seq::new(
        64,
        |i: int|
            if ray_flips(g, x, y, dx, dy, c, i) {
                Cell::Piece(c)
            } else {
                g[i]
            },
    )
}

/// Direction number d (0..8) qualifies from (x, y).
pub open spec fn dir_qualifies_idx(g: Seq<Cell>, x: int, y: int, d: int, c: Color) -> bool {
    dir_qualifies(g, x, y, dir_dx(d), dir_dy(d), c)
}

/// Cell index i is captured by direction number d from (x, y).
pub open spec fn captured_in_dir(g: Seq<Cell>, x: int, y: int, d: int, c: Color, i: int) -> bool {
    ray_flips(g, x, y, dir_dx(d), dir_dy(d), c, i)
}

/// Cell index i is captured by some direction numbered below d.
pub open spec fn captured_before(g: Seq<Cell>, x: int, y: int, c: Color, d: int, i: int) -> bool {
    exists|d2: int| 0 <= d2 < d && #[trigger] captured_in_dir(g, x, y, d2, c, i)
}

/// Cell index i is captured by some of the eight directions from (x, y).
pub open spec fn captured(g: Seq<Cell>, x: int, y: int, c: Color, i: int) -> bool {
    captured_before(g, x, y, c, 8, i)
}

/// The board after all eight capture runs from (x, y) commit.
pub open spec fn flip_all(g: Seq<Cell>, x: int, y: int, c: Color) -> Seq<Cell> {
    Seq::new(
        64,
        |i: int|
            if captured(g, x, y, c, i) {
                Cell::Piece(c)
            } else {
                g[i]
            },
    )
}

/// The board after a move of color c at (x, y): the piece is placed, then
/// every qualifying direction's run is recolored.
pub open spec fn place_and_flip(g: Seq<Cell>, x: int, y: int, c: Color) -> Seq<Cell> {
    flip_all(g.update(cidx(x, y), Cell::Piece(c)), x, y, c)
}

/// Placing c at (x, y) would capture in at least one direction: the cell is
/// a legal move for c as far as the run rule goes.
pub open spec fn can_capture(g: Seq<Cell>, x: int, y: int, c: Color) -> bool {
    exists|d: int| 0 <= d < 8 && #[trigger] dir_qualifies_idx(g, x, y, d, c)
}

/// The legality recomputation pass for color c: every occupied cell is kept,
/// every other cell becomes Available exactly when placing c there would
/// capture, and Empty otherwise.
pub open spec fn recompute(g: Seq<Cell>, c: Color) -> Seq<Cell> {
    Seq::new(
        64,
        |i: int|
            if g[i] is Piece {
                g[i]
            } else if can_capture(g, i % 8, i / 8, c) {
                Cell::Available
            } else {
                Cell::Empty
            },
    )
}

/// The standard starting position: Black at (3,3) and (4,4), White at
/// (4,3) and (3,4), all other cells empty.
pub open spec fn initial_board() -> Seq<Cell> {
    Seq::new(
        64,
        |i: int|
            if i == cidx(3, 3) || i == cidx(4, 4) {
                Cell::Piece(Color::Black)
            } else if i == cidx(4, 3) || i == cidx(3, 4) {
                Cell::Piece(Color::White)
            } else {
                Cell::Empty
            },
    )
}

// ---------------------------------------------------------------------------
// Lemmas about runs.
// ---------------------------------------------------------------------------

/// Multiplication by a component of a unit vector only negates, zeroes, or
/// keeps the multiplier.
proof fn lemma_mul_unit(k: int, u: int)
    by (nonlinear_arith)
    requires
        -1 <= u <= 1,
    ensures
        u == 1 ==> k * u == k,
        u == 0 ==> k * u == 0,
        u == -1 ==> k * u == -k,
{
}

/// A qualifying run's length is unique: the run is the maximal block of
/// opposing pieces before the first anchor.
proof fn lemma_run_unique(g: Seq<Cell>, x: int, y: int, dx: int, dy: int, c: Color, n1: int, n2: int)
    requires
        run_then_anchor(g, x, y, dx, dy, c, n1),
        run_then_anchor(g, x, y, dx, dy, c, n2),
    ensures
        n1 == n2,
{
    assert(c.other() != c);
    if n1 < n2 {
        assert(opp_at(g, x, y, dx, dy, c, n1 + 1));
        assert(anchor_at(g, x, y, dx, dy, c, n1 + 1));
        assert(false);
    }
    if n2 < n1 {
        assert(opp_at(g, x, y, dx, dy, c, n2 + 1));
        assert(anchor_at(g, x, y, dx, dy, c, n2 + 1));
        assert(false);
    }
}

/// A witnessed run pins down both qualification and the run length.
proof fn lemma_run_len_of(g: Seq<Cell>, x: int, y: int, dx: int, dy: int, c: Color, n: int)
    requires
        run_then_anchor(g, x, y, dx, dy, c, n),
    ensures
        dir_qualifies(g, x, y, dx, dy, c),
        run_len(g, x, y, dx, dy, c) == n,
{
    assert(dir_qualifies(g, x, y, dx, dy, c));
    lemma_run_unique(g, x, y, dx, dy, c, run_len(g, x, y, dx, dy, c), n);
}

/// If the adjacent cell does not start a run of opposing pieces, the
/// direction cannot qualify.
proof fn lemma_no_first_opp_no_qualify(g: Seq<Cell>, x: int, y: int, dx: int, dy: int, c: Color)
    requires
        !opp_at(g, x, y, dx, dy, c, 1),
    ensures
        !dir_qualifies(g, x, y, dx, dy, c),
{
    assert forall|n: int| !run_then_anchor(g, x, y, dx, dy, c, n) by {
        if run_then_anchor(g, x, y, dx, dy, c, n) {
            assert(opp_at(g, x, y, dx, dy, c, 1));
        }
    }
}

/// A run of opposing pieces at steps 1..m-1 that continues with neither an
/// opposing piece nor an anchor at step m rules the direction out.
proof fn lemma_run_blocked(g: Seq<Cell>, x: int, y: int, dx: int, dy: int, c: Color, m: int)
    requires
        m >= 1,
        forall|j: int| 1 <= j < m ==> #[trigger] opp_at(g, x, y, dx, dy, c, j),
        !opp_at(g, x, y, dx, dy, c, m),
        !anchor_at(g, x, y, dx, dy, c, m),
    ensures
        !dir_qualifies(g, x, y, dx, dy, c),
{
    assert(c.other() != c);
    assert forall|n: int| !run_then_anchor(g, x, y, dx, dy, c, n) by {
        if run_then_anchor(g, x, y, dx, dy, c, n) {
            if n >= m {
                assert(opp_at(g, x, y, dx, dy, c, m));
            } else if n + 1 < m {
                assert(opp_at(g, x, y, dx, dy, c, n + 1));
                assert(anchor_at(g, x, y, dx, dy, c, n + 1));
            } else {
                assert(n + 1 == m);
                assert(anchor_at(g, x, y, dx, dy, c, m));
            }
        }
    }
}

/// The board after a single direction's run is processed: flipped when the
/// direction qualifies, untouched otherwise.
pub open spec fn flip_ray_result(g: Seq<Cell>, x: int, y: int, dx: int, dy: int, c: Color) -> Seq<
    Cell,
> {
    if dir_qualifies(g, x, y, dx, dy, c) {
        flip_ray(g, x, y, dx, dy, c)
    } else {
        g
    }
}

/// Stepping k times along a unit vector from (x, y) lands on the cell whose
/// ray offset is k again.
proof fn lemma_ray_offset_of_step(x: int, y: int, dx: int, dy: int, k: int)
    requires
        is_unit_dir(dx, dy),
        in_bounds(x + k * dx, y + k * dy),
    ensures
        0 <= cidx(x + k * dx, y + k * dy) < 64,
        ray_offset(
            x,
            y,
            dx,
            dy,
            cidx(x + k * dx, y + k * dy) % 8,
            cidx(x + k * dx, y + k * dy) / 8,
        ) == k,
{
    let ix = x + k * dx;
    let iy = y + k * dy;
    assert(cidx(ix, iy) % 8 == ix && cidx(ix, iy) / 8 == iy);
    if dx != 0 {
        assert((ix - x) * dx == k) by (nonlinear_arith)
            requires
                ix == x + k * dx,
                dx == 1 || dx == -1,
        ;
    } else {
        assert((iy - y) * dy == k) by (nonlinear_arith)
            requires
                iy == y + k * dy,
                dy == 1 || dy == -1,
        ;
    }
}

/// Rays cast from one origin share a cell (the origin itself excluded)
/// only when they point the same way: distinct directions are disjoint.
proof fn lemma_rays_meet_same_dir(x: int, y: int, d1: int, d2: int, k1: int, k2: int)
    requires
        0 <= d1 < 8,
        0 <= d2 < 8,
        k1 >= 1,
        k2 >= 1,
        x + k1 * dir_dx(d1) == x + k2 * dir_dx(d2),
        y + k1 * dir_dy(d1) == y + k2 * dir_dy(d2),
    ensures
        d1 == d2,
{
    lemma_mul_unit(k1, dir_dx(d1));
    lemma_mul_unit(k2, dir_dx(d2));
    lemma_mul_unit(k1, dir_dy(d1));
    lemma_mul_unit(k2, dir_dy(d2));
}

/// While earlier directions' captures have been committed, the cells of a
/// not-yet-processed direction's ray are still as they were, so that
/// direction's qualification, run length, and flips carry over.
proof fn lemma_dir_transfer(g0: Seq<Cell>, h: Seq<Cell>, x: int, y: int, c: Color, d: int)
    requires
        g0.len() == 64,
        h.len() == 64,
        0 <= d < 8,
        forall|i: int| 0 <= i < 64 ==> #[trigger] h[i] == (if captured_before(g0, x, y, c, d, i) {
            Cell::Piece(c)
        } else {
            g0[i]
        }),
    ensures
        dir_qualifies(h, x, y, dir_dx(d), dir_dy(d), c) == dir_qualifies_idx(g0, x, y, d, c),
        forall|i: int| #[trigger] ray_flips(h, x, y, dir_dx(d), dir_dy(d), c, i)
            == captured_in_dir(g0, x, y, d, c, i),
{
    let dx = dir_dx(d);
    let dy = dir_dy(d);
    assert forall|k: int|
        #![trigger opp_at(h, x, y, dx, dy, c, k)]
        #![trigger anchor_at(h, x, y, dx, dy, c, k)]
        k >= 1 implies (opp_at(h, x, y, dx, dy, c, k) == opp_at(g0, x, y, dx, dy, c, k)
        && anchor_at(h, x, y, dx, dy, c, k) == anchor_at(g0, x, y, dx, dy, c, k)) by {
        if in_bounds(x + k * dx, y + k * dy) {
            let i = cidx(x + k * dx, y + k * dy);
            assert(0 <= i < 64);
            if captured_before(g0, x, y, c, d, i) {
                let d2 = choose|d2: int|
                    0 <= d2 < d && #[trigger] captured_in_dir(g0, x, y, d2, c, i);
                let dx2 = dir_dx(d2);
                let dy2 = dir_dy(d2);
                let n2 = run_len(g0, x, y, dx2, dy2, c);
                let k2 = ray_offset(x, y, dx2, dy2, i % 8, i / 8);
                assert(run_then_anchor(g0, x, y, dx2, dy2, c, n2));
                assert(1 <= k2 <= n2);
                assert(opp_at(g0, x, y, dx2, dy2, c, k2));
                assert(i == cidx(x + k2 * dx2, y + k2 * dy2));
                assert(x + k * dx == x + k2 * dx2 && y + k * dy == y + k2 * dy2);
                lemma_rays_meet_same_dir(x, y, d, d2, k, k2);
            }
            assert(h[i] == g0[i]);
        }
    }
    assert forall|n: int|
        #[trigger] run_then_anchor(h, x, y, dx, dy, c, n) == run_then_anchor(
            g0,
            x,
            y,
            dx,
            dy,
            c,
            n,
        ) by {
        if run_then_anchor(h, x, y, dx, dy, c, n) {
            assert forall|k: int| 1 <= k <= n implies #[trigger] opp_at(g0, x, y, dx, dy, c, k) by {
                assert(opp_at(h, x, y, dx, dy, c, k));
            }
            assert(anchor_at(h, x, y, dx, dy, c, n + 1) == anchor_at(g0, x, y, dx, dy, c, n + 1));
            assert(run_then_anchor(g0, x, y, dx, dy, c, n));
        }
        if run_then_anchor(g0, x, y, dx, dy, c, n) {
            assert forall|k: int| 1 <= k <= n implies #[trigger] opp_at(h, x, y, dx, dy, c, k) by {
                assert(opp_at(g0, x, y, dx, dy, c, k));
            }
            assert(anchor_at(h, x, y, dx, dy, c, n + 1) == anchor_at(g0, x, y, dx, dy, c, n + 1));
            assert(run_then_anchor(h, x, y, dx, dy, c, n));
        }
    }
    if dir_qualifies(h, x, y, dx, dy, c) {
        let n = run_len(h, x, y, dx, dy, c);
        assert(run_then_anchor(h, x, y, dx, dy, c, n));
        assert(run_then_anchor(g0, x, y, dx, dy, c, n));
        assert(dir_qualifies(g0, x, y, dx, dy, c));
    }
    if dir_qualifies(g0, x, y, dx, dy, c) {
        let n = run_len(g0, x, y, dx, dy, c);
        assert(run_then_anchor(g0, x, y, dx, dy, c, n));
        assert(run_then_anchor(h, x, y, dx, dy, c, n));
        assert(dir_qualifies(h, x, y, dx, dy, c));
        lemma_run_unique(h, x, y, dx, dy, c, run_len(h, x, y, dx, dy, c), n);
    }
}

// ---------------------------------------------------------------------------
// The directional scan.
// ---------------------------------------------------------------------------

/// Scan along (d.x, d.y) starting at `start` (itself one step away from the
/// scan's origin): count the run of opposing pieces and look for the anchor.
/// Some(0) means `start` itself holds the scanning color; Some(n) with
/// n >= 1 means steps 0..n-1 from `start` oppose and step n anchors; None
/// means the run ends off the board or at a non-piece, so nothing captures.
#[verifier::rlimit(60)]
fn scan_run(board: &Board, start: Pos<usize>, d: Pos<i32>, color: Color) -> (r: Option<usize>)
    requires
        board.wf(),
        start.x < 8,
        start.y < 8,
        is_unit_dir(d.x as int, d.y as int),
    ensures
        match r {
            Some(n) => n <= 7 && (n == 0 ==> board@[cidx(start.x as int, start.y as int)]
                == Cell::Piece(color)) && (n >= 1 ==> run_then_anchor(
                board@,
                start.x as int - d.x as int,
                start.y as int - d.y as int,
                d.x as int,
                d.y as int,
                color,
                n as int,
            )),
            None => !dir_qualifies(
                board@,
                start.x as int - d.x as int,
                start.y as int - d.y as int,
                d.x as int,
                d.y as int,
                color,
            ) && board@[cidx(start.x as int, start.y as int)] != Cell::Piece(color),
        },
{
    let ghost g = board@;
    let ghost vx = start.x as int - d.x as int;
    let ghost vy = start.y as int - d.y as int;
    let ghost dx = d.x as int;
    let ghost dy = d.y as int;
    let mut k: usize = 0;
    let mut cur = start;
    loop
        invariant
            board.wf(),
            g == board@,
            start.x < 8,
            start.y < 8,
            is_unit_dir(dx, dy),
            dx == d.x as int,
            dy == d.y as int,
            vx == start.x as int - dx,
            vy == start.y as int - dy,
            k <= 7,
            cur.x < 8,
            cur.y < 8,
            cur.x as int == vx + (k + 1) * dx,
            cur.y as int == vy + (k + 1) * dy,
            forall|j: int| 1 <= j <= k ==> #[trigger] opp_at(g, vx, vy, dx, dy, color, j),
        decreases 8 - k,
    {
        proof {
            lemma_mul_unit(k as int + 1, dx);
            lemma_mul_unit(k as int + 1, dy);
            lemma_mul_unit(1, dx);
            lemma_mul_unit(1, dy);
        }
        let cell = board.get_cell(cur);
        match cell {
            Cell::Piece(pc) => {
                if pc == color {
                    // Anchor found at step k+1 from the origin.
                    if k == 0 {
                        return Some(0);
                    }
                    proof {
                        assert(anchor_at(g, vx, vy, dx, dy, color, k + 1));
                        assert(run_then_anchor(g, vx, vy, dx, dy, color, k as int));
                    }
                    return Some(k);
                }
                // An opposing piece: the run continues.
                proof {
                    assert(pc == color.other());
                    assert(opp_at(g, vx, vy, dx, dy, color, k + 1));
                }
                match cur.add(d) {
                    None => {
                        // The run leaves the board before any anchor.
                        proof {
                            assert((k + 2) * dx == (k + 1) * dx + dx) by (nonlinear_arith);
                            assert((k + 2) * dy == (k + 1) * dy + dy) by (nonlinear_arith);
                            assert(!in_bounds(vx + (k + 2) * dx, vy + (k + 2) * dy));
                            lemma_run_blocked(g, vx, vy, dx, dy, color, k + 2);
                            assert(opp_at(g, vx, vy, dx, dy, color, 1));
                        }
                        return None;
                    },
                    Some(nxt) => {
                        proof {
                            assert((k + 2) * dx == (k + 1) * dx + dx) by (nonlinear_arith);
                            assert((k + 2) * dy == (k + 1) * dy + dy) by (nonlinear_arith);
                            lemma_mul_unit(k as int + 1, dx);
                            lemma_mul_unit(k as int + 1, dy);
                            // nxt = start + (k+1)*d stays in bounds, so k+1 <= 7.
                            assert(nxt.x as int == start.x as int + (k + 1) * dx) by (nonlinear_arith)
                                requires
                                    nxt.x as int == vx + (k + 2) * dx,
                                    vx == start.x as int - dx,
                            ;
                            assert(nxt.y as int == start.y as int + (k + 1) * dy) by (nonlinear_arith)
                                requires
                                    nxt.y as int == vy + (k + 2) * dy,
                                    vy == start.y as int - dy,
                            ;
                            if dx == 1 {
                                assert(k + 1 <= 7);
                            } else if dx == -1 {
                                assert(k + 1 <= 7);
                            } else {
                                assert(dy == 1 || dy == -1);
                                assert(k + 1 <= 7);
                            }
                        }
                        k += 1;
                        cur = nxt;
                    },
                }
            },
            _ => {
                // The run ends at an empty or merely-available cell.
                proof {
                    if k == 0 {
                        assert(g[cidx(start.x as int, start.y as int)] == cell);
                        assert(!opp_at(g, vx, vy, dx, dy, color, 1));
                        lemma_no_first_opp_no_qualify(g, vx, vy, dx, dy, color);
                    } else {
                        assert(!opp_at(g, vx, vy, dx, dy, color, k + 1));
                        assert(!anchor_at(g, vx, vy, dx, dy, color, k + 1));
                        lemma_run_blocked(g, vx, vy, dx, dy, color, k + 1);
                        assert(opp_at(g, vx, vy, dx, dy, color, 1));
                    }
                }
                return None;
            },
        }
    }
}

/// Can color `color` legally place at `pos`: does at least one of the eight
/// directions hold a bracketed run of opposing pieces?
pub fn can_put(board: &Board, pos: Pos<usize>, color: Color) -> (r: bool)
    requires
        board.wf(),
        pos.x < 8,
        pos.y < 8,
    ensures
        r == can_capture(board@, pos.x as int, pos.y as int, color),
{
    let ghost g = board@;
    let ghost x = pos.x as int;
    let ghost y = pos.y as int;
    let mut d: usize = 0;
    while d < 8
        invariant
            board.wf(),
            g == board@,
            pos.x < 8,
            pos.y < 8,
            x == pos.x as int,
            y == pos.y as int,
            d <= 8,
            forall|d2: int| 0 <= d2 < d ==> !#[trigger] dir_qualifies_idx(g, x, y, d2, color),
        decreases 8 - d,
    {
        let dp = Board::direction(d);
        let ghost dx = dir_dx(d as int);
        let ghost dy = dir_dy(d as int);
        proof {
            lemma_mul_unit(1, dx);
            lemma_mul_unit(1, dy);
        }
        match pos.add(dp) {
            None => {
                proof {
                    assert(!opp_at(g, x, y, dx, dy, color, 1));
                    lemma_no_first_opp_no_qualify(g, x, y, dx, dy, color);
                    assert(!dir_qualifies_idx(g, x, y, d as int, color));
                }
            },
            Some(p1) => {
                let scan = scan_run(board, p1, dp, color);
                match scan {
                    Some(n) => {
                        if n >= 1 {
                            proof {
                                assert(p1.x as int - dp.x as int == x);
                                assert(p1.y as int - dp.y as int == y);
                                assert(run_then_anchor(g, x, y, dx, dy, color, n as int));
                                assert(dir_qualifies_idx(g, x, y, d as int, color));
                                assert(can_capture(g, x, y, color));
                            }
                            return true;
                        }
                        proof {
                            // The adjacent cell holds our own color: no run here.
                            assert(g[cidx(x + 1 * dx, y + 1 * dy)] == Cell::Piece(color));
                            assert(color.other() != color);
                            assert(!opp_at(g, x, y, dx, dy, color, 1));
                            lemma_no_first_opp_no_qualify(g, x, y, dx, dy, color);
                            assert(!dir_qualifies_idx(g, x, y, d as int, color));
                        }
                    },
                    None => {
                        proof {
                            assert(p1.x as int - dp.x as int == x);
                            assert(p1.y as int - dp.y as int == y);
                            assert(!dir_qualifies_idx(g, x, y, d as int, color));
                        }
                    },
                }
            },
        }
        d += 1;
    }
    proof {
        assert(!can_capture(g, x, y, color));
    }
    false
}

// ---------------------------------------------------------------------------
// The game itself.
// ---------------------------------------------------------------------------

/// A game in progress: the board together with the side to move.
pub struct Game {
    pub board: Board,
    pub turn: Color,
}

impl Game {
    /// Well-formed games carry a well-formed board.
    pub open spec fn wf(self) -> bool {
        self.board.wf()
    }

    /// A fresh game in the standard starting position, Black to move.
    pub fn new() -> (r: Game)
        ensures
            r.wf(),
            r.turn == Color::Black,
            r.board@ == initial_board(),
    {
        let mut board = Board::new();
        board.set_cell(Pos { x: 3, y: 3 }, Cell::Piece(Color::Black));
        board.set_cell(Pos { x: 4, y: 4 }, Cell::Piece(Color::Black));
        board.set_cell(Pos { x: 3, y: 4 }, Cell::Piece(Color::White));
        board.set_cell(Pos { x: 4, y: 3 }, Cell::Piece(Color::White));
        proof {
            assert(board@ =~= initial_board());
        }
        Game { board, turn: Color::Black }
    }

    /// Pass the turn to the opposing color. The board is untouched.
    pub fn change_turn(&mut self)
        ensures
            final(self).board == old(self).board,
            final(self).turn == old(self).turn.other(),
    {
        self.turn = self.turn.opposite();
    }

    /// The side holding more pieces, or None on a tie. A pure query,
    /// callable at any point.
    pub fn winner(&self) -> (r: Option<Color>)
        requires
            self.wf(),
        ensures
            count_color(self.board@, Color::Black) > count_color(self.board@, Color::White)
                ==> r == Some(Color::Black),
            count_color(self.board@, Color::White) > count_color(self.board@, Color::Black)
                ==> r == Some(Color::White),
            count_color(self.board@, Color::Black) == count_color(self.board@, Color::White)
                ==> r is None,
    {
        let (black, white) = self.board.count_piece();
        if black > white {
            Some(Color::Black)
        } else if white > black {
            Some(Color::White)
        } else {
            None
        }
    }

    /// Submit a move for the side to move. The target cell must currently
    /// be marked Available (by the legality recomputation for this turn);
    /// otherwise the move is illegal, nothing changes, and Err is
    /// returned. On success the piece is placed, every bracketed run of
    /// opposing pieces is flipped, the turn passes to the opposing color,
    /// and the legal-move markers are recomputed for that color.
    pub fn put_piece(&mut self, m: Move) -> (r: Result<(), String>)
        requires
            old(self).wf(),
            m.x < 8,
            m.y < 8,
            m.color == old(self).turn,
        ensures
            final(self).wf(),
            (r is Ok) == (old(self).board@[cidx(m.x as int, m.y as int)] is Available),
            r is Err ==> *final(self) == *old(self),
            r matches Err(e) ==> e@ == "Not Available Cell"@,
            r is Ok ==> final(self).turn == old(self).turn.other() && final(self).board@
                == recompute(
                place_and_flip(old(self).board@, m.x as int, m.y as int, old(self).turn),
                old(self).turn.other(),
            ),
    {
        let pos = Pos { x: m.x, y: m.y };
        if !self.board.get_cell(pos).is_available() {
            return Err(String::from_str("Not Available Cell"));
        }
        self.board.set_cell(pos, Cell::Piece(m.color));
        self.flip(pos);
        self.change_turn();
        self.update_available_cell();
        Ok(())
    }

    /// Process one direction's capture run for the side to move, starting
    /// at `pos`, which is one step along `d` away from the just-placed
    /// piece. When the run of opposing pieces starting at `pos` is
    /// terminated by an anchor of the current color, the whole run is
    /// recolored; otherwise nothing is mutated. Ok reports that an anchor
    /// bounded the run (or that `pos` itself holds the current color).
    pub fn flip_recursive(&mut self, pos: Option<Pos<usize>>, d: Pos<i32>) -> (r: Result<
        (),
        String,
    >)
        requires
            old(self).wf(),
            is_unit_dir(d.x as int, d.y as int),
            pos matches Some(p) ==> p.x < 8 && p.y < 8,
        ensures
            final(self).wf(),
            final(self).turn == old(self).turn,
            pos is None ==> r is Err && final(self).board@ == old(self).board@,
            pos matches Some(p) ==> (r is Ok) == (old(self).board@[cidx(p.x as int, p.y as int)]
                == Cell::Piece(old(self).turn) || dir_qualifies(
                old(self).board@,
                p.x as int - d.x as int,
                p.y as int - d.y as int,
                d.x as int,
                d.y as int,
                old(self).turn,
            )),
            pos matches Some(p) ==> final(self).board@ == flip_ray_result(
                old(self).board@,
                p.x as int - d.x as int,
                p.y as int - d.y as int,
                d.x as int,
                d.y as int,
                old(self).turn,
            ),
            r matches Err(e) ==> e@ == "out of board"@,
    {
        let p0 = match pos {
            None => {
                return Err(String::from_str("out of board"));
            },
            Some(p) => p,
        };
        let ghost g = self.board@;
        let c = self.turn;
        let ghost dx = d.x as int;
        let ghost dy = d.y as int;
        let ghost vx = p0.x as int - dx;
        let ghost vy = p0.y as int - dy;
        match scan_run(&self.board, p0, d, c) {
            None => {
                Err(String::from_str("out of board"))
            },
            Some(n) => {
                if n == 0 {
                    proof {
                        lemma_mul_unit(1, dx);
                        lemma_mul_unit(1, dy);
                        assert(g[cidx(p0.x as int, p0.y as int)] == Cell::Piece(c));
                        assert(c.other() != c);
                        assert(!opp_at(g, vx, vy, dx, dy, c, 1));
                        lemma_no_first_opp_no_qualify(g, vx, vy, dx, dy, c);
                    }
                    return Ok(());
                }
                proof {
                    lemma_run_len_of(g, vx, vy, dx, dy, c, n as int);
                    lemma_mul_unit(1, dx);
                    lemma_mul_unit(1, dy);
                }
                let mut j: usize = 0;
                let mut cur = p0;
                while j < n
                    invariant
                        self.wf(),
                        self.board@.len() == 64,
                        self.turn == c,
                        is_unit_dir(dx, dy),
                        dx == d.x as int,
                        dy == d.y as int,
                        1 <= n <= 7,
                        j <= n,
                        p0.x < 8,
                        p0.y < 8,
                        vx == p0.x as int - dx,
                        vy == p0.y as int - dy,
                        g.len() == 64,
                        run_then_anchor(g, vx, vy, dx, dy, c, n as int),
                        dir_qualifies(g, vx, vy, dx, dy, c),
                        run_len(g, vx, vy, dx, dy, c) == n,
                        j < n ==> cur.x < 8 && cur.y < 8 && cur.x as int == vx + (j + 1) * dx
                            && cur.y as int == vy + (j + 1) * dy,
                        forall|i: int| 0 <= i < 64 ==> #[trigger] self.board@[i] == (
                        if on_ray_prefix(vx, vy, dx, dy, j as int, i) {
                            Cell::Piece(c)
                        } else {
                            g[i]
                        }),
                    decreases n - j,
                {
                    proof {
                        assert(opp_at(g, vx, vy, dx, dy, c, j + 1));
                    }
                    let ghost t = cidx(vx + (j + 1) * dx, vy + (j + 1) * dy);
                    let ghost prev = self.board@;
                    self.board.set_cell(cur, Cell::Piece(c));
                    proof {
                        lemma_ray_offset_of_step(vx, vy, dx, dy, j + 1);
                        assert forall|i: int| 0 <= i < 64 implies #[trigger] self.board@[i] == (
                        if on_ray_prefix(vx, vy, dx, dy, j + 1, i) {
                            Cell::Piece(c)
                        } else {
                            g[i]
                        }) by {
                            if i == t {
                                assert(on_ray_prefix(vx, vy, dx, dy, j + 1, i));
                                assert(self.board@[i] == Cell::Piece(c));
                            } else {
                                assert(self.board@[i] == prev[i]);
                                if on_ray_prefix(vx, vy, dx, dy, j + 1, i) {
                                    let ko = ray_offset(vx, vy, dx, dy, i % 8, i / 8);
                                    if ko == j + 1 {
                                        assert(i == t);
                                    }
                                    assert(on_ray_prefix(vx, vy, dx, dy, j as int, i));
                                } else {
                                    assert(!on_ray_prefix(vx, vy, dx, dy, j as int, i));
                                }
                            }
                        }
                    }
                    j += 1;
                    if j < n {
                        proof {
                            assert(opp_at(g, vx, vy, dx, dy, c, j + 1));
                            assert((j + 1) * dx == j * dx + dx) by (nonlinear_arith);
                            assert((j + 1) * dy == j * dy + dy) by (nonlinear_arith);
                        }
                        cur = cur.add(d).unwrap();
                    }
                }
                proof {
                    assert(self.board@ =~= flip_ray(g, vx, vy, dx, dy, c));
                }
                Ok(())
            },
        }
    }

    /// Attempt a capture run in each of the eight directions from the
    /// just-placed piece at `pos`, committing exactly the bracketed runs.
    pub fn flip(&mut self, pos: Pos<usize>)
        requires
            old(self).wf(),
            pos.x < 8,
            pos.y < 8,
        ensures
            final(self).wf(),
            final(self).turn == old(self).turn,
            final(self).board@ == flip_all(
                old(self).board@,
                pos.x as int,
                pos.y as int,
                old(self).turn,
            ),
    {
        let ghost g0 = self.board@;
        let ghost c = self.turn;
        let ghost x = pos.x as int;
        let ghost y = pos.y as int;
        let mut dd: usize = 0;
        while dd < 8
            invariant
                self.wf(),
                self.board@.len() == 64,
                self.turn == c,
                c == old(self).turn,
                g0 == old(self).board@,
                g0.len() == 64,
                pos.x < 8,
                pos.y < 8,
                x == pos.x as int,
                y == pos.y as int,
                dd <= 8,
                forall|i: int| 0 <= i < 64 ==> #[trigger] self.board@[i] == (
                if captured_before(g0, x, y, c, dd as int, i) {
                    Cell::Piece(c)
                } else {
                    g0[i]
                }),
            decreases 8 - dd,
        {
            let ghost h = self.board@;
            let ghost dx = dir_dx(dd as int);
            let ghost dy = dir_dy(dd as int);
            let dp = Board::direction(dd);
            let target = pos.add(dp);
            proof {
                lemma_dir_transfer(g0, h, x, y, c, dd as int);
                lemma_mul_unit(1, dx);
                lemma_mul_unit(1, dy);
            }
            let _ = self.flip_recursive(target, dp);
            proof {
                match target {
                    None => {
                        assert(!opp_at(g0, x, y, dx, dy, c, 1));
                        lemma_no_first_opp_no_qualify(g0, x, y, dx, dy, c);
                        assert(!dir_qualifies(h, x, y, dx, dy, c));
                        assert(self.board@ == h);
                    },
                    Some(p) => {
                        assert(p.x as int - dp.x as int == x);
                        assert(p.y as int - dp.y as int == y);
                        assert(self.board@ == flip_ray_result(h, x, y, dx, dy, c));
                    },
                }
                assert forall|i: int| 0 <= i < 64 implies #[trigger] self.board@[i] == (
                if captured_before(g0, x, y, c, dd + 1, i) {
                    Cell::Piece(c)
                } else {
                    g0[i]
                }) by {
                    if captured_before(g0, x, y, c, dd + 1, i) {
                        let d2 = choose|d2: int|
                            0 <= d2 < dd + 1 && #[trigger] captured_in_dir(g0, x, y, d2, c, i);
                        if d2 == dd {
                            assert(captured_in_dir(g0, x, y, dd as int, c, i));
                            assert(dir_qualifies_idx(g0, x, y, dd as int, c));
                            assert(dir_qualifies(h, x, y, dx, dy, c));
                            assert(ray_flips(h, x, y, dx, dy, c, i));
                            assert(self.board@[i] == Cell::Piece(c));
                        } else {
                            assert(captured_before(g0, x, y, c, dd as int, i));
                            assert(h[i] == Cell::Piece(c));
                            if dir_qualifies(h, x, y, dx, dy, c) {
                                if ray_flips(h, x, y, dx, dy, c, i) {
                                    assert(self.board@[i] == Cell::Piece(c));
                                } else {
                                    assert(self.board@[i] == h[i]);
                                }
                            } else {
                                assert(self.board@[i] == h[i]);
                            }
                        }
                    } else {
                        assert(!captured_before(g0, x, y, c, dd as int, i)) by {
                            if captured_before(g0, x, y, c, dd as int, i) {
                                let d3 = choose|d3: int|
                                    0 <= d3 < dd && #[trigger] captured_in_dir(g0, x, y, d3, c, i);
                                assert(captured_in_dir(g0, x, y, d3, c, i));
                                assert(captured_before(g0, x, y, c, dd + 1, i));
                            }
                        }
                        assert(!captured_in_dir(g0, x, y, dd as int, c, i)) by {
                            if captured_in_dir(g0, x, y, dd as int, c, i) {
                                assert(captured_before(g0, x, y, c, dd + 1, i));
                            }
                        }
                        assert(h[i] == g0[i]);
                        if dir_qualifies(h, x, y, dx, dy, c) {
                            assert(!ray_flips(h, x, y, dx, dy, c, i));
                            assert(self.board@[i] == h[i]);
                        } else {
                            assert(self.board@[i] == h[i]);
                        }
                    }
                }
            }
            dd += 1;
        }
        proof {
            assert(self.board@ =~= flip_all(g0, x, y, c));
        }
    }

    /// Recompute the legal-move markers for the side to move: each
    /// unoccupied cell becomes Available exactly when placing the current
    /// color there would capture, and Empty otherwise. Occupied cells are
    /// never touched.
    pub fn update_available_cell(&mut self)
        requires
            old(self).wf(),
        ensures
            final(self).wf(),
            final(self).turn == old(self).turn,
            final(self).board@ == recompute(old(self).board@, old(self).turn),
    {
        let ghost g = self.board@;
        let c = self.turn;
        let mut marks: Vec<bool> = Vec::new();
        let mut i: usize = 0;
        while i < 64
            invariant
                self.wf(),
                self.board@ == g,
                self.turn == c,
                i <= 64,
                marks@.len() == i,
                forall|j: int| 0 <= j < i ==> marks@[j] == can_capture(g, j % 8, j / 8, c),
            decreases 64 - i,
        {
            let p = Pos { x: i % 8, y: i / 8 };
            let m = can_put(&self.board, p, c);
            marks.push(m);
            i += 1;
        }
        let mut i: usize = 0;
        while i < 64
            invariant
                self.wf(),
                self.turn == c,
                g.len() == 64,
                i <= 64,
                marks@.len() == 64,
                forall|j: int| 0 <= j < 64 ==> marks@[j] == can_capture(g, j % 8, j / 8, c),
                forall|j: int| 0 <= j < i ==> self.board@[j] == recompute(g, c)[j],
                forall|j: int| i <= j < 64 ==> self.board@[j] == g[j],
            decreases 64 - i,
        {
            let p = Pos { x: i % 8, y: i / 8 };
            proof {
                assert(cidx(p.x as int, p.y as int) == i);
            }
            let cur = self.board.get_cell(p);
            if !cur.is_piece() {
                if marks[i] {
                    self.board.set_cell(p, Cell::Available);
                } else {
                    self.board.set_cell(p, Cell::Empty);
                }
            }
            i += 1;
        }
        proof {
            assert(self.board@ =~= recompute(g, c));
        }
    }
}

// ---------------------------------------------------------------------------
// Rules that hold of the engine as a whole.
// ---------------------------------------------------------------------------

/// Two boards agree on every piece: wherever either holds a piece, both
/// hold the same cell. Empty and Available may differ freely.
pub open spec fn same_pieces(g1: Seq<Cell>, g2: Seq<Cell>) -> bool {
    g1.len() == 64 && g2.len() == 64 && forall|i: int|
        0 <= i < 64 ==> (((#[trigger] g1[i]) is Piece || (#[trigger] g2[i]) is Piece) ==> g1[i]
            == g2[i])
}

/// Qualification reads only pieces: boards with the same pieces qualify
/// the same directions.
proof fn lemma_same_pieces_qualify(
    g1: Seq<Cell>,
    g2: Seq<Cell>,
    x: int,
    y: int,
    dx: int,
    dy: int,
    c: Color,
)
    requires
        same_pieces(g1, g2),
    ensures
        dir_qualifies(g1, x, y, dx, dy, c) == dir_qualifies(g2, x, y, dx, dy, c),
{
    assert forall|n: int|
        #[trigger] run_then_anchor(g1, x, y, dx, dy, c, n) == run_then_anchor(
            g2,
            x,
            y,
            dx,
            dy,
            c,
            n,
        ) by {
        if run_then_anchor(g1, x, y, dx, dy, c, n) {
            assert forall|k: int| 1 <= k <= n implies #[trigger] opp_at(g2, x, y, dx, dy, c, k) by {
                assert(opp_at(g1, x, y, dx, dy, c, k));
                assert(g1[cidx(x + k * dx, y + k * dy)] == g2[cidx(x + k * dx, y + k * dy)]);
            }
            assert(anchor_at(g1, x, y, dx, dy, c, n + 1));
            assert(g1[cidx(x + (n + 1) * dx, y + (n + 1) * dy)] == g2[cidx(
                x + (n + 1) * dx,
                y + (n + 1) * dy,
            )]);
            assert(run_then_anchor(g2, x, y, dx, dy, c, n));
        }
        if run_then_anchor(g2, x, y, dx, dy, c, n) {
            assert forall|k: int| 1 <= k <= n implies #[trigger] opp_at(g1, x, y, dx, dy, c, k) by {
                assert(opp_at(g2, x, y, dx, dy, c, k));
                assert(g1[cidx(x + k * dx, y + k * dy)] == g2[cidx(x + k * dx, y + k * dy)]);
            }
            assert(anchor_at(g2, x, y, dx, dy, c, n + 1));
            assert(g1[cidx(x + (n + 1) * dx, y + (n + 1) * dy)] == g2[cidx(
                x + (n + 1) * dx,
                y + (n + 1) * dy,
            )]);
            assert(run_then_anchor(g1, x, y, dx, dy, c, n));
        }
    }
    if dir_qualifies(g1, x, y, dx, dy, c) {
        let n = run_len(g1, x, y, dx, dy, c);
        assert(run_then_anchor(g1, x, y, dx, dy, c, n));
        assert(run_then_anchor(g2, x, y, dx, dy, c, n));
    }
    if dir_qualifies(g2, x, y, dx, dy, c) {
        let n = run_len(g2, x, y, dx, dy, c);
        assert(run_then_anchor(g2, x, y, dx, dy, c, n));
        assert(run_then_anchor(g1, x, y, dx, dy, c, n));
    }
}

/// Legality reads only pieces: boards with the same pieces offer the same
/// legal placements.
proof fn lemma_same_pieces_can_capture(g1: Seq<Cell>, g2: Seq<Cell>, x: int, y: int, c: Color)
    requires
        same_pieces(g1, g2),
    ensures
        can_capture(g1, x, y, c) == can_capture(g2, x, y, c),
{
    assert forall|d: int| 0 <= d < 8 implies #[trigger] dir_qualifies_idx(g1, x, y, d, c)
        == dir_qualifies_idx(g2, x, y, d, c) by {
        lemma_same_pieces_qualify(g1, g2, x, y, dir_dx(d), dir_dy(d), c);
    }
    if can_capture(g1, x, y, c) {
        let d = choose|d: int| 0 <= d < 8 && #[trigger] dir_qualifies_idx(g1, x, y, d, c);
        assert(dir_qualifies_idx(g2, x, y, d, c));
    }
    if can_capture(g2, x, y, c) {
        let d = choose|d: int| 0 <= d < 8 && #[trigger] dir_qualifies_idx(g2, x, y, d, c);
        assert(dir_qualifies_idx(g1, x, y, d, c));
    }
}

/// The legality recomputation is idempotent: running the pass twice for
/// the same color, with no placement in between, marks exactly the same
/// cells as running it once.
pub proof fn lemma_recompute_idempotent(g: Seq<Cell>, c: Color)
    requires
        g.len() == 64,
    ensures
        recompute(recompute(g, c), c) == recompute(g, c),
{
    let h = recompute(g, c);
    assert(same_pieces(g, h));
    assert forall|i: int| 0 <= i < 64 implies recompute(h, c)[i] == h[i] by {
        if !(h[i] is Piece) {
            lemma_same_pieces_can_capture(g, h, i % 8, i / 8, c);
        }
    }
    assert(recompute(h, c) =~= h);
}

/// A captured cell held an opposing piece before the flip.
proof fn lemma_captured_is_opp(g: Seq<Cell>, x: int, y: int, c: Color, i: int)
    requires
        captured(g, x, y, c, i),
    ensures
        0 <= i < 64,
        g[i] == Cell::Piece(c.other()),
{
    let d = choose|d: int| 0 <= d < 8 && #[trigger] captured_in_dir(g, x, y, d, c, i);
    let dx = dir_dx(d);
    let dy = dir_dy(d);
    let n = run_len(g, x, y, dx, dy, c);
    let k = ray_offset(x, y, dx, dy, i % 8, i / 8);
    assert(run_then_anchor(g, x, y, dx, dy, c, n));
    assert(opp_at(g, x, y, dx, dy, c, k));
}

/// An accepted placement adds exactly one piece: the flips only recolor,
/// and no occupied cell is ever emptied.
pub proof fn lemma_move_conserves_pieces(g: Seq<Cell>, x: int, y: int, c: Color)
    requires
        g.len() == 64,
        in_bounds(x, y),
        !(g[cidx(x, y)] is Piece),
    ensures
        num_pieces(place_and_flip(g, x, y, c)) == num_pieces(g) + 1,
        forall|i: int| 0 <= i < 64 && (#[trigger] g[i]) is Piece ==> place_and_flip(
            g,
            x,
            y,
            c,
        )[i] is Piece,
{
    let t = cidx(x, y);
    let gp = g.update(t, Cell::Piece(c));
    lemma_num_pieces_update(g, t, Cell::Piece(c));
    let f = flip_all(gp, x, y, c);
    assert forall|i: int| 0 <= i < 64 implies ((#[trigger] f[i]) is Piece <==> (#[trigger] gp[i]) is Piece) by {
        if captured(gp, x, y, c, i) {
            lemma_captured_is_opp(gp, x, y, c, i);
        }
    }
    lemma_num_pieces_pointwise(f, gp);
}

/// The legality recomputation only annotates: every occupied cell is kept
/// as it is, and the piece tallies do not move.
pub proof fn lemma_recompute_preserves_pieces(g: Seq<Cell>, c: Color)
    requires
        g.len() == 64,
    ensures
        num_pieces(recompute(g, c)) == num_pieces(g),
        count_color(recompute(g, c), Color::Black) == count_color(g, Color::Black),
        count_color(recompute(g, c), Color::White) == count_color(g, Color::White),
        forall|i: int| 0 <= i < 64 && (#[trigger] g[i]) is Piece ==> recompute(g, c)[i] == g[i],
{
    let h = recompute(g, c);
    lemma_num_pieces_pointwise(h, g);
    lemma_count_color_pointwise(h, g, Color::Black);
    lemma_count_color_pointwise(h, g, Color::White);
}

/// The full effect of an accepted move on the tally: the board after
/// placement, flips, and remarking holds exactly one piece more, and every
/// cell occupied before stays occupied.
pub proof fn lemma_put_piece_adds_one(g: Seq<Cell>, x: int, y: int, c: Color)
    requires
        g.len() == 64,
        in_bounds(x, y),
        !(g[cidx(x, y)] is Piece),
    ensures
        num_pieces(recompute(place_and_flip(g, x, y, c), c.other())) == num_pieces(g) + 1,
        forall|i: int| 0 <= i < 64 && (#[trigger] g[i]) is Piece ==> recompute(
            place_and_flip(g, x, y, c),
            c.other(),
        )[i] is Piece,
{
    lemma_move_conserves_pieces(g, x, y, c);
    lemma_recompute_preserves_pieces(place_and_flip(g, x, y, c), c.other());
}

/// A run of opposing pieces that reaches the board's edge with no anchor
/// beyond captures nothing in that direction.
pub proof fn lemma_edge_run_no_flip(g: Seq<Cell>, x: int, y: int, dx: int, dy: int, c: Color)
    requires
        g.len() == 64,
        is_unit_dir(dx, dy),
        forall|k: int| k >= 1 && in_bounds(x + k * dx, y + k * dy) ==> #[trigger] opp_at(
            g,
            x,
            y,
            dx,
            dy,
            c,
            k,
        ),
    ensures
        !dir_qualifies(g, x, y, dx, dy, c),
        forall|i: int| !(#[trigger] ray_flips(g, x, y, dx, dy, c, i)),
{
    assert(c.other() != c);
    assert forall|n: int| !run_then_anchor(g, x, y, dx, dy, c, n) by {
        if run_then_anchor(g, x, y, dx, dy, c, n) {
            assert(anchor_at(g, x, y, dx, dy, c, n + 1));
            assert(opp_at(g, x, y, dx, dy, c, n + 1));
        }
    }
}

} // verus!
