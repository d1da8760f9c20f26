use vstd::prelude::*;

use crate::placement::{covers_own, find_valid_placements, fits_coordinates, has_position, valid_placement};
use crate::types::{row_major_lt, Grid, Piece, Player, Position};

verus! {

/// The cell (c, r) lies on the board and belongs to the opponent of `player`.
pub open spec fn opponent_cell(grid: Grid, player: Player, c: int, r: int) -> bool {
    grid.in_bounds(c, r) && player.opposes(grid.at(c, r))
}

/// The opponent's cells as (column, row), in row-major order.
pub fn get_opponent_cells(grid: &Grid, player: &Player) -> (res: Vec<(i32, i32)>)
    requires
        grid.covers(),
        grid.width <= i32::MAX,
        grid.height <= i32::MAX,
    ensures
        forall|i: int| 0 <= i < res@.len() ==> opponent_cell(*grid, *player, #[trigger] res@[i].0 as int, res@[i].1 as int),
        forall|c: int, r: int| #[trigger] opponent_cell(*grid, *player, c, r) ==> res@.contains((c as i32, r as i32)),
        forall|i: int, j: int|
            0 <= i < j < res@.len() ==> row_major_lt(
                (#[trigger] res@[i].0 as int, res@[i].1 as int),
                (#[trigger] res@[j].0 as int, res@[j].1 as int),
            ),
{
    let mut cells: Vec<(i32, i32)> = Vec::new();
    let mut row: usize = 0;
    while row < grid.height
        invariant
            grid.covers(),
            grid.width <= i32::MAX,
            grid.height <= i32::MAX,
            row <= grid.height,
            forall|i: int|
                0 <= i < cells@.len() ==> opponent_cell(*grid, *player, #[trigger] cells@[i].0 as int, cells@[i].1 as int)
                    && cells@[i].1 < row,
            forall|c: int, r: int|
                #[trigger] opponent_cell(*grid, *player, c, r) && r < row ==> cells@.contains((c as i32, r as i32)),
            forall|i: int, j: int|
                0 <= i < j < cells@.len() ==> row_major_lt(
                    (#[trigger] cells@[i].0 as int, cells@[i].1 as int),
                    (#[trigger] cells@[j].0 as int, cells@[j].1 as int),
                ),
        decreases grid.height - row,
    {
        let mut col: usize = 0;
        while col < grid.width
            invariant
                grid.covers(),
                grid.width <= i32::MAX,
                grid.height <= i32::MAX,
                row < grid.height,
                col <= grid.width,
                forall|i: int|
                    0 <= i < cells@.len() ==> opponent_cell(*grid, *player, #[trigger] cells@[i].0 as int, cells@[i].1 as int)
                        && row_major_lt((cells@[i].0 as int, cells@[i].1 as int), (col as int, row as int)),
                forall|c: int, r: int|
                    #[trigger] opponent_cell(*grid, *player, c, r) && (r < row || (r == row && c < col))
                        ==> cells@.contains((c as i32, r as i32)),
                forall|i: int, j: int|
                    0 <= i < j < cells@.len() ==> row_major_lt(
                        (#[trigger] cells@[i].0 as int, cells@[i].1 as int),
                        (#[trigger] cells@[j].0 as int, cells@[j].1 as int),
                    ),
            decreases grid.width - col,
        {
            if player.is_opponent(grid.cells[row][col]) {
                let ghost before = cells@;
                cells.push((col as i32, row as i32));
                assert forall|c: int, r: int|
                    #[trigger] opponent_cell(*grid, *player, c, r) && (r < row || (r == row && c < col + 1))
                        implies cells@.contains((c as i32, r as i32)) by {
                    if r == row && c == col {
                        assert(cells@[before.len() as int] == (c as i32, r as i32));
                    } else {
                        assert(before.contains((c as i32, r as i32)));
                        let k = choose|k: int| 0 <= k < before.len() && before[k] == (c as i32, r as i32);
                        assert(cells@[k] == before[k]);
                    }
                }
            } else {
                assert forall|c: int, r: int|
                    #[trigger] opponent_cell(*grid, *player, c, r) && (r < row || (r == row && c < col + 1))
                        implies cells@.contains((c as i32, r as i32)) by {
                    if r == row && c == col {
                        assert(!player.opposes(grid.at(c, r)));
                    }
                }
            }
            col = col + 1;
        }
        assert forall|i: int| 0 <= i < cells@.len() implies #[trigger] cells@[i].1 < row + 1 by {
            assert(row_major_lt((cells@[i].0 as int, cells@[i].1 as int), (col as int, row as int)));
        }
        row = row + 1;
    }
    cells
}

/// Count, sum of columns and sum of rows of the opponent's cells among the first
/// `w` columns of row `r`.
pub open spec fn row_tally(grid: Grid, player: Player, r: int, w: int) -> (int, int, int)
    decreases w,
{
    if w <= 0 {
        (0, 0, 0)
    } else {
        let t = row_tally(grid, player, r, w - 1);
        if opponent_cell(grid, player, w - 1, r) {
            (t.0 + 1, t.1 + (w - 1), t.2 + r)
        } else {
            t
        }
    }
}

/// Count, sum of columns and sum of rows of the opponent's cells among the first `h` rows.
pub open spec fn rows_tally(grid: Grid, player: Player, h: int) -> (int, int, int)
    decreases h,
{
    if h <= 0 {
        (0, 0, 0)
    } else {
        let a = rows_tally(grid, player, h - 1);
        let b = row_tally(grid, player, h - 1, grid.width as int);
        (a.0 + b.0, a.1 + b.1, a.2 + b.2)
    }
}

/// The number n of the opponent's cells, the sum Σx of their columns and the sum Σy
/// of their rows: the opponent's centre of mass is (Σx / n, Σy / n).
pub open spec fn opponent_tally(grid: Grid, player: Player) -> (int, int, int) {
    rows_tally(grid, player, grid.height as int)
}

/// The number of cells in `cells`, the sum of their columns and the sum of their rows.
pub open spec fn list_sums(cells: Seq<(int, int)>) -> (int, int, int)
    decreases cells.len(),
{
    if cells.len() == 0 {
        (0, 0, 0)
    } else {
        let t = list_sums(cells.drop_last());
        (t.0 + 1, t.1 + cells.last().0, t.2 + cells.last().1)
    }
}

/// `cells` holds, once each and in row-major order, the opponent's cells that come
/// before (w, r) in row-major order.
spec fn lists_opponent_cells_before(grid: Grid, player: Player, cells: Seq<(int, int)>, r: int, w: int) -> bool {
    &&& forall|i: int|
        0 <= i < cells.len() ==> opponent_cell(grid, player, #[trigger] cells[i].0, cells[i].1) && row_major_lt(
            cells[i],
            (w, r),
        )
    &&& forall|c: int, q: int|
        #[trigger] opponent_cell(grid, player, c, q) && row_major_lt((c, q), (w, r)) ==> cells.contains((c, q))
    &&& forall|a: int, b: int| 0 <= a < b < cells.len() ==> row_major_lt(#[trigger] cells[a], #[trigger] cells[b])
}

/// The tally up to (w, r) is the count and the sums of the cells listed before (w, r).
proof fn lemma_tally_before(grid: Grid, player: Player, cells: Seq<(int, int)>, r: int, w: int)
    requires
        0 <= r <= grid.height,
        0 <= w <= grid.width,
        r == grid.height ==> w == 0,
        lists_opponent_cells_before(grid, player, cells, r, w),
    ensures
        ({
            let a = rows_tally(grid, player, r);
            let b = row_tally(grid, player, r, w);
            (a.0 + b.0, a.1 + b.1, a.2 + b.2) == list_sums(cells)
        }),
    decreases r, w,
{
    if w > 0 {
        if opponent_cell(grid, player, w - 1, r) {
            assert(cells.contains((w - 1, r)));
            let j = choose|j: int| 0 <= j < cells.len() && cells[j] == (w - 1, r);
            let n = cells.len() - 1;
            if j < n {
                assert(row_major_lt(cells[j], cells[n]));
                assert(row_major_lt(cells[n], (w, r)));
                assert(false);
            }
            let rest = cells.drop_last();
            assert forall|c: int, q: int|
                #[trigger] opponent_cell(grid, player, c, q) && row_major_lt((c, q), (w - 1, r)) implies rest.contains(
                (c, q),
            ) by {
                assert(cells.contains((c, q)));
                let k = choose|k: int| 0 <= k < cells.len() && cells[k] == (c, q);
                assert(k != n);
                assert(rest[k] == cells[k]);
            }
            assert forall|i: int|
                0 <= i < rest.len() implies opponent_cell(grid, player, #[trigger] rest[i].0, rest[i].1) && row_major_lt(
                rest[i],
                (w - 1, r),
            ) by {
                assert(rest[i] == cells[i]);
                assert(row_major_lt(cells[i], cells[n]));
            }
            assert forall|a: int, b: int| 0 <= a < b < rest.len() implies row_major_lt(#[trigger] rest[a], #[trigger] rest[b]) by {
                assert(rest[a] == cells[a] && rest[b] == cells[b]);
            }
            lemma_tally_before(grid, player, rest, r, w - 1);
        } else {
            assert forall|i: int|
                0 <= i < cells.len() implies opponent_cell(grid, player, #[trigger] cells[i].0, cells[i].1) && row_major_lt(
                cells[i],
                (w - 1, r),
            ) by {
                assert(opponent_cell(grid, player, cells[i].0, cells[i].1));
            }
            lemma_tally_before(grid, player, cells, r, w - 1);
        }
    } else if r > 0 {
        assert forall|i: int|
            0 <= i < cells.len() implies opponent_cell(grid, player, #[trigger] cells[i].0, cells[i].1) && row_major_lt(
            cells[i],
            (grid.width as int, r - 1),
        ) by {
            assert(opponent_cell(grid, player, cells[i].0, cells[i].1));
        }
        lemma_tally_before(grid, player, cells, r - 1, grid.width as int);
    } else {
        if cells.len() > 0 {
            assert(opponent_cell(grid, player, cells[0].0, cells[0].1));
            assert(row_major_lt(cells[0], (w, r)));
        }
    }
}

/// The opponent's tally is taken over exactly the opponent's cells, each once: for any
/// list of the cells marked with one of the opponent's marks, once each and in
/// row-major order (as `get_opponent_cells` returns them), the tally is the list's
/// length and the sums of its columns and of its rows.
pub proof fn lemma_tally_is_sum_over_opponent_cells(grid: Grid, player: Player, cells: Seq<(int, int)>)
    requires
        forall|i: int| 0 <= i < cells.len() ==> opponent_cell(grid, player, #[trigger] cells[i].0, cells[i].1),
        forall|c: int, r: int| #[trigger] opponent_cell(grid, player, c, r) ==> cells.contains((c, r)),
        forall|a: int, b: int| 0 <= a < b < cells.len() ==> row_major_lt(#[trigger] cells[a], #[trigger] cells[b]),
    ensures
        opponent_tally(grid, player) == list_sums(cells),
{
    assert forall|i: int|
        0 <= i < cells.len() implies opponent_cell(grid, player, #[trigger] cells[i].0, cells[i].1) && row_major_lt(
        cells[i],
        (0, grid.height as int),
    ) by {
        assert(opponent_cell(grid, player, cells[i].0, cells[i].1));
    }
    lemma_tally_before(grid, player, cells, grid.height as int, 0);
}

/// n² times the squared Euclidean distance from `p` to the centre of mass (Σx / n, Σy / n)
/// of `n` cells; where there are none, the squared distance from `p` to (0, 0).
pub open spec fn scaled_center_distance(n: int, sx: int, sy: int, p: Position) -> int {
    if n == 0 {
        p.x * p.x + p.y * p.y
    } else {
        (n * p.x - sx) * (n * p.x - sx) + (n * p.y - sy) * (n * p.y - sy)
    }
}

/// How far `p` lies from the opponent's centre of mass, as `scaled_center_distance`
/// measures it: a smaller value is a smaller Euclidean distance.
pub open spec fn center_distance(grid: Grid, player: Player, p: Position) -> int {
    let t = opponent_tally(grid, player);
    scaled_center_distance(t.0, t.1, t.2, p)
}

/// n·(x² + y²) − 2·(Σx·x + Σy·y): for n > 0 it orders positions as their distance to the
/// centre does, and it needs no more than 127 bits.
spec fn center_key(n: int, sx: int, sy: int, p: Position) -> int {
    if n == 0 {
        p.x * p.x + p.y * p.y
    } else {
        n * (p.x * p.x + p.y * p.y) - 2 * (sx * p.x + sy * p.y)
    }
}

/// (n·x − s)² expanded.
proof fn lemma_square_expand(n: int, s: int, x: int)
    by (nonlinear_arith)
    ensures
        (n * x - s) * (n * x - s) == n * (n * (x * x)) - 2 * n * (s * x) + s * s,
{
}

/// n² times a squared distance to the centre is n times the key, plus a constant.
proof fn lemma_scale_identity(n: int, sx: int, sy: int, x: int, y: int)
    ensures
        (n * x - sx) * (n * x - sx) + (n * y - sy) * (n * y - sy) == n * (n * (x * x + y * y) - 2 * (sx * x + sy * y))
            + sx * sx + sy * sy,
{
    lemma_square_expand(n, sx, x);
    lemma_square_expand(n, sy, y);
    assert(n * (n * (x * x + y * y) - 2 * (sx * x + sy * y)) == n * (n * (x * x)) + n * (n * (y * y)) - 2 * n * (sx * x)
        - 2 * n * (sy * y)) by (nonlinear_arith);
}

/// Multiplying by a positive number keeps the order.
proof fn lemma_scale_order(n: int, a: int, b: int)
    by (nonlinear_arith)
    requires
        n > 0,
    ensures
        (n * a < n * b) == (a < b),
{
}

/// Comparing keys is comparing distances to the centre.
proof fn lemma_key_orders_distance(n: int, sx: int, sy: int, p: Position, q: Position)
    requires
        n >= 0,
    ensures
        (center_key(n, sx, sy, p) < center_key(n, sx, sy, q)) == (scaled_center_distance(n, sx, sy, p)
            < scaled_center_distance(n, sx, sy, q)),
{
    if n > 0 {
        lemma_scale_identity(n, sx, sy, p.x as int, p.y as int);
        lemma_scale_identity(n, sx, sy, q.x as int, q.y as int);
        lemma_scale_order(n, center_key(n, sx, sy, p), center_key(n, sx, sy, q));
    }
}

/// Bounds on a product from bounds on its factors.
proof fn lemma_product_bound(a: int, b: int, bound_a: int, bound_b: int)
    by (nonlinear_arith)
    requires
        0 <= a <= bound_a,
        -bound_b <= b <= bound_b,
    ensures
        -(bound_a * bound_b) <= a * b <= bound_a * bound_b,
{
}

/// The square of an `i32` fits 62 bits.
proof fn lemma_square_bound(v: int)
    by (nonlinear_arith)
    requires
        -0x8000_0000 <= v <= 0x8000_0000,
    ensures
        0 <= v * v <= 0x4000_0000_0000_0000,
{
}

/// The cells before (c, r) in row-major order are fewer than all the grid's cells.
proof fn lemma_cell_count_step(r: int, c: int, w: int, h: int)
    by (nonlinear_arith)
    requires
        0 <= r < h,
        0 <= c < w,
        w <= 0x8000_0000,
        h <= 0x8000_0000,
    ensures
        r * w + c + 1 <= h * w,
        h * w <= 0x4000_0000_0000_0000,
{
}

/// One more row adds a row's width of cells.
proof fn lemma_row_step(r: int, w: int)
    by (nonlinear_arith)
    ensures
        r * w + w == (r + 1) * w,
{
}

/// The opponent's cell count and coordinate sums, from which its centre of mass follows.
pub fn opponent_sums(grid: &Grid, player: &Player) -> (res: (u64, i128, i128))
    requires
        grid.covers(),
        grid.width <= i32::MAX,
        grid.height <= i32::MAX,
    ensures
        (res.0 as int, res.1 as int, res.2 as int) == opponent_tally(*grid, *player),
        res.0 <= 0x4000_0000_0000_0000,
        0 <= res.1 <= res.0 * 0x8000_0000,
        0 <= res.2 <= res.0 * 0x8000_0000,
{
    let mut count: u64 = 0;
    let mut sum_x: i128 = 0;
    let mut sum_y: i128 = 0;
    let mut row: usize = 0;
    proof {
        lemma_product_bound(grid.height as int, grid.width as int, 0x8000_0000, 0x8000_0000);
    }
    while row < grid.height
        invariant
            grid.covers(),
            grid.width <= i32::MAX,
            grid.height <= i32::MAX,
            row <= grid.height,
            (count as int, sum_x as int, sum_y as int) == rows_tally(*grid, *player, row as int),
            count <= row * grid.width,
            0 <= sum_x <= count * 0x8000_0000,
            0 <= sum_y <= count * 0x8000_0000,
            grid.height * grid.width <= 0x4000_0000_0000_0000,
        decreases grid.height - row,
    {
        let ghost before = (count as int, sum_x as int, sum_y as int);
        let mut col: usize = 0;
        while col < grid.width
            invariant
                grid.covers(),
                grid.width <= i32::MAX,
                grid.height <= i32::MAX,
                row < grid.height,
                col <= grid.width,
                before == rows_tally(*grid, *player, row as int),
                (count - before.0, sum_x - before.1, sum_y - before.2) == row_tally(*grid, *player, row as int, col as int),
                count <= row * grid.width + col,
                0 <= sum_x <= count * 0x8000_0000,
                0 <= sum_y <= count * 0x8000_0000,
                grid.height * grid.width <= 0x4000_0000_0000_0000,
            decreases grid.width - col,
        {
            proof {
                lemma_cell_count_step(row as int, col as int, grid.width as int, grid.height as int);
            }
            if player.is_opponent(grid.cells[row][col]) {
                count = count + 1;
                sum_x = sum_x + col as i128;
                sum_y = sum_y + row as i128;
            }
            col = col + 1;
        }
        proof {
            lemma_row_step(row as int, grid.width as int);
        }
        row = row + 1;
    }
    (count, sum_x, sum_y)
}

/// `positions[k]` lies closest to the opponent's centre of mass, and no earlier position lies as close.
pub open spec fn is_first_closest(grid: Grid, player: Player, positions: Seq<Position>, k: int) -> bool {
    &&& 0 <= k < positions.len()
    &&& forall|j: int| 0 <= j < positions.len() ==> center_distance(grid, player, positions[k]) <= #[trigger] center_distance(
        grid,
        player,
        positions[j],
    )
    &&& forall|j: int| 0 <= j < k ==> center_distance(grid, player, positions[k]) < #[trigger] center_distance(
        grid,
        player,
        positions[j],
    )
}

/// The key of `p` for centre data (n, Σx, Σy).
fn center_key_of(n: u64, sx: i128, sy: i128, p: Position) -> (res: i128)
    requires
        n <= 0x4000_0000_0000_0000,
        0 <= sx <= n * 0x8000_0000,
        0 <= sy <= n * 0x8000_0000,
    ensures
        res == center_key(n as int, sx as int, sy as int, p),
{
    let x: i128 = p.x as i128;
    let y: i128 = p.y as i128;
    proof {
        lemma_square_bound(x as int);
        lemma_square_bound(y as int);
    }
    let squares: i128 = x * x + y * y;
    if n == 0 {
        return squares;
    }
    proof {
        lemma_product_bound(n as int, squares as int, 0x4000_0000_0000_0000, 0x8000_0000_0000_0000);
        lemma_product_bound(n as int, 0x8000_0000, 0x4000_0000_0000_0000, 0x8000_0000);
        lemma_product_bound(sx as int, x as int, 0x2000_0000_0000_0000_0000_0000, 0x8000_0000);
        lemma_product_bound(sy as int, y as int, 0x2000_0000_0000_0000_0000_0000, 0x8000_0000);
    }
    let n128: i128 = n as i128;
    n128 * squares - 2 * (sx * x + sy * y)
}

/// The position among `positions` that lies closest to the opponent's centre of mass,
/// measured by Euclidean distance; the first one on a tie. Where the opponent has no
/// cell, the centre is (0, 0). The measure is taken at the position itself, so the
/// piece's shape does not enter it.
pub fn choose_best(positions: &[Position], piece: &Piece, grid: &Grid, player: &Player) -> (res: Position)
    requires
        positions@.len() > 0,
        grid.covers(),
        grid.width <= i32::MAX,
        grid.height <= i32::MAX,
    ensures
        exists|k: int| is_first_closest(*grid, *player, positions@, k) && res == #[trigger] positions@[k],
{
    let (n, sx, sy) = opponent_sums(grid, player);
    let ghost t = opponent_tally(*grid, *player);
    let mut best_pos: Position = positions[0];
    let mut best_key: i128 = center_key_of(n, sx, sy, best_pos);
    let ghost mut best_k: int = 0;
    let mut i: usize = 1;
    while i < positions.len()
        invariant
            n <= 0x4000_0000_0000_0000,
            0 <= sx <= n * 0x8000_0000,
            0 <= sy <= n * 0x8000_0000,
            t == (n as int, sx as int, sy as int),
            t == opponent_tally(*grid, *player),
            1 <= i <= positions@.len(),
            0 <= best_k < i,
            best_pos == positions@[best_k],
            best_key == center_key(n as int, sx as int, sy as int, best_pos),
            forall|j: int| 0 <= j < i ==> best_key <= #[trigger] center_key(n as int, sx as int, sy as int, positions@[j]),
            forall|j: int| 0 <= j < best_k ==> best_key < #[trigger] center_key(n as int, sx as int, sy as int, positions@[j]),
        decreases positions@.len() - i,
    {
        let pos = positions[i];
        let key = center_key_of(n, sx, sy, pos);
        if key < best_key {
            best_key = key;
            best_pos = pos;
            proof {
                best_k = i as int;
            }
        }
        i = i + 1;
    }
    proof {
        assert forall|j: int| 0 <= j < positions@.len() implies center_distance(*grid, *player, positions@[best_k])
            <= #[trigger] center_distance(*grid, *player, positions@[j]) by {
            lemma_key_orders_distance(n as int, sx as int, sy as int, positions@[j], positions@[best_k]);
            assert(best_key <= center_key(n as int, sx as int, sy as int, positions@[j]));
        }
        assert forall|j: int| 0 <= j < best_k implies center_distance(*grid, *player, positions@[best_k])
            < #[trigger] center_distance(*grid, *player, positions@[j]) by {
            lemma_key_orders_distance(n as int, sx as int, sy as int, positions@[best_k], positions@[j]);
            assert(best_key < center_key(n as int, sx as int, sy as int, positions@[j]));
        }
        assert(is_first_closest(*grid, *player, positions@, best_k));
    }
    best_pos
}

/// Some legal move exists for `player`.
pub open spec fn has_valid_placement(grid: Grid, piece: Piece, player: Player) -> bool {
    exists|p: Position| #[trigger] valid_placement(grid, piece, player, p.x as int, p.y as int)
}

/// `m` is the move to play: a legal move that lies as close to the opponent's centre of
/// mass as any legal move, and the first such in row-major order.
pub open spec fn is_best_move(grid: Grid, piece: Piece, player: Player, m: Position) -> bool {
    &&& valid_placement(grid, piece, player, m.x as int, m.y as int)
    &&& forall|p: Position| #[trigger] valid_placement(grid, piece, player, p.x as int, p.y as int)
        ==> center_distance(grid, player, m) <= center_distance(grid, player, p)
    &&& forall|p: Position|
        #[trigger] valid_placement(grid, piece, player, p.x as int, p.y as int) && row_major_lt(
            (p.x as int, p.y as int),
            (m.x as int, m.y as int),
        ) ==> center_distance(grid, player, m) < center_distance(grid, player, p)
}

/// The answer of a turn: the best legal move, or (0, 0) where there is none.
pub fn choose_move(grid: &Grid, piece: &Piece, player: &Player) -> (res: Position)
    requires
        grid.covers() || !piece.has_solid(),
        piece.covers(),
        fits_coordinates(*grid, *piece),
    ensures
        !has_valid_placement(*grid, *piece, *player) ==> (res == Position { x: 0, y: 0 }),
        has_valid_placement(*grid, *piece, *player) ==> is_best_move(*grid, *piece, *player, res),
{
    let valid = find_valid_placements(grid, piece, player);
    if valid.len() == 0 {
        proof {
            if has_valid_placement(*grid, *piece, *player) {
                let p = choose|p: Position| #[trigger] valid_placement(*grid, *piece, *player, p.x as int, p.y as int);
                assert(has_position(valid@, p.x as int, p.y as int));
            }
        }
        return Position { x: 0, y: 0 };
    }
    proof {
        let p = valid@[0];
        assert(valid_placement(*grid, *piece, *player, p.x as int, p.y as int));
        let (c, r) = choose|c: int, r: int|
            #[trigger] covers_own(*grid, *piece, *player, p.x as int, p.y as int, c, r) && forall|c2: int, r2: int|
                #[trigger] covers_own(*grid, *piece, *player, p.x as int, p.y as int, c2, r2) ==> c2 == c && r2 == r;
        assert(piece.filled_at(c, r));
    }
    let best = choose_best(valid.as_slice(), piece, grid, player);
    proof {
        let k = choose|k: int| is_first_closest(*grid, *player, valid@, k) && best == #[trigger] valid@[k];
        assert(valid_placement(*grid, *piece, *player, valid@[k].x as int, valid@[k].y as int));
        assert forall|p: Position| #[trigger] valid_placement(*grid, *piece, *player, p.x as int, p.y as int)
            implies center_distance(*grid, *player, best) <= center_distance(*grid, *player, p) by {
            assert(has_position(valid@, p.x as int, p.y as int));
            let j = choose|j: int| 0 <= j < valid@.len() && #[trigger] valid@[j].x == p.x as int && valid@[j].y == p.y as int;
            assert(valid@[j] == p);
            assert(center_distance(*grid, *player, valid@[k]) <= center_distance(*grid, *player, valid@[j]));
        }
        assert forall|p: Position|
            #[trigger] valid_placement(*grid, *piece, *player, p.x as int, p.y as int) && row_major_lt(
                (p.x as int, p.y as int),
                (best.x as int, best.y as int),
            ) implies center_distance(*grid, *player, best) < center_distance(*grid, *player, p) by {
            assert(has_position(valid@, p.x as int, p.y as int));
            let j = choose|j: int| 0 <= j < valid@.len() && #[trigger] valid@[j].x == p.x as int && valid@[j].y == p.y as int;
            assert(valid@[j] == p);
            if j >= k {
                if j > k {
                    assert(row_major_lt((valid@[k].x as int, valid@[k].y as int), (valid@[j].x as int, valid@[j].y as int)));
                }
                assert(false);
            }
            assert(center_distance(*grid, *player, valid@[k]) < center_distance(*grid, *player, valid@[j]));
        }
    }
    best
}

} // verus!
