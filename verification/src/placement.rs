use vstd::prelude::*;

use crate::types::{row_major_lt, Grid, Piece, Player, Position};

verus! {

/// Grids and pieces whose sides fit the `i32` coordinates that placements use.
pub open spec fn fits_coordinates(grid: Grid, piece: Piece) -> bool {
    &&& grid.width <= i32::MAX
    &&& grid.height <= i32::MAX
    &&& piece.width <= i32::MAX
    &&& piece.height <= i32::MAX
}

/// Rule of the board: every solid cell of the piece, put with its top-left corner
/// at (x, y), lands on the Anfield.
pub open spec fn lands_on_board(grid: Grid, piece: Piece, x: int, y: int) -> bool {
    forall|c: int, r: int| #[trigger] piece.filled_at(c, r) ==> grid.in_bounds(x + c, y + r)
}

/// The solid cell (c, r) of the piece covers a cell of `player`.
pub open spec fn covers_own(grid: Grid, piece: Piece, player: Player, x: int, y: int, c: int, r: int) -> bool {
    piece.filled_at(c, r) && player.owns(grid.at(x + c, y + r))
}

/// Rule of one: exactly one solid cell of the piece covers a cell of `player`.
pub open spec fn exactly_one_own_overlap(grid: Grid, piece: Piece, player: Player, x: int, y: int) -> bool {
    exists|c: int, r: int|
        #[trigger] covers_own(grid, piece, player, x, y, c, r) && forall|c2: int, r2: int|
            #[trigger] covers_own(grid, piece, player, x, y, c2, r2) ==> c2 == c && r2 == r
}

/// Rule of zero: no solid cell of the piece covers a cell of the opponent.
pub open spec fn no_opponent_overlap(grid: Grid, piece: Piece, player: Player, x: int, y: int) -> bool {
    forall|c: int, r: int| #[trigger] piece.filled_at(c, r) ==> !player.opposes(grid.at(x + c, y + r))
}

/// A legal move: the piece at (x, y) stays on the board, covers exactly one cell of
/// `player` and none of the opponent.
pub open spec fn valid_placement(grid: Grid, piece: Piece, player: Player, x: int, y: int) -> bool {
    &&& lands_on_board(grid, piece, x, y)
    &&& exactly_one_own_overlap(grid, piece, player, x, y)
    &&& no_opponent_overlap(grid, piece, player, x, y)
}

/// Every cell of the grid that checking the placement at (x, y) reads exists: going
/// through the solid cells in row-major order, each one that lands on the board while
/// all before it did.
pub open spec fn reads_present_cells(grid: Grid, piece: Piece, x: int, y: int) -> bool {
    forall|c: int, r: int|
        #[trigger] piece.filled_at(c, r) && grid.in_bounds(x + c, y + r) && (forall|c2: int, r2: int|
            #[trigger] piece.filled_at(c2, r2) && row_major_lt((c2, r2), (c, r)) ==> grid.in_bounds(x + c2, y + r2))
            ==> grid.has_cell(x + c, y + r)
}

/// The listed cell, put at (x, y), covers a cell of `player`.
spec fn owns_under(grid: Grid, player: Player, x: int, y: int, cell: (usize, usize)) -> bool {
    player.owns(grid.at(x + cell.0, y + cell.1))
}

/// The listed cell, put at (x, y), covers a cell of the opponent.
spec fn opposes_under(grid: Grid, player: Player, x: int, y: int, cell: (usize, usize)) -> bool {
    player.opposes(grid.at(x + cell.0, y + cell.1))
}

/// `f` lists the solid cells of `piece` once each, in row-major order.
#[verifier::opaque]
spec fn lists_filled(piece: Piece, f: Seq<(usize, usize)>) -> bool {
    &&& forall|k: int| 0 <= k < f.len() ==> piece.filled_at(#[trigger] f[k].0 as int, f[k].1 as int)
    &&& forall|c: int, r: int| #[trigger] piece.filled_at(c, r) ==> f.contains((c as usize, r as usize))
    &&& forall|a: int, b: int|
        0 <= a < b < f.len() ==> row_major_lt(
            (#[trigger] f[a].0 as int, f[a].1 as int),
            (#[trigger] f[b].0 as int, f[b].1 as int),
        )
}

/// What a count of own cells under the first `i` listed cells tells: none, exactly one, or two distinct ones.
#[verifier::opaque]
spec fn own_count_fits(grid: Grid, player: Player, x: int, y: int, f: Seq<(usize, usize)>, i: int, count: int) -> bool {
    &&& count == 0 ==> forall|k: int| 0 <= k < i ==> !#[trigger] owns_under(grid, player, x, y, f[k])
    &&& count == 1 ==> exists|k: int|
        0 <= k < i && #[trigger] owns_under(grid, player, x, y, f[k]) && forall|m: int|
            0 <= m < i && #[trigger] owns_under(grid, player, x, y, f[m]) ==> m == k
    &&& count >= 2 ==> exists|a: int, b: int|
        0 <= a < b < i && #[trigger] owns_under(grid, player, x, y, f[a])
            && #[trigger] owns_under(grid, player, x, y, f[b])
}

/// Counting one more listed cell.
proof fn lemma_own_count_step(grid: Grid, player: Player, x: int, y: int, f: Seq<(usize, usize)>, i: int, count: int)
    requires
        0 <= i < f.len(),
        count >= 0,
        own_count_fits(grid, player, x, y, f, i, count),
    ensures
        own_count_fits(grid, player, x, y, f, i + 1,
            if owns_under(grid, player, x, y, f[i]) { count + 1 } else { count }),
{
    reveal(own_count_fits);
    if owns_under(grid, player, x, y, f[i]) {
        if count == 0 {
            assert(0 <= i < i + 1 && owns_under(grid, player, x, y, f[i]));
        } else if count == 1 {
            let k = choose|k: int|
                0 <= k < i && #[trigger] owns_under(grid, player, x, y, f[k]) && forall|m: int|
                    0 <= m < i && #[trigger] owns_under(grid, player, x, y, f[m]) ==> m == k;
            assert(0 <= k < i < i + 1 && owns_under(grid, player, x, y, f[k]) && owns_under(grid, player, x, y, f[i]));
        } else {
            let (a, b) = choose|a: int, b: int|
                0 <= a < b < i && #[trigger] owns_under(grid, player, x, y, f[a])
                    && #[trigger] owns_under(grid, player, x, y, f[b]);
            assert(0 <= a < b < i + 1 && owns_under(grid, player, x, y, f[a]) && owns_under(grid, player, x, y, f[b]));
        }
    } else {
        if count == 1 {
            let k = choose|k: int|
                0 <= k < i && #[trigger] owns_under(grid, player, x, y, f[k]) && forall|m: int|
                    0 <= m < i && #[trigger] owns_under(grid, player, x, y, f[m]) ==> m == k;
            assert(0 <= k < i + 1 && owns_under(grid, player, x, y, f[k]));
        } else if count >= 2 {
            let (a, b) = choose|a: int, b: int|
                0 <= a < b < i && #[trigger] owns_under(grid, player, x, y, f[a])
                    && #[trigger] owns_under(grid, player, x, y, f[b]);
            assert(0 <= a < b < i + 1 && owns_under(grid, player, x, y, f[a]) && owns_under(grid, player, x, y, f[b]));
        }
    }
}

/// Whether the piece may be put with its top-left corner at (x, y).
pub fn is_valid_placement(grid: &Grid, piece: &Piece, player: &Player, x: i32, y: i32) -> (res: bool)
    requires
        reads_present_cells(*grid, *piece, x as int, y as int),
        piece.covers(),
        fits_coordinates(*grid, *piece),
    ensures
        res == valid_placement(*grid, *piece, *player, x as int, y as int),
{
    let filled = piece.filled_cells();
    let ghost f = filled@;
    proof {
        reveal(lists_filled);
        reveal(own_count_fits);
    }
    let mut overlap_mine: usize = 0;
    let mut overlap_opponent: usize = 0;
    let mut i: usize = 0;
    while i < filled.len()
        invariant
            reads_present_cells(*grid, *piece, x as int, y as int),
            piece.covers(),
            fits_coordinates(*grid, *piece),
            f == filled@,
            lists_filled(*piece, f),
            i <= f.len(),
            overlap_mine <= i,
            overlap_opponent <= i,
            forall|k: int| 0 <= k < i ==> grid.in_bounds(x + #[trigger] f[k].0, y + f[k].1),
            own_count_fits(*grid, *player, x as int, y as int, f, i as int, overlap_mine as int),
            overlap_opponent == 0 <==> forall|k: int|
                0 <= k < i ==> !#[trigger] opposes_under(*grid, *player, x as int, y as int, f[k]),
        decreases f.len() - i,
    {
        let (px, py) = filled[i];
        assert(piece.filled_at(f[i as int].0 as int, f[i as int].1 as int)) by {
            reveal(lists_filled);
        }
        let actual_x: i64 = x as i64 + px as i64;
        let actual_y: i64 = y as i64 + py as i64;
        if actual_x < 0 || actual_y < 0 || actual_x >= grid.width as i64 || actual_y >= grid.height as i64 {
            return false;
        }
        proof {
            reveal(lists_filled);
            let c = f[i as int].0 as int;
            let r = f[i as int].1 as int;
            assert forall|c2: int, r2: int|
                #[trigger] piece.filled_at(c2, r2) && row_major_lt((c2, r2), (c, r)) implies grid.in_bounds(x + c2, y + r2) by {
                let j = choose|j: int| 0 <= j < f.len() && f[j] == (c2 as usize, r2 as usize);
                if j >= i {
                    if j > i {
                        assert(row_major_lt((f[i as int].0 as int, f[i as int].1 as int), (f[j].0 as int, f[j].1 as int)));
                    }
                    assert(false);
                }
                assert(grid.in_bounds(x + f[j].0, y + f[j].1));
            }
            assert(grid.has_cell(x + c, y + r));
        }
        let cell = grid.cells[actual_y as usize][actual_x as usize];
        assert(cell == grid.at(x + f[i as int].0, y + f[i as int].1));
        proof {
            lemma_own_count_step(*grid, *player, x as int, y as int, f, i as int, overlap_mine as int);
        }
        if player.is_mine(cell) {
            overlap_mine = overlap_mine + 1;
        }
        if player.is_opponent(cell) {
            assert(opposes_under(*grid, *player, x as int, y as int, f[i as int]));
            overlap_opponent = overlap_opponent + 1;
        }
        i = i + 1;
    }
    proof {
        lemma_counts_decide(*grid, *piece, *player, x as int, y as int, f, overlap_mine, overlap_opponent);
    }
    overlap_mine == 1 && overlap_opponent == 0
}

/// The two counts over all listed cells decide the three rules.
proof fn lemma_counts_decide(
    grid: Grid,
    piece: Piece,
    player: Player,
    x: int,
    y: int,
    f: Seq<(usize, usize)>,
    mine: usize,
    opp: usize,
)
    requires
        lists_filled(piece, f),
        forall|k: int| 0 <= k < f.len() ==> grid.in_bounds(x + #[trigger] f[k].0, y + f[k].1),
        own_count_fits(grid, player, x, y, f, f.len() as int, mine as int),
        opp == 0 <==> forall|k: int| 0 <= k < f.len() ==> !#[trigger] opposes_under(grid, player, x, y, f[k]),
    ensures
        (mine == 1 && opp == 0) == valid_placement(grid, piece, player, x, y),
{
    reveal(lists_filled);
    reveal(own_count_fits);
    assert(lands_on_board(grid, piece, x, y)) by {
        assert forall|c: int, r: int| #[trigger] piece.filled_at(c, r) implies grid.in_bounds(x + c, y + r) by {
            let k = choose|k: int| 0 <= k < f.len() && f[k] == (c as usize, r as usize);
            assert(grid.in_bounds(x + f[k].0, y + f[k].1));
        }
    }
    assert((opp == 0) == no_opponent_overlap(grid, piece, player, x, y)) by {
        if opp == 0 {
            assert forall|c: int, r: int| #[trigger] piece.filled_at(c, r) implies !player.opposes(grid.at(x + c, y + r)) by {
                let k = choose|k: int| 0 <= k < f.len() && f[k] == (c as usize, r as usize);
                assert(!opposes_under(grid, player, x, y, f[k]));
            }
        } else {
            let k = choose|k: int| 0 <= k < f.len() && #[trigger] opposes_under(grid, player, x, y, f[k]);
            assert(piece.filled_at(f[k].0 as int, f[k].1 as int));
        }
    }
    if mine == 1 {
        let k = choose|k: int|
            0 <= k < f.len() && #[trigger] owns_under(grid, player, x, y, f[k]) && forall|m: int|
                0 <= m < f.len() && #[trigger] owns_under(grid, player, x, y, f[m]) ==> m == k;
        let c = f[k].0 as int;
        let r = f[k].1 as int;
        assert(piece.filled_at(c, r));
        assert(covers_own(grid, piece, player, x, y, c, r));
        assert forall|c2: int, r2: int| #[trigger] covers_own(grid, piece, player, x, y, c2, r2) implies c2 == c && r2 == r by {
            let m = choose|m: int| 0 <= m < f.len() && f[m] == (c2 as usize, r2 as usize);
            assert(owns_under(grid, player, x, y, f[m]));
        }
        assert(exactly_one_own_overlap(grid, piece, player, x, y));
    } else if mine == 0 {
        if exactly_one_own_overlap(grid, piece, player, x, y) {
            let (c, r) = choose|c: int, r: int|
                #[trigger] covers_own(grid, piece, player, x, y, c, r) && forall|c2: int, r2: int|
                    #[trigger] covers_own(grid, piece, player, x, y, c2, r2) ==> c2 == c && r2 == r;
            let k = choose|k: int| 0 <= k < f.len() && f[k] == (c as usize, r as usize);
            assert(owns_under(grid, player, x, y, f[k]));
        }
    } else {
        let (a, b) = choose|a: int, b: int|
            0 <= a < b < f.len() && #[trigger] owns_under(grid, player, x, y, f[a])
                && #[trigger] owns_under(grid, player, x, y, f[b]);
        assert(covers_own(grid, piece, player, x, y, f[a].0 as int, f[a].1 as int));
        assert(covers_own(grid, piece, player, x, y, f[b].0 as int, f[b].1 as int));
        if exactly_one_own_overlap(grid, piece, player, x, y) {
            let (c, r) = choose|c: int, r: int|
                #[trigger] covers_own(grid, piece, player, x, y, c, r) && forall|c2: int, r2: int|
                    #[trigger] covers_own(grid, piece, player, x, y, c2, r2) ==> c2 == c && r2 == r;
            assert(row_major_lt((f[a].0 as int, f[a].1 as int), (f[b].0 as int, f[b].1 as int)));
        }
    }
}

/// Whether the position (x, y) occurs in `s`.
pub open spec fn has_position(s: Seq<Position>, x: int, y: int) -> bool {
    exists|i: int| 0 <= i < s.len() && #[trigger] s[i].x == x && s[i].y == y
}

/// The top-left corners that `find_valid_placements` tries: from one piece side before
/// the board's top-left corner up to its last row and column.
pub open spec fn in_search_range(grid: Grid, piece: Piece, x: int, y: int) -> bool {
    &&& -(piece.width - 1) <= x < grid.width
    &&& -(piece.height - 1) <= y < grid.height
}

/// Every legal move lies in the range that the search scans: a legal move covers one
/// of the player's cells, so one solid cell of the piece lies on the board.
pub proof fn lemma_valid_placement_in_search_range(grid: Grid, piece: Piece, player: Player, x: int, y: int)
    requires
        valid_placement(grid, piece, player, x, y),
    ensures
        in_search_range(grid, piece, x, y),
{
    let (c, r) = choose|c: int, r: int|
        #[trigger] covers_own(grid, piece, player, x, y, c, r) && forall|c2: int, r2: int|
            #[trigger] covers_own(grid, piece, player, x, y, c2, r2) ==> c2 == c && r2 == r;
    assert(piece.filled_at(c, r));
    assert(grid.in_bounds(x + c, y + r));
}

/// Every legal move, in row-major order of the top-left corner.
pub fn find_valid_placements(grid: &Grid, piece: &Piece, player: &Player) -> (res: Vec<Position>)
    requires
        grid.covers() || !piece.has_solid(),
        piece.covers(),
        fits_coordinates(*grid, *piece),
    ensures
        forall|i: int| 0 <= i < res@.len() ==> valid_placement(*grid, *piece, *player, #[trigger] res@[i].x as int, res@[i].y as int),
        forall|x: int, y: int| #[trigger] valid_placement(*grid, *piece, *player, x, y) ==> has_position(res@, x, y),
        forall|i: int, j: int|
            0 <= i < j < res@.len() ==> row_major_lt(
                (#[trigger] res@[i].x as int, res@[i].y as int),
                (#[trigger] res@[j].x as int, res@[j].y as int),
            ),
{
    let mut valid_positions: Vec<Position> = Vec::new();
    let min_y: i32 = -(piece.height as i32 - 1);
    let max_y: i32 = grid.height as i32;
    let min_x: i32 = -(piece.width as i32 - 1);
    let max_x: i32 = grid.width as i32;
    let mut y: i32 = min_y;
    while y < max_y
        invariant
            grid.covers() || !piece.has_solid(),
            piece.covers(),
            fits_coordinates(*grid, *piece),
            min_y == -(piece.height - 1),
            max_y == grid.height,
            min_x == -(piece.width - 1),
            max_x == grid.width,
            min_y <= y,
            y <= max_y || y == min_y,
            forall|i: int|
                0 <= i < valid_positions@.len() ==> valid_placement(*grid, *piece, *player, #[trigger] valid_positions@[i].x as int, valid_positions@[i].y as int)
                    && valid_positions@[i].y < y,
            forall|px: int, py: int|
                #[trigger] valid_placement(*grid, *piece, *player, px, py) && py < y ==> has_position(valid_positions@, px, py),
            forall|i: int, j: int|
                0 <= i < j < valid_positions@.len() ==> row_major_lt(
                    (#[trigger] valid_positions@[i].x as int, valid_positions@[i].y as int),
                    (#[trigger] valid_positions@[j].x as int, valid_positions@[j].y as int),
                ),
        decreases max_y - y,
    {
        let mut x: i32 = min_x;
        while x < max_x
            invariant
                grid.covers() || !piece.has_solid(),
                piece.covers(),
                fits_coordinates(*grid, *piece),
                min_y == -(piece.height - 1),
                max_y == grid.height,
                min_x == -(piece.width - 1),
                max_x == grid.width,
                min_y <= y < max_y,
                min_x <= x,
                x <= max_x || x == min_x,
                forall|i: int|
                    0 <= i < valid_positions@.len() ==> valid_placement(*grid, *piece, *player, #[trigger] valid_positions@[i].x as int, valid_positions@[i].y as int)
                        && row_major_lt((valid_positions@[i].x as int, valid_positions@[i].y as int), (x as int, y as int)),
                forall|px: int, py: int|
                    #[trigger] valid_placement(*grid, *piece, *player, px, py) && (py < y || (py == y && px < x))
                        ==> has_position(valid_positions@, px, py),
                forall|i: int, j: int|
                    0 <= i < j < valid_positions@.len() ==> row_major_lt(
                        (#[trigger] valid_positions@[i].x as int, valid_positions@[i].y as int),
                        (#[trigger] valid_positions@[j].x as int, valid_positions@[j].y as int),
                    ),
            decreases max_x - x,
        {
            assert(reads_present_cells(*grid, *piece, x as int, y as int)) by {
                assert forall|c: int, r: int|
                    #[trigger] piece.filled_at(c, r) && grid.in_bounds(x + c, y + r) implies grid.has_cell(x + c, y + r) by {
                    assert(piece.has_solid());
                }
            }
            if is_valid_placement(grid, piece, player, x, y) {
                let ghost before = valid_positions@;
                valid_positions.push(Position { x, y });
                assert forall|px: int, py: int|
                    #[trigger] valid_placement(*grid, *piece, *player, px, py) && (py < y || (py == y && px < x + 1))
                        implies has_position(valid_positions@, px, py) by {
                    if py == y && px == x {
                        assert(valid_positions@[before.len() as int].x == px);
                    } else {
                        let k = choose|k: int| 0 <= k < before.len() && #[trigger] before[k].x == px && before[k].y == py;
                        assert(valid_positions@[k].x == px);
                    }
                }
            } else {
                assert forall|px: int, py: int|
                    #[trigger] valid_placement(*grid, *piece, *player, px, py) && (py < y || (py == y && px < x + 1))
                        implies has_position(valid_positions@, px, py) by {
                    if py == y && px == x {
                        assert(!valid_placement(*grid, *piece, *player, x as int, y as int));
                    }
                }
            }
            x = x + 1;
        }
        assert forall|i: int| 0 <= i < valid_positions@.len() implies #[trigger] valid_positions@[i].y < y + 1 by {
            assert(row_major_lt((valid_positions@[i].x as int, valid_positions@[i].y as int), (x as int, y as int)));
        }
        assert forall|px: int, py: int|
            #[trigger] valid_placement(*grid, *piece, *player, px, py) && py < y + 1
                implies has_position(valid_positions@, px, py) by {
            lemma_valid_placement_in_search_range(*grid, *piece, *player, px, py);
        }
        y = y + 1;
    }
    assert forall|px: int, py: int|
        #[trigger] valid_placement(*grid, *piece, *player, px, py)
            implies has_position(valid_positions@, px, py) by {
        lemma_valid_placement_in_search_range(*grid, *piece, *player, px, py);
    }
    valid_positions
}

} // verus!
