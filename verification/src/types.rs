use vstd::prelude::*;

verus! {

/// The two seats of a game. Player one owns '@' (and 'a', its latest piece),
/// player two owns '$' (and 's').
#[derive(Debug, Clone, Copy, PartialEq, Eq, Structural)]
pub enum Player {
    P1,
    P2,
}

impl Player {
    /// The two characters that mark this player's territory.
    pub open spec fn own_marks(self) -> (char, char) {
        match self {
            Player::P1 => ('@', 'a'),
            Player::P2 => ('$', 's'),
        }
    }

    /// The two characters that mark the other player's territory.
    pub open spec fn other_marks(self) -> (char, char) {
        match self {
            Player::P1 => ('$', 's'),
            Player::P2 => ('@', 'a'),
        }
    }

    /// Whether `c` marks a cell of this player.
    pub open spec fn owns(self, c: char) -> bool {
        c == self.own_marks().0 || c == self.own_marks().1
    }

    /// Whether `c` marks a cell of the other player.
    pub open spec fn opposes(self, c: char) -> bool {
        c == self.other_marks().0 || c == self.other_marks().1
    }

    /// This player's two marks.
    pub fn my_chars(&self) -> (res: (char, char))
        ensures
            res == self.own_marks(),
    {
        match self {
            Player::P1 => ('@', 'a'),
            Player::P2 => ('$', 's'),
        }
    }

    /// The opponent's two marks.
    pub fn opponent_chars(&self) -> (res: (char, char))
        ensures
            res == self.other_marks(),
    {
        match self {
            Player::P1 => ('$', 's'),
            Player::P2 => ('@', 'a'),
        }
    }

    /// Whether `c` marks a cell of this player.
    pub fn is_mine(&self, c: char) -> (res: bool)
        ensures
            res == self.owns(c),
    {
        let (c1, c2) = self.my_chars();
        c == c1 || c == c2
    }

    /// Whether `c` marks a cell of the opponent.
    pub fn is_opponent(&self, c: char) -> (res: bool)
        ensures
            res == self.opposes(c),
    {
        let (c1, c2) = self.opponent_chars();
        c == c1 || c == c2
    }
}


/// No character marks both a player's own territory and its opponent's.
pub proof fn lemma_own_and_opponent_disjoint(player: Player, c: char)
    ensures
        !(player.owns(c) && player.opposes(c)),
{
}

/// The opponent's marks of one seat are the own marks of the other seat.
pub proof fn lemma_opponent_is_other_seat(c: char)
    ensures
        Player::P1.opposes(c) == Player::P2.owns(c),
        Player::P2.opposes(c) == Player::P1.owns(c),
{
}

/// A cell of the Anfield, as a column `x` and a row `y`.
#[derive(Debug, Clone, Copy, PartialEq, Eq, Structural)]
pub struct Position {
    pub x: i32,
    pub y: i32,
}

/// Strict row-major order on cells given as (column, row): first by row, then by column.
pub open spec fn row_major_lt(a: (int, int), b: (int, int)) -> bool {
    a.1 < b.1 || (a.1 == b.1 && a.0 < b.0)
}

/// A piece handed out by the engine: `cells[row][col]` is true where the piece is solid.
#[derive(Debug, Clone, PartialEq)]
pub struct Piece {
    pub width: usize,
    pub height: usize,
    pub cells: Vec<Vec<bool>>,
}

impl Piece {
    /// Every row and column inside `width` x `height` has a cell in `cells`.
    pub open spec fn covers(self) -> bool {
        &&& self.height <= self.cells@.len()
        &&& forall|r: int| 0 <= r < self.height ==> self.width <= #[trigger] self.cells@[r]@.len()
    }

    /// The piece has at least one solid cell.
    pub open spec fn has_solid(self) -> bool {
        exists|c: int, r: int| #[trigger] self.filled_at(c, r)
    }

    /// Whether column `c` of row `r` is a solid part of the piece.
    pub open spec fn filled_at(self, c: int, r: int) -> bool {
        0 <= r < self.height && 0 <= c < self.width && self.cells@[r]@[c]
    }

    /// The solid cells as (column, row) pairs, in row-major order.
    pub fn filled_cells(&self) -> (res: Vec<(usize, usize)>)
        requires
            self.covers(),
        ensures
            forall|i: int|
                0 <= i < res@.len() ==> self.filled_at(#[trigger] res@[i].0 as int, res@[i].1 as int),
            forall|c: int, r: int|
                #[trigger] self.filled_at(c, r) ==> res@.contains((c as usize, r as usize)),
            forall|i: int, j: int|
                0 <= i < j < res@.len() ==> row_major_lt(
                    (#[trigger] res@[i].0 as int, res@[i].1 as int),
                    (#[trigger] res@[j].0 as int, res@[j].1 as int),
                ),
    {
        let mut result: Vec<(usize, usize)> = Vec::new();
        let mut row: usize = 0;
        while row < self.height
            invariant
                self.covers(),
                row <= self.height,
                forall|i: int|
                    0 <= i < result@.len() ==> self.filled_at(
                        #[trigger] result@[i].0 as int,
                        result@[i].1 as int,
                    ) && result@[i].1 < row,
                forall|c: int, r: int|
                    #[trigger] self.filled_at(c, r) && r < row ==> result@.contains(
                        (c as usize, r as usize),
                    ),
                forall|i: int, j: int|
                    0 <= i < j < result@.len() ==> row_major_lt(
                        (#[trigger] result@[i].0 as int, result@[i].1 as int),
                        (#[trigger] result@[j].0 as int, result@[j].1 as int),
                    ),
            decreases self.height - row,
        {
            let mut col: usize = 0;
            while col < self.width
                invariant
                    self.covers(),
                    row < self.height,
                    col <= self.width,
                    forall|i: int|
                        0 <= i < result@.len() ==> self.filled_at(
                            #[trigger] result@[i].0 as int,
                            result@[i].1 as int,
                        ) && row_major_lt(
                            (result@[i].0 as int, result@[i].1 as int),
                            (col as int, row as int),
                        ),
                    forall|c: int, r: int|
                        #[trigger] self.filled_at(c, r) && (r < row || (r == row && c < col))
                            ==> result@.contains((c as usize, r as usize)),
                    forall|i: int, j: int|
                        0 <= i < j < result@.len() ==> row_major_lt(
                            (#[trigger] result@[i].0 as int, result@[i].1 as int),
                            (#[trigger] result@[j].0 as int, result@[j].1 as int),
                        ),
                decreases self.width - col,
            {
                if self.cells[row][col] {
                    let ghost before = result@;
                    result.push((col, row));
                    assert forall|c: int, r: int|
                        #[trigger] self.filled_at(c, r) && (r < row || (r == row && c < col + 1))
                            implies result@.contains((c as usize, r as usize)) by {
                        if r == row && c == col {
                            assert(result@[before.len() as int] == (c as usize, r as usize));
                        } else {
                            assert(before.contains((c as usize, r as usize)));
                            let k = choose|k: int| 0 <= k < before.len() && before[k] == (c as usize, r as usize);
                            assert(result@[k] == before[k]);
                        }
                    }
                } else {
                    assert forall|c: int, r: int|
                        #[trigger] self.filled_at(c, r) && (r < row || (r == row && c < col + 1))
                            implies result@.contains((c as usize, r as usize)) by {
                        if r == row && c == col {
                            assert(!self.cells@[r]@[c]);
                        }
                    }
                }
                col = col + 1;
            }
            row = row + 1;
        }
        result
    }
}

/// The Anfield: `cells[row][col]` is '.', or a mark of one of the players.
#[derive(Debug, Clone, PartialEq)]
pub struct Grid {
    pub width: usize,
    pub height: usize,
    pub cells: Vec<Vec<char>>,
}

impl Grid {
    /// Every row and column inside `width` x `height` has a cell in `cells`.
    pub open spec fn covers(self) -> bool {
        &&& self.height <= self.cells@.len()
        &&& forall|r: int| 0 <= r < self.height ==> self.width <= #[trigger] self.cells@[r]@.len()
    }

    /// `cells` holds a character at column `x` of row `y`.
    pub open spec fn has_cell(self, x: int, y: int) -> bool {
        0 <= y < self.cells@.len() && 0 <= x < self.cells@[y]@.len()
    }

    /// Whether (x, y) lies on the Anfield.
    pub open spec fn in_bounds(self, x: int, y: int) -> bool {
        0 <= x < self.width && 0 <= y < self.height
    }

    /// The character at column `x` of row `y`.
    pub open spec fn at(self, x: int, y: int) -> char {
        self.cells@[y]@[x]
    }

    /// The spec of `get`: nothing outside the Anfield, the cell's character inside it.
    /// The bounds are the width and height seen as `i32` coordinates.
    pub open spec fn lookup(self, x: i32, y: i32) -> Option<char> {
        if x < 0 || y < 0 || x >= self.width as i32 || y >= self.height as i32 {
            None
        } else {
            Some(self.at(x as int, y as int))
        }
    }

    /// The character at column `x` of row `y`, or `None` off the board.
    pub fn get(&self, x: i32, y: i32) -> (res: Option<char>)
        requires
            0 <= x < self.width as i32 && 0 <= y < self.height as i32 ==> y < self.cells@.len() && x
                < self.cells@[y as int]@.len(),
        ensures
            res == self.lookup(x, y),
    {
        if x < 0 || y < 0 || x >= self.width as i32 || y >= self.height as i32 {
            None
        } else {
            Some(self.cells[y as usize][x as usize])
        }
    }
}

} // verus!
