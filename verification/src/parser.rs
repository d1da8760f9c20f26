use vstd::prelude::*;
use vstd::utf8::{decode_utf8, encode_utf8, encode_utf8_decode_utf8, is_char_boundary};

use crate::text::{chars_of, has_prefix, parse_usize, parse_usize_chars, split_words, trim_end, trim_end_chars, words};
use crate::types::{Grid, Piece, Player};

verus! {

/// The word "$$$" that opens the engine's lines.
pub open spec fn engine_word() -> Seq<char> {
    seq!['$', '$', '$']
}

/// The word "exec".
pub open spec fn exec_word() -> Seq<char> {
    seq!['e', 'x', 'e', 'c']
}

/// The word "p1".
pub open spec fn p1_word() -> Seq<char> {
    seq!['p', '1']
}

/// The word "p2".
pub open spec fn p2_word() -> Seq<char> {
    seq!['p', '2']
}

/// The seat token of an opening line in the engine's format "$$$ exec p1 : [...]":
/// its third word, where the line begins with "$$$ exec" and that word is "p1" or "p2".
pub open spec fn seat_token(s: Seq<char>) -> Option<Seq<char>> {
    let w = words(s);
    if w.len() >= 3 && w[0] == engine_word() && w[1] == exec_word() && (w[2] == p1_word() || w[2] == p2_word()) {
        Some(w[2])
    } else {
        None
    }
}

/// "p1" occurs somewhere in `s`.
pub open spec fn mentions_p1(s: Seq<char>) -> bool {
    exists|i: int| 0 <= i && i + 1 < s.len() && #[trigger] s[i] == 'p' && s[i + 1] == '1'
}

/// Whether `s` and `t` hold the same characters.
fn same_chars(s: &Vec<char>, t: &Vec<char>) -> (res: bool)
    ensures
        res == (s@ == t@),
{
    if s.len() != t.len() {
        return false;
    }
    let res = has_prefix(s, t);
    assert(s@.take(t@.len() as int) =~= s@);
    res
}

/// Whether "p1" occurs somewhere in `chars`.
fn contains_p1(chars: &Vec<char>) -> (res: bool)
    ensures
        res == mentions_p1(chars@),
{
    let mut i: usize = 0;
    while i < chars.len()
        invariant
            forall|k: int| 0 <= k < i && k + 1 < chars@.len() ==> !(#[trigger] chars@[k] == 'p' && chars@[k + 1] == '1'),
        decreases chars@.len() - i,
    {
        if chars[i] == 'p' && i + 1 < chars.len() && chars[i + 1] == '1' {
            return true;
        }
        i = i + 1;
    }
    false
}

/// The player that the engine's opening line ("$$$ exec p1 : [...]") seats us as:
/// the seat token decides where the line has one; on any other line, player one where
/// "p1" occurs in it and player two otherwise.
pub fn parse_player(line: &str) -> (res: Player)
    ensures
        res == (match seat_token(line@) {
            Some(token) => if token == p1_word() { Player::P1 } else { Player::P2 },
            None => if mentions_p1(line@) { Player::P1 } else { Player::P2 },
        }),
{
    let chars = chars_of(line);
    let parts = split_words(&chars);
    let engine = vec!['$', '$', '$'];
    let exec = vec!['e', 'x', 'e', 'c'];
    let p1 = vec!['p', '1'];
    let p2 = vec!['p', '2'];
    assert(engine@ =~= engine_word());
    assert(exec@ =~= exec_word());
    assert(p1@ =~= p1_word());
    assert(p2@ =~= p2_word());
    if parts.len() >= 3 && same_chars(&parts[0], &engine) && same_chars(&parts[1], &exec) {
        if same_chars(&parts[2], &p1) {
            return Player::P1;
        }
        if same_chars(&parts[2], &p2) {
            return Player::P2;
        }
    }
    if contains_p1(&chars) {
        Player::P1
    } else {
        Player::P2
    }
}

/// The width and height that a header such as "Anfield 10 3:" or "Piece 4 2:" gives:
/// its second word, and its third word without trailing ':', both as `usize`.
pub open spec fn header_dims(s: Seq<char>) -> Option<(nat, nat)> {
    let w = words(s);
    if w.len() >= 3 && parse_usize(w[1]) is Some && parse_usize(trim_end(w[2], ':')) is Some {
        Some((parse_usize(w[1])->0, parse_usize(trim_end(w[2], ':'))->0))
    } else {
        None
    }
}

/// The width and height of a header line, or `None` where it has fewer than three
/// words or they are not numbers.
pub fn parse_dims(header: &str) -> (res: Option<(usize, usize)>)
    ensures
        match res {
            Some((w, h)) => header_dims(header@) == Some((w as nat, h as nat)),
            None => header_dims(header@) is None,
        },
{
    let chars = chars_of(header);
    let parts = split_words(&chars);
    if parts.len() < 3 {
        return None;
    }
    let width = parse_usize_chars(&parts[1]);
    let height_word = trim_end_chars(&parts[2], ':');
    let height = parse_usize_chars(&height_word);
    match (width, height) {
        (Some(w), Some(h)) => Some((w, h)),
        _ => None,
    }
}

/// A grid row can be cut after its first four bytes ("000 " before the cells):
/// where it is longer than that, byte four starts a character.
pub open spec fn row_cut_ok(s: Seq<char>) -> bool {
    let b = encode_utf8(s);
    b.len() > 4 ==> is_char_boundary(b, 4)
}

/// The cells of a grid row: the characters after its first four bytes, none where it is not longer.
pub open spec fn row_cells(s: Seq<char>) -> Seq<char> {
    let b = encode_utf8(s);
    if b.len() > 4 {
        decode_utf8(b.subrange(4, b.len() as int))
    } else {
        Seq::empty()
    }
}

/// The characters of each line.
pub open spec fn line_views(lines: Seq<String>) -> Seq<Seq<char>> {
    lines.map_values(|s: String| s@)
}

/// Lines that `parse_grid` reads: a header with dimensions, a column header,
/// then `height` rows that can be cut after their row number.
pub open spec fn grid_input_ok(lines: Seq<Seq<char>>) -> bool {
    &&& lines.len() > 0
    &&& header_dims(lines[0]) is Some
    &&& 2 + header_dims(lines[0]).unwrap().1 <= lines.len()
    &&& forall|i: int| 0 <= i < header_dims(lines[0]).unwrap().1 ==> row_cut_ok(#[trigger] lines[2 + i])
}

/// `grid` is what the lines give: the header's dimensions and, for each of the
/// `height` rows after the column header, the characters after the row number.
pub open spec fn grid_read_from(grid: Grid, lines: Seq<Seq<char>>) -> bool {
    &&& header_dims(lines[0]) == Some((grid.width as nat, grid.height as nat))
    &&& grid.cells@.len() == grid.height
    &&& forall|i: int| 0 <= i < grid.height ==> #[trigger] grid.cells@[i]@ == row_cells(lines[2 + i])
}

/// The characters after a row's first four bytes.
fn row_after_number(line: &String) -> (res: Vec<char>)
    requires
        row_cut_ok(line@),
    ensures
        res@ == row_cells(line@),
{
    let s: &str = line.as_str();
    if s.as_bytes().len() > 4 {
        let (_, rest) = s.split_at(4);
        let res = chars_of(rest);
        proof {
            encode_utf8_decode_utf8(rest@);
        }
        res
    } else {
        Vec::new()
    }
}

/// The Anfield that the lines give.
pub fn parse_grid(lines: &[String]) -> (grid: Grid)
    requires
        grid_input_ok(line_views(lines@)),
    ensures
        grid_read_from(grid, line_views(lines@)),
{
    let header = &lines[0];
    let (width, height) = parse_dims(header.as_str()).unwrap();
    let mut cells: Vec<Vec<char>> = Vec::new();
    let n = lines.len();
    let mut i: usize = 0;
    while i < height
        invariant
            n == lines@.len(),
            grid_input_ok(line_views(lines@)),
            header_dims(line_views(lines@)[0]) == Some((width as nat, height as nat)),
            i <= height,
            cells@.len() == i,
            forall|k: int| 0 <= k < i ==> #[trigger] cells@[k]@ == row_cells(line_views(lines@)[2 + k]),
        decreases height - i,
    {
        assert(row_cut_ok(line_views(lines@)[2 + i as int]));
        assert(line_views(lines@)[2 + i as int] == lines@[2 + i as int]@);
        let row = row_after_number(&lines[2 + i]);
        cells.push(row);
        i = i + 1;
    }
    Grid { width, height, cells }
}

/// Whether `parse_grid` can read `lines`.
pub fn grid_input_valid(lines: &[String]) -> (res: bool)
    ensures
        res == grid_input_ok(line_views(lines@)),
{
    if lines.len() == 0 {
        return false;
    }
    let (_, height) = match parse_dims(lines[0].as_str()) {
        Some(d) => d,
        None => {
            return false;
        },
    };
    if lines.len() < 2 || height > lines.len() - 2 {
        return false;
    }
    let n = lines.len();
    let mut i: usize = 0;
    while i < height
        invariant
            n == lines@.len(),
            lines@.len() > 0,
            header_dims(line_views(lines@)[0]) is Some,
            height == header_dims(line_views(lines@)[0]).unwrap().1,
            2 + height <= lines@.len(),
            i <= height,
            forall|k: int| 0 <= k < i ==> row_cut_ok(#[trigger] line_views(lines@)[2 + k]),
        decreases height - i,
    {
        let s: &str = lines[2 + i].as_str();
        assert(line_views(lines@)[2 + i as int] == s@);
        if s.as_bytes().len() > 4 && !s.is_char_boundary(4) {
            return false;
        }
        i = i + 1;
    }
    true
}

/// The grid that `lines` give, or `None` where `parse_grid` cannot read them.
pub fn try_parse_grid(lines: &[String]) -> (res: Option<Grid>)
    ensures
        match res {
            Some(grid) => grid_input_ok(line_views(lines@)) && grid_read_from(grid, line_views(lines@)),
            None => !grid_input_ok(line_views(lines@)),
        },
{
    if grid_input_valid(lines) {
        Some(parse_grid(lines))
    } else {
        None
    }
}

/// The solid cells of a piece row: 'O' and '*' are solid, anything else is empty.
pub open spec fn row_solid(s: Seq<char>) -> Seq<bool> {
    s.map_values(|c: char| c == 'O' || c == '*')
}

/// Lines that `parse_piece` reads: a header with dimensions, then `height` rows.
pub open spec fn piece_input_ok(lines: Seq<Seq<char>>) -> bool {
    &&& lines.len() > 0
    &&& header_dims(lines[0]) is Some
    &&& 1 + header_dims(lines[0]).unwrap().1 <= lines.len()
}

/// `piece` is what the lines give: the header's dimensions and, for each of the
/// `height` rows after it, which of its characters are solid.
pub open spec fn piece_read_from(piece: Piece, lines: Seq<Seq<char>>) -> bool {
    &&& header_dims(lines[0]) == Some((piece.width as nat, piece.height as nat))
    &&& piece.cells@.len() == piece.height
    &&& forall|i: int| 0 <= i < piece.height ==> #[trigger] piece.cells@[i]@ == row_solid(lines[1 + i])
}

/// A parsed piece reads each character of a row on its own: its rows are as long as
/// the lines after the header, and a cell is solid exactly where its character is
/// 'O' or '*', wherever it stands in the row.
pub proof fn lemma_piece_cells_read_one_by_one(piece: Piece, lines: Seq<Seq<char>>)
    requires
        piece_read_from(piece, lines),
    ensures
        forall|i: int| 0 <= i < piece.height ==> (#[trigger] piece.cells@[i]@).len() == lines[1 + i].len(),
        forall|i: int, j: int|
            0 <= i < piece.height && 0 <= j < lines[1 + i].len() ==> #[trigger] piece.cells@[i]@[j] == (lines[1 + i][j]
                == 'O' || lines[1 + i][j] == '*'),
{
    assert forall|i: int, j: int|
        0 <= i < piece.height && 0 <= j < lines[1 + i].len() implies #[trigger] piece.cells@[i]@[j] == (lines[1 + i][j]
            == 'O' || lines[1 + i][j] == '*') by {
        assert(piece.cells@[i]@ == row_solid(lines[1 + i]));
    }
}

/// The piece that the lines give.
pub fn parse_piece(lines: &[String]) -> (piece: Piece)
    requires
        piece_input_ok(line_views(lines@)),
    ensures
        piece_read_from(piece, line_views(lines@)),
{
    let header = &lines[0];
    let (width, height) = parse_dims(header.as_str()).unwrap();
    let mut cells: Vec<Vec<bool>> = Vec::new();
    let mut i: usize = 0;
    while i < height
        invariant
            piece_input_ok(line_views(lines@)),
            header_dims(line_views(lines@)[0]) == Some((width as nat, height as nat)),
            i <= height,
            cells@.len() == i,
            forall|k: int| 0 <= k < i ==> #[trigger] cells@[k]@ == row_solid(line_views(lines@)[1 + k]),
        decreases height - i,
    {
        let chars = chars_of(lines[1 + i].as_str());
        assert(line_views(lines@)[1 + i as int] == chars@);
        let mut row: Vec<bool> = Vec::new();
        let mut j: usize = 0;
        while j < chars.len()
            invariant
                j <= chars@.len(),
                row@ == row_solid(chars@.subrange(0, j as int)),
            decreases chars@.len() - j,
        {
            let c = chars[j];
            row.push(c == 'O' || c == '*');
            assert(row_solid(chars@.subrange(0, j + 1)) =~= row_solid(chars@.subrange(0, j as int)).push(c == 'O' || c == '*'));
            j = j + 1;
        }
        assert(chars@.subrange(0, j as int) =~= chars@);
        cells.push(row);
        i = i + 1;
    }
    Piece { width, height, cells }
}

/// The piece that `lines` give, or `None` where `parse_piece` cannot read them.
pub fn try_parse_piece(lines: &[String]) -> (res: Option<Piece>)
    ensures
        match res {
            Some(piece) => piece_input_ok(line_views(lines@)) && piece_read_from(piece, line_views(lines@)),
            None => !piece_input_ok(line_views(lines@)),
        },
{
    if lines.len() == 0 {
        return None;
    }
    match parse_dims(lines[0].as_str()) {
        Some((_, height)) => {
            if lines.len() - 1 < height {
                None
            } else {
                Some(parse_piece(lines))
            }
        },
        None => None,
    }
}

} // verus!
