use vstd::prelude::*;

use crate::parser::{grid_input_ok, grid_read_from, line_views, piece_input_ok, piece_read_from, try_parse_grid, try_parse_piece};
use crate::text::{
    chars_of, has_prefix, lemma_trim_end_prefix, parse_usize, parse_usize_chars, split_words, starts_with, trim_end,
    trim_end_chars, words,
};
use crate::types::{Grid, Piece};

verus! {

/// The word that opens the Anfield's header line.
pub open spec fn anfield_tag() -> Seq<char> {
    seq!['A', 'n', 'f', 'i', 'e', 'l', 'd']
}

/// The word that opens the piece's header line.
pub open spec fn piece_tag() -> Seq<char> {
    seq!['P', 'i', 'e', 'c', 'e']
}

/// A line as read, without the '\n' and then the '\r' characters at its end.
pub open spec fn clean_line(raw: Seq<char>) -> Seq<char> {
    trim_end(trim_end(raw, '\n'), '\r')
}

/// The number of rows that a header line announces: its third word without trailing ':',
/// or 0 where that is not a number.
pub open spec fn announced_rows(line: Seq<char>) -> nat {
    match parse_usize(trim_end(words(line)[2], ':')) {
        Some(h) => h,
        None => 0,
    }
}

/// What the reader of a turn has seen so far.
#[verifier::ext_equal]
pub struct TurnView {
    pub grid_lines: Seq<Seq<char>>,
    pub piece_lines: Seq<Seq<char>>,
    pub reading_grid: bool,
    pub reading_piece: bool,
    pub grid_rows_left: nat,
    pub piece_rows_left: nat,
    pub skip_column_header: bool,
}

/// A reader that has seen nothing yet.
pub open spec fn fresh_turn() -> TurnView {
    TurnView {
        grid_lines: Seq::empty(),
        piece_lines: Seq::empty(),
        reading_grid: false,
        reading_piece: false,
        grid_rows_left: 0,
        piece_rows_left: 0,
        skip_column_header: false,
    }
}

/// The reader can take the line `raw`: a header has a third word, and a row that
/// the reader counts down is one that it still expects.
pub open spec fn takes_line(v: TurnView, raw: Seq<char>) -> bool {
    let line = clean_line(raw);
    if starts_with(line, anfield_tag()) || starts_with(line, piece_tag()) {
        words(line).len() >= 3
    } else if v.reading_grid {
        v.skip_column_header || v.grid_rows_left > 0
    } else if v.reading_piece {
        v.piece_rows_left > 0
    } else {
        true
    }
}

/// The reader after the line `raw`, and whether that line completed the turn.
/// An "Anfield" header starts the grid, a "Piece" header the piece; the grid's
/// column header is kept and not counted; the last announced piece row ends the turn;
/// lines outside both are skipped.
pub open spec fn next_turn(v: TurnView, raw: Seq<char>) -> (TurnView, bool) {
    let line = clean_line(raw);
    if starts_with(line, anfield_tag()) {
        (TurnView {
            grid_lines: v.grid_lines.push(line),
            reading_grid: true,
            reading_piece: false,
            grid_rows_left: announced_rows(line),
            skip_column_header: true,
            ..v
        }, false)
    } else if starts_with(line, piece_tag()) {
        (TurnView {
            piece_lines: v.piece_lines.push(line),
            reading_grid: false,
            reading_piece: true,
            piece_rows_left: announced_rows(line),
            ..v
        }, false)
    } else if v.reading_grid {
        if v.skip_column_header {
            (TurnView { grid_lines: v.grid_lines.push(line), skip_column_header: false, ..v }, false)
        } else {
            let left = (v.grid_rows_left - 1) as nat;
            (TurnView {
                grid_lines: v.grid_lines.push(line),
                grid_rows_left: left,
                reading_grid: left != 0,
                ..v
            }, false)
        }
    } else if v.reading_piece {
        let left = (v.piece_rows_left - 1) as nat;
        (TurnView { piece_lines: v.piece_lines.push(line), piece_rows_left: left, ..v }, left == 0)
    } else {
        (v, false)
    }
}

/// Collects the lines of one turn: the Anfield and then the piece.
pub struct TurnReader {
    grid_lines: Vec<String>,
    piece_lines: Vec<String>,
    reading_grid: bool,
    reading_piece: bool,
    grid_rows_remaining: usize,
    piece_rows_remaining: usize,
    skip_column_header: bool,
}

impl View for TurnReader {
    type V = TurnView;

    closed spec fn view(&self) -> TurnView {
        TurnView {
            grid_lines: line_views(self.grid_lines@),
            piece_lines: line_views(self.piece_lines@),
            reading_grid: self.reading_grid,
            reading_piece: self.reading_piece,
            grid_rows_left: self.grid_rows_remaining as nat,
            piece_rows_left: self.piece_rows_remaining as nat,
            skip_column_header: self.skip_column_header,
        }
    }
}

/// The line without its line ending, as characters and as a `String`.
fn clean(raw: &str) -> (res: (Vec<char>, String))
    ensures
        res.0@ == clean_line(raw@),
        res.1@ == clean_line(raw@),
{
    let chars = chars_of(raw);
    let no_newline = trim_end_chars(&chars, '\n');
    let line = trim_end_chars(&no_newline, '\r');
    proof {
        lemma_trim_end_prefix(raw@, '\n');
        lemma_trim_end_prefix(no_newline@, '\r');
        assert(line@ =~= raw@.subrange(0, line@.len() as int));
    }
    let text = raw.substring_char(0, line.len()).to_owned();
    (line, text)
}

/// The characters of "Anfield".
fn anfield_tag_chars() -> (res: Vec<char>)
    ensures
        res@ == anfield_tag(),
{
    let v = vec!['A', 'n', 'f', 'i', 'e', 'l', 'd'];
    assert(v@ =~= anfield_tag());
    v
}

/// The characters of "Piece".
fn piece_tag_chars() -> (res: Vec<char>)
    ensures
        res@ == piece_tag(),
{
    let v = vec!['P', 'i', 'e', 'c', 'e'];
    assert(v@ =~= piece_tag());
    v
}

/// The word count of a header line is at least three, and what its third word announces.
fn header_rows(line: &Vec<char>) -> (res: Option<usize>)
    ensures
        match res {
            Some(h) => words(line@).len() >= 3 && h == announced_rows(line@),
            None => words(line@).len() < 3,
        },
{
    let parts = split_words(line);
    if parts.len() < 3 {
        return None;
    }
    let height_word = trim_end_chars(&parts[2], ':');
    match parse_usize_chars(&height_word) {
        Some(h) => Some(h),
        None => Some(0),
    }
}

impl TurnReader {
    /// A reader for a new turn.
    pub fn new() -> (res: TurnReader)
        ensures
            res@ == fresh_turn(),
    {
        let res = TurnReader {
            grid_lines: Vec::new(),
            piece_lines: Vec::new(),
            reading_grid: false,
            reading_piece: false,
            grid_rows_remaining: 0,
            piece_rows_remaining: 0,
            skip_column_header: false,
        };
        assert(res@.grid_lines =~= Seq::<Seq<char>>::empty());
        assert(res@.piece_lines =~= Seq::<Seq<char>>::empty());
        res
    }

    /// Whether the reader can take the line `raw`.
    pub fn takes(&self, raw: &str) -> (res: bool)
        ensures
            res == takes_line(self@, raw@),
    {
        let (line, _) = clean(raw);
        if has_prefix(&line, &anfield_tag_chars()) || has_prefix(&line, &piece_tag_chars()) {
            header_rows(&line).is_some()
        } else if self.reading_grid {
            self.skip_column_header || self.grid_rows_remaining > 0
        } else if self.reading_piece {
            self.piece_rows_remaining > 0
        } else {
            true
        }
    }

    /// Takes the line `raw`; true where it completed the turn.
    pub fn feed(&mut self, raw: &str) -> (done: bool)
        requires
            takes_line(old(self)@, raw@),
        ensures
            (final(self)@, done) == next_turn(old(self)@, raw@),
    {
        let (line, text) = clean(raw);
        let ghost old_grid = self.grid_lines@;
        let ghost old_piece = self.piece_lines@;
        if has_prefix(&line, &anfield_tag_chars()) {
            let height = header_rows(&line).unwrap();
            self.grid_lines.push(text);
            self.reading_grid = true;
            self.reading_piece = false;
            self.grid_rows_remaining = height;
            self.skip_column_header = true;
            assert(line_views(self.grid_lines@) =~= line_views(old_grid).push(line@));
            return false;
        }
        if has_prefix(&line, &piece_tag_chars()) {
            let height = header_rows(&line).unwrap();
            self.piece_lines.push(text);
            self.reading_grid = false;
            self.reading_piece = true;
            self.piece_rows_remaining = height;
            assert(line_views(self.piece_lines@) =~= line_views(old_piece).push(line@));
            return false;
        }
        if self.reading_grid {
            if self.skip_column_header {
                self.grid_lines.push(text);
                self.skip_column_header = false;
                assert(line_views(self.grid_lines@) =~= line_views(old_grid).push(line@));
                return false;
            }
            self.grid_lines.push(text);
            self.grid_rows_remaining = self.grid_rows_remaining - 1;
            if self.grid_rows_remaining == 0 {
                self.reading_grid = false;
            }
            assert(line_views(self.grid_lines@) =~= line_views(old_grid).push(line@));
            return false;
        }
        if self.reading_piece {
            self.piece_lines.push(text);
            self.piece_rows_remaining = self.piece_rows_remaining - 1;
            assert(line_views(self.piece_lines@) =~= line_views(old_piece).push(line@));
            return self.piece_rows_remaining == 0;
        }
        false
    }

    /// The grid and the piece of a completed turn, or `None` where their lines cannot be read.
    pub fn finish(&self) -> (res: Option<(Grid, Piece)>)
        ensures
            match res {
                Some((grid, piece)) => grid_input_ok(self@.grid_lines) && piece_input_ok(self@.piece_lines)
                    && grid_read_from(grid, self@.grid_lines) && piece_read_from(piece, self@.piece_lines),
                None => !(grid_input_ok(self@.grid_lines) && piece_input_ok(self@.piece_lines)),
            },
    {
        let grid = try_parse_grid(self.grid_lines.as_slice());
        let piece = try_parse_piece(self.piece_lines.as_slice());
        match (grid, piece) {
            (Some(g), Some(p)) => Some((g, p)),
            _ => None,
        }
    }
}

/// A header line of the Anfield or of the piece.
pub open spec fn is_tag_line(line: Seq<char>) -> bool {
    starts_with(line, anfield_tag()) || starts_with(line, piece_tag())
}

/// The reader in state `v` after `lines`, stopping at the line that completes the turn,
/// and whether one did.
pub open spec fn run_turn(v: TurnView, lines: Seq<Seq<char>>) -> (TurnView, bool)
    decreases lines.len(),
{
    if lines.len() == 0 {
        (v, false)
    } else {
        let (w, done) = next_turn(v, lines[0]);
        if done {
            (w, true)
        } else {
            run_turn(w, lines.drop_first())
        }
    }
}

/// The reader in state `v` takes each of `lines` in turn, up to the one that completes the turn.
pub open spec fn takes_all(v: TurnView, lines: Seq<Seq<char>>) -> bool
    decreases lines.len(),
{
    lines.len() == 0 || (takes_line(v, lines[0]) && (next_turn(v, lines[0]).1 || takes_all(
        next_turn(v, lines[0]).0,
        lines.drop_first(),
    )))
}

/// The lines of one turn as the engine writes them: an "Anfield" header announcing
/// the grid's rows, the column header and those rows, then a "Piece" header announcing
/// at least one row and those rows; no row looks like a header.
pub open spec fn is_turn_transcript(grid_part: Seq<Seq<char>>, piece_part: Seq<Seq<char>>) -> bool {
    &&& grid_part.len() >= 2
    &&& starts_with(clean_line(grid_part[0]), anfield_tag())
    &&& words(clean_line(grid_part[0])).len() >= 3
    &&& announced_rows(clean_line(grid_part[0])) == grid_part.len() - 2
    &&& forall|i: int| 1 <= i < grid_part.len() ==> !is_tag_line(clean_line(#[trigger] grid_part[i]))
    &&& piece_part.len() >= 2
    &&& starts_with(clean_line(piece_part[0]), piece_tag())
    &&& words(clean_line(piece_part[0])).len() >= 3
    &&& announced_rows(clean_line(piece_part[0])) == piece_part.len() - 1
    &&& forall|i: int| 1 <= i < piece_part.len() ==> !is_tag_line(clean_line(#[trigger] piece_part[i]))
}

/// Reading two runs of lines one after the other.
proof fn lemma_run_concat(v: TurnView, a: Seq<Seq<char>>, b: Seq<Seq<char>>)
    ensures
        run_turn(v, a + b) == (if run_turn(v, a).1 { run_turn(v, a) } else { run_turn(run_turn(v, a).0, b) }),
        takes_all(v, a + b) == (takes_all(v, a) && (run_turn(v, a).1 || takes_all(run_turn(v, a).0, b))),
    decreases a.len(),
{
    if a.len() == 0 {
        assert(a + b =~= b);
    } else {
        assert((a + b)[0] == a[0]);
        assert((a + b).drop_first() =~= a.drop_first() + b);
        let (w, done) = next_turn(v, a[0]);
        if !done {
            lemma_run_concat(w, a.drop_first(), b);
        }
    }
}

/// The announced grid rows are all taken and end the grid.
proof fn lemma_grid_rows(v: TurnView, rows: Seq<Seq<char>>)
    requires
        v.reading_grid,
        !v.skip_column_header,
        v.grid_rows_left == rows.len(),
        rows.len() > 0,
        forall|i: int| 0 <= i < rows.len() ==> !is_tag_line(clean_line(#[trigger] rows[i])),
    ensures
        takes_all(v, rows),
        run_turn(v, rows) == (TurnView {
            grid_lines: v.grid_lines + rows.map_values(|l: Seq<char>| clean_line(l)),
            grid_rows_left: 0,
            reading_grid: false,
            ..v
        }, false),
    decreases rows.len(),
{
    assert(!is_tag_line(clean_line(rows[0])));
    let w = next_turn(v, rows[0]).0;
    if rows.len() == 1 {
        assert(rows.drop_first().len() == 0);
        assert(run_turn(w, rows.drop_first()) == (w, false));
        assert(takes_all(w, rows.drop_first()));
        assert(w =~= TurnView {
            grid_lines: v.grid_lines + rows.map_values(|l: Seq<char>| clean_line(l)),
            grid_rows_left: 0,
            reading_grid: false,
            ..v
        });
    } else {
        let rest = rows.drop_first();
        assert forall|i: int| 0 <= i < rest.len() implies !is_tag_line(clean_line(#[trigger] rest[i])) by {
            assert(rest[i] == rows[i + 1]);
        }
        lemma_grid_rows(w, rest);
        assert(w.grid_lines + rest.map_values(|l: Seq<char>| clean_line(l)) =~= v.grid_lines + rows.map_values(
            |l: Seq<char>| clean_line(l),
        ));
    }
}

/// The announced piece rows are all taken, and the last one completes the turn.
proof fn lemma_piece_rows(v: TurnView, rows: Seq<Seq<char>>)
    requires
        !v.reading_grid,
        v.reading_piece,
        v.piece_rows_left == rows.len(),
        rows.len() > 0,
        forall|i: int| 0 <= i < rows.len() ==> !is_tag_line(clean_line(#[trigger] rows[i])),
    ensures
        takes_all(v, rows),
        run_turn(v, rows) == (TurnView {
            piece_lines: v.piece_lines + rows.map_values(|l: Seq<char>| clean_line(l)),
            piece_rows_left: 0,
            ..v
        }, true),
        !run_turn(v, rows.drop_last()).1,
    decreases rows.len(),
{
    assert(!is_tag_line(clean_line(rows[0])));
    let w = next_turn(v, rows[0]).0;
    if rows.len() == 1 {
        assert(rows.drop_last().len() == 0);
        assert(w =~= TurnView {
            piece_lines: v.piece_lines + rows.map_values(|l: Seq<char>| clean_line(l)),
            piece_rows_left: 0,
            ..v
        });
    } else {
        let rest = rows.drop_first();
        assert forall|i: int| 0 <= i < rest.len() implies !is_tag_line(clean_line(#[trigger] rest[i])) by {
            assert(rest[i] == rows[i + 1]);
        }
        lemma_piece_rows(w, rest);
        assert(w.piece_lines + rest.map_values(|l: Seq<char>| clean_line(l)) =~= v.piece_lines + rows.map_values(
            |l: Seq<char>| clean_line(l),
        ));
        assert(rows.drop_last()[0] == rows[0]);
        assert(rows.drop_last().drop_first() =~= rest.drop_last());
    }
}

/// A turn written as the engine writes it is read whole: every line is taken, the
/// turn completes at its last line and not before, and the reader holds the grid's
/// lines and the piece's lines without their line endings.
pub proof fn lemma_reads_whole_turn(grid_part: Seq<Seq<char>>, piece_part: Seq<Seq<char>>)
    requires
        is_turn_transcript(grid_part, piece_part),
    ensures
        takes_all(fresh_turn(), grid_part + piece_part),
        run_turn(fresh_turn(), grid_part + piece_part).1,
        !run_turn(fresh_turn(), (grid_part + piece_part).drop_last()).1,
        run_turn(fresh_turn(), grid_part + piece_part).0.grid_lines == grid_part.map_values(|l: Seq<char>| clean_line(l)),
        run_turn(fresh_turn(), grid_part + piece_part).0.piece_lines == piece_part.map_values(|l: Seq<char>| clean_line(l)),
{
    let v0 = fresh_turn();
    let header = grid_part.take(2);
    let grid_rows = grid_part.skip(2);
    let piece_header = piece_part.take(1);
    let piece_rows = piece_part.skip(1);
    // The two grid header lines.
    assert(!is_tag_line(clean_line(grid_part[1])));
    let v1 = next_turn(v0, header[0]).0;
    let v2 = next_turn(v1, header[1]).0;
    assert(header.drop_first()[0] == header[1]);
    assert(header.drop_first().drop_first().len() == 0);
    assert(run_turn(v2, header.drop_first().drop_first()) == (v2, false));
    assert(takes_all(v2, header.drop_first().drop_first()));
    assert(run_turn(v1, header.drop_first()) == (v2, false));
    assert(takes_all(v1, header.drop_first()));
    assert(run_turn(v0, header) == (v2, false));
    assert(!run_turn(v0, header).1);
    assert(takes_all(v0, header));
    assert(v2.grid_lines =~= header.map_values(|l: Seq<char>| clean_line(l)));
    // The grid's rows.
    let v3 = run_turn(v2, grid_rows).0;
    if grid_rows.len() > 0 {
        assert forall|i: int| 0 <= i < grid_rows.len() implies !is_tag_line(clean_line(#[trigger] grid_rows[i])) by {
            assert(grid_rows[i] == grid_part[i + 2]);
        }
        lemma_grid_rows(v2, grid_rows);
    }
    assert(!run_turn(v2, grid_rows).1);
    assert(takes_all(v2, grid_rows));
    assert(v3.grid_lines =~= grid_part.map_values(|l: Seq<char>| clean_line(l))) by {
        assert(header + grid_rows =~= grid_part);
    }
    assert(v3.piece_lines =~= Seq::<Seq<char>>::empty());
    // The piece header.
    assert(piece_tag()[0] != anfield_tag()[0]);
    assert(clean_line(piece_part[0]).take(5)[0] == clean_line(piece_part[0])[0]);
    assert(!starts_with(clean_line(piece_part[0]), anfield_tag())) by {
        if starts_with(clean_line(piece_part[0]), anfield_tag()) {
            assert(clean_line(piece_part[0]).take(7)[0] == clean_line(piece_part[0])[0]);
        }
    }
    assert(piece_header.drop_first().len() == 0);
    let v4 = next_turn(v3, piece_header[0]).0;
    assert(run_turn(v4, piece_header.drop_first()) == (v4, false));
    assert(takes_all(v4, piece_header.drop_first()));
    assert(run_turn(v3, piece_header) == (v4, false));
    assert(!run_turn(v3, piece_header).1);
    assert(takes_all(v3, piece_header));
    assert(v4.piece_lines =~= piece_header.map_values(|l: Seq<char>| clean_line(l)));
    // The piece's rows.
    assert forall|i: int| 0 <= i < piece_rows.len() implies !is_tag_line(clean_line(#[trigger] piece_rows[i])) by {
        assert(piece_rows[i] == piece_part[i + 1]);
    }
    lemma_piece_rows(v4, piece_rows);
    assert(v4.grid_lines == v3.grid_lines);
    assert(piece_header + piece_rows =~= piece_part);
    // Putting the four parts together.
    lemma_run_concat(v0, header, grid_rows);
    assert(header + grid_rows =~= grid_part);
    lemma_run_concat(v0, grid_part, piece_header);
    lemma_run_concat(v0, grid_part + piece_header, piece_rows);
    assert((grid_part + piece_header) + piece_rows =~= grid_part + piece_part);
    lemma_run_concat(v0, grid_part + piece_header, piece_rows.drop_last());
    assert((grid_part + piece_header) + piece_rows.drop_last() =~= (grid_part + piece_part).drop_last());
    assert(run_turn(v0, grid_part + piece_part).0.piece_lines =~= piece_part.map_values(|l: Seq<char>| clean_line(l)));
}

/// Lines that are no header, read by a fresh reader before a turn, change nothing:
/// they are all taken and the turn reads as it would without them.
pub proof fn lemma_skips_lines_before_turn(noise: Seq<Seq<char>>, turn: Seq<Seq<char>>)
    requires
        forall|i: int| 0 <= i < noise.len() ==> !is_tag_line(clean_line(#[trigger] noise[i])),
    ensures
        run_turn(fresh_turn(), noise + turn) == run_turn(fresh_turn(), turn),
        takes_all(fresh_turn(), noise + turn) == takes_all(fresh_turn(), turn),
    decreases noise.len(),
{
    if noise.len() == 0 {
        assert(noise + turn =~= turn);
    } else {
        assert(!is_tag_line(clean_line(noise[0])));
        assert((noise + turn)[0] == noise[0]);
        assert(next_turn(fresh_turn(), noise[0]) == (fresh_turn(), false));
        let rest = noise.drop_first();
        assert forall|i: int| 0 <= i < rest.len() implies !is_tag_line(clean_line(#[trigger] rest[i])) by {
            assert(rest[i] == noise[i + 1]);
        }
        assert((noise + turn).drop_first() =~= rest + turn);
        lemma_skips_lines_before_turn(rest, turn);
    }
}

/// Readers fed lines that clean to the same text go through the same states.
proof fn lemma_same_clean_same_run(v: TurnView, a: Seq<Seq<char>>, b: Seq<Seq<char>>)
    requires
        a.len() == b.len(),
        forall|i: int| 0 <= i < a.len() ==> clean_line(#[trigger] a[i]) == clean_line(b[i]),
    ensures
        run_turn(v, a) == run_turn(v, b),
        takes_all(v, a) == takes_all(v, b),
    decreases a.len(),
{
    if a.len() > 0 {
        assert(clean_line(a[0]) == clean_line(b[0]));
        let w = next_turn(v, a[0]).0;
        assert forall|i: int| 0 <= i < a.len() - 1 implies clean_line(#[trigger] a.drop_first()[i]) == clean_line(
            b.drop_first()[i],
        ) by {
            assert(clean_line(a[i + 1]) == clean_line(b[i + 1]));
        }
        lemma_same_clean_same_run(w, a.drop_first(), b.drop_first());
    }
}

/// A line of text that does not end in '\n'.
pub open spec fn is_line_text(l: Seq<char>) -> bool {
    !(l.len() > 0 && l.last() == '\n')
}

/// "\r\n" ends a line as "\n" does.
pub proof fn lemma_crlf_cleans_as_lf(l: Seq<char>)
    requires
        is_line_text(l),
    ensures
        clean_line(l + seq!['\r', '\n']) == clean_line(l + seq!['\n']),
{
    let crlf = l + seq!['\r', '\n'];
    let lf = l + seq!['\n'];
    assert(crlf.drop_last() =~= l + seq!['\r']);
    assert(trim_end(l + seq!['\r'], '\n') == l + seq!['\r']);
    assert((l + seq!['\r']).drop_last() =~= l);
    assert(lf.drop_last() =~= l);
    assert(trim_end(l, '\n') == l);
}

/// A turn whose lines end in "\r\n" reads as the same turn with lines ending in "\n".
pub proof fn lemma_crlf_reads_as_lf(v: TurnView, texts: Seq<Seq<char>>)
    requires
        forall|i: int| 0 <= i < texts.len() ==> is_line_text(#[trigger] texts[i]),
    ensures
        run_turn(v, texts.map_values(|l: Seq<char>| l + seq!['\r', '\n'])) == run_turn(
            v,
            texts.map_values(|l: Seq<char>| l + seq!['\n']),
        ),
        takes_all(v, texts.map_values(|l: Seq<char>| l + seq!['\r', '\n'])) == takes_all(
            v,
            texts.map_values(|l: Seq<char>| l + seq!['\n']),
        ),
{
    let a = texts.map_values(|l: Seq<char>| l + seq!['\r', '\n']);
    let b = texts.map_values(|l: Seq<char>| l + seq!['\n']);
    assert forall|i: int| 0 <= i < a.len() implies clean_line(#[trigger] a[i]) == clean_line(b[i]) by {
        lemma_crlf_cleans_as_lf(texts[i]);
    }
    lemma_same_clean_same_run(v, a, b);
}

} // verus!
