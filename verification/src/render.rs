use vstd::prelude::*;
use vstd::utf8::{
    encode_utf8, encode_utf8_decode_utf8, encode_utf8_valid_utf8, is_ascii_chars, is_ascii_chars_encode_utf8,
    is_char_boundary_iff_not_is_continuation_byte,
};

use crate::parser::{grid_input_ok, grid_read_from, header_dims, piece_input_ok, piece_read_from, row_cells, row_cut_ok, row_solid};
use crate::turn::{
    anfield_tag, announced_rows, clean_line, fresh_turn, is_tag_line, is_turn_transcript, lemma_reads_whole_turn, piece_tag,
    run_turn, takes_all,
};
use crate::types::{Grid, Piece};
use crate::text::{all_digits, starts_with, digits_value, is_digit, is_space, lemma_word_len, parse_usize, strip_plus, trim_end, words};

verus! {

/// The decimal digit character of `d`.
pub open spec fn digit_char(d: int) -> char {
    if d == 0 {
        '0'
    } else if d == 1 {
        '1'
    } else if d == 2 {
        '2'
    } else if d == 3 {
        '3'
    } else if d == 4 {
        '4'
    } else if d == 5 {
        '5'
    } else if d == 6 {
        '6'
    } else if d == 7 {
        '7'
    } else if d == 8 {
        '8'
    } else {
        '9'
    }
}

/// `n` written in decimal, as `format!("{}", n)` writes it.
pub open spec fn decimal(n: nat) -> Seq<char>
    decreases n,
{
    if n < 10 {
        seq![digit_char(n as int)]
    } else {
        decimal(n / 10).push(digit_char((n % 10) as int))
    }
}

/// `i` written with three digits, as `format!("{:03}", i)` writes it below 1000.
pub open spec fn three_digits(i: nat) -> Seq<char> {
    seq![digit_char((i / 100) as int), digit_char(((i / 10) % 10) as int), digit_char((i % 10) as int)]
}

/// A digit character is an ASCII digit with value `d`.
proof fn lemma_digit_char(d: int)
    requires
        0 <= d <= 9,
    ensures
        is_digit(digit_char(d)),
        (digit_char(d) as u32 - '0' as u32) == d,
        !is_space(digit_char(d)),
        digit_char(d) != ':',
        digit_char(d) != '+',
        '\0' <= digit_char(d) <= '\u{7f}',
{
}

/// A decimal number is a nonempty run of digits that writes `n`.
proof fn lemma_decimal(n: nat)
    ensures
        decimal(n).len() >= 1,
        all_digits(decimal(n)),
        digits_value(decimal(n)) == n,
        forall|i: int| 0 <= i < decimal(n).len() ==> !is_space(#[trigger] decimal(n)[i]) && decimal(n)[i] != ':' && decimal(n)[i] != '+',
    decreases n,
{
    if n < 10 {
        lemma_digit_char(n as int);
        assert(decimal(n).drop_last() =~= Seq::<char>::empty());
        assert(decimal(n).last() == digit_char(n as int));
        assert(digits_value(Seq::<char>::empty()) == 0);
        assert(digits_value(decimal(n)) == digits_value(decimal(n).drop_last()) * 10 + (decimal(n).last() as u32 - '0' as u32) as nat);
    } else {
        lemma_decimal(n / 10);
        lemma_digit_char((n % 10) as int);
        let s = decimal(n / 10);
        assert(decimal(n).drop_last() =~= s);
        assert(decimal(n).last() == digit_char((n % 10) as int));
        assert(digits_value(decimal(n)) == digits_value(s) * 10 + (n % 10));
        assert forall|i: int| 0 <= i < decimal(n).len() implies is_digit(#[trigger] decimal(n)[i]) by {
            if i < s.len() {
                assert(decimal(n)[i] == s[i]);
            }
        }
        assert forall|i: int| 0 <= i < decimal(n).len() implies !is_space(#[trigger] decimal(n)[i]) && decimal(n)[i] != ':'
            && decimal(n)[i] != '+' by {
            if i < s.len() {
                assert(decimal(n)[i] == s[i]);
            }
        }
    }
}

/// What `str::parse::<usize>` reads from a decimal number is that number.
proof fn lemma_parse_decimal(n: nat)
    requires
        n <= usize::MAX,
    ensures
        parse_usize(decimal(n)) == Some(n),
{
    lemma_decimal(n);
    assert(strip_plus(decimal(n)) == decimal(n));
}

/// A run of non-space characters followed by a space is the first word.
proof fn lemma_words_of_word_then_space(a: Seq<char>, b: Seq<char>)
    requires
        a.len() > 0,
        forall|i: int| 0 <= i < a.len() ==> !is_space(#[trigger] a[i]),
    ensures
        words(a + seq![' '] + b) == seq![a] + words(b),
{
    let s = a + seq![' '] + b;
    assert forall|k: int| 0 <= k < a.len() implies !is_space(#[trigger] s[k]) by {
        assert(s[k] == a[k]);
    }
    assert(is_space(s[a.len() as int]));
    lemma_word_len(s, 0, a.len() as int);
    assert(s.skip(0) =~= s);
    assert(s.take(a.len() as int) =~= a);
    let t = s.skip(a.len() as int);
    assert(t =~= seq![' '] + b);
    assert(t.drop_first() =~= b);
    assert(words(t) == words(b));
}

/// A run of non-space characters alone is one word.
proof fn lemma_words_of_word(a: Seq<char>)
    requires
        a.len() > 0,
        forall|i: int| 0 <= i < a.len() ==> !is_space(#[trigger] a[i]),
    ensures
        words(a) == seq![a],
{
    lemma_word_len(a, 0, a.len() as int);
    assert(a.skip(0) =~= a);
    assert(a.take(a.len() as int) =~= a);
    assert(a.skip(a.len() as int) =~= Seq::<char>::empty());
    assert(words(Seq::<char>::empty()) =~= Seq::<Seq<char>>::empty());
    assert(seq![a] + Seq::<Seq<char>>::empty() =~= seq![a]);
}

/// A header line as the engine writes it: "Anfield 20 15:" or "Piece 4 2:".
pub open spec fn header_line(tag: Seq<char>, width: nat, height: nat) -> Seq<char> {
    tag + seq![' '] + decimal(width) + seq![' '] + decimal(height) + seq![':']
}

/// The words of a header line are the tag, the width and the height with its ':'.
proof fn lemma_header_words(tag: Seq<char>, width: nat, height: nat)
    requires
        tag.len() > 0,
        forall|i: int| 0 <= i < tag.len() ==> !is_space(#[trigger] tag[i]),
    ensures
        words(header_line(tag, width, height)) == seq![tag, decimal(width), decimal(height) + seq![':']],
{
    lemma_decimal(width);
    lemma_decimal(height);
    let hc = decimal(height) + seq![':'];
    assert forall|i: int| 0 <= i < hc.len() implies !is_space(#[trigger] hc[i]) by {
        if i < decimal(height).len() {
            assert(hc[i] == decimal(height)[i]);
        }
    }
    lemma_words_of_word(hc);
    let rest = decimal(width) + seq![' '] + hc;
    lemma_words_of_word_then_space(decimal(width), hc);
    lemma_words_of_word_then_space(tag, rest);
    assert(header_line(tag, width, height) =~= tag + seq![' '] + rest);
    assert(seq![tag] + (seq![decimal(width)] + seq![hc]) =~= seq![tag, decimal(width), hc]);
}

/// A grid row as the engine writes it: the row number with three digits, a space, the cells.
pub open spec fn grid_row_line(i: nat, row: Seq<char>) -> Seq<char> {
    three_digits(i) + seq![' '] + row
}

/// A piece row as the engine writes it: 'O' for a solid cell, '.' for an empty one.
pub open spec fn piece_row_line(row: Seq<bool>) -> Seq<char> {
    row.map_values(|b: bool| if b { 'O' } else { '.' })
}

/// A character that a cell of the Anfield holds: '.', or a mark of one of the players.
pub open spec fn is_board_mark(c: char) -> bool {
    c == '.' || c == '@' || c == 'a' || c == '$' || c == 's'
}

/// A line that ends neither in '\n' nor in '\r'.
pub open spec fn is_plain_line(l: Seq<char>) -> bool {
    !(l.len() > 0 && (l.last() == '\n' || l.last() == '\r'))
}

/// Each line followed by '\n'.
pub open spec fn ended(lines: Seq<Seq<char>>) -> Seq<Seq<char>> {
    lines.map_values(|l: Seq<char>| l + seq!['\n'])
}

/// The Anfield as the engine writes it: its header, the column header, then each row
/// behind its number.
pub open spec fn rendered_grid(grid: Grid, column_header: Seq<char>) -> Seq<Seq<char>> {
    seq![header_line(anfield_tag(), grid.width as nat, grid.height as nat), column_header] + Seq::new(
        grid.height as nat,
        |i: int| grid_row_line(i as nat, grid.cells@[i]@),
    )
}

/// The piece as the engine writes it: its header, then each row.
pub open spec fn rendered_piece(piece: Piece) -> Seq<Seq<char>> {
    seq![header_line(piece_tag(), piece.width as nat, piece.height as nat)] + Seq::new(
        piece.height as nat,
        |i: int| piece_row_line(piece.cells@[i]@),
    )
}

/// A plain line followed by a line feed cleans back to itself.
proof fn lemma_clean_plain(l: Seq<char>)
    requires
        is_plain_line(l),
    ensures
        clean_line(l + seq!['\n']) == l,
{
    assert((l + seq!['\n']).drop_last() =~= l);
    assert(trim_end(l, '\n') == l);
}

/// A grid row as written can be cut after its number and gives its cells back.
proof fn lemma_row_line_cells(i: nat, row: Seq<char>)
    requires
        i < 1000,
        forall|k: int| 0 <= k < row.len() ==> is_board_mark(#[trigger] row[k]),
    ensures
        row_cut_ok(grid_row_line(i, row)),
        row_cells(grid_row_line(i, row)) == row,
        is_plain_line(grid_row_line(i, row)),
        !is_tag_line(grid_row_line(i, row)),
{
    let l = grid_row_line(i, row);
    lemma_digit_char((i / 100) as int);
    lemma_digit_char(((i / 10) % 10) as int);
    lemma_digit_char((i % 10) as int);
    assert(is_ascii_chars(row));
    assert(is_ascii_chars(l)) by {
        assert forall|k: int| 0 <= k < l.len() implies '\0' <= #[trigger] l[k] <= '\u{7f}' by {
            if k >= 4 {
                assert(l[k] == row[k - 4]);
            }
        }
    }
    is_ascii_chars_encode_utf8(l);
    is_ascii_chars_encode_utf8(row);
    let b = encode_utf8(l);
    let e = encode_utf8(row);
    assert(b.subrange(4, b.len() as int) =~= e) by {
        assert forall|k: int| 0 <= k < e.len() implies #[trigger] b.subrange(4, b.len() as int)[k] == e[k] by {
            assert(l[k + 4] == row[k]);
            assert(b[k + 4] == l[k + 4] as u8);
        }
    }
    encode_utf8_decode_utf8(row);
    if b.len() > 4 {
        encode_utf8_valid_utf8(l);
        is_char_boundary_iff_not_is_continuation_byte(b, 4);
        assert(b[4] == l[4] as u8);
        assert(l[4] == row[0]);
    } else {
        assert(row.len() == 0);
        assert(row =~= Seq::<char>::empty());
    }
    if row.len() > 0 {
        assert(l.last() == row.last());
    }
    assert(l[0] == digit_char((i / 100) as int));
    if starts_with(l, anfield_tag()) {
        assert(l.take(7)[0] == l[0]);
    }
    if starts_with(l, piece_tag()) {
        assert(l.take(5)[0] == l[0]);
    }
}

/// A header as written gives its width and height back.
proof fn lemma_header_reads(tag: Seq<char>, width: nat, height: nat)
    requires
        tag.len() > 0,
        forall|i: int| 0 <= i < tag.len() ==> !is_space(#[trigger] tag[i]),
        width <= usize::MAX,
        height <= usize::MAX,
    ensures
        header_dims(header_line(tag, width, height)) == Some((width, height)),
        words(header_line(tag, width, height)).len() == 3,
        announced_rows(header_line(tag, width, height)) == height,
        is_plain_line(header_line(tag, width, height)),
        starts_with(header_line(tag, width, height), tag),
{
    lemma_header_words(tag, width, height);
    lemma_parse_decimal(width);
    lemma_parse_decimal(height);
    lemma_decimal(height);
    let hc = decimal(height) + seq![':'];
    assert(hc.drop_last() =~= decimal(height));
    assert(trim_end(decimal(height), ':') == decimal(height));
    assert(trim_end(hc, ':') == decimal(height));
    let h = header_line(tag, width, height);
    assert(h.take(tag.len() as int) =~= tag);
}

/// What the engine writes of a turn is read back as the turn it wrote: all its lines
/// are taken, the turn completes at its last line and not before, and the lines the
/// reader holds parse to the same Anfield and the same piece.
pub proof fn lemma_rendered_turn_reads_back(grid: Grid, piece: Piece, column_header: Seq<char>)
    requires
        grid.cells@.len() == grid.height,
        grid.height <= 1000,
        forall|r: int, k: int|
            0 <= r < grid.height && 0 <= k < grid.cells@[r]@.len() ==> is_board_mark(#[trigger] grid.cells@[r]@[k]),
        piece.cells@.len() == piece.height,
        piece.height >= 1,
        is_plain_line(column_header),
        !is_tag_line(column_header),
    ensures
        ({
            let lines = ended(rendered_grid(grid, column_header)) + ended(rendered_piece(piece));
            let v = run_turn(fresh_turn(), lines).0;
            &&& takes_all(fresh_turn(), lines)
            &&& run_turn(fresh_turn(), lines).1
            &&& !run_turn(fresh_turn(), lines.drop_last()).1
            &&& grid_input_ok(v.grid_lines)
            &&& grid_read_from(grid, v.grid_lines)
            &&& piece_input_ok(v.piece_lines)
            &&& piece_read_from(piece, v.piece_lines)
        }),
{
    let gl = rendered_grid(grid, column_header);
    let pl = rendered_piece(piece);
    let gp = ended(gl);
    let pp = ended(pl);
    let atag = anfield_tag();
    let ptag = piece_tag();
    assert forall|i: int| 0 <= i < atag.len() implies !is_space(#[trigger] atag[i]) by {}
    assert forall|i: int| 0 <= i < ptag.len() implies !is_space(#[trigger] ptag[i]) by {}
    lemma_header_reads(atag, grid.width as nat, grid.height as nat);
    lemma_header_reads(ptag, piece.width as nat, piece.height as nat);
    // Every line cleans back to what was written, and no row looks like a header.
    assert forall|i: int| 0 <= i < gl.len() implies clean_line(#[trigger] gp[i]) == gl[i] && (i >= 1 ==> !is_tag_line(gl[i])) by {
        if i >= 2 {
            let r = i - 2;
            assert(gl[i] == grid_row_line(r as nat, grid.cells@[r]@));
            assert forall|k: int| 0 <= k < grid.cells@[r]@.len() implies is_board_mark(#[trigger] grid.cells@[r]@[k]) by {}
            lemma_row_line_cells(r as nat, grid.cells@[r]@);
        }
        lemma_clean_plain(gl[i]);
    }
    assert forall|i: int| 0 <= i < pl.len() implies clean_line(#[trigger] pp[i]) == pl[i] && (i >= 1 ==> !is_tag_line(pl[i])) by {
        if i >= 1 {
            let row = piece.cells@[i - 1]@;
            let l = piece_row_line(row);
            assert(pl[i] == l);
            if l.len() > 0 {
                assert(l[0] == 'O' || l[0] == '.');
                assert(l.last() == 'O' || l.last() == '.');
                if starts_with(l, anfield_tag()) {
                    assert(l.take(7)[0] == l[0]);
                }
                if starts_with(l, piece_tag()) {
                    assert(l.take(5)[0] == l[0]);
                }
            }
        }
        lemma_clean_plain(pl[i]);
    }
    assert(is_turn_transcript(gp, pp)) by {
        assert(clean_line(gp[0]) == gl[0]);
        assert(clean_line(pp[0]) == pl[0]);
        assert forall|i: int| 1 <= i < gp.len() implies !is_tag_line(clean_line(#[trigger] gp[i])) by {
            assert(clean_line(gp[i]) == gl[i]);
        }
        assert forall|i: int| 1 <= i < pp.len() implies !is_tag_line(clean_line(#[trigger] pp[i])) by {
            assert(clean_line(pp[i]) == pl[i]);
        }
    }
    lemma_reads_whole_turn(gp, pp);
    let v = run_turn(fresh_turn(), gp + pp).0;
    assert(v.grid_lines =~= gl) by {
        assert forall|i: int| 0 <= i < gl.len() implies #[trigger] v.grid_lines[i] == gl[i] by {
            assert(clean_line(gp[i]) == gl[i]);
        }
    }
    assert(v.piece_lines =~= pl) by {
        assert forall|i: int| 0 <= i < pl.len() implies #[trigger] v.piece_lines[i] == pl[i] by {
            assert(clean_line(pp[i]) == pl[i]);
        }
    }
    assert forall|i: int| 0 <= i < grid.height implies row_cut_ok(#[trigger] gl[2 + i]) && row_cells(gl[2 + i]) == grid.cells@[i]@ by {
        assert(gl[2 + i] == grid_row_line(i as nat, grid.cells@[i]@));
        assert forall|k: int| 0 <= k < grid.cells@[i]@.len() implies is_board_mark(#[trigger] grid.cells@[i]@[k]) by {}
        lemma_row_line_cells(i as nat, grid.cells@[i]@);
    }
    assert forall|i: int| 0 <= i < piece.height implies #[trigger] piece.cells@[i]@ == row_solid(pl[1 + i]) by {
        assert(pl[1 + i] == piece_row_line(piece.cells@[i]@));
        assert(row_solid(piece_row_line(piece.cells@[i]@)) =~= piece.cells@[i]@);
    }
    assert(grid_input_ok(gl));
    assert(grid_read_from(grid, gl));
    assert(piece_input_ok(pl));
    assert(piece_read_from(piece, pl));
}

} // verus!
