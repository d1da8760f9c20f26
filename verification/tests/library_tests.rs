use filler::parser::{grid_input_valid, parse_dims, parse_grid, parse_piece, parse_player, try_parse_grid, try_parse_piece};
use filler::placement::{find_valid_placements, is_valid_placement};
use filler::strategy::{choose_best, choose_move, get_opponent_cells, opponent_sums};
use filler::text::{is_space_char, parse_usize_chars, split_words, trim_end_chars};
use filler::turn::TurnReader;
use filler::types::{Grid, Piece, Player, Position};

fn grid_of(rows: &[&str]) -> Grid {
    let cells: Vec<Vec<char>> = rows.iter().map(|r| r.chars().collect()).collect();
    Grid { width: cells[0].len(), height: cells.len(), cells }
}

fn piece_of(rows: &[&str]) -> Piece {
    let cells: Vec<Vec<bool>> = rows.iter().map(|r| r.chars().map(|c| c == 'O').collect()).collect();
    Piece { width: cells[0].len(), height: cells.len(), cells }
}

fn lines_of(rows: &[&str]) -> Vec<String> {
    rows.iter().map(|r| r.to_string()).collect()
}

fn chars(s: &str) -> Vec<char> {
    s.chars().collect()
}

#[test]
fn space_table_matches_std() {
    for v in 0u32..=0x10ffff {
        if let Some(c) = char::from_u32(v) {
            assert_eq!(is_space_char(c), c.is_whitespace(), "{:x}", v);
        }
    }
}

#[test]
fn words_match_split_whitespace() {
    for s in ["", "   ", "Anfield 20 15:", "  a\tb\u{3000}c \n", "one", "x\u{85}y"] {
        let got: Vec<String> = split_words(&chars(s)).iter().map(|w| w.iter().collect()).collect();
        let want: Vec<String> = s.split_whitespace().map(|w| w.to_string()).collect();
        assert_eq!(got, want);
    }
}

#[test]
fn usize_parse_matches_std() {
    let max = usize::MAX.to_string();
    let over = "18446744073709551616".to_string();
    for s in ["0", "42", "+7", "+", "", "-3", "12a", "007", " 1", max.as_str(), over.as_str(), "٣"] {
        assert_eq!(parse_usize_chars(&chars(s)), s.parse::<usize>().ok(), "{:?}", s);
    }
}

#[test]
fn trailing_chars_are_trimmed() {
    assert_eq!(trim_end_chars(&chars("15::"), ':'), chars("15"));
    assert_eq!(trim_end_chars(&chars(":a:"), ':'), chars(":a"));
    assert_eq!(trim_end_chars(&chars(""), ':'), chars(""));
}

#[test]
fn header_dimensions() {
    assert_eq!(parse_dims("Anfield 20 15:"), Some((20, 15)));
    assert_eq!(parse_dims("Piece  4   2::"), Some((4, 2)));
    assert_eq!(parse_dims("Piece 4"), None);
    assert_eq!(parse_dims("Piece x 2:"), None);
    assert_eq!(parse_dims("Piece 4 y:"), None);
}

#[test]
fn the_seat_token_decides_on_engine_lines() {
    assert_eq!(parse_player("$$$ exec p2 : [robots/p1bot]"), Player::P2);
    assert_eq!(parse_player("$$$ exec p1 : [robots/p2bot]"), Player::P1);
    assert_eq!(parse_player("$$$  exec\tp1\n"), Player::P1);
    assert_eq!(parse_player("$$$ exec p2 : [exec p1]"), Player::P2);
}

#[test]
fn other_lines_seat_p1_where_p1_occurs() {
    assert_eq!(parse_player("p1"), Player::P1);
    assert_eq!(parse_player("$$$ exec p1: [x]"), Player::P1);
    assert_eq!(parse_player("exec p2 exec p1"), Player::P1);
    assert_eq!(parse_player("xxp1"), Player::P1);
    assert_eq!(parse_player("$$$ exec p3 : [x]"), Player::P2);
    assert_eq!(parse_player("$$$ exec"), Player::P2);
    assert_eq!(parse_player("P1"), Player::P2);
    assert_eq!(parse_player("p"), Player::P2);
    assert_eq!(parse_player(""), Player::P2);
}

#[test]
fn grid_rows_shorter_than_the_row_number_are_empty() {
    let grid = parse_grid(&lines_of(&["Anfield 3 2:", "    012", "000", "001 .@."]));
    assert_eq!(grid.cells[0], Vec::<char>::new());
    assert_eq!(grid.cells[1], chars(".@."));
}

#[test]
fn grid_row_cut_inside_a_character_is_refused() {
    let lines = lines_of(&["Anfield 3 1:", "    012", "000é..."]);
    assert!(!grid_input_valid(&lines));
    assert!(try_parse_grid(&lines).is_none());
    let ok = lines_of(&["Anfield 3 1:", "    012", "0é ..."]);
    assert!(grid_input_valid(&ok));
    assert_eq!(try_parse_grid(&ok).unwrap().cells[0], chars("..."));
}

#[test]
fn grid_lines_missing_rows_are_refused() {
    assert!(try_parse_grid(&lines_of(&["Anfield 3 2:", "    012", "000 ..."])).is_none());
    assert!(try_parse_grid(&lines_of(&["Anfield 3:"])).is_none());
    assert!(try_parse_grid(&[]).is_none());
}

#[test]
fn piece_lines_missing_rows_are_refused() {
    assert!(try_parse_piece(&lines_of(&["Piece 2 2:", "OO"])).is_none());
    assert!(try_parse_piece(&lines_of(&["Piece 2:", "OO"])).is_none());
    let piece = try_parse_piece(&lines_of(&["Piece 2 1:", "O*x"])).unwrap();
    assert_eq!(piece, Piece { width: 2, height: 1, cells: vec![vec![true, true, false]] });
    assert_eq!(parse_piece(&lines_of(&["Piece 2 1:", "O*x"])), piece);
}

#[test]
fn filled_cells_come_in_row_major_order() {
    let piece = piece_of(&[".O.O", "O..O"]);
    assert_eq!(piece.filled_cells(), vec![(1, 0), (3, 0), (0, 1), (3, 1)]);
    assert_eq!(piece_of(&["...."]).filled_cells(), vec![]);
}

#[test]
fn grid_get_inside_and_outside() {
    let grid = grid_of(&["ab", "cd"]);
    assert_eq!(grid.get(1, 0), Some('b'));
    assert_eq!(grid.get(0, 1), Some('c'));
    assert_eq!(grid.get(2, 0), None);
    assert_eq!(grid.get(0, -1), None);
}

#[test]
fn opponent_cells_in_row_major_order() {
    let grid = grid_of(&[".$.@", "s..$"]);
    assert_eq!(get_opponent_cells(&grid, &Player::P1), vec![(1, 0), (0, 1), (3, 1)]);
    assert_eq!(get_opponent_cells(&grid, &Player::P2), vec![(3, 0)]);
}

#[test]
fn own_latest_piece_mark_counts_as_own() {
    let grid = grid_of(&["a...", "...."]);
    let piece = piece_of(&["O"]);
    assert!(is_valid_placement(&grid, &piece, &Player::P1, 0, 0));
    assert!(!is_valid_placement(&grid, &piece, &Player::P2, 0, 0));
}

#[test]
fn placements_are_listed_in_row_major_order() {
    let grid = grid_of(&["....", ".@..", "...."]);
    let piece = piece_of(&["OO"]);
    let found = find_valid_placements(&grid, &piece, &Player::P1);
    assert_eq!(found, vec![Position { x: 0, y: 1 }, Position { x: 1, y: 1 }]);
    let tall = piece_of(&["O", "O"]);
    let found = find_valid_placements(&grid, &tall, &Player::P1);
    assert_eq!(found, vec![Position { x: 1, y: 0 }, Position { x: 1, y: 1 }]);
}

#[test]
fn empty_piece_never_fits() {
    let grid = grid_of(&["@."]);
    let piece = piece_of(&[".."]);
    assert!(find_valid_placements(&grid, &piece, &Player::P1).is_empty());
}

#[test]
fn the_position_nearest_the_centre_of_mass_wins() {
    let grid = grid_of(&["$.@.@.@.$"]);
    let piece = piece_of(&["O"]);
    let found = find_valid_placements(&grid, &piece, &Player::P1);
    assert_eq!(found, vec![Position { x: 2, y: 0 }, Position { x: 4, y: 0 }, Position { x: 6, y: 0 }]);
    assert_eq!(choose_best(&found, &piece, &grid, &Player::P1), Position { x: 4, y: 0 });
    assert_eq!(choose_move(&grid, &piece, &Player::P1), Position { x: 4, y: 0 });
}

#[test]
fn ties_go_to_the_first_position() {
    let grid = grid_of(&["..$.."]);
    let piece = piece_of(&["O"]);
    let positions = [Position { x: 3, y: 0 }, Position { x: 1, y: 0 }, Position { x: 2, y: 1 }];
    assert_eq!(choose_best(&positions, &piece, &grid, &Player::P1), Position { x: 3, y: 0 });
}

#[test]
fn centre_between_cells_is_measured_exactly() {
    let grid = grid_of(&[".$...", "...$."]);
    let piece = piece_of(&["O"]);
    // The centre is (2, 0.5): (2, 0) and (2, 1) are as near, (1, 0) is farther.
    let positions = [Position { x: 1, y: 0 }, Position { x: 2, y: 1 }, Position { x: 2, y: 0 }];
    assert_eq!(choose_best(&positions, &piece, &grid, &Player::P1), Position { x: 2, y: 1 });
}

#[test]
fn without_opponent_the_centre_is_the_origin() {
    let grid = grid_of(&["@....."]);
    let piece = piece_of(&["O"]);
    let positions = [Position { x: 3, y: 0 }, Position { x: 1, y: 2 }, Position { x: -1, y: 1 }];
    assert_eq!(choose_best(&positions, &piece, &grid, &Player::P1), Position { x: -1, y: 1 });
}

#[test]
fn opponent_sums_count_and_add_coordinates() {
    let grid = grid_of(&[".$..@", "s..$.", "....."]);
    assert_eq!(opponent_sums(&grid, &Player::P1), (3, 1 + 0 + 3, 0 + 1 + 1));
    assert_eq!(opponent_sums(&grid, &Player::P2), (1, 4, 0));
    assert_eq!(opponent_sums(&grid_of(&["..."]), &Player::P1), (0, 0, 0));
}

#[test]
fn only_the_cells_under_the_piece_are_read() {
    let grid = Grid { width: 3, height: 2, cells: vec![vec!['@', '.', '.'], vec!['.']] };
    let piece = piece_of(&["O"]);
    assert!(is_valid_placement(&grid, &piece, &Player::P1, 0, 0));
    assert!(!is_valid_placement(&grid, &piece, &Player::P1, 1, 0));
    let empty = piece_of(&[".."]);
    assert!(find_valid_placements(&grid, &empty, &Player::P1).is_empty());
    assert_eq!(choose_move(&grid, &empty, &Player::P1), Position { x: 0, y: 0 });
}

#[test]
fn no_move_answers_origin() {
    let grid = grid_of(&["$$$$$", "$@$$$", "$$$$$"]);
    let piece = piece_of(&["OO"]);
    assert_eq!(choose_move(&grid, &piece, &Player::P1), Position { x: 0, y: 0 });
}

#[test]
fn the_second_seat_plays_too() {
    let grid = grid_of(&["$...@"]);
    let piece = piece_of(&["OO"]);
    assert_eq!(choose_move(&grid, &piece, &Player::P2), Position { x: 0, y: 0 });
    let grid = grid_of(&[".$..@"]);
    assert_eq!(choose_move(&grid, &piece, &Player::P2), Position { x: 1, y: 0 });
}

#[test]
fn a_whole_turn_is_read() {
    let transcript = [
        "Anfield 5 2:\n",
        "    01234\r\n",
        "000 .@...\n",
        "001 ...$.\n",
        "Piece 2 1:\n",
        "OO\n",
    ];
    let mut reader = TurnReader::new();
    for (i, line) in transcript.iter().enumerate() {
        assert!(reader.takes(line));
        let done = reader.feed(line);
        assert_eq!(done, i + 1 == transcript.len());
    }
    let (grid, piece) = reader.finish().unwrap();
    assert_eq!(grid, grid_of(&[".@...", "...$."]));
    assert_eq!(piece, piece_of(&["OO"]));
    assert_eq!(choose_move(&grid, &piece, &Player::P1), Position { x: 1, y: 0 });
}

#[test]
fn lines_before_the_anfield_are_skipped() {
    let mut reader = TurnReader::new();
    assert!(reader.takes("<got (O): [2, 3]\n"));
    assert!(!reader.feed("<got (O): [2, 3]\n"));
    assert!(!reader.takes("Anfield\n"));
    assert!(reader.finish().is_none());
}

#[test]
fn a_row_past_the_announced_count_is_refused() {
    let mut reader = TurnReader::new();
    assert!(!reader.feed("Anfield 3 0:\n"));
    assert!(!reader.feed("    012\n"));
    assert!(!reader.takes("000 ...\n"));
    assert!(reader.takes("Piece 1 1:\n"));
}

fn feed_all(lines: &[String]) -> Option<(Grid, Piece)> {
    let mut reader = TurnReader::new();
    for (i, line) in lines.iter().enumerate() {
        assert!(reader.takes(line));
        let done = reader.feed(line);
        assert_eq!(done, i + 1 == lines.len());
    }
    reader.finish()
}

fn render_turn(grid: &Grid, piece: &Piece, ending: &str) -> Vec<String> {
    let mut lines = vec![format!("Anfield {} {}:{}", grid.width, grid.height, ending)];
    lines.push(format!("    {}{}", (0..grid.width).map(|i| char::from(b'0' + (i % 10) as u8)).collect::<String>(), ending));
    for (i, row) in grid.cells.iter().enumerate() {
        lines.push(format!("{:03} {}{}", i, row.iter().collect::<String>(), ending));
    }
    lines.push(format!("Piece {} {}:{}", piece.width, piece.height, ending));
    for row in &piece.cells {
        lines.push(format!("{}{}", row.iter().map(|&b| if b { 'O' } else { '.' }).collect::<String>(), ending));
    }
    lines
}

#[test]
fn a_rendered_turn_reads_back() {
    let grid = grid_of(&["..........", "....@.....", "...s...a..", ".......$.."]);
    let piece = piece_of(&[".OO.", "..O."]);
    let lines = render_turn(&grid, &piece, "\n");
    assert_eq!(feed_all(&lines), Some((grid.clone(), piece.clone())));
    let crlf = render_turn(&grid, &piece, "\r\n");
    assert_eq!(feed_all(&crlf), Some((grid, piece)));
}

#[test]
fn noise_before_a_turn_changes_nothing() {
    let grid = grid_of(&["@.", ".$"]);
    let piece = piece_of(&["O"]);
    let mut lines = vec!["$$$ exec p1 : [robots/x]\n".to_string(), "<got (O): [2, 3]\n".to_string()];
    lines.extend(render_turn(&grid, &piece, "\n"));
    let mut reader = TurnReader::new();
    let mut done = false;
    for line in &lines {
        assert!(reader.takes(line));
        done = reader.feed(line);
    }
    assert!(done);
    assert_eq!(reader.finish(), Some((grid, piece)));
}
