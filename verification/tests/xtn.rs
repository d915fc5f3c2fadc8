use xentool::exquis::proto::Color;
use xentool::xtn::{blank_layout, check_new_layout, parse_xtn_str, write_xtn_layout, NewLayoutError, XtnError, XtnErrorKind};

#[test]
fn parses_minimal_xtn() {
    let layout = parse_xtn_str(
        "[Board0]\n\
         Key_0=48\n\
         Chan_0=3\n\
         Col_0=FF0000\n\
         Key_1=50\n\
         Chan_1=3\n\
         Col_1=00FF00\n",
    )
    .unwrap();
    assert_eq!(layout.boards.len(), 1);
    let (name, board) = &layout.boards[0];
    assert_eq!(name, "board0");
    assert_eq!(board.pads[&0].key, 48);
    assert_eq!(board.pads[&0].chan, 3);
    assert_eq!(board.pads[&0].color.red, 127);
    assert_eq!(board.pads[&1].key, 50);
    assert_eq!(board.pads[&1].color, Color::new(0, 127, 0));
}

#[test]
fn header_defaults_and_reopened_sections() {
    let text = "# comment\nEdo=31\nPitchOffset=-2\nUnknown=1\n[Board1]\nFoo_4=x\n[board0]\nChan_2=5\n[BOARD1]\nKey_3=9\n";
    let l = parse_xtn_str(text).unwrap();
    assert_eq!(l.edo, Some(31));
    assert_eq!(l.pitch_offset, -2);
    assert_eq!(l.boards.len(), 2);
    assert_eq!(l.boards[0].0, "board1");
    let b1 = &l.boards[0].1;
    // An unknown field still creates the pad with its defaults.
    assert_eq!(b1.pads[&4].key, 4);
    assert_eq!(b1.pads[&4].chan, 1);
    assert_eq!(b1.pads[&4].color, Color::new(0, 0, 0));
    assert_eq!(b1.pads[&3].key, 9);
    assert_eq!(l.boards[1].1.pads[&2].chan, 5);
    assert_eq!(l.boards[1].1.pads[&2].key, 2);
}

#[test]
fn errors_carry_line_numbers() {
    assert_eq!(parse_xtn_str("Edo=x\n").unwrap_err(), XtnError { line: 1, kind: XtnErrorKind::BadEdo });
    assert_eq!(parse_xtn_str("\n[Board0]\nKey_200=1\n").unwrap_err(), XtnError { line: 3, kind: XtnErrorKind::IndexOutOfRange(200) });
    assert_eq!(parse_xtn_str("[Board0]\nKey=1\n").unwrap_err(), XtnError { line: 2, kind: XtnErrorKind::ExpectedIndexedKey });
    assert_eq!(parse_xtn_str("[Board0]\nKey_x=1\n").unwrap_err(), XtnError { line: 2, kind: XtnErrorKind::BadIndex });
    assert_eq!(parse_xtn_str("[Board0]\nCol_1=12\n").unwrap_err(), XtnError { line: 2, kind: XtnErrorKind::BadCol });
    assert_eq!(parse_xtn_str("garbage\n").unwrap_err(), XtnError { line: 1, kind: XtnErrorKind::ExpectedKeyValue });
    assert_eq!(parse_xtn_str("[Board0]\nChan_1=300\n").unwrap_err(), XtnError { line: 2, kind: XtnErrorKind::BadChan });
}

#[test]
fn write_orders_boards_and_round_trips() {
    let text = "Edo=12\n[board10]\nKey_1=61\n[Board2]\nKey_0=60\nChan_0=2\nCol_0=FF8000\n[extra]\nKey_5=1\n";
    let l = parse_xtn_str(text).unwrap();
    let out = write_xtn_layout(&l);
    assert_eq!(
        out,
        "Edo=12\nPitchOffset=0\n\n[Board2]\nKey_0=60\nChan_0=2\nCol_0=FF8100\n\n[Board10]\nKey_1=61\nChan_1=1\nCol_1=000000\n\n[extra]\nKey_5=1\nChan_5=1\nCol_5=000000\n"
    );
    let again = parse_xtn_str(&out).unwrap();
    assert_eq!(again.boards.len(), 3);
    for (name, board) in &l.boards {
        let (_, other) = again.boards.iter().find(|(n, _)| n == name).unwrap();
        assert_eq!(board.pads, other.pads);
    }
}

#[test]
fn blank_layouts_name_boards_and_blank_every_pad() {
    assert_eq!(check_new_layout(0, 4), Err(NewLayoutError::EdoBelowOne));
    assert_eq!(check_new_layout(31, 0), Err(NewLayoutError::NoBoards));
    assert_eq!(check_new_layout(31, 1), Ok(()));
    let l = blank_layout(31, 2, -5);
    assert_eq!(l.edo, Some(31));
    assert_eq!(l.pitch_offset, -5);
    let names: Vec<&str> = l.boards.iter().map(|(n, _)| n.as_str()).collect();
    assert_eq!(names, vec!["board0", "board1"]);
    for (_, b) in &l.boards {
        assert_eq!(b.pads.len(), 61);
        assert!(b.pads.values().all(|p| p.key == 0 && p.chan == 0 && p.color.red == 0 && p.color.green == 0 && p.color.blue == 0));
    }
    let back = parse_xtn_str(&write_xtn_layout(&l)).unwrap();
    assert_eq!(back.boards.len(), 2);
}
