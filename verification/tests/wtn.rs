use std::collections::HashMap;

use xentool::wooting::wtn::{
    new_blank, parse_wtn, write_wtn, Wtn, WtnCell, WtnError, WtnErrorKind,
};

#[test]
fn parses_minimal_wtn() {
    let text = "\
Edo=31
PitchOffset=0

[Board0]
Key_0=60
Chan_0=1
Col_0=FFDD00
Key_1=62
Chan_1=1
Col_1=7CFF6B
";
    let w = parse_wtn(text).unwrap();
    assert_eq!(w.edo, Some(31));
    assert_eq!(w.boards.len(), 1);
    let c0 = w.cell(0, 0).unwrap();
    assert_eq!(c0.key, 60);
    assert_eq!(c0.chan, 1);
    assert_eq!(c0.color, (0xFF, 0xDD, 0x00));
}

#[test]
fn accepts_argb_colors() {
    let text = "\
[Board0]
Key_0=60
Chan_0=1
Col_0=FFFFDD00
";
    let w = parse_wtn(text).unwrap();
    assert_eq!(w.cell(0, 0).unwrap().color, (0xFF, 0xDD, 0x00));
}

#[test]
fn round_trips() {
    let w0 = new_blank(31, 2, 0);
    let s = write_wtn(&w0);
    let w1 = parse_wtn(&s).unwrap();
    assert_eq!(w0.edo, w1.edo);
    assert_eq!(w0.pitch_offset, w1.pitch_offset);
    assert_eq!(w0.boards.len(), w1.boards.len());
}

#[test]
fn round_trip_keeps_every_cell() {
    let mut boards = HashMap::new();
    let mut cells = vec![WtnCell::default(); 56];
    cells[3] = WtnCell { key: 200, chan: 16, color: (1, 0xAB, 0xFF) };
    cells[55] = WtnCell { key: 7, chan: 2, color: (9, 8, 7) };
    boards.insert(5u8, cells.clone());
    let w0 = Wtn { edo: None, pitch_offset: -12, boards };
    let w1 = parse_wtn(&write_wtn(&w0)).unwrap();
    assert_eq!(w1.edo, None);
    assert_eq!(w1.pitch_offset, -12);
    assert_eq!(w1.boards[&5], cells);
}

#[test]
fn writes_expected_text() {
    let mut boards = HashMap::new();
    boards.insert(1u8, vec![WtnCell { key: 60, chan: 1, color: (255, 0, 10) }]);
    let w = Wtn { edo: Some(12), pitch_offset: 0, boards };
    assert_eq!(
        write_wtn(&w),
        "Edo=12\nPitchOffset=0\n\n[Board1]\nKey_0=60\nChan_0=1\nCol_0=FF000A\n"
    );
}

#[test]
fn reports_errors_with_line_numbers() {
    assert_eq!(
        parse_wtn("Edo=x").unwrap_err(),
        WtnError { line: 1, kind: WtnErrorKind::BadEdo }
    );
    assert_eq!(
        parse_wtn("\n[Bored]\n").unwrap_err(),
        WtnError { line: 2, kind: WtnErrorKind::BadSection }
    );
    assert_eq!(
        parse_wtn("[Board0]\nnonsense\n").unwrap_err(),
        WtnError { line: 2, kind: WtnErrorKind::ExpectedKeyValue }
    );
    assert_eq!(
        parse_wtn("[board1]\nKey_x=1\n").unwrap_err(),
        WtnError { line: 2, kind: WtnErrorKind::BadIndex }
    );
    assert_eq!(
        parse_wtn("[Board0]\nCol_0=GG0000\n").unwrap_err(),
        WtnError { line: 2, kind: WtnErrorKind::BadCol }
    );
    assert_eq!(
        parse_wtn("[Board0]\nChan_0=300\n").unwrap_err(),
        WtnError { line: 2, kind: WtnErrorKind::BadChan }
    );
}

#[test]
fn ignores_comments_unknown_keys_and_extra_cells() {
    let w = parse_wtn("# c\n; c\nFoo=1\n[Board2]\nKey_99=5\nNoUnderscore=1\nFoo_4=1\n").unwrap();
    // Foo_4 names cell 4, so board 2 exists with default cells.
    assert_eq!(w.boards.len(), 1);
    assert_eq!(w.cell(2, 4), Some(WtnCell::default()));
    assert_eq!(w.cell(2, 56), None);
    assert_eq!(w.edo, None);
}

#[test]
fn new_blank_cells_start_at_key_0_chan_1_black() {
    let w = new_blank(31, 2, 0);
    for b in 0..2u8 {
        let cells = &w.boards[&b];
        assert_eq!(cells.len(), 56);
        assert!(cells.iter().all(|c| *c == WtnCell { key: 0, chan: 1, color: (0, 0, 0) }));
    }
    let text = write_wtn(&w);
    assert!(text.contains("Key_0=0\nChan_0=1\nCol_0=000000"));
    let back = parse_wtn(&text).unwrap();
    assert_eq!(back.boards[&1][55], WtnCell { key: 0, chan: 1, color: (0, 0, 0) });
}
