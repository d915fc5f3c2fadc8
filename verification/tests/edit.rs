use xentool::edit::{
    basename_of, editor_kind, import_request, kind_of, parse_dto, parse_dto_checked,
    write_dto_string, DtoErrorKind, ImportRequest, LayoutDto, PadDto,
};
use std::collections::HashMap;

const SAMPLE: &str = "Edo=31\nPitchOffset=2\n# comment\n[Board0]\nKey_0=5\nChan_0=2\nCol_0=ff00aa\nCol_1=80112233\nFoo_3=1\nKey_200=1\nbad_x=1\n";

#[test]
fn parse_dto_keeps_colour_text_and_defaults() {
    let d = parse_dto(SAMPLE).unwrap();
    assert_eq!(d.edo, Some(31));
    assert_eq!(d.pitch_offset, 2);
    assert_eq!(d.boards.len(), 1);
    assert_eq!(d.boards[0].0, "board0");
    let pads = &d.boards[0].1;
    assert_eq!(pads.len(), 3);
    let p0 = &pads[&0];
    assert_eq!((p0.key, p0.chan, p0.color.as_str()), (5, 2, "FF00AA"));
    let p1 = &pads[&1];
    assert_eq!((p1.key, p1.chan, p1.color.as_str()), (1, 1, "112233"));
    let p3 = &pads[&3];
    assert_eq!((p3.key, p3.chan, p3.color.as_str()), (3, 1, "000000"));
}

#[test]
fn parse_dto_errors_name_their_line() {
    let e = parse_dto("Edo=12\nnonsense\n").unwrap_err();
    assert_eq!((e.line, e.kind), (2, DtoErrorKind::ExpectedKeyValue));
    let e = parse_dto("Edo=x\n").unwrap_err();
    assert_eq!(e.kind, DtoErrorKind::BadEdo);
    let e = parse_dto("[b]\nChan_1=300\n").unwrap_err();
    assert_eq!((e.line, e.kind), (2, DtoErrorKind::BadChan));
    assert!(parse_dto_checked("[b]\nCol_1=€bcdef\n").is_none());
}

#[test]
fn write_dto_orders_boards_and_pads() {
    let d = parse_dto("PitchOffset=0\n[board10]\nKey_2=9\n[Board2]\nCol_1=abcdef\n").unwrap();
    let text = write_dto_string(&d);
    assert_eq!(
        text,
        "PitchOffset=0\n\n[Board2]\nKey_1=1\nChan_1=1\nCol_1=ABCDEF\n\n[Board10]\nKey_2=9\nChan_2=1\nCol_2=000000\n"
    );
    let again = parse_dto(&text).unwrap();
    assert_eq!(write_dto_string(&again), text);
}

#[test]
fn write_dto_sample() {
    let d = parse_dto(SAMPLE).unwrap();
    assert_eq!(
        write_dto_string(&d),
        "Edo=31\nPitchOffset=2\n\n[Board0]\nKey_0=5\nChan_0=2\nCol_0=FF00AA\nKey_1=1\nChan_1=1\nCol_1=112233\nKey_3=3\nChan_3=1\nCol_3=000000\n"
    );
}

#[test]
fn import_places_pads_on_the_exquis_grid() {
    let req = ImportRequest { content: "[Board0]\nKey_6=60\n".to_string(), kind: "xtn".to_string() };
    let r = import_request(req).unwrap();
    assert_eq!(r.pads.len(), 1);
    let p = &r.pads[0];
    assert_eq!((p.src_board, p.src_pad, p.x, p.y, p.key, p.chan), (0, 6, 1, 1, 60, 1));
}

#[test]
fn import_flips_lumatone_rows() {
    let req = ImportRequest {
        content: "Edo=53\n[Board1]\nKey_0=1\n[board4]\nChan_55=3\n".to_string(),
        kind: "LTN".to_string(),
    };
    let r = import_request(req).unwrap();
    assert_eq!(r.edo, Some(53));
    assert_eq!(r.pads.len(), 2);
    // board1 pad 0 sits at row 2; the largest Lumatone row is 18.
    assert_eq!((r.pads[0].src_board, r.pads[0].src_pad, r.pads[0].x, r.pads[0].y), (1, 0, 16, 12));
    assert_eq!((r.pads[1].src_board, r.pads[1].src_pad, r.pads[1].x, r.pads[1].y), (4, 55, 0, 58));
    assert_eq!(r.pads[1].chan, 3);
}

#[test]
fn editor_kind_by_extension() {
    assert_eq!(editor_kind(Some("WTN")), "wooting");
    assert_eq!(editor_kind(Some("xtn")), "exquis");
    assert_eq!(editor_kind(None), "exquis");
    assert_eq!(kind_of("layouts/edo31.wtn"), "wooting");
    assert_eq!(kind_of("edo31.xtn"), "exquis");
    assert_eq!(basename_of("wtn/edo31.wtn"), "edo31.wtn");
    assert_eq!(basename_of(""), "");
}

#[test]
fn basename_skips_trailing_separators_and_dots() {
    assert_eq!(basename_of("xtn/edo31.xtn/"), "edo31.xtn");
    assert_eq!(basename_of("xtn/./"), "xtn");
    assert_eq!(basename_of("xtn/.."), "");
}

#[test]
fn editor_kind_of_paths_ignores_case_and_trailing_separators() {
    assert_eq!(kind_of("wtn/edo31.WTN/"), "wooting");
    assert_eq!(kind_of(".wtn"), "exquis");
    assert_eq!(kind_of("wtn"), "exquis");
}

#[test]
fn editor_round_trip_upper_cases_hex_colours() {
    let mut pads = HashMap::new();
    pads.insert(0u8, PadDto { key: 60, chan: 2, color: "ab12cd".to_string() });
    pads.insert(127u8, PadDto { key: 1, chan: 16, color: "FfEe00".to_string() });
    let dto = LayoutDto { edo: Some(31), pitch_offset: -3, boards: vec![("board1".to_string(), pads)] };
    let back = parse_dto(&write_dto_string(&dto)).unwrap();
    assert_eq!(back.edo, Some(31));
    assert_eq!(back.pitch_offset, -3);
    assert_eq!(back.boards.len(), 1);
    assert_eq!(back.boards[0].0, "board1");
    let p = &back.boards[0].1;
    assert_eq!((p[&0].key, p[&0].chan, p[&0].color.as_str()), (60, 2, "AB12CD"));
    assert_eq!((p[&127].key, p[&127].chan, p[&127].color.as_str()), (1, 16, "FFEE00"));
}
