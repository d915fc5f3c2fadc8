//! Reading back what `write_wtn` writes gives the layout again.
use vstd::prelude::*;

use crate::exquis::proto::{hex_byte_value, hex_pair, hex_rgb, is_continuation, is_hex_byte};
use crate::num::{
    all_digits, dec_digits, dec_signed, hex2, hex_char, is_digit, lemma_dec_digits_parse,
    lemma_dec_signed_parse, parse_bounded, parse_i32_spec, parse_signed, parse_unsigned,
};
use crate::text::{
    is_ws, join_lines, lemma_lines_join, lemma_rsplit_once_at, lemma_split_once_at,
    lemma_trim_id, lines, no_line_break, rsplit_once, split_once, starts_with, trim,
};
use crate::wooting::wtn::{
    board_cells, board_lines, board_number_text, boards_lines, cell_lines, cells_lines,
    default_cell, entry_line, header_lines, key_value_step, parse_wtn_spec, section_line,
    wtn_color_spec, wtn_field, wtn_initial, wtn_run, wtn_step, wtn_text_lines, WtnCell,
    WtnModel, WtnParseState,
};

verus! {

/// An ASCII letter or digit.
spec fn alnum(c: char) -> bool {
    ('0' <= c && c <= '9') || ('A' <= c && c <= 'Z') || ('a' <= c && c <= 'z')
}

spec fn all_alnum(s: Seq<char>) -> bool {
    forall|k: int| 0 <= k < s.len() ==> alnum(#[trigger] s[k])
}

proof fn lemma_digits_alnum(s: Seq<char>)
    requires
        all_digits(s),
    ensures
        all_alnum(s),
{
    assert forall|k: int| 0 <= k < s.len() implies alnum(#[trigger] s[k]) by {
        assert(is_digit(s[k]));
    }
}

proof fn lemma_hex_char_facts(d: int)
    requires
        0 <= d < 16,
    ensures
        alnum(hex_char(d)),
        (hex_char(d) as u32) < 128,
        is_hex_byte(hex_char(d) as u8),
        hex_byte_value(hex_char(d) as u8) == d,
{
}

proof fn lemma_hex2_alnum(b: u8)
    ensures
        all_alnum(hex2(b)),
        hex2(b).len() == 2,
{
    lemma_hex_char_facts(b as int / 16);
    lemma_hex_char_facts(b as int % 16);
}

/// Running two blocks of lines is running the first, then the second.
proof fn lemma_run_concat(a: Seq<Seq<char>>, b: Seq<Seq<char>>, st: WtnParseState, base: int)
    ensures
        wtn_run(a + b, st, base) == match wtn_run(a, st, base) {
            Ok(st2) => wtn_run(b, st2, base + a.len()),
            Err(e) => Err(e),
        },
    decreases a.len(),
{
    if a.len() == 0 {
        assert(a + b =~= b);
    } else {
        assert((a + b)[0] == a[0]);
        assert((a + b).drop_first() =~= a.drop_first() + b);
        match wtn_step(st, a[0], base + 1) {
            Ok(st2) => {
                lemma_run_concat(a.drop_first(), b, st2, base + 1);
            },
            Err(e) => {},
        }
    }
}

/// `entry_line(name, i, value)` read inside section `b`.
proof fn lemma_entry_step(
    st: WtnParseState,
    b: u8,
    name: Seq<char>,
    i: nat,
    value: Seq<char>,
    n: int,
)
    requires
        st.current == Some(b),
        name.len() > 0,
        all_alnum(name),
        !('0' <= name[0] && name[0] <= '9'),
        value.len() > 0,
        all_alnum(value),
        i < 56,
    ensures
        wtn_step(st, entry_line(name, i, value), n) == match wtn_field(
            name,
            value,
            board_cells(st.model.boards, b)[i as int],
        ) {
            Ok(c) => Ok(
                WtnParseState {
                    model: WtnModel {
                        boards: st.model.boards.insert(
                            b,
                            board_cells(st.model.boards, b).update(i as int, c),
                        ),
                        ..st.model
                    },
                    current: Some(b),
                },
            ),
            Err(kind) => Err(crate::wooting::wtn::WtnError { line: n as usize, kind }),
        },
{
    reveal(wtn_step);
    let d = dec_digits(i);
    lemma_dec_digits_parse(i);
    lemma_digits_alnum(d);
    let k = name + seq!['_'] + d;
    let l = entry_line(name, i, value);
    assert(l =~= k + seq!['='] + value);
    assert(alnum(l[0]));
    assert(l.last() == value.last());
    assert(alnum(value.last()));
    lemma_trim_id(l);
    assert forall|q: int| 0 <= q < k.len() implies k[q] != '=' by {
        if q < name.len() {
            assert(alnum(name[q]));
        } else if q > name.len() {
            assert(k[q] == d[q - name.len() - 1]);
            assert(alnum(d[q - name.len() - 1]));
        }
    }
    lemma_split_once_at(l, '=', k.len() as int);
    assert(l.take(k.len() as int) =~= k);
    assert(l.skip(k.len() as int + 1) =~= value);
    assert(k[0] == name[0]);
    assert(alnum(k.last()));
    lemma_trim_id(k);
    lemma_trim_id(value);
    assert forall|q: int| name.len() < q < k.len() implies k[q] != '_' by {
        assert(k[q] == d[q - name.len() - 1]);
        assert(alnum(d[q - name.len() - 1]));
    }
    lemma_rsplit_once_at(k, '_', name.len() as int);
    assert(k.take(name.len() as int) =~= name);
    assert(k.skip(name.len() as int + 1) =~= d);
    assert(parse_bounded(d, usize::MAX as int) == Some(i as int));
    assert(l[0] != '[' && l[0] != '#' && l[0] != ';');
}

proof fn lemma_key_field(v: u8, cell: WtnCell)
    ensures
        wtn_field("Key"@, dec_digits(v as nat), cell) == Ok::<WtnCell, crate::wooting::wtn::WtnErrorKind>(
            WtnCell { key: v, ..cell },
        ),
{
    lemma_dec_digits_parse(v as nat);
}

proof fn lemma_chan_field(v: u8, cell: WtnCell)
    ensures
        wtn_field("Chan"@, dec_digits(v as nat), cell) == Ok::<
            WtnCell,
            crate::wooting::wtn::WtnErrorKind,
        >(WtnCell { chan: v, ..cell }),
{
    reveal_strlit("Key");
    reveal_strlit("Chan");
    assert("Chan"@.len() == 4);
    assert("Key"@.len() == 3);
    assert("Chan"@ != "Key"@);
    lemma_dec_digits_parse(v as nat);
}

proof fn lemma_col_field(c: (u8, u8, u8), cell: WtnCell)
    ensures
        wtn_field("Col"@, hex2(c.0) + hex2(c.1) + hex2(c.2), cell) == Ok::<
            WtnCell,
            crate::wooting::wtn::WtnErrorKind,
        >(WtnCell { color: c, ..cell }),
{
    reveal_strlit("Key");
    reveal_strlit("Chan");
    reveal_strlit("Col");
    assert("Col"@.len() == 3);
    assert("Col"@[1] == 'o');
    assert("Key"@[1] == 'e');
    assert("Col"@ != "Key"@);
    assert("Col"@ != "Chan"@);
    let v = hex2(c.0) + hex2(c.1) + hex2(c.2);
    lemma_hex2_alnum(c.0);
    lemma_hex2_alnum(c.1);
    lemma_hex2_alnum(c.2);
    lemma_hex_char_facts(c.0 as int / 16);
    lemma_hex_char_facts(c.0 as int % 16);
    lemma_hex_char_facts(c.1 as int / 16);
    lemma_hex_char_facts(c.1 as int % 16);
    lemma_hex_char_facts(c.2 as int / 16);
    lemma_hex_char_facts(c.2 as int % 16);
    assert(v.len() == 6);
    assert(alnum(v[0]));
    assert(alnum(v[5]));
    lemma_trim_id(v);
    assert(vstd::utf8::is_ascii_chars(v));
    vstd::utf8::is_ascii_chars_encode_utf8(v);
    let t = vstd::utf8::encode_utf8(v);
    assert(t.len() == 6);
    assert(t[0] == v[0] as u8);
    assert(t[0] != 0x23);
    assert(t[2] == v[2] as u8);
    assert(t[4] == v[4] as u8);
    assert(hex_pair(t[0], t[1]) == Some(c.0 as int));
    assert(hex_pair(t[2], t[3]) == Some(c.1 as int));
    assert(hex_pair(t[4], t[5]) == Some(c.2 as int));
    assert(hex_rgb(t) == Ok::<(int, int, int), crate::exquis::proto::ColorError>(
        (c.0 as int, c.1 as int, c.2 as int),
    ));
}

spec fn with_cell(st: WtnParseState, b: u8, i: int, c: WtnCell) -> WtnParseState {
    WtnParseState {
        model: WtnModel {
            boards: st.model.boards.insert(b, board_cells(st.model.boards, b).update(i, c)),
            ..st.model
        },
        current: Some(b),
    }
}

proof fn lemma_literals()
    ensures
        "Key"@.len() == 3 && all_alnum("Key"@) && !('0' <= "Key"@[0] && "Key"@[0] <= '9'),
        "Chan"@.len() == 4 && all_alnum("Chan"@) && !('0' <= "Chan"@[0] && "Chan"@[0] <= '9'),
        "Col"@.len() == 3 && all_alnum("Col"@) && !('0' <= "Col"@[0] && "Col"@[0] <= '9'),
{
    reveal_strlit("Key");
    reveal_strlit("Chan");
    reveal_strlit("Col");
}

proof fn lemma_key_step(st: WtnParseState, b: u8, i: nat, v: u8, n: int)
    requires
        st.current == Some(b),
        i < 56,
        board_cells(st.model.boards, b).len() == 56,
    ensures
        wtn_step(st, entry_line("Key"@, i, dec_digits(v as nat)), n) == Ok::<
            WtnParseState,
            crate::wooting::wtn::WtnError,
        >(with_cell(st, b, i as int, WtnCell { key: v, ..board_cells(st.model.boards, b)[i as int] })),
{
    lemma_literals();
    lemma_dec_digits_parse(v as nat);
    lemma_digits_alnum(dec_digits(v as nat));
    lemma_key_field(v, board_cells(st.model.boards, b)[i as int]);
    lemma_entry_step(st, b, "Key"@, i, dec_digits(v as nat), n);
}

proof fn lemma_chan_step(st: WtnParseState, b: u8, i: nat, v: u8, n: int)
    requires
        st.current == Some(b),
        i < 56,
        board_cells(st.model.boards, b).len() == 56,
    ensures
        wtn_step(st, entry_line("Chan"@, i, dec_digits(v as nat)), n) == Ok::<
            WtnParseState,
            crate::wooting::wtn::WtnError,
        >(with_cell(st, b, i as int, WtnCell { chan: v, ..board_cells(st.model.boards, b)[i as int] })),
{
    lemma_literals();
    lemma_dec_digits_parse(v as nat);
    lemma_digits_alnum(dec_digits(v as nat));
    lemma_chan_field(v, board_cells(st.model.boards, b)[i as int]);
    lemma_entry_step(st, b, "Chan"@, i, dec_digits(v as nat), n);
}

proof fn lemma_col_step(st: WtnParseState, b: u8, i: nat, v: (u8, u8, u8), n: int)
    requires
        st.current == Some(b),
        i < 56,
        board_cells(st.model.boards, b).len() == 56,
    ensures
        wtn_step(st, entry_line("Col"@, i, hex2(v.0) + hex2(v.1) + hex2(v.2)), n) == Ok::<
            WtnParseState,
            crate::wooting::wtn::WtnError,
        >(with_cell(st, b, i as int, WtnCell { color: v, ..board_cells(st.model.boards, b)[i as int] })),
{
    lemma_literals();
    let hx = hex2(v.0) + hex2(v.1) + hex2(v.2);
    lemma_hex2_alnum(v.0);
    lemma_hex2_alnum(v.1);
    lemma_hex2_alnum(v.2);
    assert(all_alnum(hx)) by {
        assert forall|k: int| 0 <= k < hx.len() implies alnum(#[trigger] hx[k]) by {
            if k < 2 {
                assert(hx[k] == hex2(v.0)[k]);
            } else if k < 4 {
                assert(hx[k] == hex2(v.1)[k - 2]);
            } else {
                assert(hx[k] == hex2(v.2)[k - 4]);
            }
        }
    }
    lemma_col_field(v, board_cells(st.model.boards, b)[i as int]);
    lemma_entry_step(st, b, "Col"@, i, hx, n);
}

/// The three lines of a cell set the whole cell.
proof fn lemma_cell_run(st: WtnParseState, b: u8, i: nat, c: WtnCell, base: int)
    requires
        st.current == Some(b),
        i < 56,
        board_cells(st.model.boards, b).len() == 56,
    ensures
        wtn_run(cell_lines(i, c), st, base) == Ok::<WtnParseState, crate::wooting::wtn::WtnError>(
            with_cell(st, b, i as int, c),
        ),
{
    let ls = cell_lines(i, c);
    let cells = board_cells(st.model.boards, b);
    let c0 = cells[i as int];
    let c1 = WtnCell { key: c.key, ..c0 };
    lemma_key_step(st, b, i, c.key, base + 1);
    let st1 = with_cell(st, b, i as int, c1);
    assert(board_cells(st1.model.boards, b) == cells.update(i as int, c1));
    let c2 = WtnCell { chan: c.chan, ..c1 };
    lemma_chan_step(st1, b, i, c.chan, base + 2);
    let st2 = with_cell(st1, b, i as int, c2);
    assert(board_cells(st2.model.boards, b) == cells.update(i as int, c1).update(i as int, c2));
    let c3 = WtnCell { color: c.color, ..c2 };
    lemma_col_step(st2, b, i, c.color, base + 3);
    let st3 = with_cell(st2, b, i as int, c3);
    assert(c3 == c);
    assert(st3.model.boards =~= with_cell(st, b, i as int, c).model.boards) by {
        assert(cells.update(i as int, c1).update(i as int, c2).update(i as int, c3) =~= cells.update(
            i as int,
            c,
        ));
    }
    assert(st3 == with_cell(st, b, i as int, c));
    assert(ls.drop_first().drop_first().drop_first() =~= Seq::<Seq<char>>::empty());
    assert(ls.drop_first()[0] == ls[1]);
    assert(ls.drop_first().drop_first()[0] == ls[2]);
    assert(wtn_run(ls.drop_first().drop_first().drop_first(), st3, base + 3) == Ok::<
        WtnParseState,
        crate::wooting::wtn::WtnError,
    >(st3));
    assert(wtn_run(ls.drop_first().drop_first(), st2, base + 2) == Ok::<
        WtnParseState,
        crate::wooting::wtn::WtnError,
    >(st3));
    assert(wtn_run(ls.drop_first(), st1, base + 1) == Ok::<
        WtnParseState,
        crate::wooting::wtn::WtnError,
    >(st3));
}

spec fn partial(cells: Seq<WtnCell>, i: int) -> Seq<WtnCell> {
    Seq::new(56, |j: int| if j < i { cells[j] } else { default_cell() })
}

spec fn with_board(st: WtnParseState, b: u8, cells: Seq<WtnCell>) -> WtnParseState {
    WtnParseState {
        model: WtnModel { boards: st.model.boards.insert(b, cells), ..st.model },
        current: Some(b),
    }
}

/// The cell lines of cells `0..i` fill those cells of a new board.
proof fn lemma_cells_run(st: WtnParseState, b: u8, cells: Seq<WtnCell>, i: nat, base: int)
    requires
        st.current == Some(b),
        !st.model.boards.contains_key(b),
        cells.len() == 56,
        i <= 56,
    ensures
        wtn_run(cells_lines(cells.take(i as int)), st, base) == Ok::<
            WtnParseState,
            crate::wooting::wtn::WtnError,
        >(if i == 0 { st } else { with_board(st, b, partial(cells, i as int)) }),
    decreases i,
{
    if i == 0 {
        assert(cells.take(0) =~= Seq::<WtnCell>::empty());
    } else {
        let t = cells.take(i as int);
        assert(t.drop_last() =~= cells.take(i - 1));
        assert(t.last() == cells[i - 1]);
        let pre = cells_lines(cells.take(i - 1));
        assert(cells_lines(t) == pre + cell_lines((i - 1) as nat, cells[i - 1]));
        lemma_cells_run(st, b, cells, (i - 1) as nat, base);
        lemma_run_concat(pre, cell_lines((i - 1) as nat, cells[i - 1]), st, base);
        let s = if i - 1 == 0 {
            st
        } else {
            with_board(st, b, partial(cells, i - 1))
        };
        assert(board_cells(s.model.boards, b) =~= partial(cells, i - 1));
        lemma_cell_run(s, b, (i - 1) as nat, cells[i - 1], base + pre.len());
        let s2 = with_cell(s, b, i - 1, cells[i - 1]);
        assert(partial(cells, i - 1).update(i - 1, cells[i - 1]) =~= partial(cells, i as int));
        assert(s2.model.boards =~= with_board(st, b, partial(cells, i as int)).model.boards);
        assert(s2 == with_board(st, b, partial(cells, i as int)));
    }
}

proof fn lemma_section_step(st: WtnParseState, b: u8, n: int)
    ensures
        wtn_step(st, section_line(b), n) == Ok::<WtnParseState, crate::wooting::wtn::WtnError>(
            WtnParseState { model: st.model, current: Some(b) },
        ),
{
    reveal(wtn_step);
    reveal_strlit("[Board");
    reveal_strlit("Board");
    let d = dec_digits(b as nat);
    lemma_dec_digits_parse(b as nat);
    let l = section_line(b);
    assert(l[0] == '[');
    assert(l.last() == ']');
    lemma_trim_id(l);
    let name = l.subrange(1, l.len() - 1);
    assert(name =~= "Board"@ + d);
    assert(name[0] == 'B');
    assert(name.last() == d.last());
    assert(is_digit(d.last()));
    lemma_trim_id(name);
    assert(name.take(5) =~= "Board"@);
    assert(starts_with(name, "Board"@));
    assert(name.skip(5) =~= d);
    assert(board_number_text(name) == d);
}

proof fn lemma_empty_step(st: WtnParseState, n: int)
    ensures
        wtn_step(st, Seq::empty(), n) == Ok::<WtnParseState, crate::wooting::wtn::WtnError>(st),
{
    reveal(wtn_step);
    assert(trim(Seq::<char>::empty()) =~= Seq::<char>::empty());
}

/// A board's lines add that board (when it is new).
proof fn lemma_board_run(st: WtnParseState, b: u8, cells: Seq<WtnCell>, base: int)
    requires
        !st.model.boards.contains_key(b),
        cells.len() == 56,
    ensures
        wtn_run(board_lines(b, cells), st, base) == Ok::<WtnParseState, crate::wooting::wtn::WtnError>(
            with_board(st, b, cells),
        ),
{
    let head = seq![Seq::<char>::empty(), section_line(b)];
    lemma_run_concat(head, cells_lines(cells), st, base);
    lemma_empty_step(st, base + 1);
    lemma_section_step(st, b, base + 2);
    let s1 = WtnParseState { model: st.model, current: Some(b) };
    assert(head.drop_first()[0] == section_line(b));
    assert(head.drop_first().drop_first() =~= Seq::<Seq<char>>::empty());
    assert(wtn_run(head.drop_first().drop_first(), s1, base + 2) == Ok::<
        WtnParseState,
        crate::wooting::wtn::WtnError,
    >(s1));
    assert(wtn_run(head.drop_first(), st, base + 1) == Ok::<
        WtnParseState,
        crate::wooting::wtn::WtnError,
    >(s1));
    assert(wtn_run(head, st, base) == Ok::<WtnParseState, crate::wooting::wtn::WtnError>(s1));
    lemma_cells_run(s1, b, cells, 56, base + 2);
    assert(cells.take(56) =~= cells);
    assert(partial(cells, 56) =~= cells);
}

spec fn restrict(m: Map<u8, Seq<WtnCell>>, k: nat) -> Map<u8, Seq<WtnCell>> {
    Map::new(|b: u8| b < k && m.contains_key(b), |b: u8| m[b])
}

/// The board lines of boards below `k` add exactly those boards.
proof fn lemma_boards_run(m: Map<u8, Seq<WtnCell>>, k: nat, st: WtnParseState, base: int)
    requires
        k <= 256,
        st.model.boards == Map::<u8, Seq<WtnCell>>::empty(),
        forall|b: u8| #[trigger] m.contains_key(b) ==> m[b].len() == 56,
    ensures
        wtn_run(boards_lines(m, k), st, base) is Ok,
        wtn_run(boards_lines(m, k), st, base)->Ok_0.model == (WtnModel {
            boards: restrict(m, k),
            ..st.model
        }),
    decreases k,
{
    if k == 0 {
        assert(restrict(m, 0) =~= Map::<u8, Seq<WtnCell>>::empty());
    } else {
        let pre = boards_lines(m, (k - 1) as nat);
        let b = (k - 1) as u8;
        let tail = if m.contains_key(b) {
            board_lines(b, m[b])
        } else {
            seq![]
        };
        assert(boards_lines(m, k) == pre + tail);
        lemma_boards_run(m, (k - 1) as nat, st, base);
        lemma_run_concat(pre, tail, st, base);
        let s = wtn_run(pre, st, base)->Ok_0;
        if m.contains_key(b) {
            assert(!s.model.boards.contains_key(b));
            lemma_board_run(s, b, m[b], base + pre.len());
            assert(restrict(m, (k - 1) as nat).insert(b, m[b]) =~= restrict(m, k));
        } else {
            assert(restrict(m, (k - 1) as nat) =~= restrict(m, k));
        }
    }
}

proof fn lemma_dec_signed_chars(e: int)
    ensures
        dec_signed(e).len() > 0,
        forall|q: int|
            0 <= q < dec_signed(e).len() ==> alnum(#[trigger] dec_signed(e)[q]) || dec_signed(e)[q]
                == '-',
        is_digit(dec_signed(e).last()),
        !is_ws(dec_signed(e)[0]),
{
    if e < 0 {
        lemma_dec_digits_parse((-e) as nat);
        lemma_digits_alnum(dec_digits((-e) as nat));
        let d = dec_digits((-e) as nat);
        assert forall|q: int| 0 <= q < dec_signed(e).len() implies alnum(#[trigger] dec_signed(e)[q])
            || dec_signed(e)[q] == '-' by {
            if q > 0 {
                assert(dec_signed(e)[q] == d[q - 1]);
            }
        }
        assert(dec_signed(e).last() == d.last());
    } else {
        lemma_dec_digits_parse(e as nat);
        lemma_digits_alnum(dec_digits(e as nat));
    }
}

/// A header line `name=value` read before any section.
proof fn lemma_header_step(st: WtnParseState, name: Seq<char>, e: int, n: int)
    requires
        st.current is None,
        name == "Edo"@ || name == "PitchOffset"@,
        i32::MIN <= e <= i32::MAX,
    ensures
        wtn_step(st, name + seq!['='] + dec_signed(e), n) == Ok::<
            WtnParseState,
            crate::wooting::wtn::WtnError,
        >(
            if name == "Edo"@ {
                WtnParseState { model: WtnModel { edo: Some(e as i32), ..st.model }, current: None }
            } else {
                WtnParseState { model: WtnModel { pitch_offset: e as i32, ..st.model }, current: None }
            },
        ),
{
    reveal(wtn_step);
    reveal_strlit("Edo");
    reveal_strlit("PitchOffset");
    assert("Edo"@ != "PitchOffset"@) by {
        assert("Edo"@.len() != "PitchOffset"@.len());
    }
    let v = dec_signed(e);
    lemma_dec_signed_chars(e);
    lemma_dec_signed_parse(e);
    let l = name + seq!['='] + v;
    assert(l[0] == name[0]);
    assert(l.last() == v.last());
    lemma_trim_id(l);
    assert forall|q: int| 0 <= q < name.len() implies name[q] != '=' by {}
    lemma_split_once_at(l, '=', name.len() as int);
    assert(l.take(name.len() as int) =~= name);
    assert(l.skip(name.len() as int + 1) =~= v);
    lemma_trim_id(name);
    lemma_trim_id(v);
    assert(parse_i32_spec(v) == Some(e));
}

/// The header lines set `Edo` and `PitchOffset`.
proof fn lemma_header_run(w: WtnModel)
    ensures
        wtn_run(header_lines(w), wtn_initial(), 0) == Ok::<
            WtnParseState,
            crate::wooting::wtn::WtnError,
        >(
            WtnParseState {
                model: WtnModel {
                    edo: w.edo,
                    pitch_offset: w.pitch_offset,
                    boards: Map::empty(),
                },
                current: None,
            },
        ),
{
    reveal_strlit("Edo=");
    reveal_strlit("Edo");
    reveal_strlit("PitchOffset=");
    reveal_strlit("PitchOffset");
    assert("Edo="@ =~= "Edo"@ + seq!['=']);
    assert("PitchOffset="@ =~= "PitchOffset"@ + seq!['=']);
    let po = "PitchOffset="@ + dec_signed(w.pitch_offset as int);
    assert(po =~= "PitchOffset"@ + seq!['='] + dec_signed(w.pitch_offset as int));
    match w.edo {
        Some(e) => {
            let el = "Edo="@ + dec_signed(e as int);
            assert(el =~= "Edo"@ + seq!['='] + dec_signed(e as int));
            lemma_header_step(wtn_initial(), "Edo"@, e as int, 1);
            let s1 = WtnParseState {
                model: WtnModel { edo: Some(e), pitch_offset: 0, boards: Map::empty() },
                current: None,
            };
            lemma_header_step(s1, "PitchOffset"@, w.pitch_offset as int, 2);
            let ls = header_lines(w);
            assert(ls =~= seq![el, po]);
            assert(ls.drop_first() =~= seq![po]);
            assert(ls.drop_first().drop_first() =~= Seq::<Seq<char>>::empty());
            let s2 = WtnParseState {
                model: WtnModel { edo: Some(e), pitch_offset: w.pitch_offset, boards: Map::empty() },
                current: None,
            };
            assert(wtn_run(ls.drop_first().drop_first(), s2, 2) == Ok::<
                WtnParseState,
                crate::wooting::wtn::WtnError,
            >(s2));
            assert(wtn_step(s1, ls.drop_first()[0], 2) == Ok::<
                WtnParseState,
                crate::wooting::wtn::WtnError,
            >(s2));
            assert(wtn_run(ls.drop_first(), s1, 1) == Ok::<
                WtnParseState,
                crate::wooting::wtn::WtnError,
            >(s2));
            assert(wtn_step(wtn_initial(), ls[0], 1) == Ok::<
                WtnParseState,
                crate::wooting::wtn::WtnError,
            >(s1));
            assert(wtn_run(ls, wtn_initial(), 0) == Ok::<
                WtnParseState,
                crate::wooting::wtn::WtnError,
            >(s2));
            assert(s2.model.edo == w.edo);
            assert(s2 == WtnParseState {
                model: WtnModel { edo: w.edo, pitch_offset: w.pitch_offset, boards: Map::empty() },
                current: None,
            });
            assert(wtn_run(header_lines(w), wtn_initial(), 0) == Ok::<
                WtnParseState,
                crate::wooting::wtn::WtnError,
            >(WtnParseState {
                model: WtnModel { edo: w.edo, pitch_offset: w.pitch_offset, boards: Map::empty() },
                current: None,
            }));
        },
        None => {
            lemma_header_step(wtn_initial(), "PitchOffset"@, w.pitch_offset as int, 1);
            let ls = header_lines(w);
            assert(ls =~= seq![po]);
            assert(ls.drop_first() =~= Seq::<Seq<char>>::empty());
            let s1 = WtnParseState {
                model: WtnModel { edo: None, pitch_offset: w.pitch_offset, boards: Map::empty() },
                current: None,
            };
            assert(wtn_step(wtn_initial(), ls[0], 1) == Ok::<
                WtnParseState,
                crate::wooting::wtn::WtnError,
            >(s1));
            assert(wtn_run(ls.drop_first(), s1, 1) == Ok::<
                WtnParseState,
                crate::wooting::wtn::WtnError,
            >(s1));
        },
    }
}

spec fn lines_ok(ls: Seq<Seq<char>>) -> bool {
    forall|i: int| 0 <= i < ls.len() ==> no_line_break(#[trigger] ls[i])
}

proof fn lemma_lines_ok_concat(a: Seq<Seq<char>>, b: Seq<Seq<char>>)
    requires
        lines_ok(a),
        lines_ok(b),
    ensures
        lines_ok(a + b),
{
    assert forall|i: int| 0 <= i < (a + b).len() implies no_line_break(#[trigger] (a + b)[i]) by {
        if i < a.len() {
            assert((a + b)[i] == a[i]);
        } else {
            assert((a + b)[i] == b[i - a.len()]);
        }
    }
}

proof fn lemma_nlb_concat(a: Seq<char>, b: Seq<char>)
    requires
        no_line_break(a),
        no_line_break(b),
    ensures
        no_line_break(a + b),
{
    assert forall|k: int| 0 <= k < (a + b).len() implies #[trigger] (a + b)[k] != '\n' && (a
        + b)[k] != '\r' by {
        if k < a.len() {
            assert((a + b)[k] == a[k]);
        } else {
            assert((a + b)[k] == b[k - a.len()]);
        }
    }
}

proof fn lemma_nlb_alnum(a: Seq<char>)
    requires
        all_alnum(a),
    ensures
        no_line_break(a),
{
    assert forall|k: int| 0 <= k < a.len() implies #[trigger] a[k] != '\n' && a[k] != '\r' by {
        assert(alnum(a[k]));
    }
}

proof fn lemma_nlb_signed(e: int)
    ensures
        no_line_break(dec_signed(e)),
{
    lemma_dec_signed_chars(e);
}

proof fn lemma_entry_nlb(name: Seq<char>, i: nat, value: Seq<char>)
    requires
        all_alnum(name),
        all_alnum(value),
    ensures
        no_line_break(entry_line(name, i, value)),
{
    lemma_dec_digits_parse(i);
    lemma_digits_alnum(dec_digits(i));
    lemma_nlb_alnum(name);
    lemma_nlb_alnum(value);
    lemma_nlb_alnum(dec_digits(i));
    lemma_nlb_concat(name, seq!['_']);
    lemma_nlb_concat(name + seq!['_'], dec_digits(i));
    lemma_nlb_concat(name + seq!['_'] + dec_digits(i), seq!['=']);
    lemma_nlb_concat(name + seq!['_'] + dec_digits(i) + seq!['='], value);
}

proof fn lemma_cells_lines_ok(cells: Seq<WtnCell>)
    ensures
        lines_ok(cells_lines(cells)),
    decreases cells.len(),
{
    if cells.len() > 0 {
        lemma_cells_lines_ok(cells.drop_last());
        let c = cells.last();
        let i = (cells.len() - 1) as nat;
        lemma_literals();
        lemma_dec_digits_parse(c.key as nat);
        lemma_digits_alnum(dec_digits(c.key as nat));
        lemma_dec_digits_parse(c.chan as nat);
        lemma_digits_alnum(dec_digits(c.chan as nat));
        let hx = hex2(c.color.0) + hex2(c.color.1) + hex2(c.color.2);
        lemma_hex2_alnum(c.color.0);
        lemma_hex2_alnum(c.color.1);
        lemma_hex2_alnum(c.color.2);
        assert(all_alnum(hx)) by {
            assert forall|k: int| 0 <= k < hx.len() implies alnum(#[trigger] hx[k]) by {
                if k < 2 {
                    assert(hx[k] == hex2(c.color.0)[k]);
                } else if k < 4 {
                    assert(hx[k] == hex2(c.color.1)[k - 2]);
                } else {
                    assert(hx[k] == hex2(c.color.2)[k - 4]);
                }
            }
        }
        lemma_entry_nlb("Key"@, i, dec_digits(c.key as nat));
        lemma_entry_nlb("Chan"@, i, dec_digits(c.chan as nat));
        lemma_entry_nlb("Col"@, i, hx);
        let cl = cell_lines(i, c);
        assert(lines_ok(cl)) by {
            assert forall|q: int| 0 <= q < cl.len() implies no_line_break(#[trigger] cl[q]) by {
                if q == 0 {
                } else if q == 1 {
                } else {
                }
            }
        }
        lemma_lines_ok_concat(cells_lines(cells.drop_last()), cl);
    }
}

proof fn lemma_section_nlb(b: u8)
    ensures
        no_line_break(section_line(b)),
{
    reveal_strlit("[Board");
    lemma_dec_digits_parse(b as nat);
    lemma_digits_alnum(dec_digits(b as nat));
    lemma_nlb_alnum(dec_digits(b as nat));
    assert(no_line_break("[Board"@));
    lemma_nlb_concat("[Board"@, dec_digits(b as nat));
    lemma_nlb_concat("[Board"@ + dec_digits(b as nat), seq![']']);
}

proof fn lemma_boards_lines_ok(m: Map<u8, Seq<WtnCell>>, k: nat)
    ensures
        lines_ok(boards_lines(m, k)),
    decreases k,
{
    if k > 0 {
        lemma_boards_lines_ok(m, (k - 1) as nat);
        let b = (k - 1) as u8;
        if m.contains_key(b) {
            lemma_section_nlb(b);
            lemma_cells_lines_ok(m[b]);
            let head = seq![Seq::<char>::empty(), section_line(b)];
            assert(lines_ok(head)) by {
                assert forall|q: int| 0 <= q < head.len() implies no_line_break(#[trigger] head[q]) by {
                    if q == 0 {
                    } else {
                    }
                }
            }
            lemma_lines_ok_concat(head, cells_lines(m[b]));
            lemma_lines_ok_concat(boards_lines(m, (k - 1) as nat), board_lines(b, m[b]));
        } else {
            assert(boards_lines(m, k) =~= boards_lines(m, (k - 1) as nat));
        }
    }
}

proof fn lemma_header_lines_ok(w: WtnModel)
    ensures
        lines_ok(header_lines(w)),
{
    reveal_strlit("Edo=");
    reveal_strlit("PitchOffset=");
    assert(no_line_break("Edo="@));
    assert(no_line_break("PitchOffset="@));
    lemma_nlb_signed(w.pitch_offset as int);
    lemma_nlb_concat("PitchOffset="@, dec_signed(w.pitch_offset as int));
    let po = "PitchOffset="@ + dec_signed(w.pitch_offset as int);
    match w.edo {
        Some(e) => {
            lemma_nlb_signed(e as int);
            lemma_nlb_concat("Edo="@, dec_signed(e as int));
            let ls = header_lines(w);
            assert(ls =~= seq!["Edo="@ + dec_signed(e as int), po]);
            assert forall|q: int| 0 <= q < ls.len() implies no_line_break(#[trigger] ls[q]) by {
                if q == 0 {
                } else {
                }
            }
        },
        None => {
            let ls = header_lines(w);
            assert(ls =~= seq![po]);
        },
    }
}

/// Reading back what `write_wtn` writes gives the same layout: for every
/// layout whose boards have 56 cells each, `parse_wtn` of the text
/// `write_wtn` produces succeeds with the same `Edo`, `PitchOffset` and
/// boards.
pub proof fn lemma_wtn_round_trip(w: WtnModel)
    requires
        forall|b: u8| #[trigger] w.boards.contains_key(b) ==> w.boards[b].len() == 56,
    ensures
        parse_wtn_spec(join_lines(wtn_text_lines(w))) == Ok::<
            WtnModel,
            crate::wooting::wtn::WtnError,
        >(w),
{
    let h = header_lines(w);
    let bl = boards_lines(w.boards, 256);
    lemma_header_lines_ok(w);
    lemma_boards_lines_ok(w.boards, 256);
    lemma_lines_ok_concat(h, bl);
    lemma_lines_join(h + bl);
    lemma_run_concat(h, bl, wtn_initial(), 0);
    lemma_header_run(w);
    let s = WtnParseState {
        model: WtnModel { edo: w.edo, pitch_offset: w.pitch_offset, boards: Map::empty() },
        current: None,
    };
    lemma_boards_run(w.boards, 256, s, h.len() as int);
    assert(restrict(w.boards, 256) =~= w.boards);
    let r = wtn_run(bl, s, h.len() as int)->Ok_0;
    assert(r.model == w);
}

} // verus!
