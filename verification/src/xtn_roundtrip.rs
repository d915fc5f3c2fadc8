//! Reading back what `write_xtn_layout` writes gives the layout again.
use vstd::prelude::*;

use crate::exquis::proto::{
    from_hex_bytes, from_hex_spec, hex_byte_value, hex_pair, hex_rgb, is_hex_byte, scale_to_7bit,
    strip_leading_byte, Color, ColorError,
};
use crate::edit_roundtrip::{
    all_alnum, alnum, distinct_ints, header_text, ints_below, lemma_dec_signed_chars, lemma_digits_alnum,
    lemma_entry_nlb, lemma_entry_syntax, lemma_header_is_bracketed, lemma_lines_ok_concat,
    lemma_literals, lemma_name_order_indices, lemma_nlb_alnum, lemma_nlb_concat, lines_ok,
    name_reads_back, no_outer_space, plain_name, lemma_plain_name_reads_back,
};
use crate::num::{
    dec_digits, dec_signed, hex2, hex_char, is_digit, lemma_dec_digits_parse, lemma_dec_signed_parse,
    parse_i32_spec,
};
use crate::text::{
    is_ws, join_lines, lemma_lines_join, lemma_split_once_at, lemma_trim_id, no_line_break,
    split_once, trim,
};
use crate::wooting::wtn::entry_line;
use crate::xtn::{
    board_order, finish_pads, is_first_named, name_order, pad_field, pad_lines, pads_lines,
    parse_xtn_spec, raw_pad, to8, xtn_board_lines, xtn_boards_lines, xtn_header, xtn_header_lines,
    xtn_initial, xtn_run, xtn_step, xtn_text_lines, PadEntry, RawPad, XtnError, XtnModel, XtnState,
};

verus! {

/// Writing a 7-bit channel as 8 bits and reading it back gives it again.
pub proof fn lemma_channel_round_trip(v: u8)
    requires
        v <= 127,
    ensures
        to8(v) as int == (v * 255 + 63) / 127,
        scale_to_7bit(to8(v) as int) == v,
{
    let x: u32 = v as u32;
    assert((x * 255 + 63) / 127 <= 255) by (bit_vector)
        requires x <= 127;
    assert((((x * 255 + 63) / 127) * 127 + 127) / 255 == x) by (bit_vector)
        requires x <= 127;
}

proof fn lemma_hex_char_facts(d: int)
    requires
        0 <= d < 16,
    ensures
        alnum(hex_char(d)),
        (hex_char(d) as u32) < 128,
        is_hex_byte(hex_char(d) as u8),
        hex_byte_value(hex_char(d) as u8) == d,
        hex_char(d) != '#',
{
}

pub(crate) proof fn lemma_hex2_alnum(b: u8)
    ensures
        all_alnum(hex2(b)),
        hex2(b).len() == 2,
{
    lemma_hex_char_facts(b as int / 16);
    lemma_hex_char_facts(b as int % 16);
}

/// The colour text written for a 7-bit colour.
pub open spec fn color_text(c: Color) -> Seq<char> {
    hex2(to8(c.red)) + hex2(to8(c.green)) + hex2(to8(c.blue))
}

/// A colour of 7-bit channels.
pub open spec fn seven_bit(c: Color) -> bool {
    c.red <= 127 && c.green <= 127 && c.blue <= 127
}

/// Reading the colour text written for a 7-bit colour gives it back.
pub(crate) proof fn lemma_color_text_round_trip(c: Color)
    requires
        seven_bit(c),
    ensures
        from_hex_spec(color_text(c)) == Ok::<Color, ColorError>(c),
        all_alnum(color_text(c)),
        color_text(c).len() == 6,
{
    lemma_channel_round_trip(c.red);
    lemma_channel_round_trip(c.green);
    lemma_channel_round_trip(c.blue);
    let (r, g, b) = (to8(c.red), to8(c.green), to8(c.blue));
    let v = color_text(c);
    lemma_hex2_alnum(r);
    lemma_hex2_alnum(g);
    lemma_hex2_alnum(b);
    lemma_hex_char_facts(r as int / 16);
    lemma_hex_char_facts(r as int % 16);
    lemma_hex_char_facts(g as int / 16);
    lemma_hex_char_facts(g as int % 16);
    lemma_hex_char_facts(b as int / 16);
    lemma_hex_char_facts(b as int % 16);
    assert(v.len() == 6);
    assert(all_alnum(v)) by {
        assert forall|k: int| 0 <= k < v.len() implies alnum(#[trigger] v[k]) by {
            if k < 2 {
                assert(v[k] == hex2(r)[k]);
            } else if k < 4 {
                assert(v[k] == hex2(g)[k - 2]);
            } else {
                assert(v[k] == hex2(b)[k - 4]);
            }
        }
    }
    assert(alnum(v[0]));
    assert(alnum(v[5]));
    lemma_trim_id(v);
    assert(vstd::utf8::is_ascii_chars(v));
    vstd::utf8::is_ascii_chars_encode_utf8(v);
    let t = vstd::utf8::encode_utf8(v);
    assert(t.len() == 6);
    assert(t[0] == v[0] as u8);
    assert(t[0] != 0x23);
    assert(strip_leading_byte(t, 0x23) == t);
    assert(t[2] == v[2] as u8);
    assert(t[4] == v[4] as u8);
    assert(hex_pair(t[0], t[1]) == Some(r as int));
    assert(hex_pair(t[2], t[3]) == Some(g as int));
    assert(hex_pair(t[4], t[5]) == Some(b as int));
    assert(hex_rgb(t) == Ok::<(int, int, int), ColorError>((r as int, g as int, b as int)));
    assert(from_hex_bytes(t) == Ok::<Color, ColorError>(c));
}

/// Running two blocks of lines is running the first, then the second.
proof fn lemma_run_concat(a: Seq<Seq<char>>, b: Seq<Seq<char>>, st: XtnState, base: int)
    ensures
        xtn_run(a + b, st, base) == match xtn_run(a, st, base) {
            Ok(st2) => xtn_run(b, st2, base + a.len()),
            Err(e) => Err(e),
        },
    decreases a.len(),
{
    if a.len() == 0 {
        assert(a + b =~= b);
    } else {
        assert((a + b)[0] == a[0]);
        assert((a + b).drop_first() =~= a.drop_first() + b);
        match xtn_step(st, a[0], base + 1) {
            Ok(st2) => {
                lemma_run_concat(a.drop_first(), b, st2, base + 1);
            },
            Err(e) => {},
        }
    }
}

spec fn with_raw(st: XtnState, b: int, idx: u8, e: RawPad) -> XtnState {
    XtnState { boards: st.boards.update(b, (st.boards[b].0, st.boards[b].1.insert(idx, e))), ..st }
}

/// An entry line is read as its key and value.
#[verifier::rlimit(40)]
proof fn lemma_entry_line_kv(st: XtnState, name: Seq<char>, i: nat, value: Seq<char>, n: int)
    requires
        name.len() > 0,
        all_alnum(name),
        !('0' <= name[0] && name[0] <= '9'),
        no_outer_space(value),
        i <= 127,
    ensures
        xtn_step(st, entry_line(name, i, value), n) == crate::xtn::xtn_key_value(
            st, name + seq!['_'] + dec_digits(i), value, n),
{
    lemma_entry_syntax(name, i, value);
    reveal(xtn_step);
}

/// An entry `name_i=value` read in a section updates that pad's field.
#[verifier::rlimit(40)]
proof fn lemma_entry_step(st: XtnState, b: int, name: Seq<char>, i: nat, value: Seq<char>, n: int)
    requires
        st.current == Some(b),
        name.len() > 0,
        all_alnum(name),
        !('0' <= name[0] && name[0] <= '9'),
        no_outer_space(value),
        i <= 127,
        pad_field(name, value, raw_pad(st.boards[b].1, i as u8)) is Ok,
    ensures
        xtn_step(st, entry_line(name, i, value), n) == Ok::<XtnState, XtnError>(
            with_raw(st, b, i as u8, pad_field(name, value, raw_pad(st.boards[b].1, i as u8))->Ok_0),
        ),
{
    lemma_entry_syntax(name, i, value);
    lemma_entry_line_kv(st, name, i, value, n);
}

proof fn lemma_key_field(v: u8, e: RawPad)
    ensures
        pad_field("Key"@, dec_digits(v as nat), e) == Ok::<RawPad, crate::xtn::XtnErrorKind>((Some(v), e.1, e.2)),
{
    reveal(pad_field);
    lemma_dec_digits_parse(v as nat);
}

proof fn lemma_chan_field(v: u8, e: RawPad)
    ensures
        pad_field("Chan"@, dec_digits(v as nat), e) == Ok::<RawPad, crate::xtn::XtnErrorKind>((e.0, Some(v), e.2)),
{
    reveal(pad_field);
    lemma_literals();
    lemma_dec_digits_parse(v as nat);
}

proof fn lemma_col_field(c: Color, e: RawPad)
    requires
        seven_bit(c),
    ensures
        pad_field("Col"@, color_text(c), e) == Ok::<RawPad, crate::xtn::XtnErrorKind>((e.0, e.1, Some(c))),
{
    reveal(pad_field);
    lemma_literals();
    lemma_color_text_round_trip(c);
}

proof fn lemma_digits_value(v: u8)
    ensures
        no_outer_space(dec_digits(v as nat)),
        crate::num::parse_bounded(dec_digits(v as nat), 255) == Some(v as int),
{
    lemma_dec_digits_parse(v as nat);
    assert(is_digit(dec_digits(v as nat)[0]));
    assert(is_digit(dec_digits(v as nat).last()));
}

/// The three lines of a pad set all three of its fields.
proof fn lemma_pad_run(st: XtnState, b: int, i: nat, p: PadEntry, base: int)
    requires
        st.current == Some(b),
        0 <= b < st.boards.len(),
        i <= 127,
        seven_bit(p.color),
    ensures
        xtn_run(pad_lines(i, p), st, base) == Ok::<XtnState, XtnError>(
            with_raw(st, b, i as u8, (Some(p.key), Some(p.chan), Some(p.color))),
        ),
{
    let idx = i as u8;
    let ls = pad_lines(i, p);
    lemma_literals();
    lemma_digits_value(p.key);
    lemma_digits_value(p.chan);
    lemma_color_text_round_trip(p.color);
    let ct = color_text(p.color);
    assert(ct[0] == hex2(to8(p.color.red))[0]);
    assert(alnum(ct[0]) && alnum(ct[5]));
    assert(ct.last() == ct[5]);
    assert(no_outer_space(ct));
    let e0 = raw_pad(st.boards[b].1, idx);
    lemma_key_field(p.key, e0);
    lemma_entry_step(st, b, "Key"@, i, dec_digits(p.key as nat), base + 1);
    let st1 = with_raw(st, b, idx, (Some(p.key), e0.1, e0.2));
    assert(raw_pad(st1.boards[b].1, idx) == (Some(p.key), e0.1, e0.2));
    lemma_chan_field(p.chan, (Some(p.key), e0.1, e0.2));
    lemma_entry_step(st1, b, "Chan"@, i, dec_digits(p.chan as nat), base + 2);
    let st2 = with_raw(st1, b, idx, (Some(p.key), Some(p.chan), e0.2));
    assert(raw_pad(st2.boards[b].1, idx) == (Some(p.key), Some(p.chan), e0.2));
    assert(ls[2] == entry_line("Col"@, i, ct));
    lemma_col_field(p.color, (Some(p.key), Some(p.chan), e0.2));
    lemma_entry_step(st2, b, "Col"@, i, ct, base + 3);
    let fin = (Some(p.key), Some(p.chan), Some(p.color));
    let st3 = with_raw(st2, b, idx, fin);
    assert(st3.boards =~= with_raw(st, b, idx, fin).boards) by {
        assert(st2.boards[b].1 =~= st1.boards[b].1.insert(idx, (Some(p.key), Some(p.chan), e0.2)));
        assert(st1.boards[b].1 =~= st.boards[b].1.insert(idx, (Some(p.key), e0.1, e0.2)));
        assert(st3.boards[b].1 =~= st.boards[b].1.insert(idx, fin));
    }
    assert(st3 == with_raw(st, b, idx, fin));
    assert(ls.drop_first()[0] == ls[1]);
    assert(ls.drop_first().drop_first()[0] == ls[2]);
    assert(ls.drop_first().drop_first().drop_first() =~= Seq::<Seq<char>>::empty());
    assert(xtn_run(ls.drop_first().drop_first().drop_first(), st3, base + 3) == Ok::<XtnState, XtnError>(st3));
    assert(xtn_run(ls.drop_first().drop_first(), st2, base + 2) == Ok::<XtnState, XtnError>(st3));
    assert(xtn_run(ls.drop_first(), st1, base + 1) == Ok::<XtnState, XtnError>(st3));
}

/// Pads the writer and reader agree on: numbered up to 127, 7-bit colours.
pub open spec fn pads_read_back(pads: Map<u8, PadEntry>) -> bool {
    forall|i: u8| #[trigger] pads.contains_key(i) ==> i <= 127 && seven_bit(pads[i].color)
}

spec fn raw_pads(pads: Map<u8, PadEntry>, k: nat) -> Map<u8, RawPad> {
    Map::new(|i: u8| i < k && pads.contains_key(i), |i: u8| (Some(pads[i].key), Some(pads[i].chan), Some(pads[i].color)))
}

spec fn with_pads(st: XtnState, b: int, m: Map<u8, RawPad>) -> XtnState {
    XtnState { boards: st.boards.update(b, (st.boards[b].0, m)), ..st }
}

proof fn lemma_pads_run(st: XtnState, b: int, pads: Map<u8, PadEntry>, k: nat, base: int)
    requires
        st.current == Some(b),
        0 <= b < st.boards.len(),
        st.boards[b].1 == Map::<u8, RawPad>::empty(),
        pads_read_back(pads),
        k <= 256,
    ensures
        xtn_run(pads_lines(pads, k), st, base) == Ok::<XtnState, XtnError>(with_pads(st, b, raw_pads(pads, k))),
    decreases k,
{
    if k == 0 {
        assert(raw_pads(pads, 0) =~= Map::<u8, RawPad>::empty());
        assert(st.boards.update(b, (st.boards[b].0, raw_pads(pads, 0))) =~= st.boards);
        assert(with_pads(st, b, raw_pads(pads, 0)) == st);
    } else {
        let i = (k - 1) as nat;
        let idx = i as u8;
        let pre = pads_lines(pads, i);
        let tail = if pads.contains_key(idx) { pad_lines(i, pads[idx]) } else { Seq::empty() };
        assert(pads_lines(pads, k) == pre + tail);
        lemma_pads_run(st, b, pads, i, base);
        lemma_run_concat(pre, tail, st, base);
        let s = with_pads(st, b, raw_pads(pads, i));
        if pads.contains_key(idx) {
            lemma_pad_run(s, b, i, pads[idx], base + pre.len());
            assert(raw_pads(pads, i).insert(idx, (Some(pads[idx].key), Some(pads[idx].chan), Some(pads[idx].color)))
                =~= raw_pads(pads, k));
            assert(with_raw(s, b, idx, (Some(pads[idx].key), Some(pads[idx].chan), Some(pads[idx].color))).boards
                =~= with_pads(st, b, raw_pads(pads, k)).boards);
        } else {
            assert(raw_pads(pads, i) =~= raw_pads(pads, k));
            assert(tail =~= Seq::<Seq<char>>::empty());
        }
    }
}

/// A section line for a name not yet seen starts a new, empty board.
proof fn lemma_section_step(st: XtnState, name: Seq<char>, n: int)
    requires
        name_reads_back(name),
        forall|j: int| 0 <= j < st.boards.len() ==> #[trigger] st.boards[j].0 != name,
    ensures
        xtn_step(st, xtn_header(name), n) == Ok::<XtnState, XtnError>(XtnState {
            current: Some(st.boards.len() as int),
            boards: st.boards.push((name, Map::<u8, RawPad>::empty())),
            ..st
        }),
{
    reveal(xtn_step);
    let h = header_text(name);
    let l = xtn_header(name);
    lemma_header_is_bracketed(name);
    assert(l[0] == '[');
    assert(l.last() == ']');
    lemma_trim_id(l);
    assert(l.subrange(1, l.len() - 1) =~= h);
    if h.len() > 0 {
        lemma_trim_id(h);
    } else {
        assert(trim(h) =~= h);
    }
    assert(!(exists|i: int| is_first_named(st.boards, name, i)));
}

proof fn lemma_empty_step(st: XtnState, n: int)
    ensures
        xtn_step(st, Seq::empty(), n) == Ok::<XtnState, XtnError>(st),
{
    reveal(xtn_step);
    assert(trim(Seq::<char>::empty()) =~= Seq::<char>::empty());
}

/// The lines of one board, read after boards of other names, add it.
proof fn lemma_board_run(st: XtnState, b: (Seq<char>, Map<u8, PadEntry>), base: int)
    requires
        name_reads_back(b.0),
        pads_read_back(b.1),
        forall|j: int| 0 <= j < st.boards.len() ==> #[trigger] st.boards[j].0 != b.0,
    ensures
        xtn_run(xtn_board_lines(b), st, base) == Ok::<XtnState, XtnError>(XtnState {
            current: Some(st.boards.len() as int),
            boards: st.boards.push((b.0, raw_pads(b.1, 256))),
            ..st
        }),
{
    let head = seq![Seq::<char>::empty(), xtn_header(b.0)];
    lemma_run_concat(head, pads_lines(b.1, 256), st, base);
    lemma_empty_step(st, base + 1);
    lemma_section_step(st, b.0, base + 2);
    let s1 = XtnState {
        current: Some(st.boards.len() as int),
        boards: st.boards.push((b.0, Map::<u8, RawPad>::empty())),
        ..st
    };
    assert(head[0] == Seq::<char>::empty());
    assert(head.drop_first()[0] == xtn_header(b.0));
    assert(head.drop_first().drop_first() =~= Seq::<Seq<char>>::empty());
    assert(xtn_run(head.drop_first().drop_first(), s1, base + 2) == Ok::<XtnState, XtnError>(s1));
    assert(xtn_run(head.drop_first(), st, base + 1) == Ok::<XtnState, XtnError>(s1));
    assert(xtn_run(head, st, base) == Ok::<XtnState, XtnError>(s1));
    lemma_pads_run(s1, st.boards.len() as int, b.1, 256, base + 2);
    assert(s1.boards.update(st.boards.len() as int, (b.0, raw_pads(b.1, 256))) =~= st.boards.push((b.0, raw_pads(b.1, 256))));
}

/// Every board of the layout reads back, and no two share a name.
pub open spec fn xtn_boards_read_back(bs: Seq<(Seq<char>, Map<u8, PadEntry>)>) -> bool {
    &&& forall|i: int| 0 <= i < bs.len() ==> name_reads_back(#[trigger] bs[i].0) && pads_read_back(bs[i].1)
    &&& forall|i: int, j: int| 0 <= i < j < bs.len() ==> bs[i].0 != bs[j].0
}

spec fn raw_picked(bs: Seq<(Seq<char>, Map<u8, PadEntry>)>, order: Seq<int>) -> Seq<(Seq<char>, Map<u8, RawPad>)> {
    order.map_values(|i: int| (bs[i].0, raw_pads(bs[i].1, 256)))
}

proof fn lemma_boards_run(bs: Seq<(Seq<char>, Map<u8, PadEntry>)>, order: Seq<int>, st: XtnState, base: int)
    requires
        xtn_boards_read_back(bs),
        distinct_ints(order),
        ints_below(order, bs.len() as int),
        st.boards == Seq::<(Seq<char>, Map<u8, RawPad>)>::empty(),
    ensures
        xtn_run(xtn_boards_lines(bs, order), st, base) == Ok::<XtnState, XtnError>(XtnState {
            current: if order.len() > 0 { Some(order.len() - 1) } else { st.current },
            boards: raw_picked(bs, order),
            ..st
        }),
    decreases order.len(),
{
    if order.len() == 0 {
        assert(raw_picked(bs, order) =~= st.boards);
    } else {
        let o2 = order.drop_last();
        let x = order.last();
        let b = bs[x];
        assert(distinct_ints(o2)) by {
            assert forall|a: int, c: int| 0 <= a < c < o2.len() implies o2[a] != o2[c] by {
                assert(o2[a] == order[a] && o2[c] == order[c]);
            }
        }
        assert(ints_below(o2, bs.len() as int)) by {
            assert forall|a: int| 0 <= a < o2.len() implies 0 <= #[trigger] o2[a] < bs.len() by {
                assert(o2[a] == order[a]);
            }
        }
        lemma_boards_run(bs, o2, st, base);
        let pre = xtn_boards_lines(bs, o2);
        lemma_run_concat(pre, xtn_board_lines(b), st, base);
        let s = XtnState {
            current: if o2.len() > 0 { Some(o2.len() - 1) } else { st.current },
            boards: raw_picked(bs, o2),
            ..st
        };
        assert(0 <= x < bs.len());
        assert forall|j: int| 0 <= j < s.boards.len() implies #[trigger] s.boards[j].0 != b.0 by {
            assert(s.boards[j].0 == bs[o2[j]].0);
            assert(o2[j] == order[j]);
            assert(order[j] != order[order.len() - 1]);
            assert(0 <= order[j] < bs.len());
            if order[j] < x {
                assert(bs[order[j]].0 != bs[x].0);
            } else {
                assert(bs[x].0 != bs[order[j]].0);
            }
        }
        lemma_board_run(s, b, base + pre.len());
        assert(raw_picked(bs, o2).push((b.0, raw_pads(b.1, 256))) =~= raw_picked(bs, order));
    }
}

/// A header line `name=value` read before any section.
proof fn lemma_header_step(st: XtnState, name: Seq<char>, e: int, n: int)
    requires
        st.current is None,
        name == "Edo"@ || name == "PitchOffset"@,
        i32::MIN <= e <= i32::MAX,
    ensures
        xtn_step(st, name + seq!['='] + dec_signed(e), n) == Ok::<XtnState, XtnError>(
            if name == "Edo"@ {
                XtnState { edo: Some(e as i32), ..st }
            } else {
                XtnState { pitch_offset: e as i32, ..st }
            },
        ),
{
    reveal(xtn_step);
    reveal_strlit("Edo");
    reveal_strlit("PitchOffset");
    assert("Edo"@ != "PitchOffset"@) by {
        assert("Edo"@.len() != "PitchOffset"@.len());
    }
    let v = dec_signed(e);
    lemma_dec_signed_chars(e);
    lemma_dec_signed_parse(e);
    let l = name + seq!['='] + v;
    assert(l[0] == name[0]);
    assert(l.last() == v.last());
    lemma_trim_id(l);
    assert forall|q: int| 0 <= q < name.len() implies name[q] != '=' by {}
    lemma_split_once_at(l, '=', name.len() as int);
    assert(l.take(name.len() as int) =~= name);
    assert(l.skip(name.len() as int + 1) =~= v);
    lemma_trim_id(name);
    lemma_trim_id(v);
    assert(parse_i32_spec(v) == Some(e));
}

proof fn lemma_header_run(m: XtnModel)
    ensures
        xtn_run(xtn_header_lines(m), xtn_initial(), 0) == Ok::<XtnState, XtnError>(XtnState {
            edo: m.edo,
            pitch_offset: m.pitch_offset,
            current: None,
            boards: Seq::empty(),
        }),
{
    reveal_strlit("Edo=");
    reveal_strlit("Edo");
    reveal_strlit("PitchOffset=");
    reveal_strlit("PitchOffset");
    assert("Edo="@ =~= "Edo"@ + seq!['=']);
    assert("PitchOffset="@ =~= "PitchOffset"@ + seq!['=']);
    let po = "PitchOffset="@ + dec_signed(m.pitch_offset as int);
    assert(po =~= "PitchOffset"@ + seq!['='] + dec_signed(m.pitch_offset as int));
    let fin = XtnState { edo: m.edo, pitch_offset: m.pitch_offset, current: None, boards: Seq::empty() };
    let tail = seq![po];
    let s0 = XtnState { edo: m.edo, ..xtn_initial() };
    assert(tail[0] == po);
    assert(tail.drop_first() =~= Seq::<Seq<char>>::empty());
    match m.edo {
        Some(e) => {
            let el = "Edo="@ + dec_signed(e as int);
            assert(el =~= "Edo"@ + seq!['='] + dec_signed(e as int));
            lemma_header_step(xtn_initial(), "Edo"@, e as int, 1);
            lemma_header_step(s0, "PitchOffset"@, m.pitch_offset as int, 2);
            let ls = xtn_header_lines(m);
            assert(ls =~= seq![el] + tail);
            lemma_run_concat(seq![el], tail, xtn_initial(), 0);
            assert(seq![el][0] == el);
            assert(seq![el].drop_first() =~= Seq::<Seq<char>>::empty());
            assert(xtn_run(seq![el].drop_first(), s0, 1) == Ok::<XtnState, XtnError>(s0));
            assert(xtn_run(seq![el], xtn_initial(), 0) == Ok::<XtnState, XtnError>(s0));
            assert(xtn_run(tail.drop_first(), fin, 2) == Ok::<XtnState, XtnError>(fin));
            assert(xtn_run(tail, s0, 1) == Ok::<XtnState, XtnError>(fin));
        },
        None => {
            assert(s0 == xtn_initial());
            lemma_header_step(s0, "PitchOffset"@, m.pitch_offset as int, 1);
            let ls = xtn_header_lines(m);
            assert(ls =~= tail);
            assert(xtn_run(tail.drop_first(), fin, 1) == Ok::<XtnState, XtnError>(fin));
        },
    }
}

proof fn lemma_pads_lines_ok(pads: Map<u8, PadEntry>, k: nat)
    requires
        pads_read_back(pads),
    ensures
        lines_ok(pads_lines(pads, k)),
    decreases k,
{
    if k > 0 {
        let i = (k - 1) as nat;
        lemma_pads_lines_ok(pads, i);
        if pads.contains_key(i as u8) {
            let p = pads[i as u8];
            lemma_literals();
            lemma_dec_digits_parse(p.key as nat);
            lemma_digits_alnum(dec_digits(p.key as nat));
            lemma_nlb_alnum(dec_digits(p.key as nat));
            lemma_dec_digits_parse(p.chan as nat);
            lemma_digits_alnum(dec_digits(p.chan as nat));
            lemma_nlb_alnum(dec_digits(p.chan as nat));
            lemma_color_text_round_trip(p.color);
            lemma_nlb_alnum(color_text(p.color));
            lemma_entry_nlb("Key"@, i, dec_digits(p.key as nat));
            lemma_entry_nlb("Chan"@, i, dec_digits(p.chan as nat));
            lemma_entry_nlb("Col"@, i, color_text(p.color));
            let pl = pad_lines(i, p);
            assert(lines_ok(pl)) by {
                assert forall|q: int| 0 <= q < pl.len() implies no_line_break(#[trigger] pl[q]) by {
                    if q == 0 {
                    } else if q == 1 {
                    } else {
                    }
                }
            }
            lemma_lines_ok_concat(pads_lines(pads, i), pl);
        } else {
            assert(pads_lines(pads, k) =~= pads_lines(pads, i));
        }
    }
}

proof fn lemma_boards_lines_ok(bs: Seq<(Seq<char>, Map<u8, PadEntry>)>, order: Seq<int>)
    requires
        xtn_boards_read_back(bs),
        ints_below(order, bs.len() as int),
    ensures
        lines_ok(xtn_boards_lines(bs, order)),
    decreases order.len(),
{
    if order.len() > 0 {
        let o2 = order.drop_last();
        assert(ints_below(o2, bs.len() as int)) by {
            assert forall|a: int| 0 <= a < o2.len() implies 0 <= #[trigger] o2[a] < bs.len() by {
                assert(o2[a] == order[a]);
            }
        }
        lemma_boards_lines_ok(bs, o2);
        let b = bs[order.last()];
        assert(name_reads_back(b.0) && pads_read_back(b.1));
        lemma_header_is_bracketed(b.0);
        lemma_nlb_concat(seq!['['], header_text(b.0));
        lemma_nlb_concat(seq!['['] + header_text(b.0), seq![']']);
        lemma_pads_lines_ok(b.1, 256);
        let head = seq![Seq::<char>::empty(), xtn_header(b.0)];
        assert(lines_ok(head)) by {
            assert forall|q: int| 0 <= q < head.len() implies no_line_break(#[trigger] head[q]) by {
                if q == 0 {
                } else {
                }
            }
        }
        lemma_lines_ok_concat(head, pads_lines(b.1, 256));
        lemma_lines_ok_concat(xtn_boards_lines(bs, o2), xtn_board_lines(b));
    }
}

proof fn lemma_header_lines_ok(m: XtnModel)
    ensures
        lines_ok(xtn_header_lines(m)),
{
    reveal_strlit("Edo=");
    reveal_strlit("PitchOffset=");
    assert(no_line_break("Edo="@));
    assert(no_line_break("PitchOffset="@));
    lemma_dec_signed_chars(m.pitch_offset as int);
    lemma_nlb_concat("PitchOffset="@, dec_signed(m.pitch_offset as int));
    let ls = xtn_header_lines(m);
    match m.edo {
        Some(e) => {
            lemma_dec_signed_chars(e as int);
            lemma_nlb_concat("Edo="@, dec_signed(e as int));
            assert forall|q: int| 0 <= q < ls.len() implies no_line_break(#[trigger] ls[q]) by {
                if q == 0 {
                } else {
                }
            }
        },
        None => {
            assert forall|q: int| 0 <= q < ls.len() implies no_line_break(#[trigger] ls[q]) by {}
        },
    }
}

/// The boards of a layout in the order `write_xtn_layout` writes them.
pub open spec fn xtn_in_order(bs: Seq<(Seq<char>, Map<u8, PadEntry>)>) -> Seq<(Seq<char>, Map<u8, PadEntry>)> {
    board_order(bs, bs.len() as int).map_values(|i: int| bs[i])
}

/// Reading back what `write_xtn_layout` writes gives the layout again: for
/// a layout whose boards have distinct names that read back (their
/// bracketed text lower-cases to the name and has no outer space or line
/// break) and whose pads are numbered up to 127 with 7-bit colours,
/// `parse_xtn` of the text succeeds with the same `Edo`, `PitchOffset` and
/// boards, in the order they are written (by board number, then by name),
/// every key, channel and colour unchanged: the 8-bit colour text read
/// back scales to the 7-bit colour it was written from.
pub proof fn lemma_xtn_round_trip(m: XtnModel)
    requires
        xtn_boards_read_back(m.boards),
    ensures
        parse_xtn_spec(join_lines(xtn_text_lines(m))) == Ok::<XtnModel, XtnError>(XtnModel {
            edo: m.edo,
            pitch_offset: m.pitch_offset,
            boards: xtn_in_order(m.boards),
        }),
{
    let names = m.boards.map_values(|b: (Seq<char>, Map<u8, PadEntry>)| b.0);
    let order = board_order(m.boards, m.boards.len() as int);
    assert(order == name_order(names, m.boards.len() as int));
    lemma_name_order_indices(names, m.boards.len() as int);
    let h = xtn_header_lines(m);
    let bl = xtn_boards_lines(m.boards, order);
    assert(xtn_text_lines(m) == h + bl);
    lemma_header_lines_ok(m);
    lemma_boards_lines_ok(m.boards, order);
    lemma_lines_ok_concat(h, bl);
    lemma_lines_join(h + bl);
    lemma_run_concat(h, bl, xtn_initial(), 0);
    lemma_header_run(m);
    let s = XtnState { edo: m.edo, pitch_offset: m.pitch_offset, current: None, boards: Seq::empty() };
    lemma_boards_run(m.boards, order, s, h.len() as int);
    let fin = xtn_run(bl, s, h.len() as int)->Ok_0;
    let got = crate::xtn::finish_model(fin);
    assert forall|j: int| 0 <= j < order.len() implies finish_pads(raw_pads(m.boards[#[trigger] order[j]].1, 256))
        =~= m.boards[order[j]].1 by {
        let pads = m.boards[order[j]].1;
        assert(0 <= order[j] < m.boards.len());
        assert(pads_read_back(pads));
        assert forall|q: u8| #[trigger] pads.contains_key(q) implies finish_pads(raw_pads(pads, 256))[q] == pads[q] by {
        }
    }
    assert(got.boards =~= xtn_in_order(m.boards));
}

/// The `.xtn` round trip for layouts whose board names are lower-case
/// ASCII letters and digits (each name once) and whose pads are numbered up
/// to 127 with 7-bit colours: reading the written text gives back the
/// `Edo`, `PitchOffset` and boards, in name order, unchanged.
pub proof fn lemma_xtn_round_trip_plain_names(m: XtnModel)
    requires
        forall|i: int| 0 <= i < m.boards.len() ==> plain_name(#[trigger] m.boards[i].0) && pads_read_back(m.boards[i].1),
        forall|i: int, j: int| 0 <= i < j < m.boards.len() ==> m.boards[i].0 != m.boards[j].0,
    ensures
        parse_xtn_spec(join_lines(xtn_text_lines(m))) == Ok::<XtnModel, XtnError>(XtnModel {
            edo: m.edo,
            pitch_offset: m.pitch_offset,
            boards: xtn_in_order(m.boards),
        }),
{
    assert forall|i: int| 0 <= i < m.boards.len() implies name_reads_back(#[trigger] m.boards[i].0) by {
        lemma_plain_name_reads_back(m.boards[i].0);
    }
    lemma_xtn_round_trip(m);
}

} // verus!
