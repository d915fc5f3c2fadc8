//! Reading back the pad lines the editor writes gives the pads again, their
//! colour texts verbatim.
use vstd::prelude::*;

use crate::edit::{
    col_text, default_pad, dto_boards_lines, dto_initial, dto_pad_entry, dto_pad_lines, dto_pads_lines,
    dto_run, dto_section, dto_step, dto_text_lines, first_named, parse_dto_spec, DtoModel, DtoState,
    DtoStep, PadModel,
};
use crate::xtn::{board_word, ins_name, name_order, xtn_header};
use crate::hud::chordnam::utf8_len;
use crate::num::{
    all_digits, dec_digits, dec_signed, is_digit, lemma_dec_digits_parse, lemma_dec_signed_parse,
    parse_bounded, parse_i32_spec,
};
use crate::text::{
    is_ws, join_lines, lemma_lines_join, lemma_rsplit_once_at, lemma_split_once_at, lemma_trim_id,
    lines, no_line_break, rsplit_once, split_once, starts_with, trim, text_lower, text_upper, unicode_upper, all_ascii, ascii_lower, ascii_upper, lower_char,
};
use crate::wooting::wtn::entry_line;

verus! {

pub(crate) open spec fn alnum(c: char) -> bool {
    ('0' <= c && c <= '9') || ('A' <= c && c <= 'Z') || ('a' <= c && c <= 'z')
}

pub(crate) open spec fn all_alnum(s: Seq<char>) -> bool {
    forall|k: int| 0 <= k < s.len() ==> alnum(#[trigger] s[k])
}

/// A colour text the editor keeps verbatim: already its own upper case,
/// without surrounding whitespace or line breaks, and not eight bytes long
/// (an `AARRGGBB` text loses its alpha on reading).
pub open spec fn verbatim_color(c: Seq<char>) -> bool {
    &&& text_upper(c) == c
    &&& no_outer_space(c)
    &&& no_line_break(c)
    &&& utf8_len(c) != 8
}

/// No whitespace at either end.
pub open spec fn no_outer_space(c: Seq<char>) -> bool {
    c.len() == 0 || (!is_ws(c[0]) && !is_ws(c.last()))
}

/// Pads the editor writes and reads back unchanged: numbers up to 127 and
/// verbatim colour texts.
pub open spec fn verbatim_pads(pads: Map<u8, PadModel>) -> bool {
    forall|i: u8| #[trigger] pads.contains_key(i) ==> i <= 127 && verbatim_color(pads[i].2)
}

pub(crate) proof fn lemma_digits_alnum(s: Seq<char>)
    requires
        all_digits(s),
    ensures
        all_alnum(s),
{
    assert forall|k: int| 0 <= k < s.len() implies alnum(#[trigger] s[k]) by {
        assert(is_digit(s[k]));
    }
}

pub(crate) proof fn lemma_literals()
    ensures
        "Key"@.len() == 3 && all_alnum("Key"@) && !('0' <= "Key"@[0] && "Key"@[0] <= '9'),
        "Chan"@.len() == 4 && all_alnum("Chan"@) && !('0' <= "Chan"@[0] && "Chan"@[0] <= '9'),
        "Col"@.len() == 3 && all_alnum("Col"@) && !('0' <= "Col"@[0] && "Col"@[0] <= '9'),
        "Key"@ != "Chan"@,
        "Key"@ != "Col"@,
        "Chan"@ != "Col"@,
{
    reveal_strlit("Key");
    reveal_strlit("Chan");
    reveal_strlit("Col");
    assert("Key"@[1] != "Col"@[1]);
}

/// Running two blocks of lines is running the first, then the second.
proof fn lemma_run_concat(a: Seq<Seq<char>>, b: Seq<Seq<char>>, st: DtoState, base: int)
    ensures
        dto_run(a + b, st, base) == match dto_run(a, st, base) {
            DtoStep::Next(st2) => dto_run(b, st2, base + a.len()),
            other => other,
        },
    decreases a.len(),
{
    if a.len() == 0 {
        assert(a + b =~= b);
    } else {
        assert((a + b)[0] == a[0]);
        assert((a + b).drop_first() =~= a.drop_first() + b);
        match dto_step(st, a[0], base + 1) {
            DtoStep::Next(st2) => {
                lemma_run_concat(a.drop_first(), b, st2, base + 1);
            },
            _ => {},
        }
    }
}

/// How an entry line `name_i=value` falls apart when read.
#[verifier::rlimit(40)]
pub(crate) proof fn lemma_entry_syntax(name: Seq<char>, i: nat, value: Seq<char>)
    requires
        name.len() > 0,
        all_alnum(name),
        !('0' <= name[0] && name[0] <= '9'),
        no_outer_space(value),
        i <= 127,
    ensures
        ({
            let l = entry_line(name, i, value);
            let k = name + seq!['_'] + dec_digits(i);
            &&& trim(l) == l
            &&& l.len() > 0
            &&& l[0] != '#' && l[0] != ';' && l[0] != '['
            &&& split_once(l, '=') == Some((k, value))
            &&& trim(k) == k
            &&& trim(value) == value
            &&& rsplit_once(k, '_') == Some((name, dec_digits(i)))
            &&& parse_bounded(dec_digits(i), 255) == Some(i as int)
        }),
{
    let d = dec_digits(i);
    lemma_dec_digits_parse(i);
    lemma_digits_alnum(d);
    let k = name + seq!['_'] + d;
    let l = entry_line(name, i, value);
    assert(l =~= k + seq!['='] + value);
    assert(alnum(l[0]));
    if value.len() > 0 {
        assert(l.last() == value.last());
    } else {
        assert(l.last() == '=');
    }
    lemma_trim_id(l);
    assert forall|q: int| 0 <= q < k.len() implies k[q] != '=' by {
        if q < name.len() {
            assert(alnum(name[q]));
        } else if q > name.len() {
            assert(k[q] == d[q - name.len() - 1]);
            assert(alnum(d[q - name.len() - 1]));
        }
    }
    lemma_split_once_at(l, '=', k.len() as int);
    assert(l.take(k.len() as int) =~= k);
    assert(l.skip(k.len() as int + 1) =~= value);
    assert(k[0] == name[0]);
    assert(alnum(k.last()));
    lemma_trim_id(k);
    if value.len() > 0 {
        lemma_trim_id(value);
    } else {
        assert(trim(value) =~= value);
    }
    assert forall|q: int| name.len() < q < k.len() implies k[q] != '_' by {
        assert(k[q] == d[q - name.len() - 1]);
        assert(alnum(d[q - name.len() - 1]));
    }
    lemma_rsplit_once_at(k, '_', name.len() as int);
    assert(k.take(name.len() as int) =~= name);
    assert(k.skip(name.len() as int + 1) =~= d);
}

/// An entry `name_i=value` read in a section is that pad field's entry.
#[verifier::rlimit(100)]
#[verifier::spinoff_prover]
proof fn lemma_entry_step(st: DtoState, b: int, name: Seq<char>, i: nat, value: Seq<char>, n: int)
    requires
        st.current == Some(b),
        name.len() > 0,
        all_alnum(name),
        !('0' <= name[0] && name[0] <= '9'),
        no_outer_space(value),
        i <= 127,
    ensures
        dto_step(st, entry_line(name, i, value), n) == dto_pad_entry(st, b, i as u8, name, value, n),
{
    lemma_entry_syntax(name, i, value);
    reveal(dto_step);
}

/// The pad `idx` of board `b` as the reader has it so far (its defaults
/// when not yet mentioned).
spec fn pad_so_far(st: DtoState, b: int, idx: u8) -> PadModel {
    let pads = st.boards[b].1;
    if pads.contains_key(idx) { pads[idx] } else { default_pad(idx) }
}

/// The state with pad `idx` of board `b` set to `p`.
spec fn with_pad(st: DtoState, b: int, idx: u8, p: PadModel) -> DtoState {
    DtoState { boards: st.boards.update(b, (st.boards[b].0, st.boards[b].1.insert(idx, p))), ..st }
}

proof fn lemma_key_step(st: DtoState, b: int, i: nat, v: u8, n: int)
    requires
        st.current == Some(b),
        i <= 127,
    ensures
        dto_step(st, entry_line("Key"@, i, dec_digits(v as nat)), n) == DtoStep::Next(
            with_pad(st, b, i as u8, (v, pad_so_far(st, b, i as u8).1, pad_so_far(st, b, i as u8).2)),
        ),
{
    lemma_literals();
    lemma_dec_digits_parse(v as nat);
    lemma_digits_alnum(dec_digits(v as nat));
    assert(!is_ws(dec_digits(v as nat)[0]) && !is_ws(dec_digits(v as nat).last())) by {
        assert(is_digit(dec_digits(v as nat)[0]));
        assert(is_digit(dec_digits(v as nat).last()));
    }
    lemma_entry_step(st, b, "Key"@, i, dec_digits(v as nat), n);
}

proof fn lemma_chan_step(st: DtoState, b: int, i: nat, v: u8, n: int)
    requires
        st.current == Some(b),
        i <= 127,
    ensures
        dto_step(st, entry_line("Chan"@, i, dec_digits(v as nat)), n) == DtoStep::Next(
            with_pad(st, b, i as u8, (pad_so_far(st, b, i as u8).0, v, pad_so_far(st, b, i as u8).2)),
        ),
{
    lemma_literals();
    lemma_dec_digits_parse(v as nat);
    lemma_digits_alnum(dec_digits(v as nat));
    assert(!is_ws(dec_digits(v as nat)[0]) && !is_ws(dec_digits(v as nat).last())) by {
        assert(is_digit(dec_digits(v as nat)[0]));
        assert(is_digit(dec_digits(v as nat).last()));
    }
    lemma_entry_step(st, b, "Chan"@, i, dec_digits(v as nat), n);
}

proof fn lemma_col_step(st: DtoState, b: int, i: nat, c: Seq<char>, n: int)
    requires
        st.current == Some(b),
        i <= 127,
        verbatim_color(c),
    ensures
        dto_step(st, entry_line("Col"@, i, c), n) == DtoStep::Next(
            with_pad(st, b, i as u8, (pad_so_far(st, b, i as u8).0, pad_so_far(st, b, i as u8).1, c)),
        ),
{
    lemma_literals();
    assert(col_text(c) == Some(c));
    lemma_entry_step(st, b, "Col"@, i, c, n);
}

/// The three lines of a pad set the whole pad.
proof fn lemma_pad_run(st: DtoState, b: int, i: nat, p: PadModel, base: int)
    requires
        st.current == Some(b),
        0 <= b < st.boards.len(),
        i <= 127,
        verbatim_color(p.2),
    ensures
        dto_run(dto_pad_lines(i, p), st, base) == DtoStep::Next(with_pad(st, b, i as u8, p)),
{
    let ls = dto_pad_lines(i, p);
    let idx = i as u8;
    lemma_key_step(st, b, i, p.0, base + 1);
    let st1 = with_pad(st, b, idx, (p.0, pad_so_far(st, b, idx).1, pad_so_far(st, b, idx).2));
    lemma_chan_step(st1, b, i, p.1, base + 2);
    assert(pad_so_far(st1, b, idx) == (p.0, pad_so_far(st, b, idx).1, pad_so_far(st, b, idx).2));
    let st2 = with_pad(st1, b, idx, (p.0, p.1, pad_so_far(st, b, idx).2));
    lemma_col_step(st2, b, i, p.2, base + 3);
    assert(pad_so_far(st2, b, idx) == (p.0, p.1, pad_so_far(st, b, idx).2));
    let st3 = with_pad(st2, b, idx, p);
    assert(st3.boards =~= with_pad(st, b, idx, p).boards) by {
        assert(st1.boards[b].1.insert(idx, (p.0, p.1, pad_so_far(st, b, idx).2)).insert(idx, p)
            =~= st.boards[b].1.insert(idx, p));
        assert(st2.boards[b].1 =~= st1.boards[b].1.insert(idx, (p.0, p.1, pad_so_far(st, b, idx).2)));
        assert(st1.boards[b].1 =~= st.boards[b].1.insert(idx, (p.0, pad_so_far(st, b, idx).1, pad_so_far(st, b, idx).2)));
    }
    assert(st3 == with_pad(st, b, idx, p));
    assert(ls[2] == entry_line("Col"@, i, text_upper(p.2)));
    assert(ls.drop_first()[0] == ls[1]);
    assert(ls.drop_first().drop_first()[0] == ls[2]);
    assert(ls.drop_first().drop_first().drop_first() =~= Seq::<Seq<char>>::empty());
    assert(dto_run(ls.drop_first().drop_first().drop_first(), st3, base + 3) == DtoStep::Next(st3));
    assert(dto_run(ls.drop_first().drop_first(), st2, base + 2) == DtoStep::Next(st3));
    assert(dto_run(ls.drop_first(), st1, base + 1) == DtoStep::Next(st3));
}

spec fn restrict(m: Map<u8, PadModel>, k: nat) -> Map<u8, PadModel> {
    Map::new(|i: u8| i < k && m.contains_key(i), |i: u8| m[i])
}

spec fn with_pads(st: DtoState, b: int, pads: Map<u8, PadModel>) -> DtoState {
    DtoState { boards: st.boards.update(b, (st.boards[b].0, pads)), ..st }
}

proof fn lemma_pads_run(st: DtoState, b: int, pads: Map<u8, PadModel>, k: nat, base: int)
    requires
        st.current == Some(b),
        0 <= b < st.boards.len(),
        st.boards[b].1 == Map::<u8, PadModel>::empty(),
        verbatim_pads(pads),
        k <= 256,
    ensures
        dto_run(dto_pads_lines(pads, k), st, base) == DtoStep::Next(with_pads(st, b, restrict(pads, k))),
    decreases k,
{
    if k == 0 {
        assert(restrict(pads, 0) =~= Map::<u8, PadModel>::empty());
        assert(st.boards.update(b, (st.boards[b].0, restrict(pads, 0))) =~= st.boards);
        assert(with_pads(st, b, restrict(pads, 0)) == st);
    } else {
        let i = (k - 1) as nat;
        let idx = i as u8;
        let pre = dto_pads_lines(pads, i);
        let tail = if pads.contains_key(idx) { dto_pad_lines(i, pads[idx]) } else { Seq::empty() };
        assert(dto_pads_lines(pads, k) == pre + tail);
        lemma_pads_run(st, b, pads, i, base);
        lemma_run_concat(pre, tail, st, base);
        let s = with_pads(st, b, restrict(pads, i));
        if pads.contains_key(idx) {
            assert(i <= 127);
            lemma_pad_run(s, b, i, pads[idx], base + pre.len());
            assert(restrict(pads, i).insert(idx, pads[idx]) =~= restrict(pads, k));
            assert(with_pad(s, b, idx, pads[idx]).boards =~= with_pads(st, b, restrict(pads, k)).boards);
        } else {
            assert(restrict(pads, i) =~= restrict(pads, k));
            assert(tail =~= Seq::<Seq<char>>::empty());
        }
    }
}

/// The pad lines the editor writes for a board, read inside that board's
/// (still empty) section, give back exactly its pads: every key, channel
/// and colour text verbatim, for pads numbered up to 127 whose colour text
/// is already upper case, has no whitespace at either end and is not
/// eight bytes long.
pub proof fn lemma_dto_pads_round_trip(st: DtoState, b: int, pads: Map<u8, PadModel>, base: int)
    requires
        st.current == Some(b),
        0 <= b < st.boards.len(),
        st.boards[b].1 == Map::<u8, PadModel>::empty(),
        verbatim_pads(pads),
    ensures
        dto_run(dto_pads_lines(pads, 256), st, base) == DtoStep::Next(
            DtoState { boards: st.boards.update(b, (st.boards[b].0, pads)), ..st },
        ),
{
    lemma_pads_run(st, b, pads, 256, base);
    assert(restrict(pads, 256) =~= pads);
}

/// The text between a board's brackets as the editor writes it: `Board`
/// and the rest for a name starting with `board`, else the name.
pub open spec fn header_text(name: Seq<char>) -> Seq<char> {
    if starts_with(name, board_word()) { seq!['B', 'o', 'a', 'r', 'd'] + name.skip(5) } else { name }
}

/// A board name the editor writes and reads back: its bracketed text has
/// no whitespace at either end and no line break, and lower-cases back to
/// the name.
pub open spec fn name_reads_back(name: Seq<char>) -> bool {
    &&& no_outer_space(header_text(name))
    &&& no_line_break(header_text(name))
    &&& text_lower(header_text(name)) == name
}

/// A board name made of lower-case ASCII letters and digits, not empty.
pub open spec fn plain_name(name: Seq<char>) -> bool {
    &&& name.len() > 0
    &&& forall|k: int| 0 <= k < name.len() ==> ('a' <= #[trigger] name[k] <= 'z') || ('0' <= name[k] <= '9')
}

/// Every plain board name reads back: its bracketed text has no outer space
/// or line break and lower-cases to the name.
pub proof fn lemma_plain_name_reads_back(name: Seq<char>)
    requires
        plain_name(name),
    ensures
        name_reads_back(name),
{
    let h = header_text(name);
    assert(h.len() == name.len());
    assert forall|k: int| 0 <= k < h.len() implies (#[trigger] h[k] == 'B' && k == 0) || h[k] == name[k] by {
        if starts_with(name, board_word()) && k >= 5 {
            assert(h[k] == name.skip(5)[k - 5]);
        }
    }
    assert forall|k: int| 0 <= k < h.len() implies (#[trigger] h[k] as u32) < 128 && !is_ws(h[k]) && h[k] != '\n'
        && h[k] != '\r' && lower_char(h[k]) == name[k] by {
        if h[k] == 'B' && k == 0 {
            assert(starts_with(name, board_word()));
            assert(name.take(5)[0] == 'b');
        }
    }
    assert(all_ascii(h));
    assert(ascii_lower(h) =~= name);
}

pub(crate) proof fn lemma_header_is_bracketed(name: Seq<char>)
    ensures
        xtn_header(name) == seq!['['] + header_text(name) + seq![']'],
{
}

/// A section line for a name not yet seen starts a new, empty board.
proof fn lemma_section_step(st: DtoState, name: Seq<char>, n: int)
    requires
        name_reads_back(name),
        forall|j: int| 0 <= j < st.boards.len() ==> #[trigger] st.boards[j].0 != name,
    ensures
        dto_step(st, xtn_header(name), n) == DtoStep::Next(DtoState {
            current: Some(st.boards.len() as int),
            boards: st.boards.push((name, Map::<u8, PadModel>::empty())),
            ..st
        }),
{
    reveal(dto_step);
    let h = header_text(name);
    let l = xtn_header(name);
    lemma_header_is_bracketed(name);
    assert(l[0] == '[');
    assert(l.last() == ']');
    lemma_trim_id(l);
    assert(l.subrange(1, l.len() - 1) =~= h);
    if h.len() > 0 {
        lemma_trim_id(h);
    } else {
        assert(trim(h) =~= h);
    }
    assert(!(exists|i: int| first_named(st.boards, name, i)));
}

proof fn lemma_empty_step(st: DtoState, n: int)
    ensures
        dto_step(st, Seq::empty(), n) == DtoStep::Next(st),
{
    reveal(dto_step);
    assert(trim(Seq::<char>::empty()) =~= Seq::<char>::empty());
}

/// The lines of one board, read after boards of other names, add it with
/// its pads.
proof fn lemma_board_run(st: DtoState, name: Seq<char>, pads: Map<u8, PadModel>, blank: bool, base: int)
    requires
        name_reads_back(name),
        verbatim_pads(pads),
        forall|j: int| 0 <= j < st.boards.len() ==> #[trigger] st.boards[j].0 != name,
    ensures
        dto_run(
            (if blank { seq![Seq::<char>::empty()] } else { Seq::empty() }) + seq![xtn_header(name)]
                + dto_pads_lines(pads, 256),
            st,
            base,
        ) == DtoStep::Next(DtoState {
            current: Some(st.boards.len() as int),
            boards: st.boards.push((name, pads)),
            ..st
        }),
{
    let pre = if blank { seq![Seq::<char>::empty()] } else { Seq::<Seq<char>>::empty() };
    let head = pre + seq![xtn_header(name)];
    lemma_run_concat(head, dto_pads_lines(pads, 256), st, base);
    lemma_run_concat(pre, seq![xtn_header(name)], st, base);
    if blank {
        lemma_empty_step(st, base + 1);
        assert(pre[0] == Seq::<char>::empty());
        assert(pre.drop_first() =~= Seq::<Seq<char>>::empty());
        assert(dto_run(pre.drop_first(), st, base + 1) == DtoStep::Next(st));
        assert(dto_run(pre, st, base) == DtoStep::Next(st));
    } else {
        assert(dto_run(pre, st, base) == DtoStep::Next(st));
    }
    lemma_section_step(st, name, base + pre.len() + 1);
    let s1 = DtoState {
        current: Some(st.boards.len() as int),
        boards: st.boards.push((name, Map::<u8, PadModel>::empty())),
        ..st
    };
    assert(seq![xtn_header(name)].drop_first() =~= Seq::<Seq<char>>::empty());
    assert(seq![xtn_header(name)][0] == xtn_header(name));
    assert(dto_run(seq![xtn_header(name)].drop_first(), s1, base + pre.len() + 1) == DtoStep::Next(s1));
    assert(dto_run(seq![xtn_header(name)], st, base + pre.len()) == DtoStep::Next(s1));
    lemma_dto_pads_round_trip(s1, st.boards.len() as int, pads, base + head.len());
    assert(s1.boards.update(st.boards.len() as int, (name, pads)) =~= st.boards.push((name, pads)));
}

pub(crate) open spec fn distinct_ints(s: Seq<int>) -> bool {
    forall|a: int, b: int| 0 <= a < b < s.len() ==> s[a] != s[b]
}

pub(crate) open spec fn ints_below(s: Seq<int>, k: int) -> bool {
    forall|a: int| 0 <= a < s.len() ==> 0 <= #[trigger] s[a] < k
}

proof fn lemma_ins_name_inserts(names: Seq<Seq<char>>, s: Seq<int>, x: int)
    ensures
        exists|pos: int| 0 <= pos <= s.len() && ins_name(names, s, x) == #[trigger] s.insert(pos, x),
    decreases s.len(),
{
    if s.len() == 0 {
        assert(ins_name(names, s, x) == s.insert(0, x));
    } else if crate::xtn::name_le(names[s.last()], names[x]) {
        assert(ins_name(names, s, x) == s.insert(s.len() as int, x));
    } else {
        lemma_ins_name_inserts(names, s.drop_last(), x);
        let pos = choose|pos: int| 0 <= pos <= s.drop_last().len() && ins_name(names, s.drop_last(), x)
            == #[trigger] s.drop_last().insert(pos, x);
        assert(s.drop_last().insert(pos, x).push(s.last()) =~= s.insert(pos, x));
    }
}

/// Name order lists each index below `k` once.
pub(crate) proof fn lemma_name_order_indices(names: Seq<Seq<char>>, k: int)
    requires
        k >= 0,
    ensures
        name_order(names, k).len() == k,
        distinct_ints(name_order(names, k)),
        ints_below(name_order(names, k), k),
    decreases k,
{
    if k > 0 {
        let s = name_order(names, k - 1);
        lemma_name_order_indices(names, k - 1);
        lemma_ins_name_inserts(names, s, k - 1);
        let pos = choose|pos: int| 0 <= pos <= s.len() && ins_name(names, s, k - 1) == #[trigger] s.insert(pos, k - 1);
        let t = s.insert(pos, k - 1);
        assert(name_order(names, k) == t);
        assert forall|a: int| 0 <= a < t.len() implies 0 <= #[trigger] t[a] < k by {
            if a < pos {
                assert(t[a] == s[a]);
            } else if a > pos {
                assert(t[a] == s[a - 1]);
            }
        }
        assert forall|a: int, b: int| 0 <= a < b < t.len() implies t[a] != t[b] by {
            if a < pos && b < pos {
                assert(t[a] == s[a] && t[b] == s[b]);
            } else if a < pos && b == pos {
                assert(t[a] == s[a]);
            } else if a < pos {
                assert(t[a] == s[a] && t[b] == s[b - 1]);
            } else if a == pos {
                assert(t[b] == s[b - 1]);
            } else {
                assert(t[a] == s[a - 1] && t[b] == s[b - 1]);
            }
        }
    }
}

/// Every board of the layout reads back, and no two share a name.
pub open spec fn boards_read_back(bs: Seq<(Seq<char>, Map<u8, PadModel>)>) -> bool {
    &&& forall|i: int| 0 <= i < bs.len() ==> name_reads_back(#[trigger] bs[i].0) && verbatim_pads(bs[i].1)
    &&& forall|i: int, j: int| 0 <= i < j < bs.len() ==> bs[i].0 != bs[j].0
}

spec fn picked(bs: Seq<(Seq<char>, Map<u8, PadModel>)>, order: Seq<int>) -> Seq<(Seq<char>, Map<u8, PadModel>)> {
    order.map_values(|i: int| bs[i])
}

proof fn lemma_boards_run(bs: Seq<(Seq<char>, Map<u8, PadModel>)>, order: Seq<int>, st: DtoState, base: int)
    requires
        boards_read_back(bs),
        distinct_ints(order),
        ints_below(order, bs.len() as int),
        st.boards == Seq::<(Seq<char>, Map<u8, PadModel>)>::empty(),
    ensures
        dto_run(dto_boards_lines(bs, order), st, base) == DtoStep::Next(DtoState {
            current: if order.len() > 0 { Some(order.len() - 1) } else { st.current },
            boards: picked(bs, order),
            ..st
        }),
    decreases order.len(),
{
    if order.len() == 0 {
        assert(picked(bs, order) =~= st.boards);
    } else {
        let o2 = order.drop_last();
        let x = order.last();
        let b = bs[x];
        assert(distinct_ints(o2)) by {
            assert forall|a: int, c: int| 0 <= a < c < o2.len() implies o2[a] != o2[c] by {
                assert(o2[a] == order[a] && o2[c] == order[c]);
            }
        }
        assert(ints_below(o2, bs.len() as int)) by {
            assert forall|a: int| 0 <= a < o2.len() implies 0 <= #[trigger] o2[a] < bs.len() by {
                assert(o2[a] == order[a]);
            }
        }
        lemma_boards_run(bs, o2, st, base);
        let pre = dto_boards_lines(bs, o2);
        let blank = order.len() > 1;
        let part = (if blank { seq![Seq::<char>::empty()] } else { Seq::<Seq<char>>::empty() }) + seq![xtn_header(b.0)]
            + dto_pads_lines(b.1, 256);
        assert(dto_boards_lines(bs, order) =~= pre + part);
        lemma_run_concat(pre, part, st, base);
        let s = DtoState {
            current: if o2.len() > 0 { Some(o2.len() - 1) } else { st.current },
            boards: picked(bs, o2),
            ..st
        };
        assert(0 <= x < bs.len());
        assert forall|j: int| 0 <= j < s.boards.len() implies #[trigger] s.boards[j].0 != b.0 by {
            assert(s.boards[j] == bs[o2[j]]);
            assert(o2[j] == order[j]);
            assert(order[j] != order[order.len() - 1]);
            assert(0 <= order[j] < bs.len());
            if order[j] < x {
                assert(bs[order[j]].0 != bs[x].0);
            } else {
                assert(bs[x].0 != bs[order[j]].0);
            }
        }
        lemma_board_run(s, b.0, b.1, blank, base + pre.len());
        assert(picked(bs, o2).push((b.0, b.1)) =~= picked(bs, order));
    }
}

/// The boards in the order the editor writes them.
pub open spec fn in_name_order(bs: Seq<(Seq<char>, Map<u8, PadModel>)>) -> Seq<(Seq<char>, Map<u8, PadModel>)> {
    name_order(bs.map_values(|b: (Seq<char>, Map<u8, PadModel>)| b.0), bs.len() as int).map_values(|i: int| bs[i])
}

pub(crate) proof fn lemma_dec_signed_chars(e: int)
    ensures
        dec_signed(e).len() > 0,
        !is_ws(dec_signed(e)[0]),
        !is_ws(dec_signed(e).last()),
        no_line_break(dec_signed(e)),
        forall|q: int| 0 <= q < dec_signed(e).len() ==> #[trigger] dec_signed(e)[q] != '=',
{
    if e < 0 {
        lemma_dec_digits_parse((-e) as nat);
        let d = dec_digits((-e) as nat);
        assert forall|q: int| 0 <= q < dec_signed(e).len() implies #[trigger] dec_signed(e)[q] != '='
            && dec_signed(e)[q] != '\n' && dec_signed(e)[q] != '\r' by {
            if q > 0 {
                assert(dec_signed(e)[q] == d[q - 1]);
                assert(is_digit(d[q - 1]));
            }
        }
        assert(dec_signed(e).last() == d.last());
        assert(is_digit(d.last()));
    } else {
        lemma_dec_digits_parse(e as nat);
        let d = dec_digits(e as nat);
        assert forall|q: int| 0 <= q < d.len() implies #[trigger] d[q] != '=' && d[q] != '\n' && d[q] != '\r' by {
            assert(is_digit(d[q]));
        }
        assert(is_digit(d[0]));
        assert(is_digit(d.last()));
    }
}

/// A header line `name=value` read before any section.
proof fn lemma_header_step(st: DtoState, name: Seq<char>, e: int, n: int)
    requires
        st.current is None,
        name == "Edo"@ || name == "PitchOffset"@,
        i32::MIN <= e <= i32::MAX,
    ensures
        dto_step(st, name + seq!['='] + dec_signed(e), n) == DtoStep::Next(
            if name == "Edo"@ {
                DtoState { edo: Some(e as i32), ..st }
            } else {
                DtoState { pitch_offset: e as i32, ..st }
            },
        ),
{
    reveal(dto_step);
    reveal_strlit("Edo");
    reveal_strlit("PitchOffset");
    assert("Edo"@ != "PitchOffset"@) by {
        assert("Edo"@.len() != "PitchOffset"@.len());
    }
    let v = dec_signed(e);
    lemma_dec_signed_chars(e);
    lemma_dec_signed_parse(e);
    let l = name + seq!['='] + v;
    assert(l[0] == name[0]);
    assert(l.last() == v.last());
    lemma_trim_id(l);
    assert forall|q: int| 0 <= q < name.len() implies name[q] != '=' by {}
    lemma_split_once_at(l, '=', name.len() as int);
    assert(l.take(name.len() as int) =~= name);
    assert(l.skip(name.len() as int + 1) =~= v);
    lemma_trim_id(name);
    lemma_trim_id(v);
    assert(parse_i32_spec(v) == Some(e));
}

spec fn header_part(m: DtoModel) -> Seq<Seq<char>> {
    (match m.edo {
        Some(e) => seq!["Edo="@ + dec_signed(e as int)],
        None => seq![],
    }) + seq!["PitchOffset="@ + dec_signed(m.pitch_offset as int), Seq::empty()]
}

proof fn lemma_header_run(m: DtoModel)
    ensures
        dto_run(header_part(m), dto_initial(), 0) == DtoStep::Next(DtoState {
            edo: m.edo,
            pitch_offset: m.pitch_offset,
            current: None,
            boards: Seq::empty(),
        }),
{
    reveal_strlit("Edo=");
    reveal_strlit("Edo");
    reveal_strlit("PitchOffset=");
    reveal_strlit("PitchOffset");
    assert("Edo="@ =~= "Edo"@ + seq!['=']);
    assert("PitchOffset="@ =~= "PitchOffset"@ + seq!['=']);
    let po = "PitchOffset="@ + dec_signed(m.pitch_offset as int);
    assert(po =~= "PitchOffset"@ + seq!['='] + dec_signed(m.pitch_offset as int));
    let fin = DtoState { edo: m.edo, pitch_offset: m.pitch_offset, current: None, boards: Seq::empty() };
    let tail = seq![po, Seq::<char>::empty()];
    let s0 = DtoState { edo: m.edo, ..dto_initial() };
    lemma_header_step(s0, "PitchOffset"@, m.pitch_offset as int, 1);
    assert(tail[0] == po);
    assert(tail.drop_first()[0] == Seq::<char>::empty());
    assert(tail.drop_first().drop_first() =~= Seq::<Seq<char>>::empty());
    match m.edo {
        Some(e) => {
            let el = "Edo="@ + dec_signed(e as int);
            assert(el =~= "Edo"@ + seq!['='] + dec_signed(e as int));
            lemma_header_step(dto_initial(), "Edo"@, e as int, 1);
            lemma_header_step(s0, "PitchOffset"@, m.pitch_offset as int, 2);
            lemma_empty_step(fin, 3);
            let ls = header_part(m);
            assert(ls =~= seq![el] + tail);
            lemma_run_concat(seq![el], tail, dto_initial(), 0);
            assert(seq![el][0] == el);
            assert(seq![el].drop_first() =~= Seq::<Seq<char>>::empty());
            assert(dto_run(seq![el].drop_first(), s0, 1) == DtoStep::Next(s0));
            assert(dto_run(seq![el], dto_initial(), 0) == DtoStep::Next(s0));
            assert(dto_run(tail.drop_first().drop_first(), fin, 3) == DtoStep::Next(fin));
            assert(dto_run(tail.drop_first(), fin, 2) == DtoStep::Next(fin));
            assert(dto_run(tail, s0, 1) == DtoStep::Next(fin));
        },
        None => {
            assert(s0 == dto_initial());
            lemma_empty_step(fin, 2);
            let ls = header_part(m);
            assert(ls =~= tail);
            assert(dto_run(tail.drop_first().drop_first(), fin, 2) == DtoStep::Next(fin));
            assert(dto_run(tail.drop_first(), fin, 1) == DtoStep::Next(fin));
        },
    }
}

pub(crate) open spec fn lines_ok(ls: Seq<Seq<char>>) -> bool {
    forall|i: int| 0 <= i < ls.len() ==> no_line_break(#[trigger] ls[i])
}

pub(crate) proof fn lemma_lines_ok_concat(a: Seq<Seq<char>>, b: Seq<Seq<char>>)
    requires
        lines_ok(a),
        lines_ok(b),
    ensures
        lines_ok(a + b),
{
    assert forall|i: int| 0 <= i < (a + b).len() implies no_line_break(#[trigger] (a + b)[i]) by {
        if i < a.len() {
            assert((a + b)[i] == a[i]);
        } else {
            assert((a + b)[i] == b[i - a.len()]);
        }
    }
}

pub(crate) proof fn lemma_nlb_concat(a: Seq<char>, b: Seq<char>)
    requires
        no_line_break(a),
        no_line_break(b),
    ensures
        no_line_break(a + b),
{
    assert forall|k: int| 0 <= k < (a + b).len() implies #[trigger] (a + b)[k] != '\n' && (a + b)[k] != '\r' by {
        if k < a.len() {
            assert((a + b)[k] == a[k]);
        } else {
            assert((a + b)[k] == b[k - a.len()]);
        }
    }
}

pub(crate) proof fn lemma_nlb_alnum(a: Seq<char>)
    requires
        all_alnum(a),
    ensures
        no_line_break(a),
{
    assert forall|k: int| 0 <= k < a.len() implies #[trigger] a[k] != '\n' && a[k] != '\r' by {
        assert(alnum(a[k]));
    }
}

pub(crate) proof fn lemma_entry_nlb(name: Seq<char>, i: nat, value: Seq<char>)
    requires
        all_alnum(name),
        no_line_break(value),
    ensures
        no_line_break(entry_line(name, i, value)),
{
    lemma_dec_digits_parse(i);
    lemma_digits_alnum(dec_digits(i));
    lemma_nlb_alnum(name);
    lemma_nlb_alnum(dec_digits(i));
    lemma_nlb_concat(name, seq!['_']);
    lemma_nlb_concat(name + seq!['_'], dec_digits(i));
    lemma_nlb_concat(name + seq!['_'] + dec_digits(i), seq!['=']);
    lemma_nlb_concat(name + seq!['_'] + dec_digits(i) + seq!['='], value);
}

proof fn lemma_pads_lines_ok(pads: Map<u8, PadModel>, k: nat)
    requires
        verbatim_pads(pads),
    ensures
        lines_ok(dto_pads_lines(pads, k)),
    decreases k,
{
    if k > 0 {
        let i = (k - 1) as nat;
        lemma_pads_lines_ok(pads, i);
        if pads.contains_key(i as u8) {
            let p = pads[i as u8];
            lemma_literals();
            lemma_dec_digits_parse(p.0 as nat);
            lemma_digits_alnum(dec_digits(p.0 as nat));
            lemma_nlb_alnum(dec_digits(p.0 as nat));
            lemma_dec_digits_parse(p.1 as nat);
            lemma_digits_alnum(dec_digits(p.1 as nat));
            lemma_nlb_alnum(dec_digits(p.1 as nat));
            lemma_entry_nlb("Key"@, i, dec_digits(p.0 as nat));
            lemma_entry_nlb("Chan"@, i, dec_digits(p.1 as nat));
            lemma_entry_nlb("Col"@, i, text_upper(p.2));
            let pl = dto_pad_lines(i, p);
            assert(lines_ok(pl)) by {
                assert forall|q: int| 0 <= q < pl.len() implies no_line_break(#[trigger] pl[q]) by {
                    if q == 0 {
                    } else if q == 1 {
                    } else {
                    }
                }
            }
            lemma_lines_ok_concat(dto_pads_lines(pads, i), pl);
        } else {
            assert(dto_pads_lines(pads, k) =~= dto_pads_lines(pads, i));
        }
    }
}

proof fn lemma_boards_lines_ok(bs: Seq<(Seq<char>, Map<u8, PadModel>)>, order: Seq<int>)
    requires
        boards_read_back(bs),
        ints_below(order, bs.len() as int),
    ensures
        lines_ok(dto_boards_lines(bs, order)),
    decreases order.len(),
{
    if order.len() > 0 {
        let o2 = order.drop_last();
        assert(ints_below(o2, bs.len() as int)) by {
            assert forall|a: int| 0 <= a < o2.len() implies 0 <= #[trigger] o2[a] < bs.len() by {
                assert(o2[a] == order[a]);
            }
        }
        lemma_boards_lines_ok(bs, o2);
        let b = bs[order.last()];
        assert(name_reads_back(b.0) && verbatim_pads(b.1));
        lemma_header_is_bracketed(b.0);
        lemma_nlb_concat(seq!['['], header_text(b.0));
        lemma_nlb_concat(seq!['['] + header_text(b.0), seq![']']);
        lemma_pads_lines_ok(b.1, 256);
        let blank = if order.len() > 1 { seq![Seq::<char>::empty()] } else { Seq::<Seq<char>>::empty() };
        assert(lines_ok(blank));
        assert(lines_ok(seq![xtn_header(b.0)]));
        lemma_lines_ok_concat(dto_boards_lines(bs, o2), blank);
        lemma_lines_ok_concat(dto_boards_lines(bs, o2) + blank, seq![xtn_header(b.0)]);
        lemma_lines_ok_concat(dto_boards_lines(bs, o2) + blank + seq![xtn_header(b.0)], dto_pads_lines(b.1, 256));
    }
}

proof fn lemma_header_lines_ok(m: DtoModel)
    ensures
        lines_ok(header_part(m)),
{
    reveal_strlit("Edo=");
    reveal_strlit("PitchOffset=");
    assert(no_line_break("Edo="@));
    assert(no_line_break("PitchOffset="@));
    lemma_dec_signed_chars(m.pitch_offset as int);
    lemma_nlb_concat("PitchOffset="@, dec_signed(m.pitch_offset as int));
    let ls = header_part(m);
    match m.edo {
        Some(e) => {
            lemma_dec_signed_chars(e as int);
            lemma_nlb_concat("Edo="@, dec_signed(e as int));
            assert forall|q: int| 0 <= q < ls.len() implies no_line_break(#[trigger] ls[q]) by {
                if q == 0 {
                } else if q == 1 {
                } else {
                    assert(ls[q] =~= Seq::<char>::empty());
                }
            }
        },
        None => {
            assert forall|q: int| 0 <= q < ls.len() implies no_line_break(#[trigger] ls[q]) by {
                if q == 0 {
                } else {
                    assert(ls[q] =~= Seq::<char>::empty());
                }
            }
        },
    }
}

/// Reading back what the editor writes gives the layout again: for a
/// layout whose boards have distinct names that read back (their bracketed
/// text lower-cases to the name and has no outer space or line break) and
/// whose pads are numbered up to 127 with colour texts kept verbatim,
/// reading the text `write_dto_string` produces succeeds with the same
/// `Edo`, `PitchOffset`, and boards, which come back in the order they are
/// written (by board number, then by name) with every key, channel and
/// colour text unchanged.
pub proof fn lemma_dto_round_trip(m: DtoModel)
    requires
        boards_read_back(m.boards),
    ensures
        parse_dto_spec(join_lines(dto_text_lines(m))) == DtoStep::Next(DtoState {
            edo: m.edo,
            pitch_offset: m.pitch_offset,
            current: if m.boards.len() > 0 { Some(m.boards.len() - 1) } else { None },
            boards: in_name_order(m.boards),
        }),
{
    let names = m.boards.map_values(|b: (Seq<char>, Map<u8, PadModel>)| b.0);
    let order = name_order(names, m.boards.len() as int);
    lemma_name_order_indices(names, m.boards.len() as int);
    let h = header_part(m);
    let bl = dto_boards_lines(m.boards, order);
    assert(dto_text_lines(m) == h + bl);
    lemma_header_lines_ok(m);
    lemma_boards_lines_ok(m.boards, order);
    lemma_lines_ok_concat(h, bl);
    lemma_lines_join(h + bl);
    lemma_run_concat(h, bl, dto_initial(), 0);
    lemma_header_run(m);
    let s = DtoState { edo: m.edo, pitch_offset: m.pitch_offset, current: None, boards: Seq::empty() };
    lemma_boards_run(m.boards, order, s, h.len() as int);
}

/// The editor round trip for layouts whose board names are lower-case
/// ASCII letters and digits (each name once) and whose pads are numbered
/// up to 127 with colour texts kept verbatim: reading the written text gives
/// back the `Edo`, `PitchOffset` and boards, in name order, unchanged.
pub proof fn lemma_dto_round_trip_plain_names(m: DtoModel)
    requires
        forall|i: int| 0 <= i < m.boards.len() ==> plain_name(#[trigger] m.boards[i].0) && verbatim_pads(m.boards[i].1),
        forall|i: int, j: int| 0 <= i < j < m.boards.len() ==> m.boards[i].0 != m.boards[j].0,
    ensures
        parse_dto_spec(join_lines(dto_text_lines(m))) == DtoStep::Next(DtoState {
            edo: m.edo,
            pitch_offset: m.pitch_offset,
            current: if m.boards.len() > 0 { Some(m.boards.len() - 1) } else { None },
            boards: in_name_order(m.boards),
        }),
{
    assert forall|i: int| 0 <= i < m.boards.len() implies name_reads_back(#[trigger] m.boards[i].0) by {
        lemma_plain_name_reads_back(m.boards[i].0);
    }
    lemma_dto_round_trip(m);
}

/// A colour of six hex digits, in either case.
pub open spec fn hex6(c: Seq<char>) -> bool {
    &&& c.len() == 6
    &&& forall|k: int| 0 <= k < 6 ==> ('0' <= #[trigger] c[k] <= '9') || ('a' <= c[k] <= 'f') || ('A' <= c[k] <= 'F')
}

/// The pads with their colour texts in upper case.
pub open spec fn upper_pads(pads: Map<u8, PadModel>) -> Map<u8, PadModel> {
    Map::new(|i: u8| pads.contains_key(i), |i: u8| (pads[i].0, pads[i].1, ascii_upper(pads[i].2)))
}

/// The boards with their colour texts in upper case.
pub open spec fn upper_boards(bs: Seq<(Seq<char>, Map<u8, PadModel>)>) -> Seq<(Seq<char>, Map<u8, PadModel>)> {
    bs.map_values(|b: (Seq<char>, Map<u8, PadModel>)| (b.0, upper_pads(b.1)))
}

pub open spec fn hex_pads(pads: Map<u8, PadModel>) -> bool {
    forall|i: u8| #[trigger] pads.contains_key(i) ==> i <= 127 && hex6(pads[i].2)
}

proof fn lemma_ascii_utf8_len(s: Seq<char>)
    requires
        all_ascii(s),
    ensures
        crate::hud::chordnam::utf8_len(s) == s.len(),
    decreases s.len(),
{
    if s.len() > 0 {
        assert(all_ascii(s.drop_last())) by {
            assert forall|i: int| 0 <= i < s.drop_last().len() implies (#[trigger] s.drop_last()[i] as u32) < 128 by {
                assert(s.drop_last()[i] == s[i]);
            }
        }
        lemma_ascii_utf8_len(s.drop_last());
        assert((s[s.len() - 1] as u32) < 128);
    }
}

/// A hex colour upper-cases the ASCII way, and its upper case is kept
/// verbatim by the editor.
proof fn lemma_hex_upper(c: Seq<char>)
    requires
        hex6(c),
    ensures
        text_upper(c) == ascii_upper(c),
        text_upper(ascii_upper(c)) == ascii_upper(c),
        verbatim_color(ascii_upper(c)),
{
    reveal(text_upper);
    let u = ascii_upper(c);
    assert forall|k: int| 0 <= k < 6 implies (#[trigger] c[k] as u32) < 128 && (u[k] as u32) < 128 && !is_ws(u[k])
        && u[k] != '\n' && u[k] != '\r' && crate::text::upper_char(u[k]) == u[k] by {}
    assert(all_ascii(c));
    assert(all_ascii(u));
    assert(ascii_upper(u) =~= u);
    lemma_ascii_utf8_len(u);
}

proof fn lemma_pads_lines_upper(pads: Map<u8, PadModel>, k: nat)
    requires
        hex_pads(pads),
    ensures
        dto_pads_lines(pads, k) == dto_pads_lines(upper_pads(pads), k),
    decreases k,
{
    if k > 0 {
        let i = (k - 1) as nat;
        lemma_pads_lines_upper(pads, i);
        if pads.contains_key(i as u8) {
            let p = pads[i as u8];
            lemma_hex_upper(p.2);
            assert(upper_pads(pads).contains_key(i as u8));
            assert(upper_pads(pads)[i as u8] == (p.0, p.1, ascii_upper(p.2)));
            assert(dto_pad_lines(i, p) == dto_pad_lines(i, upper_pads(pads)[i as u8]));
        } else {
            assert(!upper_pads(pads).contains_key(i as u8));
        }
    }
}

proof fn lemma_boards_lines_upper(bs: Seq<(Seq<char>, Map<u8, PadModel>)>, order: Seq<int>)
    requires
        forall|b: int| 0 <= b < bs.len() ==> hex_pads(#[trigger] bs[b].1),
        forall|a: int| 0 <= a < order.len() ==> 0 <= #[trigger] order[a] < bs.len(),
    ensures
        dto_boards_lines(bs, order) == dto_boards_lines(upper_boards(bs), order),
    decreases order.len(),
{
    if order.len() > 0 {
        let d = order.drop_last();
        assert forall|a: int| 0 <= a < d.len() implies 0 <= #[trigger] d[a] < bs.len() by {
            assert(d[a] == order[a]);
        }
        lemma_boards_lines_upper(bs, d);
        let b = bs[order.last()];
        assert(order.last() == order[order.len() - 1]);
        lemma_pads_lines_upper(b.1, 256);
        assert(upper_boards(bs)[order.last()] == (b.0, upper_pads(b.1)));
    }
}

/// The editor round trip for any hex colours: for a layout whose board
/// names are lower-case ASCII letters and digits (each name once) and whose
/// pads are numbered up to 127 with colours of six hex digits in either
/// case, reading the written text gives back the `Edo`, `PitchOffset` and
/// boards in name order, every key and channel unchanged and every colour
/// in upper case.
pub proof fn lemma_dto_round_trip_hex_colours(m: DtoModel)
    requires
        forall|i: int| 0 <= i < m.boards.len() ==> plain_name(#[trigger] m.boards[i].0) && hex_pads(m.boards[i].1),
        forall|i: int, j: int| 0 <= i < j < m.boards.len() ==> m.boards[i].0 != m.boards[j].0,
    ensures
        parse_dto_spec(join_lines(dto_text_lines(m))) == DtoStep::Next(DtoState {
            edo: m.edo,
            pitch_offset: m.pitch_offset,
            current: if m.boards.len() > 0 { Some(m.boards.len() - 1) } else { None },
            boards: in_name_order(upper_boards(m.boards)),
        }),
{
    let ub = upper_boards(m.boards);
    let mu = DtoModel { edo: m.edo, pitch_offset: m.pitch_offset, boards: ub };
    let names = m.boards.map_values(|b: (Seq<char>, Map<u8, PadModel>)| b.0);
    assert(ub.map_values(|b: (Seq<char>, Map<u8, PadModel>)| b.0) =~= names);
    lemma_name_order_indices(names, m.boards.len() as int);
    let order = name_order(names, m.boards.len() as int);
    assert forall|b: int| 0 <= b < m.boards.len() implies hex_pads(#[trigger] m.boards[b].1) by {}
    lemma_boards_lines_upper(m.boards, order);
    assert(dto_text_lines(m) == dto_text_lines(mu));
    assert forall|i: int| 0 <= i < ub.len() implies plain_name(#[trigger] ub[i].0) && verbatim_pads(ub[i].1) by {
        assert(ub[i] == (m.boards[i].0, upper_pads(m.boards[i].1)));
        let pads = m.boards[i].1;
        assert forall|q: u8| #[trigger] upper_pads(pads).contains_key(q) implies q <= 127 && verbatim_color(
            upper_pads(pads)[q].2,
        ) by {
            lemma_hex_upper(pads[q].2);
        }
    }
    assert forall|i: int, j: int| 0 <= i < j < ub.len() implies ub[i].0 != ub[j].0 by {
        assert(ub[i].0 == m.boards[i].0 && ub[j].0 == m.boards[j].0);
    }
    lemma_dto_round_trip_plain_names(mu);
}

} // verus!
