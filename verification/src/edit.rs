//! The layout editor's data: `.xtn` text read into pads whose colours stay
//! the text they were written as, the same written back, and an uploaded
//! layout laid out on the hex lattice of its geometry.
use std::collections::HashMap;

use vstd::prelude::*;

use crate::geometry::{exquis_board, exquis_board_tuples, ltn_board, ltn_boards_tuples, wtn_boards_tuples, WTN_BOARD0_TUPLES, WTN_BOARD1_TUPLES};
use crate::hud::chordnam::{utf8_len, utf8_length, utf8_width};
use crate::num::{dec_digits, dec_signed, fmt_i64, fmt_u64, parse_bounded, parse_i32, parse_i32_spec, parse_u8, push_dec};
use crate::wooting::wtn::entry_line;
use crate::xtn::{board_word, name_order, order_names, xtn_header};
use crate::text::{
    chars_of, eq_str, join_lines, lines, push_all, push_line, push_str, starts_with, rsplit_once, rsplit_once_chars, slice_of, split_lines, split_once,
    split_once_chars, string_of, to_lowercase, to_uppercase, trim, trim_chars, unicode_lower,
    unicode_upper,
};

verus! {

broadcast use vstd::std_specs::hash::group_hash_axioms;

/// One pad as the editor sees it; `color` is `RRGGBB` text.
#[derive(Debug, Clone)]
pub struct PadDto {
    pub key: u8,
    pub chan: u8,
    pub color: String,
}

/// A layout as the editor sees it: header values and the boards by
/// (lower-case) name, in the order their sections first appear.
#[derive(Debug, Clone)]
pub struct LayoutDto {
    pub edo: Option<i32>,
    pub pitch_offset: i32,
    pub boards: Vec<(String, HashMap<u8, PadDto>)>,
}

/// A pad as values: key, channel, colour text.
pub type PadModel = (u8, u8, Seq<char>);

pub open spec fn pad_model(p: PadDto) -> PadModel {
    (p.key, p.chan, p.color@)
}

pub struct DtoModel {
    pub edo: Option<i32>,
    pub pitch_offset: i32,
    pub boards: Seq<(Seq<char>, Map<u8, PadModel>)>,
}

pub open spec fn pads_model(m: Map<u8, PadDto>) -> Map<u8, PadModel> {
    Map::new(|k: u8| m.contains_key(k), |k: u8| pad_model(m[k]))
}

impl View for LayoutDto {
    type V = DtoModel;

    open spec fn view(&self) -> DtoModel {
        DtoModel {
            edo: self.edo,
            pitch_offset: self.pitch_offset,
            boards: self.boards@.map_values(|b: (String, HashMap<u8, PadDto>)| (b.0@, pads_model(b.1@))),
        }
    }
}

/// What stops the editor from reading a layout.
#[derive(Debug, Clone, Copy, PartialEq, Eq, Structural)]
pub enum DtoErrorKind {
    /// A line that is neither a comment, a section nor `K=V`.
    ExpectedKeyValue,
    BadEdo,
    BadPitchOffset,
    BadKey,
    BadChan,
}

/// A reading error and the (1-based) line it is on.
#[derive(Debug, Clone, Copy, PartialEq, Eq, Structural)]
pub struct DtoError {
    pub line: usize,
    pub kind: DtoErrorKind,
}

/// Reader state between lines.
pub struct DtoState {
    pub edo: Option<i32>,
    pub pitch_offset: i32,
    pub current: Option<int>,
    pub boards: Seq<(Seq<char>, Map<u8, PadModel>)>,
}

/// The outcome of a line: the next state, an error, or a colour text whose
/// first two bytes cannot be cut off (a `Col` value of eight UTF-8 bytes
/// starting with a wide character).
pub enum DtoStep {
    Next(DtoState),
    Fail(DtoError),
    Stuck,
}

pub open spec fn dto_initial() -> DtoState {
    DtoState { edo: None, pitch_offset: 0, current: None, boards: Seq::empty() }
}

pub open spec fn first_named(bs: Seq<(Seq<char>, Map<u8, PadModel>)>, name: Seq<char>, i: int) -> bool {
    0 <= i < bs.len() && bs[i].0 == name && forall|j: int| 0 <= j < i ==> bs[j].0 != name
}

/// A section `[name]`: back to that board, or a new empty one at the end.
pub open spec fn dto_section(st: DtoState, name: Seq<char>) -> DtoState {
    if exists|i: int| first_named(st.boards, name, i) {
        DtoState { current: Some(choose|i: int| first_named(st.boards, name, i)), ..st }
    } else {
        DtoState { current: Some(st.boards.len() as int), boards: st.boards.push((name, Map::empty())), ..st }
    }
}

/// A colour value upper-cased, an `AARRGGBB` (eight bytes) losing its
/// first two bytes; `None` when those bytes end inside a character.
pub open spec fn col_text(v: Seq<char>) -> Option<Seq<char>> {
    let u = crate::text::text_upper(v);
    if utf8_len(u) != 8 {
        Some(u)
    } else if u.len() >= 1 && utf8_width(u[0]) == 2 {
        Some(u.drop_first())
    } else if u.len() >= 2 && utf8_width(u[0]) == 1 && utf8_width(u[1]) == 1 {
        Some(u.skip(2))
    } else {
        None
    }
}

pub open spec fn default_pad(idx: u8) -> PadModel {
    (idx, 1, "000000"@)
}

/// A `field=v` entry for pad `idx` of board `b`: the pad is created with
/// its defaults first, then `Key`, `Chan` or `Col` set.
pub open spec fn dto_pad_entry(st: DtoState, b: int, idx: u8, field: Seq<char>, v: Seq<char>, n: int) -> DtoStep {
    let pads = st.boards[b].1;
    let e = if pads.contains_key(idx) { pads[idx] } else { default_pad(idx) };
    let with = |p: PadModel| DtoState {
        boards: st.boards.update(b, (st.boards[b].0, pads.insert(idx, p))),
        ..st
    };
    if field == "Key"@ {
        match parse_bounded(v, 255) {
            Some(x) => DtoStep::Next(with((x as u8, e.1, e.2))),
            None => DtoStep::Fail(DtoError { line: n as usize, kind: DtoErrorKind::BadKey }),
        }
    } else if field == "Chan"@ {
        match parse_bounded(v, 255) {
            Some(x) => DtoStep::Next(with((e.0, x as u8, e.2))),
            None => DtoStep::Fail(DtoError { line: n as usize, kind: DtoErrorKind::BadChan }),
        }
    } else if field == "Col"@ {
        match col_text(v) {
            Some(c) => DtoStep::Next(with((e.0, e.1, c))),
            None => DtoStep::Stuck,
        }
    } else {
        DtoStep::Next(with(e))
    }
}

/// A trimmed `k=v` line: header values before any section; in a section,
/// keys `Field_N` with `N` up to 127 (others are skipped).
pub open spec fn dto_key_value(st: DtoState, k: Seq<char>, v: Seq<char>, n: int) -> DtoStep {
    match st.current {
        None => if k == "Edo"@ {
            match parse_i32_spec(v) {
                Some(e) => DtoStep::Next(DtoState { edo: Some(e as i32), ..st }),
                None => DtoStep::Fail(DtoError { line: n as usize, kind: DtoErrorKind::BadEdo }),
            }
        } else if k == "PitchOffset"@ {
            match parse_i32_spec(v) {
                Some(p) => DtoStep::Next(DtoState { pitch_offset: p as i32, ..st }),
                None => DtoStep::Fail(DtoError { line: n as usize, kind: DtoErrorKind::BadPitchOffset }),
            }
        } else {
            DtoStep::Next(st)
        },
        Some(b) => match rsplit_once(k, '_') {
            None => DtoStep::Next(st),
            Some((field, idx_s)) => match parse_bounded(idx_s, 255) {
                None => DtoStep::Next(st),
                Some(idx) => if idx > 127 {
                    DtoStep::Next(st)
                } else {
                    dto_pad_entry(st, b, idx as u8, field, v, n)
                },
            },
        },
    }
}

/// One line (`n` is its 1-based number).
#[verifier::opaque]
pub open spec fn dto_step(st: DtoState, raw: Seq<char>, n: int) -> DtoStep {
    let l = trim(raw);
    if l.len() == 0 || l[0] == '#' || l[0] == ';' {
        DtoStep::Next(st)
    } else if l[0] == '[' && l.last() == ']' {
        DtoStep::Next(dto_section(st, crate::text::text_lower(trim(l.subrange(1, l.len() - 1)))))
    } else {
        match split_once(l, '=') {
            None => DtoStep::Fail(DtoError { line: n as usize, kind: DtoErrorKind::ExpectedKeyValue }),
            Some((k0, v0)) => dto_key_value(st, trim(k0), trim(v0), n),
        }
    }
}

/// The lines `ls`, numbered from `base + 1`, applied in order.
pub open spec fn dto_run(ls: Seq<Seq<char>>, st: DtoState, base: int) -> DtoStep
    decreases ls.len(),
{
    if ls.len() == 0 {
        DtoStep::Next(st)
    } else {
        match dto_step(st, ls[0], base + 1) {
            DtoStep::Next(st2) => dto_run(ls.drop_first(), st2, base + 1),
            other => other,
        }
    }
}

pub open spec fn dto_model(st: DtoState) -> DtoModel {
    DtoModel { edo: st.edo, pitch_offset: st.pitch_offset, boards: st.boards }
}

/// What reading `content` gives.
pub open spec fn parse_dto_spec(content: Seq<char>) -> DtoStep {
    dto_run(lines(content), dto_initial(), 0)
}

/// The reader: header values, the sections so far and the current one.
struct DtoBuilder {
    edo: Option<i32>,
    pitch_offset: i32,
    current: Option<usize>,
    names: Vec<String>,
    pads: Vec<HashMap<u8, PadDto>>,
}

impl DtoBuilder {
    closed spec fn wf(&self) -> bool {
        &&& self.names.len() == self.pads.len()
        &&& self.current matches Some(c) ==> c < self.names.len()
    }

    closed spec fn state(&self) -> DtoState {
        DtoState {
            edo: self.edo,
            pitch_offset: self.pitch_offset,
            current: match self.current {
                Some(c) => Some(c as int),
                None => None,
            },
            boards: Seq::new(self.names.len() as nat, |i: int| (self.names@[i]@, pads_model(self.pads@[i]@))),
        }
    }

    fn new() -> (r: Self)
        ensures
            r.wf(),
            r.state() == dto_initial(),
    {
        let r = DtoBuilder { edo: None, pitch_offset: 0, current: None, names: Vec::new(), pads: Vec::new() };
        assert(r.state().boards =~= Seq::<(Seq<char>, Map<u8, PadModel>)>::empty());
        r
    }

    fn copy_pad(p: &PadDto) -> (r: PadDto)
        ensures
            pad_model(r) == pad_model(*p),
    {
        let c = chars_of(p.color.as_str());
        PadDto { key: p.key, chan: p.chan, color: string_of(&c) }
    }

    /// A `field=v` entry for pad `idx` of board `b`; `None` when the colour
    /// text cannot be cut.
    fn pad_entry(&mut self, b: usize, idx: u8, field: &[char], v: &[char], n: usize) -> (r: Option<Result<(), DtoError>>)
        requires
            old(self).wf(),
            b < old(self).names.len(),
            old(self).current == Some(b),
        ensures
            final(self).wf(),
            match dto_pad_entry(old(self).state(), b as int, idx, field@, v@, n as int) {
                DtoStep::Next(st) => r == Some(Ok::<(), DtoError>(())) && final(self).state() == st,
                DtoStep::Fail(e) => r == Some(Err::<(), DtoError>(e)),
                DtoStep::Stuck => r is None,
            },
    {
        let ghost st = self.state();
        let mut e: PadDto = match self.pads[b].get(&idx) {
            Some(p) => Self::copy_pad(p),
            None => {
                let z = chars_of("000000");
                PadDto { key: idx, chan: 1, color: string_of(&z) }
            },
        };
        proof {
            reveal_strlit("000000");
        }
        if eq_str(field, "Key") {
            match parse_u8(v) {
                Some(x) => {
                    e.key = x;
                },
                None => {
                    return Some(Err(DtoError { line: n, kind: DtoErrorKind::BadKey }));
                },
            }
        } else if eq_str(field, "Chan") {
            match parse_u8(v) {
                Some(x) => {
                    e.chan = x;
                },
                None => {
                    return Some(Err(DtoError { line: n, kind: DtoErrorKind::BadChan }));
                },
            }
        } else if eq_str(field, "Col") {
            let vs = string_of(v);
            let upper = to_uppercase(vs.as_str());
            proof {
                reveal(crate::text::text_upper);
                assert(upper@ == crate::text::text_upper(vs@));
            }
            let u = chars_of(upper.as_str());
            let len = utf8_length(&u);
            let cut: Vec<char> = if len != 8 {
                u
            } else if u.len() >= 1 && (u[0] as u32) >= 0x80 && (u[0] as u32) < 0x800 {
                slice_of(&u, 1, u.len())
            } else if u.len() >= 2 && (u[0] as u32) < 0x80 && (u[1] as u32) < 0x80 {
                slice_of(&u, 2, u.len())
            } else {
                return None;
            };
            proof {
                if len == 8 && u@.len() >= 1 && utf8_width(u@[0]) == 2 {
                    assert(cut@ =~= u@.drop_first());
                }
                if len == 8 && u@.len() >= 2 && !(utf8_width(u@[0]) == 2) && utf8_width(u@[0]) == 1 && utf8_width(u@[1]) == 1 {
                    assert(cut@ =~= u@.skip(2));
                }
            }
            e.color = string_of(&cut);
        }
        let mut m = HashMap::new();
        std::mem::swap(&mut m, &mut self.pads[b]);
        m.insert(idx, e);
        std::mem::swap(&mut m, &mut self.pads[b]);
        proof {
            let old_pads = st.boards[b as int].1;
            assert(pads_model(self.pads@[b as int]@) =~= old_pads.insert(idx, pad_model(e)));
            assert(self.state().boards =~= st.boards.update(b as int, (st.boards[b as int].0, old_pads.insert(idx, pad_model(e)))));
        }
        Some(Ok(()))
    }

    /// A trimmed `k=v` line.
    fn key_value_line(&mut self, k: &[char], v: &[char], n: usize) -> (r: Option<Result<(), DtoError>>)
        requires
            old(self).wf(),
        ensures
            final(self).wf(),
            match dto_key_value(old(self).state(), k@, v@, n as int) {
                DtoStep::Next(st) => r == Some(Ok::<(), DtoError>(())) && final(self).state() == st,
                DtoStep::Fail(e) => r == Some(Err::<(), DtoError>(e)),
                DtoStep::Stuck => r is None,
            },
    {
        match self.current {
            None => {
                if eq_str(k, "Edo") {
                    match parse_i32(v) {
                        Some(e) => {
                            self.edo = Some(e);
                        },
                        None => {
                            return Some(Err(DtoError { line: n, kind: DtoErrorKind::BadEdo }));
                        },
                    }
                } else if eq_str(k, "PitchOffset") {
                    match parse_i32(v) {
                        Some(p) => {
                            self.pitch_offset = p;
                        },
                        None => {
                            return Some(Err(DtoError { line: n, kind: DtoErrorKind::BadPitchOffset }));
                        },
                    }
                }
                Some(Ok(()))
            },
            Some(b) => {
                let (field, idx_s) = match rsplit_once_chars(k, '_') {
                    Some(p) => p,
                    None => {
                        return Some(Ok(()));
                    },
                };
                let idx = match parse_u8(&idx_s) {
                    Some(x) => x,
                    None => {
                        return Some(Ok(()));
                    },
                };
                if idx > 127 {
                    return Some(Ok(()));
                }
                self.pad_entry(b, idx, &field, v, n)
            },
        }
    }

    /// One raw line.
    fn line(&mut self, raw: &[char], n: usize) -> (r: Option<Result<(), DtoError>>)
        requires
            old(self).wf(),
        ensures
            final(self).wf(),
            match dto_step(old(self).state(), raw@, n as int) {
                DtoStep::Next(st) => r == Some(Ok::<(), DtoError>(())) && final(self).state() == st,
                DtoStep::Fail(e) => r == Some(Err::<(), DtoError>(e)),
                DtoStep::Stuck => r is None,
            },
    {
        reveal(dto_step);
        let l = trim_chars(raw);
        let len = l.len();
        if len == 0 || l[0] == '#' || l[0] == ';' {
            return Some(Ok(()));
        }
        if l[0] == '[' && l[len - 1] == ']' {
            let inner = slice_of(&l, 1, len - 1);
            let t = trim_chars(&inner);
            let ts = string_of(&t);
            let name = to_lowercase(ts.as_str());
            self.section(name);
            return Some(Ok(()));
        }
        match split_once_chars(&l, '=') {
            Some((k0, v0)) => {
                let k = trim_chars(&k0);
                let v = trim_chars(&v0);
                self.key_value_line(&k, &v, n)
            },
            None => Some(Err(DtoError { line: n, kind: DtoErrorKind::ExpectedKeyValue })),
        }
    }

    fn finish(self) -> (r: LayoutDto)
        requires
            self.wf(),
        ensures
            r@ == dto_model(self.state()),
    {
        let ghost st = self.state();
        let mut boards: Vec<(String, HashMap<u8, PadDto>)> = Vec::new();
        let mut names = self.names;
        let mut pads = self.pads;
        assert(names@.len() == pads@.len());
        let ghost names0 = names@;
        let ghost pads0 = pads@;
        let ghost mut i: int = 0;
        while names.len() > 0
            invariant
                names@.len() == pads@.len(),
                0 <= i,
                i + names@.len() == names0.len(),
                names0.len() == pads0.len(),
                names@ == names0.skip(i),
                pads@ == pads0.skip(i),
                st.boards.len() == names0.len(),
                forall|j: int| 0 <= j < names0.len() ==> (#[trigger] st.boards[j]) == (names0[j]@, pads_model(pads0[j]@)),
                boards@.map_values(|b: (String, HashMap<u8, PadDto>)| (b.0@, pads_model(b.1@))) == st.boards.take(i),
            decreases names@.len(),
        {
            let ghost nb = names@;
            let ghost pb = pads@;
            let name = names.remove(0);
            let pm = pads.remove(0);
            let ghost before = boards@;
            proof {
                assert(nb[0] == name);
                assert(pb[0] == pm);
                assert(names@ =~= nb.remove(0));
                assert(names@ =~= names0.skip(i + 1));
                assert(pads@ =~= pads0.skip(i + 1));
            }
            boards.push((name, pm));
            proof {
                assert(st.boards.take(i + 1) =~= st.boards.take(i).push(st.boards[i]));
                assert(boards@.map_values(|b: (String, HashMap<u8, PadDto>)| (b.0@, pads_model(b.1@))) =~= before.map_values(
                    |b: (String, HashMap<u8, PadDto>)| (b.0@, pads_model(b.1@)),
                ).push(st.boards[i]));
            }
            proof {
                i = i + 1;
            }
        }
        assert(st.boards.take(i) =~= st.boards);
        LayoutDto { edo: self.edo, pitch_offset: self.pitch_offset, boards }
    }

    fn section(&mut self, name: String)
        requires
            old(self).wf(),
        ensures
            final(self).wf(),
            final(self).state() == dto_section(old(self).state(), name@),
    {
        let ghost st = self.state();
        let nv = chars_of(name.as_str());
        let mut i: usize = 0;
        while i < self.names.len()
            invariant
                i <= self.names.len(),
                self.wf(),
                self.state() == st,
                st == old(self).state(),
                nv@ == name@,
                forall|j: int| 0 <= j < i ==> st.boards[j].0 != name@,
            decreases self.names.len() - i,
        {
            let cv = chars_of(self.names[i].as_str());
            if crate::text::chars_eq(&cv, &nv) {
                proof {
                    assert(first_named(st.boards, name@, i as int));
                    let k = choose|k: int| first_named(st.boards, name@, k);
                    if k < i {
                        assert(st.boards[k].0 != name@);
                    }
                    if i < k {
                        assert(st.boards[i as int].0 != name@);
                    }
                }
                self.current = Some(i);
                assert(self.state() == dto_section(st, name@));
                return;
            }
            i = i + 1;
        }
        proof {
            if exists|k: int| first_named(st.boards, name@, k) {
                let k = choose|k: int| first_named(st.boards, name@, k);
                assert(st.boards[k].0 != name@);
            }
        }
        let n = self.names.len();
        self.names.push(name);
        self.pads.push(HashMap::new());
        self.current = Some(n);
        proof {
            assert(pads_model(Map::<u8, PadDto>::empty()) =~= Map::<u8, PadModel>::empty());
            assert(self.state().boards =~= st.boards.push((name@, Map::<u8, PadModel>::empty())));
        }
    }
}

fn dto_parse(content: &str) -> (r: Option<Result<LayoutDto, DtoError>>)
    ensures
        match parse_dto_spec(content@) {
            DtoStep::Next(st) => r matches Some(Ok(d)) && d@ == dto_model(st),
            DtoStep::Fail(e) => r == Some(Err::<LayoutDto, DtoError>(e)),
            DtoStep::Stuck => r is None,
        },
{
    let chars = chars_of(content);
    let ls = split_lines(&chars);
    let ghost all = lines(content@);
    let mut bl = DtoBuilder::new();
    let mut i: usize = 0;
    assert(all.skip(0) =~= all);
    while i < ls.len()
        invariant
            all == lines(content@),
            ls@.len() == all.len(),
            forall|j: int| 0 <= j < ls@.len() ==> (#[trigger] ls@[j])@ == all[j],
            i <= ls@.len(),
            bl.wf(),
            dto_run(all, dto_initial(), 0) == dto_run(all.skip(i as int), bl.state(), i as int),
        decreases ls@.len() - i,
    {
        let ghost rest = all.skip(i as int);
        let ghost st0 = bl.state();
        assert(rest[0] == all[i as int]);
        assert(rest.drop_first() =~= all.skip(i + 1));
        match bl.line(&ls[i], i + 1) {
            Some(Ok(())) => {},
            Some(Err(e)) => {
                return Some(Err(e));
            },
            None => {
                return None;
            },
        }
        i += 1;
    }
    assert(all.skip(i as int) =~= Seq::<Seq<char>>::empty());
    Some(Ok(bl.finish()))
}

/// Read an `.xtn` text for the editor: `Edo` and `PitchOffset` before any
/// section, `[name]` sections (lower-cased) of `Key_N`, `Chan_N`, `Col_N`
/// entries for `N` up to 127 (a pad starts as key `N`, channel 1, black;
/// `AARRGGBB` colours lose their alpha), comments `#`/`;`. Errors: a line
/// without `=`, or a header or pad number that does not read.
spec fn dto_state_ok(st: DtoState) -> bool {
    &&& crate::xtn::board_names_unique(st.boards)
    &&& st.current matches Some(b) ==> 0 <= b < st.boards.len()
}

proof fn lemma_same_names(st: DtoState, st2: DtoState)
    requires
        dto_state_ok(st),
        st2.current == st.current,
        st2.boards.len() == st.boards.len(),
        forall|i: int| 0 <= i < st.boards.len() ==> (#[trigger] st2.boards[i]).0 == st.boards[i].0,
    ensures
        dto_state_ok(st2),
{
    assert forall|i: int, j: int| 0 <= i < j < st2.boards.len() implies (#[trigger] st2.boards[i]).0
        != (#[trigger] st2.boards[j]).0 by {
        assert(st2.boards[i].0 == st.boards[i].0 && st2.boards[j].0 == st.boards[j].0);
    }
}

proof fn lemma_dto_pad_entry_ok(st: DtoState, b: int, idx: u8, field: Seq<char>, v: Seq<char>, n: int)
    requires
        dto_state_ok(st),
        st.current == Some(b),
    ensures
        dto_pad_entry(st, b, idx, field, v, n) matches DtoStep::Next(st2) ==> dto_state_ok(st2),
{
    let pads = st.boards[b].1;
    let e = if pads.contains_key(idx) { pads[idx] } else { default_pad(idx) };
    assert forall|p: PadModel| #![auto] dto_state_ok(DtoState {
        boards: st.boards.update(b, (st.boards[b].0, pads.insert(idx, p))),
        ..st
    }) by {
        let st2 = DtoState { boards: st.boards.update(b, (st.boards[b].0, pads.insert(idx, p))), ..st };
        assert forall|i: int| 0 <= i < st.boards.len() implies (#[trigger] st2.boards[i]).0 == st.boards[i].0 by {}
        lemma_same_names(st, st2);
    }
}

proof fn lemma_dto_step_ok(st: DtoState, raw: Seq<char>, n: int)
    requires
        dto_state_ok(st),
    ensures
        dto_step(st, raw, n) matches DtoStep::Next(st2) ==> dto_state_ok(st2),
{
    reveal(dto_step);
    let l = trim(raw);
    if l.len() > 0 && l[0] == '[' && l.last() == ']' {
        let name = crate::text::text_lower(trim(l.subrange(1, l.len() - 1)));
        assert(dto_step(st, raw, n) == DtoStep::Next(dto_section(st, name)));
        if exists|i: int| first_named(st.boards, name, i) {
            let c = choose|i: int| first_named(st.boards, name, i);
            assert(dto_state_ok(dto_section(st, name)));
        } else {
            assert forall|i: int| 0 <= i < st.boards.len() implies st.boards[i].0 != name by {
                if st.boards[i].0 == name {
                    assert(first_named(st.boards, name, i));
                }
            }
            let b2 = st.boards.push((name, Map::empty()));
            assert forall|i: int, j: int| 0 <= i < j < b2.len() implies (#[trigger] b2[i]).0 != (#[trigger] b2[j]).0 by {
                if j < st.boards.len() {
                    assert(b2[i] == st.boards[i] && b2[j] == st.boards[j]);
                } else {
                    assert(b2[i] == st.boards[i]);
                }
            }
        }
    } else if !(l.len() == 0 || l[0] == '#' || l[0] == ';') {
        if let Some((k0, v0)) = split_once(l, '=') {
            if let Some(b) = st.current {
                let k = trim(k0);
                if let Some((field, idx_s)) = rsplit_once(k, '_') {
                    if let Some(idx) = parse_bounded(idx_s, 255) {
                        if idx <= 127 {
                            lemma_dto_pad_entry_ok(st, b, idx as u8, field, trim(v0), n);
                        }
                    }
                }
            }
        }
    }
}

proof fn lemma_dto_run_ok(ls: Seq<Seq<char>>, st: DtoState, base: int)
    requires
        dto_state_ok(st),
    ensures
        dto_run(ls, st, base) matches DtoStep::Next(st2) ==> dto_state_ok(st2),
    decreases ls.len(),
{
    if ls.len() > 0 {
        lemma_dto_step_ok(st, ls[0], base + 1);
        if let DtoStep::Next(st2) = dto_step(st, ls[0], base + 1) {
            lemma_dto_run_ok(ls.drop_first(), st2, base + 1);
        }
    }
}

/// What the editor reads names each board once: a section that repeats a
/// name goes back to that board.
pub proof fn lemma_dto_names_unique(content: Seq<char>)
    ensures
        parse_dto_spec(content) matches DtoStep::Next(st) ==> crate::xtn::board_names_unique(st.boards),
{
    lemma_dto_run_ok(lines(content), dto_initial(), 0);
}

pub fn parse_dto(content: &str) -> (r: Result<LayoutDto, DtoError>)
    requires
        !(parse_dto_spec(content@) is Stuck),
    ensures
        match parse_dto_spec(content@) {
            DtoStep::Next(st) => r matches Ok(d) && d@ == dto_model(st),
            DtoStep::Fail(e) => r == Err::<LayoutDto, DtoError>(e),
            DtoStep::Stuck => false,
        },
        r matches Ok(d) ==> crate::xtn::board_names_unique(d@.boards),
{
    proof {
        lemma_dto_names_unique(content@);
    }
    match dto_parse(content) {
        Some(r) => r,
        None => vstd::pervasive::unreached(),
    }
}

/// `parse_dto` where it is defined; `None` for a text with a colour of
/// eight bytes whose first two bytes end inside a character.
pub fn parse_dto_checked(content: &str) -> (r: Option<Result<LayoutDto, DtoError>>)
    ensures
        match parse_dto_spec(content@) {
            DtoStep::Next(st) => r matches Some(Ok(d)) && d@ == dto_model(st),
            DtoStep::Fail(e) => r == Some(Err::<LayoutDto, DtoError>(e)),
            DtoStep::Stuck => r is None,
        },
        r matches Some(Ok(d)) ==> crate::xtn::board_names_unique(d@.boards),
{
    match dto_parse(content) {
        Some(_) => Some(parse_dto(content)),
        None => None,
    }
}

// ---------------------------------------------------------------------------
// Writing
// ---------------------------------------------------------------------------

/// The three lines of pad `i`, its colour text upper-cased.
pub open spec fn dto_pad_lines(i: nat, p: PadModel) -> Seq<Seq<char>> {
    seq![
        entry_line("Key"@, i, dec_digits(p.0 as nat)),
        entry_line("Chan"@, i, dec_digits(p.1 as nat)),
        entry_line("Col"@, i, crate::text::text_upper(p.2)),
    ]
}

/// The lines of the pads with index below `k`, by index.
pub open spec fn dto_pads_lines(pads: Map<u8, PadModel>, k: nat) -> Seq<Seq<char>>
    decreases k,
{
    if k == 0 {
        Seq::empty()
    } else {
        let i = (k - 1) as nat;
        dto_pads_lines(pads, i) + if pads.contains_key(i as u8) {
            dto_pad_lines(i, pads[i as u8])
        } else {
            Seq::empty()
        }
    }
}

/// The boards in `order`, a blank line between two boards.
pub open spec fn dto_boards_lines(bs: Seq<(Seq<char>, Map<u8, PadModel>)>, order: Seq<int>) -> Seq<Seq<char>>
    decreases order.len(),
{
    if order.len() == 0 {
        Seq::empty()
    } else {
        let b = bs[order.last()];
        dto_boards_lines(bs, order.drop_last())
            + (if order.len() > 1 { seq![Seq::<char>::empty()] } else { Seq::empty() })
            + seq![xtn_header(b.0)] + dto_pads_lines(b.1, 256)
    }
}

/// The lines `write_dto_string` produces: `Edo` (if set), `PitchOffset`, a
/// blank line, then the boards by number and name.
pub open spec fn dto_text_lines(m: DtoModel) -> Seq<Seq<char>> {
    let names = m.boards.map_values(|b: (Seq<char>, Map<u8, PadModel>)| b.0);
    (match m.edo {
        Some(e) => seq!["Edo="@ + dec_signed(e as int)],
        None => seq![],
    }) + seq!["PitchOffset="@ + dec_signed(m.pitch_offset as int), Seq::empty()]
        + dto_boards_lines(m.boards, name_order(names, m.boards.len() as int))
}

fn push_entry(out: &mut Vec<char>, name: &str, i: usize, value: &[char], Ghost(ls): Ghost<Seq<Seq<char>>>)
    requires
        old(out)@ == join_lines(ls),
    ensures
        final(out)@ == join_lines(ls.push(entry_line(name@, i as nat, value@))),
{
    let mut l: Vec<char> = Vec::new();
    push_str(&mut l, name);
    l.push('_');
    push_dec(&mut l, i as u64);
    l.push('=');
    push_all(&mut l, value);
    assert(l@ =~= entry_line(name@, i as nat, value@));
    push_line(out, &l, Ghost(ls));
}

/// The `[BoardN]` header line of a board name.
fn header_line(name: &Vec<char>) -> (h: Vec<char>)
    ensures
        h@ == xtn_header(name@),
{
    let mut h: Vec<char> = Vec::new();
    h.push('[');
    if name.len() >= 5 && name[0] == 'b' && name[1] == 'o' && name[2] == 'a' && name[3] == 'r' && name[4] == 'd' {
        h.push('B');
        h.push('o');
        h.push('a');
        h.push('r');
        h.push('d');
        let rest = slice_of(name, 5, name.len());
        push_all(&mut h, &rest);
        assert(name@.take(5) =~= board_word());
        assert(rest@ =~= name@.skip(5));
    } else {
        push_all(&mut h, name);
        proof {
            if starts_with(name@, board_word()) {
                assert(name@.take(5)[0] == 'b' && name@.take(5)[1] == 'o' && name@.take(5)[2] == 'a'
                    && name@.take(5)[3] == 'r' && name@.take(5)[4] == 'd');
            }
        }
    }
    h.push(']');
    assert(h@ =~= xtn_header(name@));
    h
}

fn push_pads(out: &mut Vec<char>, pads: &HashMap<u8, PadDto>, Ghost(ls): Ghost<Seq<Seq<char>>>)
    requires
        old(out)@ == join_lines(ls),
    ensures
        final(out)@ == join_lines(ls + dto_pads_lines(pads_model(pads@), 256)),
{
    let ghost mut cur = ls;
    let mut idx: u16 = 0;
    while idx < 256
        invariant
            idx <= 256,
            out@ == join_lines(cur),
            cur == ls + dto_pads_lines(pads_model(pads@), idx as nat),
        decreases 256 - idx,
    {
        let iu = idx as u8;
        let ghost before = cur;
        match pads.get(&iu) {
            Some(p) => {
                let kd = fmt_u64(p.key as u64);
                push_entry(out, "Key", idx as usize, &kd, Ghost(cur));
                proof {
                    cur = cur.push(entry_line("Key"@, idx as nat, kd@));
                }
                let cd = fmt_u64(p.chan as u64);
                push_entry(out, "Chan", idx as usize, &cd, Ghost(cur));
                proof {
                    cur = cur.push(entry_line("Chan"@, idx as nat, cd@));
                }
                let up = to_uppercase(p.color.as_str());
                proof {
                    reveal(crate::text::text_upper);
                    assert(up@ == crate::text::text_upper(p.color@));
                }
                let uc = chars_of(up.as_str());
                push_entry(out, "Col", idx as usize, &uc, Ghost(cur));
                proof {
                    cur = cur.push(entry_line("Col"@, idx as nat, uc@));
                    assert(iu as nat == idx as nat);
                    assert(pads_model(pads@)[iu] == pad_model(*p));
                    assert(cur =~= before + dto_pad_lines(idx as nat, pad_model(*p)));
                }
            },
            None => {},
        }
        idx = idx + 1;
        assert(cur =~= ls + dto_pads_lines(pads_model(pads@), idx as nat));
    }
}

/// Write a layout as `.xtn` text, keeping each colour's text (upper-cased):
/// `Edo` (if set), `PitchOffset`, a blank line, then each board by number
/// and name as `[BoardN]` and its pads' `Key_i`, `Chan_i`, `Col_i` by
/// index, a blank line between boards.
pub fn write_dto_string(dto: &LayoutDto) -> (r: String)
    ensures
        r@ == join_lines(dto_text_lines(dto@)),
{
    let mut out: Vec<char> = Vec::new();
    let ghost mut ls: Seq<Seq<char>> = seq![];
    if let Some(e) = dto.edo {
        let mut l: Vec<char> = Vec::new();
        push_str(&mut l, "Edo=");
        let d = fmt_i64(e as i64);
        push_all(&mut l, &d);
        push_line(&mut out, &l, Ghost(ls));
        proof {
            ls = ls.push(l@);
        }
    }
    let mut l: Vec<char> = Vec::new();
    push_str(&mut l, "PitchOffset=");
    let d = fmt_i64(dto.pitch_offset as i64);
    push_all(&mut l, &d);
    push_line(&mut out, &l, Ghost(ls));
    proof {
        ls = ls.push(l@);
    }
    let empty: Vec<char> = Vec::new();
    push_line(&mut out, &empty, Ghost(ls));
    proof {
        ls = ls.push(empty@);
        assert(ls =~= (match dto@.edo {
            Some(e) => seq!["Edo="@ + dec_signed(e as int)],
            None => seq![],
        }) + seq!["PitchOffset="@ + dec_signed(dto@.pitch_offset as int), Seq::<char>::empty()]);
    }
    let ghost bs = dto@.boards;
    let ghost head = ls;
    let mut names: Vec<Vec<char>> = Vec::new();
    let mut k: usize = 0;
    while k < dto.boards.len()
        invariant
            k <= dto.boards.len(),
            bs == dto@.boards,
            names.len() == k,
            forall|j: int| 0 <= j < k ==> (#[trigger] names[j])@ == bs[j].0,
        decreases dto.boards.len() - k,
    {
        names.push(chars_of(dto.boards[k].0.as_str()));
        k = k + 1;
    }
    assert(names@.map_values(|v: Vec<char>| v@) =~= bs.map_values(|b: (Seq<char>, Map<u8, PadModel>)| b.0));
    let order = order_names(&names);
    let ghost ord = order@.map_values(|x: usize| x as int);
    let mut j: usize = 0;
    while j < order.len()
        invariant
            j <= order.len(),
            bs == dto@.boards,
            names.len() == dto.boards.len(),
            forall|q: int| 0 <= q < names.len() ==> (#[trigger] names[q])@ == bs[q].0,
            ord == order@.map_values(|x: usize| x as int),
            forall|q: int| 0 <= q < order.len() ==> #[trigger] order[q] < dto.boards.len(),
            out@ == join_lines(ls),
            ls == head + dto_boards_lines(bs, ord.take(j as int)),
        decreases order.len() - j,
    {
        let bi = order[j];
        let ghost ls0 = ls;
        if j > 0 {
            let e2: Vec<char> = Vec::new();
            push_line(&mut out, &e2, Ghost(ls));
            proof {
                ls = ls.push(e2@);
            }
        }
        let h = header_line(&names[bi]);
        push_line(&mut out, &h, Ghost(ls));
        proof {
            ls = ls.push(h@);
        }
        let ghost ls1 = ls;
        push_pads(&mut out, &dto.boards[bi].1, Ghost(ls));
        proof {
            ls = ls1 + dto_pads_lines(pads_model(dto.boards@[bi as int].1@), 256);
            assert(ord.take(j + 1).drop_last() =~= ord.take(j as int));
            assert(ord.take(j + 1).last() == bi as int);
            assert(ls =~= ls0 + (if j > 0 { seq![Seq::<char>::empty()] } else { Seq::<Seq<char>>::empty() })
                + seq![xtn_header(bs[bi as int].0)] + dto_pads_lines(bs[bi as int].1, 256));
        }
        j = j + 1;
    }
    assert(ord.take(order.len() as int) =~= ord);
    assert(ord == name_order(bs.map_values(|b: (Seq<char>, Map<u8, PadModel>)| b.0), bs.len() as int));
    assert(ls =~= dto_text_lines(dto@));
    string_of(&out)
}

// ---------------------------------------------------------------------------
// Importing a layout onto a geometry
// ---------------------------------------------------------------------------

/// An uploaded layout file and its kind (`ltn`, `wtn` or `xtn`).
#[derive(Debug, Clone)]
pub struct ImportRequest {
    pub content: String,
    pub kind: String,
}

/// A pad of an imported layout placed on the hex lattice.
#[derive(Debug, Clone)]
pub struct ImportedPad {
    pub src_board: u8,
    pub src_pad: u8,
    pub x: i32,
    pub y: i32,
    pub key: u8,
    pub chan: u8,
    pub color: String,
}

/// The pads of an imported layout and its header values.
#[derive(Debug, Clone)]
pub struct ImportResponse {
    pub pads: Vec<ImportedPad>,
    pub edo: Option<i32>,
    pub pitch_offset: i32,
}

/// An imported pad as values.
pub type ImportedModel = (u8, u8, int, int, u8, u8, Seq<char>);

pub open spec fn imported_model(p: ImportedPad) -> ImportedModel {
    (p.src_board, p.src_pad, p.x as int, p.y as int, p.key, p.chan, p.color@)
}

/// The boards of the geometry a (lower-cased) kind names: Lumatone for
/// `ltn`, Wooting for `wtn`, one Exquis board otherwise.
pub open spec fn kind_geometry(kind: Seq<char>) -> Seq<Seq<(u8, i32, i32)>> {
    if kind == "ltn"@ {
        Seq::new(5, |k: int| ltn_board(k))
    } else if kind == "wtn"@ {
        seq![WTN_BOARD0_TUPLES@, WTN_BOARD1_TUPLES@]
    } else {
        seq![exquis_board(0)]
    }
}

/// `m` is the largest row of the geometry.
pub open spec fn is_max_row(geom: Seq<Seq<(u8, i32, i32)>>, m: int) -> bool {
    &&& exists|b: int, i: int| 0 <= b < geom.len() && 0 <= i < geom[b].len() && #[trigger] geom[b][i].1 == m
    &&& forall|b: int, i: int| 0 <= b < geom.len() && 0 <= i < geom[b].len() ==> #[trigger] geom[b][i].1 <= m
}

/// The row an imported pad lands on: geometries drawn with row 0 at the
/// top (`ltn`, `wtn`) are turned upside down against their largest row.
pub open spec fn import_row(kind: Seq<char>, x: int) -> int {
    if kind == "ltn"@ || kind == "wtn"@ {
        (choose|m: int| is_max_row(kind_geometry(kind), m)) - x
    } else {
        x
    }
}

/// The first board called `name`, if any.
pub open spec fn board_named(bs: Seq<(Seq<char>, Map<u8, PadModel>)>, name: Seq<char>) -> Option<Map<u8, PadModel>> {
    if exists|i: int| first_named(bs, name, i) {
        Some(bs[choose|i: int| first_named(bs, name, i)].1)
    } else {
        None
    }
}

/// The pads of board `b` found on its geometry cells `g`, in cell order.
pub open spec fn import_cells(
    kind: Seq<char>,
    pads: Map<u8, PadModel>,
    b: int,
    g: Seq<(u8, i32, i32)>,
) -> Seq<ImportedModel>
    decreases g.len(),
{
    if g.len() == 0 {
        Seq::empty()
    } else {
        let t = g.last();
        import_cells(kind, pads, b, g.drop_last()) + if pads.contains_key(t.0) {
            let p = pads[t.0];
            seq![(b as u8, t.0, import_row(kind, t.1 as int), t.2 as int, p.0, p.1, p.2)]
        } else {
            Seq::empty()
        }
    }
}

/// The name `boardN`.
pub open spec fn board_name(b: nat) -> Seq<char> {
    "board"@ + dec_digits(b)
}

/// The imported pads of the first `k` boards of the geometry.
pub open spec fn import_boards(kind: Seq<char>, bs: Seq<(Seq<char>, Map<u8, PadModel>)>, k: int) -> Seq<ImportedModel>
    decreases k,
{
    if k <= 0 {
        Seq::empty()
    } else {
        let g = kind_geometry(kind);
        import_boards(kind, bs, k - 1) + match board_named(bs, board_name((k - 1) as nat)) {
            Some(pads) => import_cells(kind, pads, k - 1, g[k - 1]),
            None => Seq::empty(),
        }
    }
}

/// What importing a read layout onto the geometry of `kind` gives.
pub open spec fn import_spec(kind: Seq<char>, m: DtoModel) -> Seq<ImportedModel> {
    import_boards(kind, m.boards, kind_geometry(kind).len() as int)
}

proof fn lemma_exquis_rows(p: int)
    requires
        0 <= p < 61,
    ensures
        0 <= exquis_board(0)[p].1 <= 10,
        exquis_board(0)[p].0 == p,
{
    crate::geometry::lemma_exquis_pad_within_board(p);
}

/// The geometry boards of a (lower-cased) kind.
fn geometry_for(kind: &Vec<char>) -> (r: Vec<Vec<(u8, i32, i32)>>)
    ensures
        r@.len() == kind_geometry(kind@).len(),
        forall|b: int| 0 <= b < r@.len() ==> (#[trigger] r@[b])@ == kind_geometry(kind@)[b],
{
    proof {
        reveal_strlit("ltn");
        reveal_strlit("wtn");
    }
    if eq_str(kind.as_slice(), "ltn") {
        let r = ltn_boards_tuples();
        return r;
    }
    if eq_str(kind.as_slice(), "wtn") {
        return wtn_boards_tuples();
    }
    let keys = exquis_board_tuples(0);
    let mut t: Vec<(u8, i32, i32)> = Vec::new();
    let mut i: usize = 0;
    while i < keys.len()
        invariant
            i <= keys.len(),
            keys.len() == 61,
            forall|p: int|
                0 <= p < 61 ==> {
                    &&& (#[trigger] keys@[p]).key == p
                    &&& keys@[p].x == crate::geometry::exquis_x(0, p)
                    &&& keys@[p].y == crate::geometry::exquis_y(0, p)
                },
            t@.len() == i,
            forall|p: int| 0 <= p < i ==> #[trigger] t@[p] == exquis_board(0)[p],
        decreases keys.len() - i,
    {
        let k = keys[i];
        proof {
            crate::geometry::lemma_exquis_pad_within_board(i as int);
        }
        t.push((k.key, k.x, k.y));
        i = i + 1;
    }
    assert(t@ =~= exquis_board(0));
    let mut r: Vec<Vec<(u8, i32, i32)>> = Vec::new();
    r.push(t);
    r
}

/// The largest row of a non-empty geometry.
fn max_row(geom: &Vec<Vec<(u8, i32, i32)>>) -> (m: i32)
    requires
        geom@.len() > 0,
        geom@[0]@.len() > 0,
    ensures
        is_max_row(geom@.map_values(|g: Vec<(u8, i32, i32)>| g@), m as int),
{
    let ghost gs = geom@.map_values(|g: Vec<(u8, i32, i32)>| g@);
    let mut m: i32 = geom[0][0].1;
    let ghost mut wb: int = 0;
    let ghost mut wi: int = 0;
    let mut b: usize = 0;
    while b < geom.len()
        invariant
            b <= geom@.len(),
            gs == geom@.map_values(|g: Vec<(u8, i32, i32)>| g@),
            0 <= wb < gs.len() && 0 <= wi < gs[wb].len() && gs[wb][wi].1 == m,
            forall|c: int, i: int| 0 <= c < b && 0 <= i < gs[c].len() ==> #[trigger] gs[c][i].1 <= m,
            geom@.len() > 0 && geom@[0]@.len() > 0,
        decreases geom@.len() - b,
    {
        let mut i: usize = 0;
        while i < geom[b].len()
            invariant
                b < geom@.len(),
                i <= geom@[b as int]@.len(),
                gs == geom@.map_values(|g: Vec<(u8, i32, i32)>| g@),
                0 <= wb < gs.len() && 0 <= wi < gs[wb].len() && gs[wb][wi].1 == m,
                forall|c: int, j: int| 0 <= c < b && 0 <= j < gs[c].len() ==> #[trigger] gs[c][j].1 <= m,
                forall|j: int| 0 <= j < i ==> #[trigger] gs[b as int][j].1 <= m,
            decreases geom@[b as int]@.len() - i,
        {
            let x = geom[b][i].1;
            if x > m {
                m = x;
                proof {
                    wb = b as int;
                    wi = i as int;
                }
            }
            i = i + 1;
        }
        b = b + 1;
    }
    proof {
        assert(gs[wb][wi].1 == m);
    }
    m
}

spec fn wtn_rows_ok_upto(t: Seq<(u8, i32, i32)>, n: nat) -> bool
    decreases n,
{
    n == 0 || (0 <= t[n - 1].1 <= 7 && wtn_rows_ok_upto(t, (n - 1) as nat))
}

proof fn lemma_rows_upto(t: Seq<(u8, i32, i32)>, n: nat, i: int)
    requires
        wtn_rows_ok_upto(t, n),
        0 <= i < n,
    ensures
        0 <= t[i].1 <= 7,
    decreases n,
{
    if i < n - 1 {
        lemma_rows_upto(t, (n - 1) as nat, i);
    }
}

/// Every row of every geometry lies in `0..=18`.
proof fn lemma_geometry_rows(kind: Seq<char>, b: int, i: int)
    requires
        0 <= b < kind_geometry(kind).len(),
        0 <= i < kind_geometry(kind)[b].len(),
    ensures
        0 <= kind_geometry(kind)[b][i].1 <= 18,
{
    if kind == "ltn"@ {
        crate::geometry::lemma_ltn_board0_cells_pub(i);
        let t = crate::geometry::LTN_BOARD0_TUPLES@[i];
        assert(ltn_board(b)[i] == (t.0, (t.1 + 2 * b) as i32, (t.2 + 12 * b) as i32));
    } else if kind == "wtn"@ {
        assert(wtn_rows_ok_upto(WTN_BOARD0_TUPLES@, 53)) by {
            reveal_with_fuel(wtn_rows_ok_upto, 54);
        }
        assert(wtn_rows_ok_upto(WTN_BOARD1_TUPLES@, 53)) by {
            reveal_with_fuel(wtn_rows_ok_upto, 54);
        }
        if b == 0 {
            lemma_rows_upto(WTN_BOARD0_TUPLES@, 53, i);
        } else {
            lemma_rows_upto(WTN_BOARD1_TUPLES@, 53, i);
        }
    } else {
        lemma_exquis_rows(i);
    }
}

proof fn lemma_max_row_unique(geom: Seq<Seq<(u8, i32, i32)>>, m: int)
    requires
        is_max_row(geom, m),
    ensures
        (choose|x: int| is_max_row(geom, x)) == m,
{
    let c = choose|x: int| is_max_row(geom, x);
    assert(is_max_row(geom, c));
    let (b1, i1) = choose|b: int, i: int| 0 <= b < geom.len() && 0 <= i < geom[b].len() && #[trigger] geom[b][i].1 == m;
    let (b2, i2) = choose|b: int, i: int| 0 <= b < geom.len() && 0 <= i < geom[b].len() && #[trigger] geom[b][i].1 == c;
    assert(geom[b1][i1].1 <= c);
    assert(geom[b2][i2].1 <= m);
}

/// The text `boardN`.
fn board_name_exec(b: usize) -> (r: Vec<char>)
    ensures
        r@ == board_name(b as nat),
{
    let mut r: Vec<char> = Vec::new();
    push_str(&mut r, "board");
    push_dec(&mut r, b as u64);
    r
}

/// Index of the first board called `name`.
fn find_board(layout: &LayoutDto, name: &Vec<char>) -> (r: Option<usize>)
    ensures
        match r {
            Some(j) => j < layout.boards@.len() && first_named(layout@.boards, name@, j as int),
            None => !exists|i: int| #[trigger] first_named(layout@.boards, name@, i),
        },
{
    let ghost bs = layout@.boards;
    let mut j: usize = 0;
    while j < layout.boards.len()
        invariant
            j <= layout.boards@.len(),
            bs == layout@.boards,
            forall|k: int| 0 <= k < j ==> bs[k].0 != name@,
        decreases layout.boards@.len() - j,
    {
        let c = chars_of(layout.boards[j].0.as_str());
        if crate::text::chars_eq(&c, name) {
            return Some(j);
        }
        j = j + 1;
    }
    proof {
        if exists|i: int| first_named(bs, name@, i) {
            let i = choose|i: int| first_named(bs, name@, i);
            assert(bs[i].0 != name@);
        }
    }
    None
}

/// The pads of board `b` on its cells `g`.
fn import_board_cells(
    out: &mut Vec<ImportedPad>,
    pads: &HashMap<u8, PadDto>,
    b: usize,
    g: &Vec<(u8, i32, i32)>,
    flip: bool,
    top: i32,
    Ghost(kind): Ghost<Seq<char>>,
)
    requires
        b < 5,
        b < kind_geometry(kind).len(),
        g@ == kind_geometry(kind)[b as int],
        flip == (kind == "ltn"@ || kind == "wtn"@),
        flip ==> is_max_row(kind_geometry(kind), top as int),
        0 <= top <= 18,
    ensures
        final(out)@.map_values(|p: ImportedPad| imported_model(p)) == old(out)@.map_values(|p: ImportedPad| imported_model(p))
            + import_cells(kind, pads_model(pads@), b as int, g@),
{
    let ghost start = out@.map_values(|p: ImportedPad| imported_model(p));
    proof {
        if flip {
            lemma_max_row_unique(kind_geometry(kind), top as int);
        }
    }
    let mut i: usize = 0;
    while i < g.len()
        invariant
            i <= g@.len(),
            b < 5,
            b < kind_geometry(kind).len(),
            g@ == kind_geometry(kind)[b as int],
            flip == (kind == "ltn"@ || kind == "wtn"@),
            flip ==> (choose|m: int| is_max_row(kind_geometry(kind), m)) == top,
            0 <= top <= 18,
            out@.map_values(|p: ImportedPad| imported_model(p)) == start + import_cells(kind, pads_model(pads@), b as int, g@.take(i as int)),
        decreases g@.len() - i,
    {
        let (pad, x, y) = g[i];
        proof {
            lemma_geometry_rows(kind, b as int, i as int);
            assert(g@.take(i + 1).drop_last() =~= g@.take(i as int));
            assert(g@.take(i + 1).last() == (pad, x, y));
        }
        let ghost before = out@;
        match pads.get(&pad) {
            Some(p) => {
                let c = chars_of(p.color.as_str());
                let row = if flip { top - x } else { x };
                out.push(ImportedPad { src_board: b as u8, src_pad: pad, x: row, y, key: p.key, chan: p.chan, color: string_of(&c) });
                proof {
                    assert(pads_model(pads@)[pad] == pad_model(*p));
                    assert(out@.map_values(|p: ImportedPad| imported_model(p)) =~= before.map_values(|p: ImportedPad| imported_model(p)).push(
                        (b as u8, pad, import_row(kind, x as int), y as int, p.key, p.chan, p.color@),
                    ));
                }
            },
            None => {},
        }
        i = i + 1;
    }
    assert(g@.take(g@.len() as int) =~= g@);
}

fn import_layout(layout: &LayoutDto, kind: &str) -> (r: Vec<ImportedPad>)
    ensures
        r@.map_values(|p: ImportedPad| imported_model(p)) == import_spec(unicode_lower(kind@), layout@),
{
    let lower = to_lowercase(kind);
    let kl = chars_of(lower.as_str());
    let ghost k = unicode_lower(kind@);
    let geom = geometry_for(&kl);
    let ghost g = kind_geometry(k);
    let flip = eq_str(kl.as_slice(), "ltn") || eq_str(kl.as_slice(), "wtn");
    proof {
        reveal_strlit("ltn");
        reveal_strlit("wtn");
        assert(geom@.map_values(|v: Vec<(u8, i32, i32)>| v@) =~= g);
        assert(g.len() > 0 && g[0].len() > 0) by {
            if k == "ltn"@ {
                assert(ltn_board(0).len() == 56);
            } else if k == "wtn"@ {
            } else {
            }
        }
    }
    let top = if flip { max_row(&geom) } else { 0 };
    proof {
        if flip {
            let (b1, i1) = choose|b: int, i: int| 0 <= b < g.len() && 0 <= i < g[b].len() && #[trigger] g[b][i].1 == top;
            lemma_geometry_rows(k, b1, i1);
        }
    }
    let mut out: Vec<ImportedPad> = Vec::new();
    let mut b: usize = 0;
    while b < geom.len()
        invariant
            b <= geom@.len(),
            geom@.len() == g.len(),
            g.len() <= 5,
            forall|c: int| 0 <= c < geom@.len() ==> (#[trigger] geom@[c])@ == g[c],
            g == kind_geometry(k),
            k == unicode_lower(kind@),
            flip == (k == "ltn"@ || k == "wtn"@),
            flip ==> is_max_row(g, top as int),
            0 <= top <= 18,
            out@.map_values(|p: ImportedPad| imported_model(p)) == import_boards(k, layout@.boards, b as int),
        decreases geom@.len() - b,
    {
        let name = board_name_exec(b);
        match find_board(layout, &name) {
            Some(j) => {
                proof {
                    assert(board_named(layout@.boards, name@) == Some(layout@.boards[j as int].1)) by {
                        let c = choose|i: int| first_named(layout@.boards, name@, i);
                        if c < j {
                            assert(layout@.boards[c].0 != name@);
                        }
                        if j < c {
                            assert(layout@.boards[j as int].0 != name@);
                        }
                    }
                }
                import_board_cells(&mut out, &layout.boards[j].1, b, &geom[b], flip, top, Ghost(k));
            },
            None => {},
        }
        b = b + 1;
    }
    out
}

/// Lay an uploaded layout out on the hex lattice of its geometry: board
/// `boardN` of the text goes on board `N` of the Lumatone (`ltn`), Wooting
/// (`wtn`) or, for any other kind, single Exquis geometry; each cell whose
/// pad the board has becomes an imported pad, rows of `ltn`/`wtn` turned
/// upside down. Errors are those of reading the text.
pub fn import_request(req: ImportRequest) -> (r: Result<ImportResponse, DtoError>)
    requires
        !(parse_dto_spec(req.content@) is Stuck),
    ensures
        match parse_dto_spec(req.content@) {
            DtoStep::Next(st) => r matches Ok(resp) && resp.edo == st.edo && resp.pitch_offset == st.pitch_offset
                && resp.pads@.map_values(|p: ImportedPad| imported_model(p)) == import_spec(unicode_lower(req.kind@), dto_model(st)),
            DtoStep::Fail(e) => r == Err::<ImportResponse, DtoError>(e),
            DtoStep::Stuck => false,
        },
{
    let layout = match parse_dto(req.content.as_str()) {
        Ok(l) => l,
        Err(e) => {
            return Err(e);
        },
    };
    let pads = import_layout(&layout, req.kind.as_str());
    Ok(ImportResponse { pads, edo: layout.edo, pitch_offset: layout.pitch_offset })
}

/// `import_request` where reading the text is defined; `None` for a text
/// with a colour of eight bytes whose first two bytes end inside a
/// character.
pub fn import_request_checked(req: ImportRequest) -> (r: Option<Result<ImportResponse, DtoError>>)
    ensures
        match parse_dto_spec(req.content@) {
            DtoStep::Next(st) => r matches Some(Ok(resp)) && resp.edo == st.edo && resp.pitch_offset == st.pitch_offset
                && resp.pads@.map_values(|p: ImportedPad| imported_model(p)) == import_spec(unicode_lower(req.kind@), dto_model(st)),
            DtoStep::Fail(e) => r == Some(Err::<ImportResponse, DtoError>(e)),
            DtoStep::Stuck => r is None,
        },
{
    match parse_dto_checked(req.content.as_str()) {
        Some(_) => Some(import_request(req)),
        None => None,
    }
}

/// The editor view a layout extension calls for: `wooting` for `wtn` (in
/// any case), `exquis` otherwise.
pub fn editor_kind(ext: Option<&str>) -> (r: &'static str)
    ensures
        r@ == (if ext matches Some(e) && crate::text::ascii_lower(e@) == "wtn"@ { "wooting"@ } else { "exquis"@ }),
{
    match ext {
        Some(e) => {
            let c = chars_of(e);
            let l = crate::text::lower_chars(&c);
            if eq_str(l.as_slice(), "wtn") {
                "wooting"
            } else {
                "exquis"
            }
        },
        None => "exquis",
    }
}

/// The editor view for a layout file: by its extension (see
/// `editor_kind`); where the extension lies depends on the platform.
pub fn kind_of(path: &str) -> (r: &'static str)
    ensures
        r@ == "wooting"@ || r@ == "exquis"@,
        crate::layouts::plain_path(path@) ==> r@ == (if crate::layouts::ext_of_path(path@) matches Some(e)
            && crate::text::ascii_lower(e) == "wtn"@ { "wooting"@ } else { "exquis"@ }),
{
    let ext = crate::layouts::path_extension(path);
    match ext {
        Some(e) => editor_kind(Some(e.as_str())),
        None => editor_kind(None),
    }
}

/// The file name of a path, or the empty text; where the name starts
/// depends on the platform.
pub fn basename_of(path: &str) -> (r: String)
    ensures
        r@.len() == 0 || crate::text::contains(path@, r@),
        crate::layouts::plain_path(path@) ==> r@ == match crate::layouts::file_name_of(path@) {
            Some(n) => n,
            None => Seq::<char>::empty(),
        },
{
    match crate::layouts::path_file_name(path) {
        Some(n) => n,
        None => {
            let e: Vec<char> = Vec::new();
            string_of(&e)
        },
    }
}

} // verus!
