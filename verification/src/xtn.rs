//! `.xtn` layouts (also read for `.wtn` / `.ltn` imports): INI text with
//! `Edo` and `PitchOffset` header keys and `[BoardN]` sections of
//! `Key_N`, `Chan_N` and `Col_N` pad entries.
use std::collections::HashMap;

use vstd::prelude::*;

use crate::exquis::proto::{from_hex_spec, Color};
use crate::config::str_lt;
use crate::num::{
    dec_digits, dec_signed, fmt_i64, fmt_u64, hex2, parse_bounded, parse_i32, parse_i32_spec,
    parse_u8, parse_uint, push_dec, push_hex2,
};
use crate::text::{
    chars_of, eq_str, join_lines, lines, push_all, push_line, push_str, rsplit_once,
    rsplit_once_chars, slice_of, split_lines, split_once, split_once_chars, starts_with,
    string_of, to_lowercase, trim, trim_chars, unicode_lower,
};
use crate::wooting::wtn::entry_line;

verus! {

broadcast use vstd::std_specs::hash::group_hash_axioms;

/// One pad of a board.
#[derive(Debug, Clone, Copy, PartialEq, Eq, Structural)]
pub struct PadEntry {
    pub key: u8,
    pub chan: u8,
    pub color: Color,
}

/// The pads of one board, by pad index.
#[derive(Debug, Clone)]
pub struct BoardLayout {
    pub pads: HashMap<u8, PadEntry>,
}

/// A parsed layout: header values and the boards by (lower-case) name, in
/// the order their sections first appear.
#[derive(Debug, Clone)]
pub struct XtnLayout {
    pub edo: Option<i32>,
    pub pitch_offset: i32,
    pub boards: Vec<(String, BoardLayout)>,
}

pub struct XtnModel {
    pub edo: Option<i32>,
    pub pitch_offset: i32,
    pub boards: Seq<(Seq<char>, Map<u8, PadEntry>)>,
}

pub open spec fn board_view(b: (String, BoardLayout)) -> (Seq<char>, Map<u8, PadEntry>) {
    (b.0@, b.1.pads@)
}

impl View for XtnLayout {
    type V = XtnModel;

    open spec fn view(&self) -> XtnModel {
        XtnModel {
            edo: self.edo,
            pitch_offset: self.pitch_offset,
            boards: self.boards@.map_values(|b: (String, BoardLayout)| board_view(b)),
        }
    }
}

/// What went wrong on a line of an `.xtn` file.
#[derive(Debug, Clone, Copy, PartialEq, Eq, Structural)]
pub enum XtnErrorKind {
    /// A line that is neither a comment, a section nor `Key=Value`.
    ExpectedKeyValue,
    BadEdo,
    BadPitchOffset,
    /// A key in a board section without `_N`.
    ExpectedIndexedKey,
    /// `N` is not a number 0..=255.
    BadIndex,
    /// A pad index above 127.
    IndexOutOfRange(u8),
    BadKey,
    BadChan,
    BadCol,
}

/// An `.xtn` error and the (1-based) line it is on.
#[derive(Debug, Clone, Copy, PartialEq, Eq, Structural)]
pub struct XtnError {
    pub line: usize,
    pub kind: XtnErrorKind,
}

/// A pad as read so far: `Key`, `Chan` and `Col`, each if given.
pub type RawPad = (Option<u8>, Option<u8>, Option<Color>);

/// Parser state between lines: the header values, the boards read so far
/// and which of them the current section is.
pub struct XtnState {
    pub edo: Option<i32>,
    pub pitch_offset: i32,
    pub current: Option<int>,
    pub boards: Seq<(Seq<char>, Map<u8, RawPad>)>,
}

pub open spec fn xtn_initial() -> XtnState {
    XtnState { edo: None, pitch_offset: 0, current: None, boards: Seq::empty() }
}

/// Board `i` is the first one called `name`.
pub open spec fn is_first_named(bs: Seq<(Seq<char>, Map<u8, RawPad>)>, name: Seq<char>, i: int) -> bool {
    0 <= i < bs.len() && bs[i].0 == name && forall|j: int| 0 <= j < i ==> bs[j].0 != name
}

/// A section header `[name]` (name already lower-cased): back to that
/// board, or a new empty one at the end.
pub open spec fn section_step(st: XtnState, name: Seq<char>) -> XtnState {
    if exists|i: int| is_first_named(st.boards, name, i) {
        XtnState { current: Some(choose|i: int| is_first_named(st.boards, name, i)), ..st }
    } else {
        XtnState {
            current: Some(st.boards.len() as int),
            boards: st.boards.push((name, Map::empty())),
            ..st
        }
    }
}

/// The update a `Key`/`Chan`/`Col` entry makes to a pad; other fields leave
/// it as it is.
#[verifier::opaque]
pub open spec fn pad_field(field: Seq<char>, v: Seq<char>, e: RawPad) -> Result<RawPad, XtnErrorKind> {
    if field == "Key"@ {
        match parse_bounded(v, 255) {
            Some(x) => Ok((Some(x as u8), e.1, e.2)),
            None => Err(XtnErrorKind::BadKey),
        }
    } else if field == "Chan"@ {
        match parse_bounded(v, 255) {
            Some(x) => Ok((e.0, Some(x as u8), e.2)),
            None => Err(XtnErrorKind::BadChan),
        }
    } else if field == "Col"@ {
        match from_hex_spec(v) {
            Ok(c) => Ok((e.0, e.1, Some(c))),
            Err(_) => Err(XtnErrorKind::BadCol),
        }
    } else {
        Ok(e)
    }
}

pub open spec fn raw_pad(m: Map<u8, RawPad>, idx: u8) -> RawPad {
    if m.contains_key(idx) {
        m[idx]
    } else {
        (None, None, None)
    }
}

/// A trimmed `k=v` line in state `st`.
pub open spec fn xtn_key_value(st: XtnState, k: Seq<char>, v: Seq<char>, n: int) -> Result<XtnState, XtnError> {
    match st.current {
        None => if k == "Edo"@ {
            match parse_i32_spec(v) {
                Some(e) => Ok(XtnState { edo: Some(e as i32), ..st }),
                None => Err(XtnError { line: n as usize, kind: XtnErrorKind::BadEdo }),
            }
        } else if k == "PitchOffset"@ {
            match parse_i32_spec(v) {
                Some(p) => Ok(XtnState { pitch_offset: p as i32, ..st }),
                None => Err(XtnError { line: n as usize, kind: XtnErrorKind::BadPitchOffset }),
            }
        } else {
            Ok(st)
        },
        Some(b) => match rsplit_once(k, '_') {
            None => Err(XtnError { line: n as usize, kind: XtnErrorKind::ExpectedIndexedKey }),
            Some((field, idx_s)) => match parse_bounded(idx_s, 255) {
                None => Err(XtnError { line: n as usize, kind: XtnErrorKind::BadIndex }),
                Some(idx) => if idx > 127 {
                    Err(XtnError { line: n as usize, kind: XtnErrorKind::IndexOutOfRange(idx as u8) })
                } else {
                    let pads = st.boards[b].1;
                    match pad_field(field, v, raw_pad(pads, idx as u8)) {
                        Ok(e) => Ok(
                            XtnState {
                                boards: st.boards.update(b, (st.boards[b].0, pads.insert(idx as u8, e))),
                                ..st
                            },
                        ),
                        Err(kind) => Err(XtnError { line: n as usize, kind }),
                    }
                },
            },
        },
    }
}

/// One line of an `.xtn` file (`n` is its 1-based number).
#[verifier::opaque]
pub open spec fn xtn_step(st: XtnState, raw: Seq<char>, n: int) -> Result<XtnState, XtnError> {
    let l = trim(raw);
    if l.len() == 0 || l[0] == '#' || l[0] == ';' {
        Ok(st)
    } else if l[0] == '[' && l.last() == ']' {
        Ok(section_step(st, crate::text::text_lower(trim(l.subrange(1, l.len() - 1)))))
    } else {
        match split_once(l, '=') {
            None => Err(XtnError { line: n as usize, kind: XtnErrorKind::ExpectedKeyValue }),
            Some((k0, v0)) => xtn_key_value(st, trim(k0), trim(v0), n),
        }
    }
}

/// The lines `ls`, numbered from `base + 1`, applied in order.
pub open spec fn xtn_run(ls: Seq<Seq<char>>, st: XtnState, base: int) -> Result<XtnState, XtnError>
    decreases ls.len(),
{
    if ls.len() == 0 {
        Ok(st)
    } else {
        match xtn_step(st, ls[0], base + 1) {
            Ok(st2) => xtn_run(ls.drop_first(), st2, base + 1),
            Err(e) => Err(e),
        }
    }
}

/// A pad with its defaults: key = its index, channel 1, black.
pub open spec fn finish_pad(idx: u8, e: RawPad) -> PadEntry {
    PadEntry {
        key: match e.0 {
            Some(k) => k,
            None => idx,
        },
        chan: match e.1 {
            Some(c) => c,
            None => 1,
        },
        color: match e.2 {
            Some(c) => c,
            None => Color { red: 0, green: 0, blue: 0 },
        },
    }
}

pub open spec fn finish_pads(m: Map<u8, RawPad>) -> Map<u8, PadEntry> {
    Map::new(|i: u8| m.contains_key(i), |i: u8| finish_pad(i, m[i]))
}

pub open spec fn finish_model(st: XtnState) -> XtnModel {
    XtnModel {
        edo: st.edo,
        pitch_offset: st.pitch_offset,
        boards: st.boards.map_values(|b: (Seq<char>, Map<u8, RawPad>)| (b.0, finish_pads(b.1))),
    }
}

/// The layout an `.xtn` text describes, or its first error.
pub open spec fn parse_xtn_spec(text: Seq<char>) -> Result<XtnModel, XtnError> {
    match xtn_run(lines(text), xtn_initial(), 0) {
        Ok(st) => Ok(finish_model(st)),
        Err(e) => Err(e),
    }
}

/// The parser: header values, the sections seen so far and the current one.
pub struct XtnBuilder {
    edo: Option<i32>,
    pitch_offset: i32,
    current: Option<usize>,
    names: Vec<String>,
    pads: Vec<HashMap<u8, RawPad>>,
}

impl XtnBuilder {
    pub closed spec fn wf(&self) -> bool {
        &&& self.names.len() == self.pads.len()
        &&& self.current matches Some(c) ==> c < self.names.len()
    }

    pub closed spec fn state(&self) -> XtnState {
        XtnState {
            edo: self.edo,
            pitch_offset: self.pitch_offset,
            current: match self.current {
                Some(c) => Some(c as int),
                None => None,
            },
            boards: Seq::new(self.names.len() as nat, |i: int| (self.names@[i]@, self.pads@[i]@)),
        }
    }

    pub fn new() -> (r: Self)
        ensures
            r.wf(),
            r.state() == xtn_initial(),
    {
        let r = XtnBuilder { edo: None, pitch_offset: 0, current: None, names: Vec::new(), pads: Vec::new() };
        assert(r.state().boards =~= Seq::<(Seq<char>, Map<u8, RawPad>)>::empty());
        r
    }

    /// A section header whose name, trimmed, lower-cases to `name`.
    pub fn section(&mut self, name: String)
        requires
            old(self).wf(),
        ensures
            final(self).wf(),
            final(self).state() == section_step(old(self).state(), name@),
    {
        let ghost st = self.state();
        let nv = chars_of(name.as_str());
        let mut i: usize = 0;
        while i < self.names.len()
            invariant
                i <= self.names.len(),
                self.wf(),
                self.state() == st,
                st == old(self).state(),
                nv@ == name@,
                forall|j: int| 0 <= j < i ==> st.boards[j].0 != name@,
            decreases self.names.len() - i,
        {
            let cv = chars_of(self.names[i].as_str());
            if crate::text::chars_eq(&cv, &nv) {
                proof {
                    assert(is_first_named(st.boards, name@, i as int));
                    let k = choose|k: int| is_first_named(st.boards, name@, k);
                    if k < i {
                        assert(st.boards[k].0 != name@);
                    }
                    if i < k {
                        assert(st.boards[i as int].0 != name@);
                    }
                }
                self.current = Some(i);
                assert(self.state() == section_step(st, name@));
                return;
            }
            i = i + 1;
        }
        proof {
            if exists|k: int| is_first_named(st.boards, name@, k) {
                let k = choose|k: int| is_first_named(st.boards, name@, k);
                assert(st.boards[k].0 != name@);
            }
        }
        let n = self.names.len();
        self.names.push(name);
        self.pads.push(HashMap::new());
        self.current = Some(n);
        assert(self.state().boards =~= st.boards.push((name@, Map::<u8, RawPad>::empty())));
    }

    /// A `field=v` entry for pad `idx` of board `b`.
    fn pad_line(&mut self, b: usize, idx: u8, field: &[char], v: &[char]) -> (r: Result<(), XtnErrorKind>)
        requires
            old(self).wf(),
            b < old(self).names.len(),
        ensures
            final(self).wf(),
            final(self).edo == old(self).edo,
            final(self).pitch_offset == old(self).pitch_offset,
            final(self).current == old(self).current,
            match pad_field(field@, v@, raw_pad(old(self).state().boards[b as int].1, idx)) {
                Ok(e) => r is Ok && final(self).state().boards == old(self).state().boards.update(
                    b as int,
                    (
                        old(self).state().boards[b as int].0,
                        old(self).state().boards[b as int].1.insert(idx, e),
                    ),
                ),
                Err(k) => r == Err::<(), XtnErrorKind>(k),
            },
    {
        proof {
            reveal(pad_field);
        }
        let ghost st = self.state();
        let mut e: RawPad = match self.pads[b].get(&idx) {
            Some(x) => *x,
            None => (None, None, None),
        };
        assert(e == raw_pad(st.boards[b as int].1, idx));
        if crate::text::eq_str(field, "Key") {
            match parse_u8(v) {
                Some(x) => {
                    e.0 = Some(x);
                },
                None => {
                    return Err(XtnErrorKind::BadKey);
                },
            }
        } else if crate::text::eq_str(field, "Chan") {
            match parse_u8(v) {
                Some(x) => {
                    e.1 = Some(x);
                },
                None => {
                    return Err(XtnErrorKind::BadChan);
                },
            }
        } else if crate::text::eq_str(field, "Col") {
            let vs = string_of(v);
            match Color::from_hex(vs.as_str()) {
                Ok(c) => {
                    e.2 = Some(c);
                },
                Err(_) => {
                    return Err(XtnErrorKind::BadCol);
                },
            }
        }
        let mut m = HashMap::new();
        std::mem::swap(&mut m, &mut self.pads[b]);
        m.insert(idx, e);
        std::mem::swap(&mut m, &mut self.pads[b]);
        assert(self.state().boards =~= st.boards.update(b as int, (st.boards[b as int].0, st.boards[b as int].1.insert(idx, e))));
        Ok(())
    }

    /// A trimmed `k=v` line.
    pub fn key_value_line(&mut self, k: &[char], v: &[char], line_no: usize) -> (r: Result<(), XtnError>)
        requires
            old(self).wf(),
        ensures
            final(self).wf(),
            xtn_key_value(old(self).state(), k@, v@, line_no as int) == match r {
                Ok(_) => Ok(final(self).state()),
                Err(e) => Err::<XtnState, XtnError>(e),
            },
    {
        match self.current {
            None => {
                if eq_str(k, "Edo") {
                    match parse_i32(v) {
                        Some(e) => {
                            self.edo = Some(e);
                        },
                        None => {
                            return Err(XtnError { line: line_no, kind: XtnErrorKind::BadEdo });
                        },
                    }
                } else if eq_str(k, "PitchOffset") {
                    match parse_i32(v) {
                        Some(p) => {
                            self.pitch_offset = p;
                        },
                        None => {
                            return Err(XtnError { line: line_no, kind: XtnErrorKind::BadPitchOffset });
                        },
                    }
                }
                Ok(())
            },
            Some(b) => {
                let (field, idx_s) = match rsplit_once_chars(k, '_') {
                    Some(p) => p,
                    None => {
                        return Err(XtnError { line: line_no, kind: XtnErrorKind::ExpectedIndexedKey });
                    },
                };
                let idx = match parse_u8(&idx_s) {
                    Some(x) => x,
                    None => {
                        return Err(XtnError { line: line_no, kind: XtnErrorKind::BadIndex });
                    },
                };
                if idx > 127 {
                    return Err(XtnError { line: line_no, kind: XtnErrorKind::IndexOutOfRange(idx) });
                }
                match self.pad_line(b, idx, &field, v) {
                    Ok(()) => Ok(()),
                    Err(kind) => Err(XtnError { line: line_no, kind }),
                }
            },
        }
    }

    /// One raw line of the file.
    pub fn line(&mut self, raw: &[char], line_no: usize) -> (r: Result<(), XtnError>)
        requires
            old(self).wf(),
        ensures
            final(self).wf(),
            xtn_step(old(self).state(), raw@, line_no as int) == match r {
                Ok(_) => Ok(final(self).state()),
                Err(e) => Err::<XtnState, XtnError>(e),
            },
    {
        reveal(xtn_step);
        let l = trim_chars(raw);
        let n = l.len();
        if n == 0 || l[0] == '#' || l[0] == ';' {
            return Ok(());
        }
        if l[0] == '[' && l[n - 1] == ']' {
            let inner = slice_of(&l, 1, n - 1);
            let t = trim_chars(&inner);
            let ts = string_of(&t);
            let name = to_lowercase(ts.as_str());
            self.section(name);
            return Ok(());
        }
        match split_once_chars(&l, '=') {
            Some((k0, v0)) => {
                let k = trim_chars(&k0);
                let v = trim_chars(&v0);
                self.key_value_line(&k, &v, line_no)
            },
            None => Err(XtnError { line: line_no, kind: XtnErrorKind::ExpectedKeyValue }),
        }
    }

    /// The layout, with every pad's missing values defaulted.
    pub fn finish(self) -> (r: XtnLayout)
        requires
            self.wf(),
        ensures
            r@ == finish_model(self.state()),
    {
        let ghost st = self.state();
        let mut boards: Vec<(String, BoardLayout)> = Vec::new();
        let mut names = self.names;
        let mut raws = self.pads;
        let mut i: usize = 0;
        while i < names.len()
            invariant
                i <= names.len(),
                names.len() == raws.len(),
                st.boards.len() == names.len(),
                forall|j: int| 0 <= j < names.len() ==> (#[trigger] st.boards[j]) == (names@[j]@, raws@[j]@),
                boards@.map_values(|b: (String, BoardLayout)| board_view(b)) == finish_model(st).boards.take(i as int),
            decreases names.len() - i,
        {
            let raw = &raws[i];
            let mut pads: HashMap<u8, PadEntry> = HashMap::new();
            let mut idx: u16 = 0;
            while idx < 256
                invariant
                    idx <= 256,
                    forall|k: u8| #[trigger] pads@.contains_key(k) <==> (k < idx && raw@.contains_key(k)),
                    forall|k: u8| #[trigger] pads@.contains_key(k) ==> pads@[k] == finish_pad(k, raw@[k]),
                decreases 256 - idx,
            {
                let iu = idx as u8;
                match raw.get(&iu) {
                    Some(e) => {
                        let key = match e.0 {
                            Some(k) => k,
                            None => iu,
                        };
                        let chan = match e.1 {
                            Some(c) => c,
                            None => 1,
                        };
                        let color = match e.2 {
                            Some(c) => c,
                            None => Color::new(0, 0, 0),
                        };
                        pads.insert(iu, PadEntry { key, chan, color });
                    },
                    None => {},
                }
                idx = idx + 1;
            }
            assert(pads@ =~= finish_pads(raw@));
            let name = names[i].clone();
            let ghost before = boards@;
            boards.push((name, BoardLayout { pads }));
            assert(boards@.map_values(|b: (String, BoardLayout)| board_view(b)) =~= before.map_values(
                |b: (String, BoardLayout)| board_view(b),
            ).push((names@[i as int]@, finish_pads(raws@[i as int]@))));
            assert(finish_model(st).boards.take(i + 1) =~= finish_model(st).boards.take(i as int).push(
                (names@[i as int]@, finish_pads(raws@[i as int]@)),
            ));
            i = i + 1;
        }
        assert(finish_model(st).boards.take(names.len() as int) =~= finish_model(st).boards);
        XtnLayout { edo: self.edo, pitch_offset: self.pitch_offset, boards }
    }
}

/// No two boards share a name.
pub open spec fn board_names_unique<T>(bs: Seq<(Seq<char>, T)>) -> bool {
    forall|i: int, j: int| 0 <= i < j < bs.len() ==> (#[trigger] bs[i]).0 != (#[trigger] bs[j]).0
}

spec fn xtn_state_ok(st: XtnState) -> bool {
    &&& board_names_unique(st.boards)
    &&& st.current matches Some(b) ==> 0 <= b < st.boards.len()
}

proof fn lemma_xtn_step_unique(st: XtnState, raw: Seq<char>, n: int)
    requires
        xtn_state_ok(st),
    ensures
        xtn_step(st, raw, n) matches Ok(st2) ==> xtn_state_ok(st2),
{
    reveal(xtn_step);
    let l = trim(raw);
    if l.len() > 0 && l[0] == '[' && l.last() == ']' {
        let name = crate::text::text_lower(trim(l.subrange(1, l.len() - 1)));
        if !(exists|i: int| is_first_named(st.boards, name, i)) {
            assert forall|i: int| 0 <= i < st.boards.len() implies st.boards[i].0 != name by {
                if st.boards[i].0 == name {
                    assert(is_first_named(st.boards, name, i));
                }
            }
            let b2 = st.boards.push((name, Map::empty()));
            assert forall|i: int, j: int| 0 <= i < j < b2.len() implies (#[trigger] b2[i]).0 != (#[trigger] b2[j]).0 by {
                if j < st.boards.len() {
                    assert(b2[i] == st.boards[i] && b2[j] == st.boards[j]);
                } else {
                    assert(b2[i] == st.boards[i]);
                }
            }
        }
    } else if !(l.len() == 0 || l[0] == '#' || l[0] == ';') {
        if let Some((k0, v0)) = split_once(l, '=') {
            let r = xtn_key_value(st, trim(k0), trim(v0), n);
            if let Ok(st2) = r {
                if let Some(b) = st.current {
                    assert(st2.boards.len() == st.boards.len());
                    assert forall|i: int| 0 <= i < st2.boards.len() implies (#[trigger] st2.boards[i]).0
                        == st.boards[i].0 by {}
                    assert forall|i: int, j: int| 0 <= i < j < st2.boards.len() implies (#[trigger] st2.boards[i]).0
                        != (#[trigger] st2.boards[j]).0 by {
                        assert(st2.boards[i].0 == st.boards[i].0 && st2.boards[j].0 == st.boards[j].0);
                    }
                }
            }
        }
    }
}

proof fn lemma_xtn_run_unique(ls: Seq<Seq<char>>, st: XtnState, base: int)
    requires
        xtn_state_ok(st),
    ensures
        xtn_run(ls, st, base) matches Ok(st2) ==> xtn_state_ok(st2),
    decreases ls.len(),
{
    if ls.len() > 0 {
        lemma_xtn_step_unique(st, ls[0], base + 1);
        if let Ok(st2) = xtn_step(st, ls[0], base + 1) {
            lemma_xtn_run_unique(ls.drop_first(), st2, base + 1);
        }
    }
}

/// A layout read from an `.xtn` text names each board once: a section
/// that repeats a name goes back to that board.
pub proof fn lemma_parsed_names_unique(text: Seq<char>)
    ensures
        parse_xtn_spec(text) matches Ok(m) ==> board_names_unique(m.boards),
{
    lemma_xtn_run_unique(lines(text), xtn_initial(), 0);
    if let Ok(st) = xtn_run(lines(text), xtn_initial(), 0) {
        let bs = finish_model(st).boards;
        assert forall|i: int, j: int| 0 <= i < j < bs.len() implies (#[trigger] bs[i]).0 != (#[trigger] bs[j]).0 by {
            assert(bs[i].0 == st.boards[i].0 && bs[j].0 == st.boards[j].0);
        }
    }
}

/// Reads an `.xtn` text; the boards it gives have distinct names.
pub fn parse_xtn_str(content: &str) -> (r: Result<XtnLayout, XtnError>)
    ensures
        match r {
            Ok(l) => parse_xtn_spec(content@) == Ok::<XtnModel, XtnError>(l@),
            Err(e) => parse_xtn_spec(content@) == Err::<XtnModel, XtnError>(e),
        },
        r matches Ok(l) ==> board_names_unique(l@.boards),
{
    proof {
        lemma_parsed_names_unique(content@);
    }
    let chars = chars_of(content);
    let ls = split_lines(&chars);
    let ghost all = lines(content@);
    let mut bl = XtnBuilder::new();
    let mut i: usize = 0;
    assert(all.skip(0) =~= all);
    while i < ls.len()
        invariant
            all == lines(content@),
            ls@.len() == all.len(),
            forall|j: int| 0 <= j < ls@.len() ==> (#[trigger] ls@[j])@ == all[j],
            i <= ls@.len(),
            bl.wf(),
            xtn_run(all, xtn_initial(), 0) == xtn_run(all.skip(i as int), bl.state(), i as int),
        decreases ls@.len() - i,
    {
        let ghost rest = all.skip(i as int);
        let ghost st0 = bl.state();
        assert(rest[0] == all[i as int]);
        assert(rest.drop_first() =~= all.skip(i + 1));
        let r = bl.line(&ls[i], i + 1);
        if let Err(e) = r {
            assert(xtn_run(rest, st0, i as int) == Err::<XtnState, XtnError>(e));
            return Err(e);
        }
        i += 1;
    }
    assert(all.skip(i as int) =~= Seq::<Seq<char>>::empty());
    Ok(bl.finish())
}

// ---------------------------------------------------------------------------
// Writing
// ---------------------------------------------------------------------------

/// `name` without its leading `board`s (`trim_start_matches("board")`).
pub open spec fn strip_boards(name: Seq<char>) -> Seq<char>
    decreases name.len(),
{
    if starts_with(name, board_word()) {
        strip_boards(name.skip(5))
    } else {
        name
    }
}

pub open spec fn board_word() -> Seq<char> {
    seq!['b', 'o', 'a', 'r', 'd']
}

/// The number a board name sorts by (`u32::MAX` when it has none).
pub open spec fn board_number(name: Seq<char>) -> int {
    match parse_bounded(strip_boards(name), u32::MAX as int) {
        Some(v) => v,
        None => u32::MAX as int,
    }
}

/// Board name order: by number, then by name.
pub open spec fn name_le(a: Seq<char>, b: Seq<char>) -> bool {
    board_number(a) < board_number(b) || (board_number(a) == board_number(b) && !str_lt(b, a))
}

/// Index `x` put after every index whose name sorts before or with it.
pub open spec fn ins_name(names: Seq<Seq<char>>, s: Seq<int>, x: int) -> Seq<int>
    decreases s.len(),
{
    if s.len() == 0 {
        seq![x]
    } else if name_le(names[s.last()], names[x]) {
        s.push(x)
    } else {
        ins_name(names, s.drop_last(), x).push(s.last())
    }
}

/// The indices of the first `k` names, in name order (stable).
pub open spec fn name_order(names: Seq<Seq<char>>, k: int) -> Seq<int>
    decreases k,
{
    if k <= 0 {
        Seq::empty()
    } else {
        ins_name(names, name_order(names, k - 1), k - 1)
    }
}

/// The first `k` boards, by name order (stable).
pub open spec fn board_order(bs: Seq<(Seq<char>, Map<u8, PadEntry>)>, k: int) -> Seq<int> {
    name_order(bs.map_values(|b: (Seq<char>, Map<u8, PadEntry>)| b.0), k)
}

/// `to8`: a 7-bit channel back to 8 bits.
pub open spec fn to8(v: u8) -> u8 {
    let x = (v * 255 + 63) / 127;
    (if x > 255 {
        255
    } else {
        x
    }) as u8
}

/// The three lines of pad `i`.
pub open spec fn pad_lines(i: nat, p: PadEntry) -> Seq<Seq<char>> {
    seq![
        entry_line("Key"@, i, dec_digits(p.key as nat)),
        entry_line("Chan"@, i, dec_digits(p.chan as nat)),
        entry_line("Col"@, i, hex2(to8(p.color.red)) + hex2(to8(p.color.green)) + hex2(to8(p.color.blue))),
    ]
}

/// The lines of the pads with index below `k`, by index.
pub open spec fn pads_lines(pads: Map<u8, PadEntry>, k: nat) -> Seq<Seq<char>>
    decreases k,
{
    if k == 0 {
        Seq::empty()
    } else {
        let i = (k - 1) as nat;
        pads_lines(pads, i) + if pads.contains_key(i as u8) {
            pad_lines(i, pads[i as u8])
        } else {
            Seq::empty()
        }
    }
}

/// `[BoardN]` for a name `boardN`, else `[name]`.
pub open spec fn xtn_header(name: Seq<char>) -> Seq<char> {
    seq!['['] + (if starts_with(name, board_word()) {
        seq!['B', 'o', 'a', 'r', 'd'] + name.skip(5)
    } else {
        name
    }) + seq![']']
}

/// A blank line, the header, then the pads.
pub open spec fn xtn_board_lines(b: (Seq<char>, Map<u8, PadEntry>)) -> Seq<Seq<char>> {
    seq![Seq::empty(), xtn_header(b.0)] + pads_lines(b.1, 256)
}

pub open spec fn xtn_boards_lines(bs: Seq<(Seq<char>, Map<u8, PadEntry>)>, order: Seq<int>) -> Seq<Seq<char>>
    decreases order.len(),
{
    if order.len() == 0 {
        Seq::empty()
    } else {
        xtn_boards_lines(bs, order.drop_last()) + xtn_board_lines(bs[order.last()])
    }
}

pub open spec fn xtn_header_lines(m: XtnModel) -> Seq<Seq<char>> {
    (match m.edo {
        Some(e) => seq!["Edo="@ + dec_signed(e as int)],
        None => seq![],
    }) + seq!["PitchOffset="@ + dec_signed(m.pitch_offset as int)]
}

/// The lines `write_xtn_layout` produces.
pub open spec fn xtn_text_lines(m: XtnModel) -> Seq<Seq<char>> {
    xtn_header_lines(m) + xtn_boards_lines(m.boards, board_order(m.boards, m.boards.len() as int))
}

fn board_number_exec(name: &[char]) -> (r: u32)
    ensures
        r as int == board_number(name@),
{
    let mut i: usize = 0;
    assert(name@.skip(0) =~= name@);
    while 5 <= name.len() - i && name[i] == 'b' && name[i + 1] == 'o' && name[i + 2] == 'a'
        && name[i + 3] == 'r' && name[i + 4] == 'd'
        invariant
            i <= name.len(),
            strip_boards(name@) == strip_boards(name@.skip(i as int)),
        decreases name.len() - i,
    {
        proof {
            let t = name@.skip(i as int);
            assert(t.take(5) =~= board_word());
            assert(t.skip(5) =~= name@.skip(i + 5));
        }
        i = i + 5;
    }
    proof {
        let t = name@.skip(i as int);
        if starts_with(t, board_word()) {
            assert(t.take(5)[0] == 'b' && t.take(5)[1] == 'o' && t.take(5)[2] == 'a' && t.take(5)[3] == 'r'
                && t.take(5)[4] == 'd');
            assert(t[0] == name@[i as int]);
        }
    }
    let rest = slice_of(name, i, name.len());
    assert(rest@ =~= name@.skip(i as int));
    match parse_uint(&rest, 0xFFFF_FFFF) {
        Some(v) => v as u32,
        None => 0xFFFF_FFFF,
    }
}

pub(crate) fn name_le_exec(a: &Vec<char>, b: &Vec<char>) -> (r: bool)
    ensures
        r == name_le(a@, b@),
{
    let na = board_number_exec(a);
    let nb = board_number_exec(b);
    na < nb || (na == nb && !crate::config::str_lt_exec(b, a))
}

proof fn lemma_ins_name_at(names: Seq<Seq<char>>, s: Seq<int>, x: int, pos: int)
    requires
        0 <= pos <= s.len(),
        forall|i: int| pos <= i < s.len() ==> !name_le(names[#[trigger] s[i]], names[x]),
        pos > 0 ==> name_le(names[s[pos - 1]], names[x]),
    ensures
        ins_name(names, s, x) == s.insert(pos, x),
    decreases s.len(),
{
    if s.len() == 0 {
        assert(s.insert(0, x) =~= seq![x]);
    } else if name_le(names[s.last()], names[x]) {
        assert(pos == s.len());
        assert(s.insert(pos, x) =~= s.push(x));
    } else {
        lemma_ins_name_at(names, s.drop_last(), x, pos);
        assert(s.drop_last().insert(pos, x).push(s.last()) =~= s.insert(pos, x));
    }
}

/// The indices of `names` in name order (by board number, then by name;
/// stable).
pub(crate) fn order_names(names: &Vec<Vec<char>>) -> (r: Vec<usize>)
    ensures
        r@.map_values(|x: usize| x as int) == name_order(
            names@.map_values(|v: Vec<char>| v@),
            names.len() as int,
        ),
        forall|j: int| 0 <= j < r.len() ==> #[trigger] r[j] < names.len(),
        r.len() == names.len(),
{
    let ghost ns = names@.map_values(|v: Vec<char>| v@);
    let mut out: Vec<usize> = Vec::new();
    let mut k: usize = 0;
    while k < names.len()
        invariant
            k <= names.len(),
            ns == names@.map_values(|v: Vec<char>| v@),
            out@.map_values(|x: usize| x as int) == name_order(ns, k as int),
            forall|j: int| 0 <= j < out.len() ==> #[trigger] out[j] < k,
            out.len() == k,
        decreases names.len() - k,
    {
        let ghost s = out@.map_values(|x: usize| x as int);
        let mut pos: usize = out.len();
        while pos > 0 && !name_le_exec(&names[out[pos - 1]], &names[k])
            invariant
                pos <= out.len(),
                k < names.len(),
                ns == names@.map_values(|v: Vec<char>| v@),
                s == out@.map_values(|x: usize| x as int),
                forall|j: int| 0 <= j < out.len() ==> #[trigger] out[j] < k,
                forall|i: int| pos <= i < s.len() ==> !name_le(ns[#[trigger] s[i]], ns[k as int]),
            decreases pos,
        {
            pos = pos - 1;
        }
        proof {
            lemma_ins_name_at(ns, s, k as int, pos as int);
        }
        out.insert(pos, k);
        assert(out@.map_values(|x: usize| x as int) =~= s.insert(pos as int, k as int));
        k = k + 1;
    }
    out
}

/// The board indices in name order.
fn order_boards(boards: &Vec<(String, BoardLayout)>) -> (r: Vec<usize>)
    ensures
        r@.map_values(|x: usize| x as int) == board_order(
            boards@.map_values(|b: (String, BoardLayout)| board_view(b)),
            boards.len() as int,
        ),
        forall|j: int| 0 <= j < r.len() ==> #[trigger] r[j] < boards.len(),
{
    let ghost bs = boards@.map_values(|b: (String, BoardLayout)| board_view(b));
    let mut names: Vec<Vec<char>> = Vec::new();
    let mut k: usize = 0;
    while k < boards.len()
        invariant
            k <= boards.len(),
            bs == boards@.map_values(|b: (String, BoardLayout)| board_view(b)),
            names.len() == k,
            forall|j: int| 0 <= j < k ==> (#[trigger] names[j])@ == bs[j].0,
        decreases boards.len() - k,
    {
        names.push(chars_of(boards[k].0.as_str()));
        k = k + 1;
    }
    assert(names@.map_values(|v: Vec<char>| v@) =~= bs.map_values(|b: (Seq<char>, Map<u8, PadEntry>)| b.0));
    order_names(&names)
}

fn push_entry_line(out: &mut Vec<char>, name: &str, i: usize, value: &[char], Ghost(ls): Ghost<Seq<Seq<char>>>)
    requires
        old(out)@ == join_lines(ls),
    ensures
        final(out)@ == join_lines(ls.push(entry_line(name@, i as nat, value@))),
{
    let mut l: Vec<char> = Vec::new();
    push_str(&mut l, name);
    l.push('_');
    push_dec(&mut l, i as u64);
    l.push('=');
    push_all(&mut l, value);
    assert(l@ =~= entry_line(name@, i as nat, value@));
    push_line(out, &l, Ghost(ls));
}

fn to8_exec(v: u8) -> (r: u8)
    ensures
        r == to8(v),
{
    let x: u32 = (v as u32 * 255 + 63) / 127;
    if x > 255 {
        255
    } else {
        x as u8
    }
}

/// Writes a layout in the form `parse_xtn_str` reads: `Edo` (if set) and
/// `PitchOffset`, then each board in name order (by its number, then by
/// name) as a blank line, `[BoardN]` and `Key_i`, `Chan_i`, `Col_i` (colour
/// scaled back to 8 bits as `RRGGBB`) for each pad by index.
pub fn write_xtn_layout(layout: &XtnLayout) -> (r: String)
    ensures
        r@ == join_lines(xtn_text_lines(layout@)),
{
    let mut out: Vec<char> = Vec::new();
    let ghost mut ls: Seq<Seq<char>> = seq![];
    if let Some(e) = layout.edo {
        let mut l: Vec<char> = Vec::new();
        push_str(&mut l, "Edo=");
        let d = fmt_i64(e as i64);
        push_all(&mut l, &d);
        push_line(&mut out, &l, Ghost(ls));
        proof {
            ls = ls.push(l@);
        }
    }
    let mut l: Vec<char> = Vec::new();
    push_str(&mut l, "PitchOffset=");
    let d = fmt_i64(layout.pitch_offset as i64);
    push_all(&mut l, &d);
    push_line(&mut out, &l, Ghost(ls));
    proof {
        ls = ls.push(l@);
        assert(ls =~= xtn_header_lines(layout@));
    }
    let ghost bs = layout@.boards;
    let order = order_boards(&layout.boards);
    let ghost ord = order@.map_values(|x: usize| x as int);
    let mut j: usize = 0;
    while j < order.len()
        invariant
            j <= order.len(),
            bs == layout@.boards,
            ord == order@.map_values(|x: usize| x as int),
            forall|q: int| 0 <= q < order.len() ==> #[trigger] order[q] < layout.boards.len(),
            out@ == join_lines(ls),
            ls == xtn_header_lines(layout@) + xtn_boards_lines(bs, ord.take(j as int)),
        decreases order.len() - j,
    {
        let bi = order[j];
        let name = chars_of(layout.boards[bi].0.as_str());
        let pads = &layout.boards[bi].1.pads;
        let ghost ls0 = ls;
        let empty: Vec<char> = Vec::new();
        push_line(&mut out, &empty, Ghost(ls));
        proof {
            ls = ls.push(empty@);
        }
        let mut h: Vec<char> = Vec::new();
        h.push('[');
        if name.len() >= 5 && name[0] == 'b' && name[1] == 'o' && name[2] == 'a' && name[3] == 'r'
            && name[4] == 'd' {
            h.push('B');
            h.push('o');
            h.push('a');
            h.push('r');
            h.push('d');
            let rest = slice_of(&name, 5, name.len());
            push_all(&mut h, &rest);
            assert(name@.take(5) =~= board_word());
            assert(rest@ =~= name@.skip(5));
        } else {
            push_all(&mut h, &name);
            proof {
                if starts_with(name@, board_word()) {
                    assert(name@.take(5)[0] == 'b' && name@.take(5)[1] == 'o' && name@.take(5)[2] == 'a'
                        && name@.take(5)[3] == 'r' && name@.take(5)[4] == 'd');
                }
            }
        }
        h.push(']');
        assert(h@ =~= xtn_header(bs[bi as int].0));
        push_line(&mut out, &h, Ghost(ls));
        proof {
            ls = ls.push(h@);
        }
        let ghost ls1 = ls;
        let mut idx: u16 = 0;
        while idx < 256
            invariant
                idx <= 256,
                out@ == join_lines(ls),
                pads@ == bs[bi as int].1,
                ls == ls1 + pads_lines(bs[bi as int].1, idx as nat),
            decreases 256 - idx,
        {
            let iu = idx as u8;
            let ghost before = ls;
            match pads.get(&iu) {
                Some(p) => {
                    let kd = fmt_u64(p.key as u64);
                    push_entry_line(&mut out, "Key", idx as usize, &kd, Ghost(ls));
                    proof {
                        ls = ls.push(entry_line("Key"@, idx as nat, kd@));
                    }
                    let cd = fmt_u64(p.chan as u64);
                    push_entry_line(&mut out, "Chan", idx as usize, &cd, Ghost(ls));
                    proof {
                        ls = ls.push(entry_line("Chan"@, idx as nat, cd@));
                    }
                    let mut hx: Vec<char> = Vec::new();
                    push_hex2(&mut hx, to8_exec(p.color.red));
                    push_hex2(&mut hx, to8_exec(p.color.green));
                    push_hex2(&mut hx, to8_exec(p.color.blue));
                    push_entry_line(&mut out, "Col", idx as usize, &hx, Ghost(ls));
                    proof {
                        ls = ls.push(entry_line("Col"@, idx as nat, hx@));
                        assert(iu as nat == idx as nat);
                        assert(ls =~= before + pad_lines(idx as nat, *p));
                    }
                },
                None => {},
            }
            idx = idx + 1;
            assert(ls =~= ls1 + pads_lines(bs[bi as int].1, idx as nat));
        }
        proof {
            assert(ord.take(j + 1).drop_last() =~= ord.take(j as int));
            assert(ord.take(j + 1).last() == bi as int);
            assert(ls =~= ls0 + xtn_board_lines(bs[bi as int]));
        }
        j = j + 1;
    }
    assert(ord.take(order.len() as int) =~= ord);
    string_of(&out)
}

/// Why a new layout cannot be made.
#[derive(Debug, Clone, Copy, PartialEq, Eq, Structural)]
pub enum NewLayoutError {
    /// The EDO is below 1.
    EdoBelowOne,
    /// No boards were asked for.
    NoBoards,
}

/// Whether a new layout with `edo` steps per octave and `boards` boards
/// can be made: the EDO must be at least 1 and there must be a board.
pub fn check_new_layout(edo: i32, boards: u8) -> (r: Result<(), NewLayoutError>)
    ensures
        r == if edo < 1 {
            Err::<(), NewLayoutError>(NewLayoutError::EdoBelowOne)
        } else if boards < 1 {
            Err(NewLayoutError::NoBoards)
        } else {
            Ok(())
        },
{
    if edo < 1 {
        Err(NewLayoutError::EdoBelowOne)
    } else if boards < 1 {
        Err(NewLayoutError::NoBoards)
    } else {
        Ok(())
    }
}

/// The pad every board of a new layout starts with: key 0, channel 0, black.
pub open spec fn blank_pad() -> PadEntry {
    PadEntry { key: 0, chan: 0, color: Color { red: 0, green: 0, blue: 0 } }
}

/// A new layout: `board0`..`board{boards-1}`, each with pads 0..=60 blank.
pub open spec fn blank_model(edo: i32, boards: u8, pitch_offset: i32) -> XtnModel {
    XtnModel {
        edo: Some(edo),
        pitch_offset,
        boards: Seq::new(
            boards as nat,
            |b: int| (crate::config::board_name(b as nat), Map::new(|i: u8| i <= 60, |i: u8| blank_pad())),
        ),
    }
}

/// A new layout with `boards` boards named `board0`.., every pad 0..=60 at
/// key 0, channel 0, black.
pub fn blank_layout(edo: i32, boards: u8, pitch_offset: i32) -> (r: XtnLayout)
    ensures
        r@ == blank_model(edo, boards, pitch_offset),
{
    let mut bs: Vec<(String, BoardLayout)> = Vec::new();
    let mut b: u8 = 0;
    while b < boards
        invariant
            b <= boards,
            bs@.map_values(|x: (String, BoardLayout)| board_view(x)) == blank_model(edo, boards, pitch_offset).boards.take(
                b as int,
            ),
        decreases boards - b,
    {
        let mut pads: HashMap<u8, PadEntry> = HashMap::new();
        let mut i: u8 = 0;
        while i <= 60
            invariant
                i <= 61,
                pads@ == Map::new(|q: u8| q < i, |q: u8| blank_pad()),
            decreases 61 - i,
        {
            pads.insert(i, PadEntry { key: 0, chan: 0, color: Color::new(0, 0, 0) });
            assert(pads@ =~= Map::new(|q: u8| q < i + 1, |q: u8| blank_pad()));
            i = i + 1;
        }
        assert(pads@ =~= Map::new(|q: u8| q <= 60, |q: u8| blank_pad()));
        let name = crate::config::board_name_exec(b as usize);
        let ghost before = bs@;
        let ghost entry = (crate::config::board_name(b as nat), Map::new(|q: u8| q <= 60, |q: u8| blank_pad()));
        let item = (name, BoardLayout { pads });
        assert(board_view(item) == entry);
        bs.push(item);
        assert(bs@.map_values(|x: (String, BoardLayout)| board_view(x)) =~= before.map_values(
            |x: (String, BoardLayout)| board_view(x),
        ).push(entry));
        assert(blank_model(edo, boards, pitch_offset).boards[b as int] == entry);
        assert(bs@.map_values(|x: (String, BoardLayout)| board_view(x)) =~= blank_model(edo, boards, pitch_offset).boards.take(
            b + 1,
        ));
        b = b + 1;
    }
    assert(blank_model(edo, boards, pitch_offset).boards.take(boards as int) =~= blank_model(edo, boards, pitch_offset).boards);
    XtnLayout { edo: Some(edo), pitch_offset, boards: bs }
}

/// Inside a board section, a line `Key_i = x` (or `Chan_i = x`) with pad
/// `i` at most 127 and `x` at most 255 written in decimal records key (or
/// channel) `x` for pad `i` of that board and changes nothing else.
pub proof fn lemma_xtn_key_chan_line(st: XtnState, i: nat, is_key: bool, x: nat, n: int)
    requires
        st.current matches Some(b) && 0 <= b < st.boards.len(),
        i <= 127,
        x <= 255,
    ensures
        ({
            let b = st.current->Some_0;
            let k = if is_key { "Key_"@ + dec_digits(i) } else { "Chan_"@ + dec_digits(i) };
            let r = xtn_key_value(st, k, dec_digits(x), n);
            let pads = st.boards[b].1;
            let e = raw_pad(pads, i as u8);
            let want: RawPad = if is_key { (Some(x as u8), e.1, e.2) } else { (e.0, Some(x as u8), e.2) };
            &&& r is Ok
            &&& r->Ok_0.boards.len() == st.boards.len()
            &&& r->Ok_0.boards[b].0 == st.boards[b].0
            &&& r->Ok_0.boards[b].1 == pads.insert(i as u8, want)
            &&& forall|c: int| 0 <= c < st.boards.len() && c != b ==> #[trigger] r->Ok_0.boards[c] == st.boards[c]
            &&& r->Ok_0.current == st.current && r->Ok_0.edo == st.edo && r->Ok_0.pitch_offset == st.pitch_offset
        }),
{
    reveal(pad_field);
    reveal_strlit("Key_");
    reveal_strlit("Chan_");
    reveal_strlit("Key");
    reveal_strlit("Chan");
    crate::num::lemma_dec_digits_parse(i);
    crate::num::lemma_dec_digits_parse(x);
    let d = dec_digits(i);
    let pre = if is_key { "Key_"@ } else { "Chan_"@ };
    let name = if is_key { "Key"@ } else { "Chan"@ };
    let k = pre + d;
    let u = pre.len() - 1;
    assert(k[u] == '_');
    assert forall|q: int| u < q < k.len() implies k[q] != '_' by {
        assert(k[q] == d[q - pre.len()]);
        assert(crate::num::is_digit(d[q - pre.len()]));
    }
    crate::text::lemma_rsplit_once_at(k, '_', u);
    assert(k.take(u) =~= name);
    assert(k.skip(u + 1) =~= d);
    assert(crate::num::parse_bounded(d, 255) == Some(i as int));
    assert(crate::num::parse_bounded(dec_digits(x), 255) == Some(x as int));
    assert("Key"@.len() != "Chan"@.len());
}

/// Inside a board section, a line `Col_i = h` with pad `i` at most 127 and
/// `h` six or eight hex digits (after any number of `#`) records for pad
/// `i` the colour the digits spell, each 8-bit channel `v` scaled to the
/// 7-bit `(127 * v + 127) / 255`, and changes nothing else.
pub proof fn lemma_xtn_col_line(st: XtnState, i: nat, h: Seq<char>, hashes: nat, n: int)
    requires
        st.current matches Some(b) && 0 <= b < st.boards.len(),
        i <= 127,
        h.len() == 6 || h.len() == 8,
        crate::num::all_hex(h),
    ensures
        ({
            let b = st.current->Some_0;
            let o = h.len() - 6;
            let v = |q: int| 16 * crate::num::hex_digit_value(h[o + q]) + crate::num::hex_digit_value(h[o + q + 1]);
            let c = Color {
                red: ((127 * v(0) + 127) / 255) as u8,
                green: ((127 * v(2) + 127) / 255) as u8,
                blue: ((127 * v(4) + 127) / 255) as u8,
            };
            let r = xtn_key_value(st, "Col_"@ + dec_digits(i), Seq::new(hashes, |q: int| '#') + h, n);
            let pads = st.boards[b].1;
            let e = raw_pad(pads, i as u8);
            &&& r is Ok
            &&& r->Ok_0.boards.len() == st.boards.len()
            &&& r->Ok_0.boards[b].0 == st.boards[b].0
            &&& r->Ok_0.boards[b].1 == pads.insert(i as u8, (e.0, e.1, Some(c)))
            &&& forall|q: int| 0 <= q < st.boards.len() && q != b ==> #[trigger] r->Ok_0.boards[q] == st.boards[q]
            &&& r->Ok_0.current == st.current && r->Ok_0.edo == st.edo && r->Ok_0.pitch_offset == st.pitch_offset
        }),
{
    reveal(pad_field);
    reveal_strlit("Col_");
    reveal_strlit("Col");
    reveal_strlit("Key");
    reveal_strlit("Chan");
    crate::exquis::proto::lemma_from_hex_digits(h, hashes);
    crate::num::lemma_dec_digits_parse(i);
    let d = dec_digits(i);
    let k = "Col_"@ + d;
    assert(k[3] == '_');
    assert forall|q: int| 3 < q < k.len() implies k[q] != '_' by {
        assert(k[q] == d[q - 4]);
        assert(crate::num::is_digit(d[q - 4]));
    }
    crate::text::lemma_rsplit_once_at(k, '_', 3);
    assert(k.take(3) =~= "Col"@);
    assert(k.skip(4) =~= d);
    assert(crate::num::parse_bounded(d, 255) == Some(i as int));
    assert("Col"@[0] != "Key"@[0]);
    assert("Col"@.len() != "Chan"@.len());
}

} // verus!
