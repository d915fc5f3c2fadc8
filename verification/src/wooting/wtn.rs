//! `.wtn` layouts: INI-style `[BoardN]` sections of `Key_N`, `Chan_N` and
//! `Col_N` entries, 56 logical cells (4 rows x 14 columns) per board.
use std::collections::HashMap;

use vstd::prelude::*;

use crate::exquis::proto::{hex_rgb, hex_rgb_exec, ColorError};
use crate::num::{
    dec_signed, parse_bounded, parse_i32, parse_i32_spec, parse_u64, parse_uint, parse_u8, fmt_i64, fmt_u64,
    dec_digits, hex2, push_hex2,
};
use crate::text::{
    join_lines, chars_of, eq_str, lines, push_all, push_str, rsplit_once, rsplit_once_chars, slice_of,
    split_lines, split_once, split_once_chars, starts_with, starts_with_str, string_of, trim,
    trim_chars,
};

verus! {

broadcast use vstd::std_specs::hash::group_hash_axioms;

/// Logical cells per board (4 rows x 14 columns).
pub const WTN_CELLS_PER_BOARD: usize = 56;

/// One logical cell of a `.wtn` grid.
#[derive(Debug, Clone, Copy, PartialEq, Eq)]
pub struct WtnCell {
    pub key: u8,
    /// File value 1..=16; 0 marks a cell that is not set.
    pub chan: u8,
    /// 8-bit RGB exactly as in the file.
    pub color: (u8, u8, u8),
}

/// The empty cell: key 0, channel 0 (unset), black.
pub open spec fn default_cell() -> WtnCell {
    WtnCell { key: 0, chan: 0, color: (0, 0, 0) }
}

impl Default for WtnCell {
    fn default() -> (c: Self)
        ensures
            c == default_cell(),
    {
        WtnCell { key: 0, chan: 0, color: (0, 0, 0) }
    }
}

/// A parsed `.wtn` layout.
#[derive(Debug, Clone)]
pub struct Wtn {
    pub edo: Option<i32>,
    pub pitch_offset: i32,
    /// Board index -> its cells (56 for a parsed file).
    pub boards: HashMap<u8, Vec<WtnCell>>,
}

/// What a `Wtn` holds: the header values and each board's cells.
pub struct WtnModel {
    pub edo: Option<i32>,
    pub pitch_offset: i32,
    pub boards: Map<u8, Seq<WtnCell>>,
}

impl View for Wtn {
    type V = WtnModel;

    open spec fn view(&self) -> WtnModel {
        WtnModel {
            edo: self.edo,
            pitch_offset: self.pitch_offset,
            boards: self.boards@.map_values(|v: Vec<WtnCell>| v@),
        }
    }
}

/// What went wrong on a line of a `.wtn` file.
#[derive(Debug, Clone, Copy, PartialEq, Eq, Structural)]
pub enum WtnErrorKind {
    /// `[...]` that is not `[BoardN]` / `[boardN]` with N in 0..=255.
    BadSection,
    /// A line that is neither a comment, a section nor `Key=Value`.
    ExpectedKeyValue,
    BadEdo,
    BadPitchOffset,
    /// The part after the last `_` of a key is not a number.
    BadIndex,
    BadKey,
    BadChan,
    BadCol,
}

/// A `.wtn` error and the (1-based) line it is on.
#[derive(Debug, Clone, Copy, PartialEq, Eq, Structural)]
pub struct WtnError {
    pub line: usize,
    pub kind: WtnErrorKind,
}

impl Wtn {
    /// The cell `idx` of board `board`, if both exist.
    pub fn cell(&self, board: u8, idx: usize) -> (r: Option<WtnCell>)
        ensures
            r == (if self@.boards.contains_key(board) && idx < self@.boards[board].len() {
                Some(self@.boards[board][idx as int])
            } else {
                None
            }),
    {
        match self.boards.get(&board) {
            Some(v) => {
                if idx < v.len() {
                    Some(v[idx])
                } else {
                    None
                }
            },
            None => None,
        }
    }
}

// ---------------------------------------------------------------------------
// Parsing
// ---------------------------------------------------------------------------

/// `Col_N` value: optional single `#`, then `RRGGBB` or `AARRGGBB`, read on
/// the UTF-8 bytes of the trimmed value.
pub open spec fn wtn_color_spec(v: Seq<char>) -> Option<(u8, u8, u8)> {
    let t = vstd::utf8::encode_utf8(trim(v));
    let h = if t.len() > 0 && t[0] == 0x23 {
        t.drop_first()
    } else {
        t
    };
    match hex_rgb(h) {
        Ok((r, g, b)) => Some((r as u8, g as u8, b as u8)),
        Err(_) => None,
    }
}

/// Parser state between lines.
pub struct WtnParseState {
    pub model: WtnModel,
    pub current: Option<u8>,
}

/// The section name with its `Board` / `board` prefix removed (empty if it
/// has neither).
pub open spec fn board_number_text(name: Seq<char>) -> Seq<char> {
    if starts_with(name, "Board"@) {
        name.skip(5)
    } else if starts_with(name, "board"@) {
        name.skip(5)
    } else {
        Seq::empty()
    }
}

/// The cells of board `b` so far (56 empty cells for a new board).
pub open spec fn board_cells(m: Map<u8, Seq<WtnCell>>, b: u8) -> Seq<WtnCell> {
    if m.contains_key(b) {
        m[b]
    } else {
        Seq::new(56, |j: int| default_cell())
    }
}

/// The cell update a `field_idx=v` line makes, or its error.
pub open spec fn wtn_field(field: Seq<char>, v: Seq<char>, cell: WtnCell) -> Result<
    WtnCell,
    WtnErrorKind,
> {
    if field == "Key"@ {
        match parse_bounded(v, 255) {
            Some(x) => Ok(WtnCell { key: x as u8, ..cell }),
            None => Err(WtnErrorKind::BadKey),
        }
    } else if field == "Chan"@ {
        match parse_bounded(v, 255) {
            Some(x) => Ok(WtnCell { chan: x as u8, ..cell }),
            None => Err(WtnErrorKind::BadChan),
        }
    } else if field == "Col"@ {
        match wtn_color_spec(v) {
            Some(c) => Ok(WtnCell { color: c, ..cell }),
            None => Err(WtnErrorKind::BadCol),
        }
    } else {
        Ok(cell)
    }
}

/// One line of a `.wtn` file (`n` is its 1-based number).
#[verifier::opaque]
pub open spec fn wtn_step(st: WtnParseState, raw: Seq<char>, n: int) -> Result<
    WtnParseState,
    WtnError,
> {
    let l = trim(raw);
    if l.len() == 0 || l[0] == '#' || l[0] == ';' {
        Ok(st)
    } else if l[0] == '[' && l.last() == ']' {
        match parse_bounded(board_number_text(trim(l.subrange(1, l.len() - 1))), 255) {
            Some(b) => Ok(WtnParseState { model: st.model, current: Some(b as u8) }),
            None => Err(WtnError { line: n as usize, kind: WtnErrorKind::BadSection }),
        }
    } else {
        match split_once(l, '=') {
            None => Err(WtnError { line: n as usize, kind: WtnErrorKind::ExpectedKeyValue }),
            Some((k0, v0)) => key_value_step(st, trim(k0), trim(v0), n),
        }
    }
}

/// The lines `ls`, numbered from `base + 1`, applied in order.
pub open spec fn wtn_run(ls: Seq<Seq<char>>, st: WtnParseState, base: int) -> Result<
    WtnParseState,
    WtnError,
>
    decreases ls.len(),
{
    if ls.len() == 0 {
        Ok(st)
    } else {
        match wtn_step(st, ls[0], base + 1) {
            Ok(st2) => wtn_run(ls.drop_first(), st2, base + 1),
            Err(e) => Err(e),
        }
    }
}

/// The state before the first line.
pub open spec fn wtn_initial() -> WtnParseState {
    WtnParseState {
        model: WtnModel { edo: None, pitch_offset: 0, boards: Map::empty() },
        current: None,
    }
}

/// `parse_wtn`: the layout a `.wtn` text describes, or the first error.
pub open spec fn parse_wtn_spec(text: Seq<char>) -> Result<WtnModel, WtnError> {
    match wtn_run(lines(text), wtn_initial(), 0) {
        Ok(st) => Ok(st.model),
        Err(e) => Err(e),
    }
}

fn wtn_color(v: &[char]) -> (r: Option<(u8, u8, u8)>)
    ensures
        r == wtn_color_spec(v@),
{
    let t = trim_chars(v);
    let s = string_of(&t);
    let bytes = s.as_str().as_bytes();
    let start: usize = if bytes.len() > 0 && bytes[0] == 0x23 {
        1
    } else {
        0
    };
    proof {
        let tb = bytes@;
        if tb.len() > 0 && tb[0] == 0x23 {
            assert(tb.drop_first() =~= tb.skip(1));
        } else {
            assert(tb =~= tb.skip(0));
        }
    }
    match hex_rgb_exec(bytes, start) {
        Ok(c) => Some(c),
        Err(_) => None,
    }
}

fn board_number_text_exec(name: &[char]) -> (r: Vec<char>)
    ensures
        r@ == board_number_text(name@),
{
    if starts_with_str(name, "Board") || starts_with_str(name, "board") {
        proof {
            reveal_strlit("Board");
            reveal_strlit("board");
        }
        slice_of(name, 5, name.len())
    } else {
        Vec::new()
    }
}

/// Exec parser state: header values, current section, and for each of the
/// 256 board indices the cells named so far.
struct WtnBuilder {
    edo: Option<i32>,
    pitch_offset: i32,
    current: Option<u8>,
    tmp: Vec<Option<Vec<WtnCell>>>,
}

impl WtnBuilder {
    spec fn wf(&self) -> bool {
        &&& self.tmp@.len() == 256
        &&& forall|b: int| 0 <= b < 256 && (#[trigger] self.tmp@[b]) is Some ==> self.tmp@[b]->0@.len() == 56
    }

    spec fn boards(&self) -> Map<u8, Seq<WtnCell>> {
        Map::new(|b: u8| self.tmp@[b as int] is Some, |b: u8| self.tmp@[b as int]->0@)
    }

    spec fn state(&self) -> WtnParseState {
        WtnParseState {
            model: WtnModel { edo: self.edo, pitch_offset: self.pitch_offset, boards: self.boards() },
            current: self.current,
        }
    }

    fn new() -> (r: Self)
        ensures
            r.wf(),
            r.state() == wtn_initial(),
    {
        let mut tmp: Vec<Option<Vec<WtnCell>>> = Vec::new();
        let mut b: usize = 0;
        while b < 256
            invariant
                b <= 256,
                tmp@.len() == b,
                forall|j: int| 0 <= j < b ==> tmp@[j] is None,
            decreases 256 - b,
        {
            tmp.push(None);
            b += 1;
        }
        let r = WtnBuilder { edo: None, pitch_offset: 0, current: None, tmp };
        assert(r.boards() =~= Map::<u8, Seq<WtnCell>>::empty());
        r
    }

    /// A `field_idx=v` line inside section `b`, with `idx < 56`.
    fn cell_line(&mut self, b: u8, idx: usize, field: &[char], v: &[char]) -> (r: Result<
        (),
        WtnErrorKind,
    >)
        requires
            old(self).wf(),
            idx < 56,
        ensures
            final(self).wf(),
            final(self).edo == old(self).edo,
            final(self).pitch_offset == old(self).pitch_offset,
            final(self).current == old(self).current,
            match wtn_field(field@, v@, board_cells(old(self).boards(), b)[idx as int]) {
                Ok(c) => r is Ok && final(self).boards() == old(self).boards().insert(
                    b,
                    board_cells(old(self).boards(), b).update(idx as int, c),
                ),
                Err(k) => r == Err::<(), WtnErrorKind>(k),
            },
    {
        let bi = b as usize;
        let mut cells: Vec<WtnCell> = match &self.tmp[bi] {
            Some(c) => c.clone(),
            None => {
                let mut c: Vec<WtnCell> = Vec::new();
                let mut j: usize = 0;
                while j < 56
                    invariant
                        j <= 56,
                        c@ =~= Seq::new(j as nat, |q: int| default_cell()),
                    decreases 56 - j,
                {
                    c.push(WtnCell::default());
                    j += 1;
                }
                c
            },
        };
        assert(cells@ == board_cells(self.boards(), b));
        let mut cell = cells[idx];
        if eq_str(field, "Key") {
            match parse_u8(v) {
                Some(x) => {
                    cell.key = x;
                },
                None => {
                    return Err(WtnErrorKind::BadKey);
                },
            }
        } else if eq_str(field, "Chan") {
            match parse_u8(v) {
                Some(x) => {
                    cell.chan = x;
                },
                None => {
                    return Err(WtnErrorKind::BadChan);
                },
            }
        } else if eq_str(field, "Col") {
            match wtn_color(v) {
                Some(c) => {
                    cell.color = c;
                },
                None => {
                    return Err(WtnErrorKind::BadCol);
                },
            }
        }
        cells.set(idx, cell);
        let ghost old_boards = self.boards();
        self.tmp.set(bi, Some(cells));
        assert(self.boards() =~= old_boards.insert(
            b,
            board_cells(old_boards, b).update(idx as int, cell),
        ));
        Ok(())
    }

    /// A `k=v` line.
    fn key_value_line(&mut self, k: &[char], v: &[char], line_no: usize) -> (r: Result<
        (),
        WtnError,
    >)
        requires
            old(self).wf(),
        ensures
            final(self).wf(),
            key_value_step(old(self).state(), k@, v@, line_no as int) == match r {
                Ok(_) => Ok(final(self).state()),
                Err(e) => Err::<WtnParseState, WtnError>(e),
            },
    {
        match self.current {
            None => {
                if eq_str(k, "Edo") {
                    match parse_i32(v) {
                        Some(e) => {
                            self.edo = Some(e);
                        },
                        None => {
                            return Err(WtnError { line: line_no, kind: WtnErrorKind::BadEdo });
                        },
                    }
                } else if eq_str(k, "PitchOffset") {
                    match parse_i32(v) {
                        Some(p) => {
                            self.pitch_offset = p;
                        },
                        None => {
                            return Err(
                                WtnError { line: line_no, kind: WtnErrorKind::BadPitchOffset },
                            );
                        },
                    }
                }
                Ok(())
            },
            Some(bn) => {
                match rsplit_once_chars(k, '_') {
                    None => Ok(()),
                    Some((field, idx_s)) => {
                        let idx = match parse_uint(&idx_s, usize::MAX as u64) {
                            Some(x) => x,
                            None => {
                                return Err(
                                    WtnError { line: line_no, kind: WtnErrorKind::BadIndex },
                                );
                            },
                        };
                        if idx < 56 {
                            match self.cell_line(bn, idx as usize, &field, v) {
                                Ok(()) => Ok(()),
                                Err(kind) => Err(WtnError { line: line_no, kind }),
                            }
                        } else {
                            Ok(())
                        }
                    },
                }
            },
        }
    }

    /// One raw line.
    fn line(&mut self, raw: &[char], line_no: usize) -> (r: Result<(), WtnError>)
        requires
            old(self).wf(),
        ensures
            final(self).wf(),
            wtn_step(old(self).state(), raw@, line_no as int) == match r {
                Ok(_) => Ok(final(self).state()),
                Err(e) => Err::<WtnParseState, WtnError>(e),
            },
    {
        reveal(wtn_step);
        let l = trim_chars(raw);
        let n = l.len();
        if n == 0 || l[0] == '#' || l[0] == ';' {
            return Ok(());
        }
        if l[0] == '[' && l[n - 1] == ']' {
            let inner = slice_of(&l, 1, n - 1);
            let name = trim_chars(&inner);
            let num = board_number_text_exec(&name);
            match parse_u8(&num) {
                Some(bn) => {
                    self.current = Some(bn);
                    return Ok(());
                },
                None => {
                    return Err(WtnError { line: line_no, kind: WtnErrorKind::BadSection });
                },
            }
        }
        match split_once_chars(&l, '=') {
            Some((k0, v0)) => {
                let k = trim_chars(&k0);
                let v = trim_chars(&v0);
                self.key_value_line(&k, &v, line_no)
            },
            None => Err(WtnError { line: line_no, kind: WtnErrorKind::ExpectedKeyValue }),
        }
    }
}

/// A trimmed `k=v` line (`k`, `v` trimmed) in state `st`.
pub open spec fn key_value_step(st: WtnParseState, k: Seq<char>, v: Seq<char>, n: int) -> Result<
    WtnParseState,
    WtnError,
> {
    let err = |kind: WtnErrorKind| WtnError { line: n as usize, kind: kind };
    match st.current {
        None => if k == "Edo"@ {
            match parse_i32_spec(v) {
                Some(e) => Ok(
                    WtnParseState { model: WtnModel { edo: Some(e as i32), ..st.model }, current: None },
                ),
                None => Err(err(WtnErrorKind::BadEdo)),
            }
        } else if k == "PitchOffset"@ {
            match parse_i32_spec(v) {
                Some(p) => Ok(
                    WtnParseState {
                        model: WtnModel { pitch_offset: p as i32, ..st.model },
                        current: None,
                    },
                ),
                None => Err(err(WtnErrorKind::BadPitchOffset)),
            }
        } else {
            Ok(st)
        },
        Some(b) => match rsplit_once(k, '_') {
            None => Ok(st),
            Some((field, idx_s)) => match parse_bounded(idx_s, usize::MAX as int) {
                None => Err(err(WtnErrorKind::BadIndex)),
                Some(idx) => if idx >= 56 {
                    Ok(st)
                } else {
                    let cells = board_cells(st.model.boards, b);
                    match wtn_field(field, v, cells[idx]) {
                        Ok(c) => Ok(
                            WtnParseState {
                                model: WtnModel {
                                    boards: st.model.boards.insert(b, cells.update(idx, c)),
                                    ..st.model
                                },
                                current: Some(b),
                            },
                        ),
                        Err(kind) => Err(err(kind)),
                    }
                },
            },
        },
    }
}

/// Reads a `.wtn` text. Lines are trimmed; blank lines and lines starting
/// with `#` or `;` are skipped. Before the first section only `Edo` and
/// `PitchOffset` are read (other keys are ignored). Inside `[BoardN]`, a
/// `Field_N=value` line sets field `Key`, `Chan` or `Col` of cell N (other
/// fields only create the cell); keys without `_` and cells past 55 are
/// ignored. A board exists once one of its cells has been named.
pub fn parse_wtn(text: &str) -> (r: Result<Wtn, WtnError>)
    ensures
        match r {
            Ok(w) => parse_wtn_spec(text@) == Ok::<WtnModel, WtnError>(w@),
            Err(e) => parse_wtn_spec(text@) == Err::<WtnModel, WtnError>(e),
        },
{
    let chars = chars_of(text);
    let ls = split_lines(&chars);
    let ghost all = lines(text@);
    let mut bl = WtnBuilder::new();
    let mut i: usize = 0;
    assert(all.skip(0) =~= all);
    while i < ls.len()
        invariant
            all == lines(text@),
            ls@.len() == all.len(),
            forall|j: int| 0 <= j < ls@.len() ==> (#[trigger] ls@[j])@ == all[j],
            i <= ls@.len(),
            bl.wf(),
            wtn_run(all, wtn_initial(), 0) == wtn_run(all.skip(i as int), bl.state(), i as int),
        decreases ls@.len() - i,
    {
        let ghost rest = all.skip(i as int);
        let ghost st0 = bl.state();
        assert(rest[0] == all[i as int]);
        assert(rest.drop_first() =~= all.skip(i + 1));
        let r = bl.line(&ls[i], i + 1);
        if let Err(e) = r {
            assert(wtn_run(rest, st0, i as int) == Err::<WtnParseState, WtnError>(e));
            return Err(e);
        }
        i += 1;
    }
    proof {
        assert(all.skip(i as int) =~= Seq::<Seq<char>>::empty());
    }
    let mut out: HashMap<u8, Vec<WtnCell>> = HashMap::new();
    let mut b: usize = 0;
    while b < 256
        invariant
            b <= 256,
            bl.wf(),
            forall|k: u8| #[trigger] out@.contains_key(k) <==> (k < b && bl.boards().contains_key(k)),
            forall|k: u8| #[trigger] out@.contains_key(k) ==> out@[k]@ == bl.boards()[k],
        decreases 256 - b,
    {
        let bu = b as u8;
        match &bl.tmp[b] {
            Some(c) => {
                out.insert(bu, c.clone());
            },
            None => {},
        }
        b += 1;
    }
    let w = Wtn { edo: bl.edo, pitch_offset: bl.pitch_offset, boards: out };
    assert(w@.boards =~= bl.boards());
    Ok(w)
}

// ---------------------------------------------------------------------------
// Writing
// ---------------------------------------------------------------------------

/// `Name_i=value`.
pub open spec fn entry_line(name: Seq<char>, i: nat, value: Seq<char>) -> Seq<char> {
    name + seq!['_'] + dec_digits(i) + seq!['='] + value
}

/// The three lines of cell `i`.
pub open spec fn cell_lines(i: nat, c: WtnCell) -> Seq<Seq<char>> {
    seq![
        entry_line("Key"@, i, dec_digits(c.key as nat)),
        entry_line("Chan"@, i, dec_digits(c.chan as nat)),
        entry_line("Col"@, i, hex2(c.color.0) + hex2(c.color.1) + hex2(c.color.2)),
    ]
}

/// The lines of cells `0..cells.len()`.
pub open spec fn cells_lines(cells: Seq<WtnCell>) -> Seq<Seq<char>>
    decreases cells.len(),
{
    if cells.len() == 0 {
        seq![]
    } else {
        cells_lines(cells.drop_last()) + cell_lines((cells.len() - 1) as nat, cells.last())
    }
}

/// `[BoardN]`.
pub open spec fn section_line(b: u8) -> Seq<char> {
    "[Board"@ + dec_digits(b as nat) + seq![']']
}

/// A blank line, the section header, then the cells.
pub open spec fn board_lines(b: u8, cells: Seq<WtnCell>) -> Seq<Seq<char>> {
    seq![Seq::empty(), section_line(b)] + cells_lines(cells)
}

/// The lines of the boards with index below `b`, in increasing order.
pub open spec fn boards_lines(m: Map<u8, Seq<WtnCell>>, b: nat) -> Seq<Seq<char>>
    decreases b,
{
    if b == 0 {
        seq![]
    } else {
        boards_lines(m, (b - 1) as nat) + if m.contains_key((b - 1) as u8) {
            board_lines((b - 1) as u8, m[(b - 1) as u8])
        } else {
            seq![]
        }
    }
}

/// `Edo=...` (when present) and `PitchOffset=...`.
pub open spec fn header_lines(w: WtnModel) -> Seq<Seq<char>> {
    (match w.edo {
        Some(e) => seq!["Edo="@ + dec_signed(e as int)],
        None => seq![],
    }) + seq!["PitchOffset="@ + dec_signed(w.pitch_offset as int)]
}

/// The lines `write_wtn` produces.
pub open spec fn wtn_text_lines(w: WtnModel) -> Seq<Seq<char>> {
    header_lines(w) + boards_lines(w.boards, 256)
}

fn push_entry(out: &mut Vec<char>, name: &str, i: usize, value: &[char], Ghost(ls): Ghost<
    Seq<Seq<char>>,
>)
    requires
        old(out)@ == join_lines(ls),
    ensures
        final(out)@ == join_lines(ls.push(entry_line(name@, i as nat, value@))),
{
    let mut l: Vec<char> = Vec::new();
    push_str(&mut l, name);
    l.push('_');
    let d = fmt_u64(i as u64);
    push_all(&mut l, &d);
    l.push('=');
    push_all(&mut l, value);
    assert(l@ =~= entry_line(name@, i as nat, value@));
    crate::text::push_line(out, &l, Ghost(ls));
}

/// Writes `w` in the `.wtn` format `parse_wtn` reads: `Edo` (if set) and
/// `PitchOffset`, then for each board in increasing index order a blank
/// line, `[BoardN]` and `Key_i`, `Chan_i`, `Col_i` (as `RRGGBB`) for every
/// cell.
pub fn write_wtn(wtn: &Wtn) -> (s: String)
    ensures
        s@ == join_lines(wtn_text_lines(wtn@)),
{
    let mut out: Vec<char> = Vec::new();
    let ghost mut ls: Seq<Seq<char>> = seq![];
    if let Some(e) = wtn.edo {
        let mut l: Vec<char> = Vec::new();
        push_str(&mut l, "Edo=");
        let d = fmt_i64(e as i64);
        push_all(&mut l, &d);
        crate::text::push_line(&mut out, &l, Ghost(ls));
        proof {
            ls = ls.push(l@);
        }
    }
    let mut l: Vec<char> = Vec::new();
    push_str(&mut l, "PitchOffset=");
    let d = fmt_i64(wtn.pitch_offset as i64);
    push_all(&mut l, &d);
    crate::text::push_line(&mut out, &l, Ghost(ls));
    proof {
        ls = ls.push(l@);
        assert(ls =~= header_lines(wtn@));
    }
    let mut b: usize = 0;
    while b < 256
        invariant
            b <= 256,
            out@ == join_lines(ls),
            ls == header_lines(wtn@) + boards_lines(wtn@.boards, b as nat),
        decreases 256 - b,
    {
        let bu = b as u8;
        let ghost before = ls;
        match wtn.boards.get(&bu) {
            Some(cells) => {
                crate::text::push_line(&mut out, &Vec::new(), Ghost(ls));
                proof {
                    ls = ls.push(Seq::empty());
                }
                let mut h: Vec<char> = Vec::new();
                push_str(&mut h, "[Board");
                let d = fmt_u64(b as u64);
                push_all(&mut h, &d);
                h.push(']');
                assert(h@ =~= section_line(bu));
                crate::text::push_line(&mut out, &h, Ghost(ls));
                proof {
                    ls = ls.push(h@);
                }
                let mut i: usize = 0;
                while i < cells.len()
                    invariant
                        i <= cells@.len(),
                        out@ == join_lines(ls),
                        ls == before + seq![Seq::empty(), section_line(bu)] + cells_lines(
                            cells@.take(i as int),
                        ),
                    decreases cells@.len() - i,
                {
                    let c = cells[i];
                    let kd = fmt_u64(c.key as u64);
                    push_entry(&mut out, "Key", i, &kd, Ghost(ls));
                    proof {
                        ls = ls.push(entry_line("Key"@, i as nat, kd@));
                    }
                    let cd = fmt_u64(c.chan as u64);
                    push_entry(&mut out, "Chan", i, &cd, Ghost(ls));
                    proof {
                        ls = ls.push(entry_line("Chan"@, i as nat, cd@));
                    }
                    let mut hx: Vec<char> = Vec::new();
                    push_hex2(&mut hx, c.color.0);
                    push_hex2(&mut hx, c.color.1);
                    push_hex2(&mut hx, c.color.2);
                    push_entry(&mut out, "Col", i, &hx, Ghost(ls));
                    proof {
                        ls = ls.push(entry_line("Col"@, i as nat, hx@));
                        let t = cells@.take(i + 1);
                        assert(t.drop_last() =~= cells@.take(i as int));
                        assert(hx@ =~= hex2(c.color.0) + hex2(c.color.1) + hex2(c.color.2));
                    }
                    i += 1;
                    proof {
                        assert(ls =~= before + seq![Seq::empty(), section_line(bu)] + cells_lines(
                            cells@.take(i as int),
                        ));
                    }
                }
                proof {
                    assert(cells@.take(cells@.len() as int) =~= cells@);
                    assert(wtn@.boards.contains_key(bu));
                    assert(wtn@.boards[bu] == cells@);
                }
            },
            None => {},
        }
        b += 1;
        proof {
            assert(((b - 1) as u8) == bu);
            assert(ls =~= header_lines(wtn@) + boards_lines(wtn@.boards, b as nat));
        }
    }
    string_of(&out)
}

/// The cell a new layout starts with: key 0, channel 1, black.
pub open spec fn blank_cell() -> WtnCell {
    WtnCell { key: 0, chan: 1, color: (0, 0, 0) }
}

/// A new layout with `boards` boards (indices `0..boards`), each of 56
/// cells at `Key=0 Chan=1 Col=000000`.
pub fn new_blank(edo: i32, boards: u8, pitch_offset: i32) -> (w: Wtn)
    ensures
        w@.edo == Some(edo),
        w@.pitch_offset == pitch_offset,
        forall|b: u8| #[trigger] w@.boards.contains_key(b) <==> b < boards,
        forall|b: u8|
            #[trigger] w@.boards.contains_key(b) ==> w@.boards[b] == Seq::new(
                56,
                |j: int| blank_cell(),
            ),
{
    let mut bs: HashMap<u8, Vec<WtnCell>> = HashMap::new();
    let mut b: u8 = 0;
    while b < boards
        invariant
            b <= boards,
            forall|k: u8| #[trigger] bs@.contains_key(k) <==> k < b,
            forall|k: u8|
                #[trigger] bs@.contains_key(k) ==> bs@[k]@ == Seq::new(56, |j: int| blank_cell()),
        decreases boards - b,
    {
        let mut c: Vec<WtnCell> = Vec::new();
        let mut j: usize = 0;
        while j < 56
            invariant
                j <= 56,
                c@ =~= Seq::new(j as nat, |q: int| blank_cell()),
            decreases 56 - j,
        {
            c.push(WtnCell { key: 0, chan: 1, color: (0, 0, 0) });
            j += 1;
        }
        bs.insert(b, c);
        b += 1;
    }
    Wtn { edo: Some(edo), pitch_offset, boards: bs }
}

/// A `Col_N` value of six (`RRGGBB`) or eight (`AARRGGBB`) hexadecimal
/// digits, in either case, gives the colour those digits spell (alpha
/// dropped), and the same value written with a leading `#` gives the same
/// colour.
pub proof fn lemma_wtn_color_hex(h: Seq<char>)
    requires
        h.len() == 6 || h.len() == 8,
        crate::num::all_hex(h),
    ensures
        ({
            let o = h.len() - 6;
            let c = Some(
                (
                    (16 * crate::num::hex_digit_value(h[o]) + crate::num::hex_digit_value(h[o + 1])) as u8,
                    (16 * crate::num::hex_digit_value(h[o + 2]) + crate::num::hex_digit_value(h[o + 3])) as u8,
                    (16 * crate::num::hex_digit_value(h[o + 4]) + crate::num::hex_digit_value(h[o + 5])) as u8,
                ),
            );
            &&& wtn_color_spec(h) == c
            &&& wtn_color_spec(seq!['#'] + h) == c
        }),
{
    let g = seq!['#'] + h;
    crate::exquis::proto::lemma_hex_digit_byte(h[0]);
    crate::exquis::proto::lemma_hex_digit_byte(h[h.len() - 1]);
    crate::text::lemma_trim_id(h);
    assert(g[0] == '#');
    assert(g.last() == h.last());
    crate::text::lemma_trim_id(g);
    crate::exquis::proto::lemma_hex_text_bytes(h);
    let t = vstd::utf8::encode_utf8(h);
    assert(!(t.len() > 0 && t[0] == 0x23)) by {
        assert(t[0] == h[0] as u8);
    }
    assert((seq![0x23u8] + t).drop_first() =~= t);
    let o = h.len() - 6;
    let h2 = if h.len() == 8 { t.skip(2) } else { t };
    assert forall|i: int| 0 <= i < 6 implies #[trigger] h2[i] == h[o + i] as u8 by {
        assert(t[o + i] == h[o + i] as u8);
    }
    crate::exquis::proto::lemma_hex_digit_byte(h[o]);
    crate::exquis::proto::lemma_hex_digit_byte(h[o + 1]);
    crate::exquis::proto::lemma_hex_digit_byte(h[o + 2]);
    crate::exquis::proto::lemma_hex_digit_byte(h[o + 3]);
    crate::exquis::proto::lemma_hex_digit_byte(h[o + 4]);
    crate::exquis::proto::lemma_hex_digit_byte(h[o + 5]);
    if h.len() == 8 {
        crate::exquis::proto::lemma_hex_digit_byte(h[2]);
        assert(t[2] == h[2] as u8);
    }
    assert(h2[0] == h[o] as u8);
    assert(h2[1] == h[o + 1] as u8);
    assert(h2[2] == h[o + 2] as u8);
    assert(h2[3] == h[o + 3] as u8);
    assert(h2[4] == h[o + 4] as u8);
    assert(h2[5] == h[o + 5] as u8);
}

/// Inside `[BoardB]`, a line `Col_i = h` (cell `i` below 56, `h` six or
/// eight hex digits, with or without a leading `#`) gives cell `i` of board
/// `B` the colour the digits spell and changes nothing else: the cell's
/// key and channel, the other cells, the other boards and the header stay.
pub proof fn lemma_col_line_sets_colour(st: WtnParseState, b: u8, i: nat, h: Seq<char>, hash: bool, n: int)
    requires
        st.current == Some(b),
        board_cells(st.model.boards, b).len() == 56,
        i < 56,
        h.len() == 6 || h.len() == 8,
        crate::num::all_hex(h),
    ensures
        ({
            let v = if hash { seq!['#'] + h } else { h };
            let o = h.len() - 6;
            let col = (
                (16 * crate::num::hex_digit_value(h[o]) + crate::num::hex_digit_value(h[o + 1])) as u8,
                (16 * crate::num::hex_digit_value(h[o + 2]) + crate::num::hex_digit_value(h[o + 3])) as u8,
                (16 * crate::num::hex_digit_value(h[o + 4]) + crate::num::hex_digit_value(h[o + 5])) as u8,
            );
            let r = key_value_step(st, "Col_"@ + dec_digits(i), v, n);
            let before = board_cells(st.model.boards, b);
            &&& r is Ok
            &&& r->Ok_0.current == Some(b)
            &&& r->Ok_0.model.edo == st.model.edo
            &&& r->Ok_0.model.pitch_offset == st.model.pitch_offset
            &&& r->Ok_0.model.boards.contains_key(b)
            &&& r->Ok_0.model.boards[b].len() == before.len()
            &&& r->Ok_0.model.boards[b][i as int] == (WtnCell { color: col, ..before[i as int] })
            &&& forall|j: int| 0 <= j < before.len() && j != i ==> #[trigger] r->Ok_0.model.boards[b][j] == before[j]
            &&& forall|b2: u8| b2 != b ==> (#[trigger] r->Ok_0.model.boards.contains_key(b2)) == st.model.boards.contains_key(b2)
                && (st.model.boards.contains_key(b2) ==> r->Ok_0.model.boards[b2] == st.model.boards[b2])
        }),
{
    let v = if hash { seq!['#'] + h } else { h };
    lemma_wtn_color_hex(h);
    reveal_strlit("Col_");
    reveal_strlit("Col");
    crate::num::lemma_dec_digits_parse(i);
    let d = dec_digits(i);
    let k = "Col_"@ + d;
    assert(k[3] == '_');
    assert forall|q: int| 3 < q < k.len() implies k[q] != '_' by {
        assert(k[q] == d[q - 4]);
        assert(crate::num::is_digit(d[q - 4]));
    }
    crate::text::lemma_rsplit_once_at(k, '_', 3);
    assert(k.take(3) =~= "Col"@);
    assert(k.skip(4) =~= d);
    assert(crate::num::parse_bounded(d, usize::MAX as int) == Some(i as int));
    let before = board_cells(st.model.boards, b);
    assert(wtn_color_spec(v) is Some);
    reveal_strlit("Key");
    reveal_strlit("Chan");
    assert("Col"@[0] != "Key"@[0]);
    assert("Col"@.len() != "Chan"@.len());
    assert(wtn_field("Col"@, v, before[i as int]) == Ok::<WtnCell, WtnErrorKind>(
        WtnCell { color: wtn_color_spec(v)->Some_0, ..before[i as int] },
    ));
}

/// Inside `[BoardB]`, a line `Key_i = x` (or `Chan_i = x`) with cell `i`
/// below 56 and `x` at most 255 written in decimal sets the key (or the
/// channel) of cell `i` of board `B` to `x` and changes nothing else.
pub proof fn lemma_key_chan_line_sets(st: WtnParseState, b: u8, i: nat, is_key: bool, x: nat, n: int)
    requires
        st.current == Some(b),
        board_cells(st.model.boards, b).len() == 56,
        i < 56,
        x <= 255,
    ensures
        ({
            let k = if is_key { "Key_"@ + dec_digits(i) } else { "Chan_"@ + dec_digits(i) };
            let r = key_value_step(st, k, dec_digits(x), n);
            let before = board_cells(st.model.boards, b);
            let want = if is_key {
                WtnCell { key: x as u8, ..before[i as int] }
            } else {
                WtnCell { chan: x as u8, ..before[i as int] }
            };
            &&& r is Ok
            &&& r->Ok_0.current == Some(b)
            &&& r->Ok_0.model.edo == st.model.edo
            &&& r->Ok_0.model.pitch_offset == st.model.pitch_offset
            &&& r->Ok_0.model.boards.contains_key(b)
            &&& r->Ok_0.model.boards[b].len() == before.len()
            &&& r->Ok_0.model.boards[b][i as int] == want
            &&& forall|j: int| 0 <= j < before.len() && j != i ==> #[trigger] r->Ok_0.model.boards[b][j] == before[j]
            &&& forall|b2: u8| b2 != b ==> (#[trigger] r->Ok_0.model.boards.contains_key(b2)) == st.model.boards.contains_key(b2)
                && (st.model.boards.contains_key(b2) ==> r->Ok_0.model.boards[b2] == st.model.boards[b2])
        }),
{
    reveal_strlit("Key_");
    reveal_strlit("Chan_");
    reveal_strlit("Key");
    reveal_strlit("Chan");
    crate::num::lemma_dec_digits_parse(i);
    crate::num::lemma_dec_digits_parse(x);
    let d = dec_digits(i);
    let pre = if is_key { "Key_"@ } else { "Chan_"@ };
    let name = if is_key { "Key"@ } else { "Chan"@ };
    let k = pre + d;
    let u = pre.len() - 1;
    assert(k[u] == '_');
    assert forall|q: int| u < q < k.len() implies k[q] != '_' by {
        assert(k[q] == d[q - pre.len()]);
        assert(crate::num::is_digit(d[q - pre.len()]));
    }
    crate::text::lemma_rsplit_once_at(k, '_', u);
    assert(k.take(u) =~= name);
    assert(k.skip(u + 1) =~= d);
    assert(crate::num::parse_bounded(d, usize::MAX as int) == Some(i as int));
    assert(crate::num::parse_bounded(dec_digits(x), 255) == Some(x as int));
    assert("Key"@.len() != "Chan"@.len());
}

} // verus!
