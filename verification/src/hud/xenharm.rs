//! Note and interval names from the optional naming service, and the
//! service's health as the HUD shows it.
use vstd::prelude::*;

use crate::num::{dec_signed, fmt_i64};
use crate::text::{push_all, string_of};

verus! {

/// An alternative spelling of a name.
#[derive(Debug, Clone)]
pub struct NoteAlt {
    pub short: String,
    pub unicode: String,
}

/// The name of a pitch: plain text, the glyph form, and alternatives.
#[derive(Debug, Clone)]
pub struct NoteName {
    pub short: String,
    pub unicode: String,
    pub alts: Vec<NoteAlt>,
}

/// The name of an interval, in the same shape as a note name.
#[derive(Debug, Clone)]
pub struct IntervalName {
    pub short: String,
    pub unicode: String,
    pub alts: Vec<NoteAlt>,
}

/// Health of the naming service: whether it answers, and the latest error
/// with the time it was recorded (ms since the UNIX epoch), cleared by the
/// next success.
#[derive(Debug, Clone, Default)]
pub struct XenharmStatus {
    pub available: bool,
    pub last_error: Option<String>,
    pub last_error_at_ms: Option<u64>,
}

impl XenharmStatus {
    /// After a successful request: available, with no error.
    pub fn record_success(&mut self)
        ensures
            final(self).available,
            final(self).last_error is None,
            final(self).last_error_at_ms is None,
    {
        self.available = true;
        self.last_error = None;
        self.last_error_at_ms = None;
    }

    /// After a failed request at `now_ms`: the error and its time are kept;
    /// availability stays as it was, since the service may only be slow.
    pub fn record_failure(&mut self, msg: String, now_ms: u64)
        ensures
            final(self).available == old(self).available,
            final(self).last_error == Some(msg),
            final(self).last_error_at_ms == Some(now_ms),
    {
        self.last_error = Some(msg);
        self.last_error_at_ms = Some(now_ms);
    }
}

/// The cache key of a name: `<edo>:<pitch>`.
pub fn name_key(edo: i32, pitch: i32) -> (r: String)
    ensures
        r@ == dec_signed(edo as int) + seq![':'] + dec_signed(pitch as int),
{
    let mut v = fmt_i64(edo as i64);
    v.push(':');
    let p = fmt_i64(pitch as i64);
    push_all(&mut v, &p);
    string_of(&v)
}

pub open spec fn strictly_increasing(s: Seq<i32>) -> bool {
    forall|i: int, j: int| 0 <= i < j < s.len() ==> s[i] < s[j]
}

/// `x` is sounding on some board or is the pitch of some layout cell.
pub open spec fn pitch_of_interest(pressed: Seq<Vec<i32>>, cells: Seq<Vec<Option<i32>>>, x: i32) -> bool {
    (exists|a: int, b: int| 0 <= a < pressed.len() && 0 <= b < pressed[a]@.len() && pressed[a]@[b] == x)
    || (exists|a: int, b: int| 0 <= a < cells.len() && 0 <= b < cells[a]@.len() && cells[a]@[b] == Some(x))
}

pub(crate) fn insert_unique(v: &mut Vec<i32>, x: i32)
    requires
        strictly_increasing(old(v)@),
    ensures
        strictly_increasing(final(v)@),
        forall|y: i32| final(v)@.contains(y) <==> (old(v)@.contains(y) || y == x),
{
    let mut pos: usize = 0;
    while pos < v.len() && v[pos] < x
        invariant
            pos <= v@.len(),
            forall|k: int| 0 <= k < pos ==> v@[k] < x,
        decreases v@.len() - pos,
    {
        pos = pos + 1;
    }
    if pos < v.len() && v[pos] == x {
        assert(v@[pos as int] == x);
        assert(v@.contains(x));
        assert(v@ == old(v)@);
        assert(forall|y: i32| v@.contains(y) <==> (old(v)@.contains(y) || y == x));
    } else {
        let ghost before = v@;
        v.insert(pos, x);
        assert forall|y: i32| v@.contains(y) <==> (before.contains(y) || y == x) by {
            if v@.contains(y) {
                let k = choose|k: int| 0 <= k < v@.len() && v@[k] == y;
                if k < pos {
                    assert(before[k] == y);
                } else if k > pos {
                    assert(before[k - 1] == y);
                }
            }
            if before.contains(y) {
                let k = choose|k: int| 0 <= k < before.len() && before[k] == y;
                if k < pos {
                    assert(v@[k] == y);
                } else {
                    assert(v@[k + 1] == y);
                }
            }
            if y == x {
                assert(v@[pos as int] == x);
            }
        }
        assert(before == old(v)@);
        assert forall|y: i32| v@.contains(y) <==> (old(v)@.contains(y) || y == x) by {
            assert(before.contains(y) == old(v)@.contains(y));
            assert(v@.contains(y) <==> (before.contains(y) || y == x));
        }
        assert(strictly_increasing(v@)) by {
            assert forall|i: int, j: int| 0 <= i < j < v@.len() implies v@[i] < v@[j] by {
                if j < pos {
                    assert(v@[i] == before[i] && v@[j] == before[j]);
                } else if j == pos {
                    assert(v@[i] == before[i]);
                } else if i > pos {
                    assert(v@[i] == before[i - 1] && v@[j] == before[j - 1]);
                } else if i == pos {
                    assert(v@[j] == before[j - 1]);
                    assert(before[pos as int] >= x);
                } else {
                    assert(v@[i] == before[i] && v@[j] == before[j - 1]);
                }
            }
        }
    }
}

/// The pitches whose names the HUD may show: every sounding pitch and
/// every layout cell's pitch, in increasing order, each once.
pub fn pitches_of_interest(pressed: &Vec<Vec<i32>>, cells: &Vec<Vec<Option<i32>>>) -> (r: Vec<i32>)
    ensures
        strictly_increasing(r@),
        forall|x: i32| r@.contains(x) <==> pitch_of_interest(pressed@, cells@, x),
{
    let mut out: Vec<i32> = Vec::new();
    let mut a: usize = 0;
    while a < pressed.len()
        invariant
            a <= pressed@.len(),
            strictly_increasing(out@),
            forall|x: i32| out@.contains(x) <==> (exists|i: int, b: int|
                0 <= i < a && 0 <= b < pressed@[i]@.len() && pressed@[i]@[b] == x),
        decreases pressed@.len() - a,
    {
        let row = &pressed[a];
        let mut b: usize = 0;
        while b < row.len()
            invariant
                a < pressed@.len(),
                row == pressed@[a as int],
                b <= row@.len(),
                strictly_increasing(out@),
                forall|x: i32| out@.contains(x) <==> ((exists|i: int, k: int|
                    0 <= i < a && 0 <= k < pressed@[i]@.len() && pressed@[i]@[k] == x)
                    || (exists|k: int| 0 <= k < b && row@[k] == x)),
            decreases row@.len() - b,
        {
            insert_unique(&mut out, row[b]);
            b = b + 1;
        }
        assert forall|x: i32| out@.contains(x) <==> (exists|i: int, k: int|
            0 <= i < a + 1 && 0 <= k < pressed@[i]@.len() && pressed@[i]@[k] == x) by {
            if exists|k: int| 0 <= k < b && row@[k] == x {
                let k = choose|k: int| 0 <= k < b && row@[k] == x;
                assert(0 <= a < a + 1 && 0 <= k < pressed@[a as int]@.len() && pressed@[a as int]@[k] == x);
            }
            if exists|i: int, k: int| 0 <= i < a + 1 && 0 <= k < pressed@[i]@.len() && pressed@[i]@[k] == x {
                let (i, k) = choose|i: int, k: int| 0 <= i < a + 1 && 0 <= k < pressed@[i]@.len() && pressed@[i]@[k] == x;
                if i == a {
                    assert(0 <= k < b && row@[k] == x);
                }
            }
        }
        a = a + 1;
    }
    let mut c: usize = 0;
    while c < cells.len()
        invariant
            c <= cells@.len(),
            strictly_increasing(out@),
            forall|x: i32| out@.contains(x) <==> ((exists|i: int, b: int|
                0 <= i < pressed@.len() && 0 <= b < pressed@[i]@.len() && pressed@[i]@[b] == x)
                || (exists|i: int, b: int| 0 <= i < c && 0 <= b < cells@[i]@.len() && cells@[i]@[b] == Some(x))),
        decreases cells@.len() - c,
    {
        let row = &cells[c];
        let mut b: usize = 0;
        while b < row.len()
            invariant
                c < cells@.len(),
                row == cells@[c as int],
                b <= row@.len(),
                strictly_increasing(out@),
                forall|x: i32| out@.contains(x) <==> ((exists|i: int, k: int|
                    0 <= i < pressed@.len() && 0 <= k < pressed@[i]@.len() && pressed@[i]@[k] == x)
                    || (exists|i: int, k: int| 0 <= i < c && 0 <= k < cells@[i]@.len() && cells@[i]@[k] == Some(x))
                    || (exists|k: int| 0 <= k < b && row@[k] == Some(x))),
            decreases row@.len() - b,
        {
            match row[b] {
                Some(p) => {
                    insert_unique(&mut out, p);
                },
                None => {},
            }
            b = b + 1;
        }
        assert forall|x: i32| out@.contains(x) <==> ((exists|i: int, k: int|
            0 <= i < pressed@.len() && 0 <= k < pressed@[i]@.len() && pressed@[i]@[k] == x)
            || (exists|i: int, k: int| 0 <= i < c + 1 && 0 <= k < cells@[i]@.len() && cells@[i]@[k] == Some(x))) by {
            if exists|k: int| 0 <= k < b && row@[k] == Some(x) {
                let k = choose|k: int| 0 <= k < b && row@[k] == Some(x);
                assert(0 <= c < c + 1 && 0 <= k < cells@[c as int]@.len() && cells@[c as int]@[k] == Some(x));
            }
            if exists|i: int, k: int| 0 <= i < c + 1 && 0 <= k < cells@[i]@.len() && cells@[i]@[k] == Some(x) {
                let (i, k) = choose|i: int, k: int| 0 <= i < c + 1 && 0 <= k < cells@[i]@.len() && cells@[i]@[k] == Some(x);
                if i == c {
                    assert(0 <= k < b && row@[k] == Some(x));
                }
            }
        }
        c = c + 1;
    }
    out
}

} // verus!
