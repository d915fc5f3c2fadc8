//! The MIDI monitor: decoding Exquis MPE input into display events and the
//! set of touches (pads) currently held, the state of the non-musical
//! controls, and the bounded log of display lines.
use std::collections::BTreeMap;
use vstd::std_specs::btree::{increasing_seq, spec_btree_map_iter};
use vstd::std_specs::cmp::OrdSpec;
use vstd::std_specs::iter::IteratorSpec;
use std::collections::VecDeque;
use std::time::{Duration, Instant};

use vstd::prelude::*;

use crate::exquis::proto::{
    control_display_name, control_display_name_spec, control_name, control_name_spec,
};
use crate::num::{dec_digits, dec_plus, hex2, push_dec, push_dec_plus, push_hex2};
use crate::text::{push_all, push_str, string_of};

verus! {

broadcast use vstd::std_specs::btree::group_btree_axioms;

#[verifier::external_type_specification]
#[verifier::external_body]
pub struct ExInstant(std::time::Instant);

/// `Instant::now`: a reading of the monotonic clock (nothing is stated of
/// it: it depends on the time).
#[verifier::external_body]
fn instant_now() -> Instant {
    Instant::now()
}

/// `Instant::elapsed`: how long ago `t` was (nothing is stated of it: it
/// depends on the time).
#[verifier::external_body]
fn elapsed_since(t: &Instant) -> Duration {
    t.elapsed()
}

/// The key of the touch a message starts: a note-on (velocity above 0) of
/// device `dev`.
pub open spec fn note_on_key(dev: usize, b: Seq<u8>) -> Option<(usize, u8, u8)> {
    if b.len() >= 3 && b[0] / 16 == 9 && b[2] > 0 {
        Some((dev, (b[0] % 16 + 1) as u8, b[1]))
    } else {
        None
    }
}

/// One MIDI message as it arrived.
#[derive(Debug, Clone)]
pub struct InputMessage {
    pub _timestamp: u64,
    pub device_number: usize,
    pub port_name: String,
    pub bytes: Vec<u8>,
}

/// A decoded event as it is logged.
#[derive(Debug, Clone)]
pub struct EventRecord {
    pub device: usize,
    pub port: String,
    pub channel: Option<u8>,
    pub kind: String,
    pub note: Option<u8>,
    pub value: Option<i16>,
    pub label: Option<String>,
    pub raw: Option<Vec<u8>>,
}

pub open spec fn opt_str(s: Option<String>) -> Option<Seq<char>> {
    match s {
        Some(x) => Some(x@),
        None => None,
    }
}

pub open spec fn opt_bytes(s: Option<Vec<u8>>) -> Option<Seq<u8>> {
    match s {
        Some(x) => Some(x@),
        None => None,
    }
}

/// What a record says.
pub struct RecordModel {
    pub device: usize,
    pub port: Seq<char>,
    pub channel: Option<u8>,
    pub kind: Seq<char>,
    pub note: Option<u8>,
    pub value: Option<i16>,
    pub label: Option<Seq<char>>,
    pub raw: Option<Seq<u8>>,
}

pub open spec fn record_model(r: EventRecord) -> RecordModel {
    RecordModel {
        device: r.device,
        port: r.port@,
        channel: r.channel,
        kind: r.kind@,
        note: r.note,
        value: r.value,
        label: opt_str(r.label),
        raw: opt_bytes(r.raw),
    }
}

pub open spec fn is_mpe_kind(k: Seq<char>) -> bool {
    k == "note_on"@ || k == "note_off"@ || k == "x"@ || k == "y"@ || k == "z"@
}

impl EventRecord {
    /// Note on/off and the three touch dimensions x, y, z.
    pub fn is_mpe_related(&self) -> (r: bool)
        ensures
            r == is_mpe_kind(self.kind@),
    {
        let k = crate::text::chars_of(self.kind.as_str());
        crate::text::eq_str(&k, "note_on") || crate::text::eq_str(&k, "note_off")
            || crate::text::eq_str(&k, "x") || crate::text::eq_str(&k, "y")
            || crate::text::eq_str(&k, "z")
    }
}

/// A display line and its record.
#[derive(Debug, Clone)]
pub struct DisplayEvent {
    pub line: String,
    pub record: EventRecord,
}

/// A held touch as reported after each message.
#[derive(Debug, Clone, Copy)]
pub struct TouchSummary {
    pub device: usize,
    pub channel: u8,
    pub note: u8,
    pub velocity: u8,
    pub x: i16,
    pub y: u8,
    pub z: u8,
    pub age: Duration,
    /// Virtual channel from the `.xtn` cell (`Chan_N`).
    pub v_chan: Option<u8>,
    /// Virtual key from the `.xtn` cell (`Key_N`).
    pub v_key: Option<u8>,
    /// Absolute pitch in EDO steps.
    pub abs_pitch: Option<i32>,
}

/// The message, its events and the touches of its device afterwards.
#[derive(Debug, Clone)]
pub struct DecodedEvent {
    pub raw: InputMessage,
    pub events: Vec<DisplayEvent>,
    pub touches: Vec<TouchSummary>,
}

/// A held touch: which pad, how hard it was struck and its current
/// x (pitch bend), y (CC 74) and z (pressure).
pub struct TouchModel {
    pub device: usize,
    pub channel: u8,
    pub note: u8,
    pub velocity: u8,
    pub x: i16,
    pub y: u8,
    pub z: u8,
}

pub open spec fn tkey(t: TouchModel) -> (usize, u8, u8) {
    (t.device, t.channel, t.note)
}

/// Lexicographic order of (device, channel, note).
pub open spec fn key_lt(a: (usize, u8, u8), b: (usize, u8, u8)) -> bool {
    a.0 < b.0 || (a.0 == b.0 && (a.1 < b.1 || (a.1 == b.1 && a.2 < b.2)))
}

/// Strictly increasing keys (so each key once).
pub open spec fn sorted_touches(s: Seq<TouchModel>) -> bool {
    forall|i: int, j: int| 0 <= i < j < s.len() ==> key_lt(tkey(#[trigger] s[i]), tkey(#[trigger] s[j]))
}

/// `s` without the touch of key `k`.
pub open spec fn remove_key(s: Seq<TouchModel>, k: (usize, u8, u8)) -> Seq<TouchModel>
    decreases s.len(),
{
    if s.len() == 0 {
        s
    } else {
        let r = remove_key(s.drop_last(), k);
        if tkey(s.last()) == k {
            r
        } else {
            r.push(s.last())
        }
    }
}

/// `s` with `t` put in its place by key (replacing a touch of that key).
pub open spec fn upsert(s: Seq<TouchModel>, t: TouchModel) -> Seq<TouchModel>
    decreases s.len(),
{
    if s.len() == 0 {
        seq![t]
    } else if key_lt(tkey(s.last()), tkey(t)) {
        s.push(t)
    } else if tkey(s.last()) == tkey(t) {
        s.drop_last().push(t)
    } else {
        upsert(s.drop_last(), t).push(s.last())
    }
}

/// Which touch dimension a message sets.
#[derive(Clone, Copy)]
pub enum TouchField {
    X(i16),
    Y(u8),
    Z(u8),
}

pub open spec fn set_field(t: TouchModel, f: TouchField) -> TouchModel {
    match f {
        TouchField::X(v) => TouchModel { x: v, ..t },
        TouchField::Y(v) => TouchModel { y: v, ..t },
        TouchField::Z(v) => TouchModel { z: v, ..t },
    }
}

/// The touch is on `dev`/`ch` (and on `note`, when one is given).
pub open spec fn touch_matches(t: TouchModel, dev: usize, ch: u8, note: Option<u8>) -> bool {
    t.device == dev && t.channel == ch && match note {
        Some(n) => t.note == n,
        None => true,
    }
}

pub open spec fn update_matching(s: Seq<TouchModel>, dev: usize, ch: u8, note: Option<u8>, f: TouchField) -> Seq<
    TouchModel,
> {
    s.map_values(|t: TouchModel| if touch_matches(t, dev, ch, note) { set_field(t, f) } else { t })
}

/// The touches of device `dev`, in order.
pub open spec fn of_device(s: Seq<TouchModel>, dev: usize) -> Seq<TouchModel>
    decreases s.len(),
{
    if s.len() == 0 {
        s
    } else {
        let r = of_device(s.drop_last(), dev);
        if s.last().device == dev {
            r.push(s.last())
        } else {
            r
        }
    }
}

proof fn lemma_upsert(s: Seq<TouchModel>, t: TouchModel, p: int)
    requires
        sorted_touches(s),
        0 <= p <= s.len(),
        forall|i: int| 0 <= i < p ==> key_lt(tkey(#[trigger] s[i]), tkey(t)),
        p < s.len() ==> !key_lt(tkey(s[p]), tkey(t)),
    ensures
        upsert(s, t) == (if p < s.len() && tkey(s[p]) == tkey(t) {
            s.update(p, t)
        } else {
            s.insert(p, t)
        }),
        sorted_touches(upsert(s, t)),
    decreases s.len(),
{
    let n = s.len() as int;
    if n == 0 {
        assert(s.insert(0, t) =~= seq![t]);
    } else {
        let l = s.last();
        if key_lt(tkey(l), tkey(t)) {
            if p < n {
                if p < n - 1 {
                    assert(key_lt(tkey(s[p]), tkey(s[n - 1])));
                }
            }
            assert(p == n);
            assert(s.insert(n, t) =~= s.push(t));
        } else if tkey(l) == tkey(t) {
            if p < n - 1 {
                assert(key_lt(tkey(s[p]), tkey(s[n - 1])));
            }
            assert(p == n - 1);
            assert(s.drop_last().push(t) =~= s.update(n - 1, t));
        } else {
            let d = s.drop_last();
            assert(p <= n - 1);
            lemma_upsert(d, t, p);
            if p < n - 1 && tkey(s[p]) == tkey(t) {
                assert(d.update(p, t).push(l) =~= s.update(p, t));
            } else {
                assert(d.insert(p, t).push(l) =~= s.insert(p, t));
            }
        }
    }
    let r = upsert(s, t);
    if p < s.len() && tkey(s[p]) == tkey(t) {
        assert forall|i: int, j: int| 0 <= i < j < r.len() implies key_lt(tkey(#[trigger] r[i]), tkey(#[trigger] r[j])) by {
            if i != p && j != p {
                assert(key_lt(tkey(s[i]), tkey(s[j])));
            } else if i == p {
                assert(key_lt(tkey(s[p]), tkey(s[j])));
            } else {
                assert(key_lt(tkey(s[i]), tkey(s[p])));
            }
        }
    } else {
        assert forall|i: int, j: int| 0 <= i < j < r.len() implies key_lt(tkey(#[trigger] r[i]), tkey(#[trigger] r[j])) by {
            if j < p {
                assert(key_lt(tkey(s[i]), tkey(s[j])));
            } else if j == p {
                assert(key_lt(tkey(s[i]), tkey(t)));
            } else if i == p {
                assert(key_lt(tkey(t), tkey(s[j - 1])) || tkey(t) == tkey(s[j - 1])) by {
                    if j - 1 > p {
                        assert(key_lt(tkey(s[p]), tkey(s[j - 1])));
                    }
                }
            } else if i < p {
                assert(key_lt(tkey(s[i]), tkey(s[j - 1])));
            } else {
                assert(key_lt(tkey(s[i - 1]), tkey(s[j - 1])));
            }
        }
    }
}

proof fn lemma_remove_absent(s: Seq<TouchModel>, k: (usize, u8, u8))
    requires
        forall|i: int| 0 <= i < s.len() ==> tkey(#[trigger] s[i]) != k,
    ensures
        remove_key(s, k) == s,
    decreases s.len(),
{
    if s.len() > 0 {
        lemma_remove_absent(s.drop_last(), k);
        assert(s.drop_last().push(s.last()) =~= s);
    }
}

proof fn lemma_remove_at(s: Seq<TouchModel>, k: (usize, u8, u8), p: int)
    requires
        sorted_touches(s),
        0 <= p < s.len(),
        tkey(s[p]) == k,
    ensures
        remove_key(s, k) == s.remove(p),
        sorted_touches(s.remove(p)),
    decreases s.len(),
{
    let n = s.len() as int;
    let d = s.drop_last();
    if p == n - 1 {
        assert forall|i: int| 0 <= i < d.len() implies tkey(#[trigger] d[i]) != k by {
            assert(key_lt(tkey(s[i]), tkey(s[n - 1])));
        }
        lemma_remove_absent(d, k);
        assert(d =~= s.remove(p));
    } else {
        assert(key_lt(tkey(s[p]), tkey(s[n - 1])));
        lemma_remove_at(d, k, p);
        assert(d.remove(p).push(s.last()) =~= s.remove(p));
    }
    let r = s.remove(p);
    assert forall|i: int, j: int| 0 <= i < j < r.len() implies key_lt(tkey(#[trigger] r[i]), tkey(#[trigger] r[j])) by {
        let i0 = if i < p { i } else { i + 1 };
        let j0 = if j < p { j } else { j + 1 };
        assert(key_lt(tkey(s[i0]), tkey(s[j0])));
    }
}

proof fn lemma_of_device_sorted(s: Seq<TouchModel>, dev: usize)
    requires
        sorted_touches(s),
    ensures
        sorted_touches(of_device(s, dev)),
        forall|i: int| 0 <= i < of_device(s, dev).len() ==> (#[trigger] of_device(s, dev)[i]).device == dev,
        forall|i: int| 0 <= i < of_device(s, dev).len() ==> s.contains(#[trigger] of_device(s, dev)[i]),
    decreases s.len(),
{
    if s.len() > 0 {
        let d = s.drop_last();
        lemma_of_device_sorted(d, dev);
        let r = of_device(d, dev);
        assert forall|i: int| 0 <= i < r.len() implies s.contains(#[trigger] r[i]) by {
            let k = choose|k: int| 0 <= k < d.len() && d[k] == r[i];
            assert(s[k] == r[i]);
        }
        if s.last().device == dev {
            let rr = r.push(s.last());
            assert forall|i: int, j: int| 0 <= i < j < rr.len() implies key_lt(tkey(#[trigger] rr[i]), tkey(#[trigger] rr[j])) by {
                if j == rr.len() - 1 {
                    let k = choose|k: int| 0 <= k < d.len() && d[k] == r[i];
                    assert(key_lt(tkey(s[k]), tkey(s[s.len() - 1])));
                } else {
                    assert(key_lt(tkey(r[i]), tkey(r[j])));
                }
            }
            assert forall|i: int| 0 <= i < rr.len() implies s.contains(#[trigger] rr[i]) by {
                if i == rr.len() - 1 {
                    assert(s[s.len() - 1] == rr[i]);
                } else {
                    assert(s.contains(r[i]));
                }
            }
        }
    }
}

/// A held touch with the moment it started.
#[derive(Clone, Copy)]
struct TouchState {
    device: usize,
    channel: u8,
    note: u8,
    velocity: u8,
    x: i16,
    y: u8,
    z: u8,
    started_at: Instant,
}

spec fn touch_model(t: TouchState) -> TouchModel {
    TouchModel {
        device: t.device,
        channel: t.channel,
        note: t.note,
        velocity: t.velocity,
        x: t.x,
        y: t.y,
        z: t.z,
    }
}

spec fn models(a: Seq<TouchState>) -> Seq<TouchModel> {
    a.map_values(|t: TouchState| touch_model(t))
}

/// Tracks the touches held on each device from their note on to note off,
/// keyed by (device, channel, note).
pub struct Decoder {
    active: BTreeMap<(usize, u8, u8), TouchState>,
    /// The held touches in key order.
    order: Ghost<Seq<TouchState>>,
}

impl View for Decoder {
    type V = Seq<TouchModel>;

    closed spec fn view(&self) -> Seq<TouchModel> {
        models(self.order@)
    }
}

spec fn skey(t: TouchState) -> (usize, u8, u8) {
    tkey(touch_model(t))
}

/// `o` lists the touches of `m` in strictly increasing key order, each
/// under its own key.
spec fn lists(m: Map<(usize, u8, u8), TouchState>, o: Seq<TouchState>) -> bool {
    &&& sorted_touches(models(o))
    &&& forall|i: int| 0 <= i < o.len() ==> m.contains_key(skey(#[trigger] o[i])) && m[skey(o[i])] == o[i]
    &&& forall|k: (usize, u8, u8)| #[trigger] m.contains_key(k) ==> exists|i: int| 0 <= i < o.len() && skey(o[i]) == k
}

impl Decoder {
    /// The map holds each touch under its own key, and the touches in key
    /// order are the view.
    pub closed spec fn wf(&self) -> bool {
        lists(self.active@, self.order@)
    }

    /// When the held touch with key `k` (device, channel, note) started: the
    /// clock reading taken at its note-on; none when no such touch is held.
    pub closed spec fn started(&self, k: (usize, u8, u8)) -> Option<Instant> {
        if self.active@.contains_key(k) {
            Some(self.active@[k].started_at)
        } else {
            None
        }
    }

    /// Forget all touches (after an all-notes-off the pads send no note off
    /// until they are lifted).
    pub fn clear(&mut self)
        ensures
            final(self)@ == Seq::<TouchModel>::empty(),
            final(self).wf(),
            forall|k: (usize, u8, u8)| #[trigger] final(self).started(k) is None,
    {
        self.active.clear();
        proof {
            self.order@ = Seq::empty();
        }
        assert(self@ =~= Seq::<TouchModel>::empty());
    }
}

impl Default for Decoder {
    fn default() -> (r: Self)
        ensures
            r@ == Seq::<TouchModel>::empty(),
            r.wf(),
            forall|k: (usize, u8, u8)| #[trigger] r.started(k) is None,
    {
        let r = Decoder { active: BTreeMap::new(), order: Ghost(Seq::empty()) };
        assert(r@ =~= Seq::<TouchModel>::empty());
        r
    }
}

/// Keys of three integers are ordered as std orders tuples.
proof fn lemma_key_order()
    ensures
        vstd::laws_cmp::obeys_cmp::<(usize, u8, u8)>(),
{
    broadcast use vstd::laws_cmp::group_laws_cmp;

}

/// std's tuple order on keys is `key_lt`.
proof fn lemma_key_less(a: (usize, u8, u8), b: (usize, u8, u8))
    ensures
        (a.cmp_spec(&b) is Less) <==> key_lt(a, b),
{
}

/// Where a touch of key `k` goes in a sorted list.
proof fn lemma_find_pos(s: Seq<TouchModel>, k: (usize, u8, u8)) -> (p: int)
    requires
        sorted_touches(s),
    ensures
        0 <= p <= s.len(),
        forall|i: int| 0 <= i < p ==> key_lt(tkey(#[trigger] s[i]), k),
        p < s.len() ==> !key_lt(tkey(s[p]), k),
    decreases s.len(),
{
    if s.len() == 0 {
        0
    } else {
        let d = s.drop_last();
        let q = lemma_find_pos(d, k);
        assert forall|i: int| 0 <= i < q implies key_lt(tkey(#[trigger] s[i]), k) by {
            assert(s[i] == d[i]);
        }
        if q < d.len() {
            assert(s[q] == d[q]);
            q
        } else if key_lt(tkey(s.last()), k) {
            s.len() as int
        } else {
            d.len() as int
        }
    }
}

/// Two lists sorted by key that hold the same touches are the same list.
proof fn lemma_same_listing(a: Seq<TouchState>, b: Seq<TouchState>)
    requires
        sorted_touches(models(a)),
        sorted_touches(models(b)),
        forall|i: int| 0 <= i < a.len() ==> b.contains(#[trigger] a[i]),
        forall|j: int| 0 <= j < b.len() ==> a.contains(#[trigger] b[j]),
    ensures
        a == b,
    decreases a.len() + b.len(),
{
    if a.len() == 0 {
        if b.len() > 0 {
            assert(a.contains(b[0]));
        }
        assert(b =~= a);
    } else if b.len() == 0 {
        assert(b.contains(a[0]));
    } else {
        let la = a.len() - 1;
        let lb = b.len() - 1;
        assert(b.contains(a[la]));
        assert(a.contains(b[lb]));
        let j = choose|j: int| 0 <= j < b.len() && b[j] == a[la];
        let i = choose|i: int| 0 <= i < a.len() && a[i] == b[lb];
        assert(models(a)[la] == touch_model(a[la]));
        assert(models(b)[lb] == touch_model(b[lb]));
        assert(models(a)[i] == touch_model(a[i]));
        assert(models(b)[j] == touch_model(b[j]));
        if j < lb {
            assert(key_lt(tkey(models(b)[j]), tkey(models(b)[lb])));
            if i < la {
                assert(key_lt(tkey(models(a)[i]), tkey(models(a)[la])));
            }
            assert(false);
        }
        assert(b[lb] == a[la]);
        let da = a.drop_last();
        let db = b.drop_last();
        assert(models(da) =~= models(a).drop_last());
        assert(models(db) =~= models(b).drop_last());
        assert forall|x: int| 0 <= x < da.len() implies db.contains(#[trigger] da[x]) by {
            assert(da[x] == a[x]);
            assert(b.contains(a[x]));
            let y = choose|y: int| 0 <= y < b.len() && b[y] == a[x];
            assert(models(a)[x] == touch_model(a[x]));
            if y == lb {
                assert(key_lt(tkey(models(a)[x]), tkey(models(a)[la])));
            }
            assert(db[y] == da[x]);
        }
        assert forall|y: int| 0 <= y < db.len() implies da.contains(#[trigger] db[y]) by {
            assert(db[y] == b[y]);
            assert(a.contains(b[y]));
            let x = choose|x: int| 0 <= x < a.len() && a[x] == b[y];
            assert(models(b)[y] == touch_model(b[y]));
            if x == la {
                assert(key_lt(tkey(models(b)[y]), tkey(models(b)[lb])));
            }
            assert(da[x] == db[y]);
        }
        lemma_same_listing(da, db);
        assert(a =~= da.push(a[la]));
        assert(b =~= db.push(b[lb]));
    }
}

fn key_of(t: &TouchState) -> (k: (usize, u8, u8))
    ensures
        k == skey(*t),
{
    (t.device, t.channel, t.note)
}

fn matches_exec(t: &TouchState, dev: usize, ch: u8, note: Option<u8>) -> (r: bool)
    ensures
        r == touch_matches(touch_model(*t), dev, ch, note),
{
    t.device == dev && t.channel == ch && match note {
        Some(n) => t.note == n,
        None => true,
    }
}

/// The touch with field `f` set when it is on `dev`/`ch` (and `note`).
spec fn touch_updated(t: TouchState, dev: usize, ch: u8, note: Option<u8>, f: TouchField) -> TouchState {
    if touch_matches(touch_model(t), dev, ch, note) {
        match f {
            TouchField::X(v) => TouchState { x: v, ..t },
            TouchField::Y(v) => TouchState { y: v, ..t },
            TouchField::Z(v) => TouchState { z: v, ..t },
        }
    } else {
        t
    }
}

fn update_one(t: &TouchState, dev: usize, ch: u8, note: Option<u8>, f: TouchField) -> (r: TouchState)
    ensures
        r == touch_updated(*t, dev, ch, note, f),
{
    if matches_exec(t, dev, ch, note) {
        match f {
            TouchField::X(v) => TouchState { x: v, ..*t },
            TouchField::Y(v) => TouchState { y: v, ..*t },
            TouchField::Z(v) => TouchState { z: v, ..*t },
        }
    } else {
        *t
    }
}

impl Decoder {
    fn remove_touch(&mut self, k: (usize, u8, u8))
        requires
            old(self).wf(),
        ensures
            final(self).wf(),
            final(self)@ == remove_key(old(self)@, k),
            final(self).active@ == old(self).active@.remove(k),
    {
        proof {
            lemma_key_order();
        }
        let ghost m0 = self.active@;
        let ghost o = self.order@;
        let ghost s = models(o);
        self.active.remove(&k);
        proof {
            let m1 = self.active@;
            if exists|p: int| 0 <= p < o.len() && skey(o[p]) == k {
                let p = choose|p: int| 0 <= p < o.len() && skey(o[p]) == k;
                assert(s[p] == touch_model(o[p]));
                lemma_remove_at(s, k, p);
                let o1 = o.remove(p);
                assert(models(o1) =~= s.remove(p));
                assert forall|i: int| 0 <= i < o1.len() implies m1.contains_key(skey(#[trigger] o1[i])) && m1[skey(o1[i])]
                    == o1[i] by {
                    let i0 = if i < p { i } else { i + 1 };
                    assert(o1[i] == o[i0]);
                    assert(s[i0] == touch_model(o[i0]));
                    if i0 < p {
                        assert(key_lt(tkey(s[i0]), tkey(s[p])));
                    } else {
                        assert(key_lt(tkey(s[p]), tkey(s[i0])));
                    }
                }
                assert forall|k2: (usize, u8, u8)| #[trigger] m1.contains_key(k2) implies exists|i: int|
                    0 <= i < o1.len() && skey(o1[i]) == k2 by {
                    assert(m0.contains_key(k2));
                    let i = choose|i: int| 0 <= i < o.len() && skey(o[i]) == k2;
                    if i < p {
                        assert(o1[i] == o[i]);
                    } else {
                        assert(o1[i - 1] == o[i]);
                    }
                }
                self.order@ = o1;
            } else {
                assert forall|i: int| 0 <= i < s.len() implies tkey(#[trigger] s[i]) != k by {
                    assert(s[i] == touch_model(o[i]));
                }
                lemma_remove_absent(s, k);
                assert(!m0.contains_key(k));
                assert(m1 =~= m0);
            }
        }
    }

    fn upsert_touch(&mut self, t: TouchState)
        requires
            old(self).wf(),
        ensures
            final(self).wf(),
            final(self)@ == upsert(old(self)@, touch_model(t)),
            final(self).active@ == old(self).active@.insert(skey(t), t),
    {
        proof {
            lemma_key_order();
        }
        let ghost m0 = self.active@;
        let ghost o = self.order@;
        let ghost s = models(o);
        let k = key_of(&t);
        self.active.insert(k, t);
        proof {
            let m1 = self.active@;
            let p = lemma_find_pos(s, k);
            lemma_upsert(s, touch_model(t), p);
            if p < o.len() && tkey(s[p]) == k {
                let o1 = o.update(p, t);
                assert(models(o1) =~= s.update(p, touch_model(t)));
                assert forall|i: int| 0 <= i < o1.len() implies m1.contains_key(skey(#[trigger] o1[i])) && m1[skey(o1[i])]
                    == o1[i] by {
                    if i != p {
                        assert(o1[i] == o[i]);
                        assert(s[i] == touch_model(o[i]));
                        if i < p {
                            assert(key_lt(tkey(s[i]), tkey(s[p])));
                        } else {
                            assert(key_lt(tkey(s[p]), tkey(s[i])));
                        }
                    }
                }
                assert forall|k2: (usize, u8, u8)| #[trigger] m1.contains_key(k2) implies exists|i: int|
                    0 <= i < o1.len() && skey(o1[i]) == k2 by {
                    if k2 == k {
                        assert(skey(o1[p]) == k);
                    } else {
                        let i = choose|i: int| 0 <= i < o.len() && skey(o[i]) == k2;
                        assert(s[i] == touch_model(o[i]));
                        assert(i != p);
                        assert(o1[i] == o[i]);
                    }
                }
                self.order@ = o1;
            } else {
                let o1 = o.insert(p, t);
                assert(models(o1) =~= s.insert(p, touch_model(t)));
                assert forall|i: int| 0 <= i < o1.len() implies m1.contains_key(skey(#[trigger] o1[i])) && m1[skey(o1[i])]
                    == o1[i] by {
                    if i != p {
                        let i0 = if i < p { i } else { i - 1 };
                        assert(o1[i] == o[i0]);
                        assert(s[i0] == touch_model(o[i0]));
                        if i0 < p {
                        } else {
                            assert(!key_lt(tkey(s[p]), k));
                            if i0 > p {
                                assert(key_lt(tkey(s[p]), tkey(s[i0])));
                            }
                        }
                    }
                }
                assert forall|k2: (usize, u8, u8)| #[trigger] m1.contains_key(k2) implies exists|i: int|
                    0 <= i < o1.len() && skey(o1[i]) == k2 by {
                    if k2 == k {
                        assert(skey(o1[p]) == k);
                    } else {
                        let i = choose|i: int| 0 <= i < o.len() && skey(o[i]) == k2;
                        if i < p {
                            assert(o1[i] == o[i]);
                        } else {
                            assert(o1[i + 1] == o[i]);
                        }
                    }
                }
                self.order@ = o1;
            }
        }
    }

    fn update_touches(&mut self, dev: usize, ch: u8, note: Option<u8>, f: TouchField)
        requires
            old(self).wf(),
        ensures
            final(self).wf(),
            final(self)@ == update_matching(old(self)@, dev, ch, note, f),
            final(self).active@ == old(self).active@.map_values(
                |t: TouchState| touch_updated(t, dev, ch, note, f),
            ),
    {
        proof {
            lemma_key_order();
        }
        let ghost m0 = self.active@;
        let ghost o = self.order@;
        let mut nm: BTreeMap<(usize, u8, u8), TouchState> = BTreeMap::new();
        let iter = self.active.iter();
        let ghost v = iter.remaining();
        for kv in it: iter
            invariant
                it.seq() == v,
                v == spec_btree_map_iter(&self.active).remaining(),
                self.active@ == m0,
                vstd::laws_cmp::obeys_cmp::<(usize, u8, u8)>(),
                forall|j: int| 0 <= j < it.index() ==> nm@.contains_key(*(#[trigger] v[j]).0) && nm@[*v[j].0]
                    == touch_updated(m0[*v[j].0], dev, ch, note, f),
                forall|k: (usize, u8, u8)| #[trigger] nm@.contains_key(k) ==> m0.contains_key(k),
        {
            let nt = update_one(kv.1, dev, ch, note, f);
            nm.insert(*kv.0, nt);
        }
        let ghost want = m0.map_values(|t: TouchState| touch_updated(t, dev, ch, note, f));
        proof {
            assert forall|k: (usize, u8, u8)| #[trigger] m0.contains_key(k) implies nm@.contains_key(k) && nm@[k]
                == want[k] by {
                assert(v.contains((&k, &m0[k])));
                let j = choose|j: int| 0 <= j < v.len() && v[j] == (&k, &m0[k]);
                assert(*v[j].0 == k);
            }
            assert(nm@ =~= want);
        }
        self.active = nm;
        proof {
            let o1 = o.map_values(|t: TouchState| touch_updated(t, dev, ch, note, f));
            assert forall|i: int| 0 <= i < o.len() implies #[trigger] models(o1)[i] == update_matching(
                models(o),
                dev,
                ch,
                note,
                f,
            )[i] by {
                assert(models(o)[i] == touch_model(o[i]));
            }
            assert(models(o1) =~= update_matching(models(o), dev, ch, note, f));
            assert forall|i: int| 0 <= i < o1.len() implies want.contains_key(skey(#[trigger] o1[i])) && want[skey(o1[i])]
                == o1[i] by {
                assert(skey(o1[i]) == skey(o[i]));
            }
            assert forall|k2: (usize, u8, u8)| #[trigger] want.contains_key(k2) implies exists|i: int|
                0 <= i < o1.len() && skey(o1[i]) == k2 by {
                let i = choose|i: int| 0 <= i < o.len() && skey(o[i]) == k2;
                assert(skey(o1[i]) == skey(o[i]));
            }
            self.order@ = o1;
        }
    }
}

/// The touch summaries (without their age) of a decoded message.
pub open spec fn summary_model(t: TouchSummary) -> TouchModel {
    TouchModel {
        device: t.device,
        channel: t.channel,
        note: t.note,
        velocity: t.velocity,
        x: t.x,
        y: t.y,
        z: t.z,
    }
}

/// The channel (1..=16) of a status byte.
pub open spec fn chan_of(status: u8) -> u8 {
    (status % 16 + 1) as u8
}

/// The x of a pitch bend: `((msb << 7) | lsb) - 8192`.
pub open spec fn bend_of(lsb: u8, msb: u8) -> i16 {
    ((((msb as i16) << 7u32) | (lsb as i16)) - 8192) as i16
}

/// How a message changes the held touches of device `dev`.
pub open spec fn touch_step(s: Seq<TouchModel>, dev: usize, b: Seq<u8>) -> Seq<TouchModel> {
    if b.len() == 0 {
        s
    } else {
        let ch = chan_of(b[0]);
        let hi = b[0] / 16;
        if hi == 8 {
            if b.len() >= 3 {
                remove_key(s, (dev, ch, b[1]))
            } else {
                s
            }
        } else if hi == 9 {
            if b.len() >= 3 {
                if b[2] == 0 {
                    remove_key(s, (dev, ch, b[1]))
                } else {
                    upsert(
                        s,
                        TouchModel { device: dev, channel: ch, note: b[1], velocity: b[2], x: 0, y: 0, z: 0 },
                    )
                }
            } else {
                s
            }
        } else if hi == 11 {
            if b.len() >= 3 && !(ch == 16 && 80 <= b[1] <= 117) && b[1] == 74 {
                update_matching(s, dev, ch, None, TouchField::Y(b[2]))
            } else {
                s
            }
        } else if hi == 13 {
            if b.len() >= 2 {
                update_matching(s, dev, ch, None, TouchField::Z(b[1]))
            } else {
                s
            }
        } else if hi == 10 {
            if b.len() >= 3 {
                update_matching(s, dev, ch, Some(b[1]), TouchField::Z(b[2]))
            } else {
                s
            }
        } else if hi == 14 {
            if b.len() >= 3 {
                update_matching(s, dev, ch, None, TouchField::X(bend_of(b[1], b[2])))
            } else {
                s
            }
        } else {
            s
        }
    }
}

/// What a display event says.
pub struct EventModel {
    pub channel: Option<u8>,
    pub kind: Seq<char>,
    pub note: Option<u8>,
    pub value: Option<i16>,
    pub label: Option<Seq<char>>,
    pub line: Seq<char>,
}

pub open spec fn event_model(e: DisplayEvent) -> EventModel {
    EventModel {
        channel: e.record.channel,
        kind: e.record.kind@,
        note: e.record.note,
        value: e.record.value,
        label: opt_str(e.record.label),
        line: e.line@,
    }
}

pub open spec fn ev(
    ch: u8,
    kind: Seq<char>,
    note: Option<u8>,
    value: Option<i16>,
    label: Option<Seq<char>>,
    line: Seq<char>,
) -> EventModel {
    EventModel { channel: Some(ch), kind, note, value, label, line }
}

/// `[device] #channel ` in front of every line.
pub open spec fn pfx(dev: usize, ch: u8) -> Seq<char> {
    "["@ + dec_digits(dev as nat) + "] #"@ + dec_digits(ch as nat) + " "@
}

pub open spec fn d(n: u8) -> Seq<char> {
    dec_digits(n as nat)
}

/// A control's display name, or `Control N`.
pub open spec fn display_or_number(c: u8) -> Seq<char> {
    match control_display_name_spec(c) {
        Some(n) => n,
        None => "Control "@ + d(c),
    }
}

/// The display event of a message, if it has one.
pub open spec fn decode_event(dev: usize, b: Seq<u8>) -> Option<EventModel> {
    if b.len() == 0 {
        None
    } else {
        let ch = chan_of(b[0]);
        let hi = b[0] / 16;
        let p = pfx(dev, ch);
        if hi == 8 {
            if b.len() >= 3 {
                Some(
                    ev(
                        ch,
                        "note_off"@,
                        Some(b[1]),
                        Some(b[2] as i16),
                        None,
                        p + "note_off note="@ + d(b[1]) + " release="@ + d(b[2]),
                    ),
                )
            } else {
                None
            }
        } else if hi == 9 {
            if b.len() < 3 {
                None
            } else if b[2] == 0 {
                Some(ev(ch, "note_off"@, Some(b[1]), Some(0i16), None, p + "note_off note="@ + d(b[1])))
            } else {
                let label = if ch == 16 { control_name_spec(b[1]) } else { None };
                let disp = if ch == 16 { control_display_name_spec(b[1]) } else { None };
                Some(
                    ev(
                        ch,
                        "note_on"@,
                        Some(b[1]),
                        Some(b[2] as i16),
                        label,
                        match disp {
                            Some(n) => p + n + " pressed"@,
                            None => p + "note_on note="@ + d(b[1]) + " vel="@ + d(b[2]),
                        },
                    ),
                )
            }
        } else if hi == 11 {
            if b.len() < 3 {
                None
            } else {
                let c = b[1];
                let v = b[2];
                if ch == 16 && 80 <= c <= 117 {
                    let disp = display_or_number(c);
                    let line = if 110 <= c <= 113 {
                        p + disp + " delta="@ + dec_plus(v - 64)
                    } else if c == 90 {
                        p + disp + " portion="@ + d(v)
                    } else {
                        p + disp + " "@ + if v == 0 { "released"@ } else { "pressed"@ }
                    };
                    Some(ev(ch, "control"@, None, Some(v as i16), control_name_spec(c), line))
                } else if c == 74 {
                    Some(ev(ch, "y"@, None, Some(v as i16), Some("cc74"@), p + "y="@ + d(v) + " (cc74)"@))
                } else {
                    Some(
                        ev(
                            ch,
                            "cc"@,
                            None,
                            Some(v as i16),
                            Some("cc_"@ + d(c)),
                            p + "cc "@ + d(c) + " value="@ + d(v),
                        ),
                    )
                }
            }
        } else if hi == 13 {
            if b.len() >= 2 {
                Some(
                    ev(
                        ch,
                        "z"@,
                        None,
                        Some(b[1] as i16),
                        Some("channel_pressure"@),
                        p + "z="@ + d(b[1]) + " (channel pressure)"@,
                    ),
                )
            } else {
                None
            }
        } else if hi == 10 {
            if b.len() < 3 {
                None
            } else if ch == 16 {
                Some(
                    ev(
                        ch,
                        "effect"@,
                        Some(b[1]),
                        Some(b[2] as i16),
                        control_name_spec(b[1]),
                        p + display_or_number(b[1]) + " fx="@ + d(b[2]),
                    ),
                )
            } else {
                Some(
                    ev(
                        ch,
                        "z"@,
                        Some(b[1]),
                        Some(b[2] as i16),
                        Some("poly_aftertouch"@),
                        p + "z="@ + d(b[2]) + " note="@ + d(b[1]) + " (poly aftertouch)"@,
                    ),
                )
            }
        } else if hi == 14 {
            if b.len() >= 3 {
                let v = bend_of(b[1], b[2]);
                Some(
                    ev(
                        ch,
                        "x"@,
                        None,
                        Some(v),
                        Some("pitch_bend"@),
                        p + "x="@ + dec_plus(v as int) + " (pitch bend)"@,
                    ),
                )
            } else {
                None
            }
        } else {
            None
        }
    }
}

pub open spec fn opt_seq<T>(o: Option<T>) -> Seq<T> {
    match o {
        Some(x) => seq![x],
        None => Seq::empty(),
    }
}

/// The record of an event comes from the message's device and port.
pub open spec fn record_of(e: DisplayEvent, raw: InputMessage) -> bool {
    e.record.device == raw.device_number && e.record.port@ == raw.port_name@ && e.record.raw is None
}

fn line_prefix(dev: usize, ch: u8) -> (v: Vec<char>)
    ensures
        v@ == pfx(dev, ch),
{
    let mut v: Vec<char> = Vec::new();
    push_str(&mut v, "[");
    push_dec(&mut v, dev as u64);
    push_str(&mut v, "] #");
    push_dec(&mut v, ch as u64);
    push_str(&mut v, " ");
    v
}

fn make_event(
    raw: &InputMessage,
    ch: u8,
    kind: &str,
    note: Option<u8>,
    value: Option<i16>,
    label: Option<String>,
    line: &Vec<char>,
) -> (e: DisplayEvent)
    ensures
        event_model(e) == ev(ch, kind@, note, value, opt_str(label), line@),
        record_of(e, *raw),
{
    DisplayEvent {
        line: string_of(line),
        record: EventRecord {
            device: raw.device_number,
            port: raw.port_name.clone(),
            channel: Some(ch),
            kind: kind.to_owned(),
            note,
            value,
            label,
            raw: None,
        },
    }
}

fn display_or_number_exec(c: u8) -> (v: Vec<char>)
    ensures
        v@ == display_or_number(c),
{
    match control_display_name(c) {
        Some(n) => crate::text::chars_of(n.as_str()),
        None => {
            let mut v: Vec<char> = Vec::new();
            push_str(&mut v, "Control ");
            push_dec(&mut v, c as u64);
            v
        },
    }
}

fn some_str(s: &str) -> (r: Option<String>)
    ensures
        opt_str(r) == Some(s@),
{
    Some(s.to_owned())
}

/// The display event of one message.
fn decode_one(raw: &InputMessage) -> (r: Option<DisplayEvent>)
    ensures
        match r {
            Some(e) => decode_event(raw.device_number, raw.bytes@) == Some(event_model(e)) && record_of(e, *raw),
            None => decode_event(raw.device_number, raw.bytes@) is None,
        },
{
    let b = &raw.bytes;
    let n = b.len();
    if n == 0 {
        return None;
    }
    let dev = raw.device_number;
    let status = b[0];
    let ch: u8 = status % 16 + 1;
    let hi = status / 16;
    let mut l = line_prefix(dev, ch);
    if hi == 8 {
        if n >= 3 {
            push_str(&mut l, "note_off note=");
            push_dec(&mut l, b[1] as u64);
            push_str(&mut l, " release=");
            push_dec(&mut l, b[2] as u64);
            return Some(make_event(raw, ch, "note_off", Some(b[1]), Some(b[2] as i16), None, &l));
        }
        None
    } else if hi == 9 {
        if n < 3 {
            return None;
        }
        if b[2] == 0 {
            push_str(&mut l, "note_off note=");
            push_dec(&mut l, b[1] as u64);
            return Some(make_event(raw, ch, "note_off", Some(b[1]), Some(0), None, &l));
        }
        let label = if ch == 16 {
            control_name(b[1])
        } else {
            None
        };
        let disp = if ch == 16 {
            control_display_name(b[1])
        } else {
            None
        };
        match disp {
            Some(name) => {
                push_str(&mut l, name.as_str());
                push_str(&mut l, " pressed");
            },
            None => {
                push_str(&mut l, "note_on note=");
                push_dec(&mut l, b[1] as u64);
                push_str(&mut l, " vel=");
                push_dec(&mut l, b[2] as u64);
            },
        }
        Some(make_event(raw, ch, "note_on", Some(b[1]), Some(b[2] as i16), label, &l))
    } else if hi == 11 {
        if n < 3 {
            return None;
        }
        let c = b[1];
        let v = b[2];
        if ch == 16 && 80 <= c && c <= 117 {
            let disp = display_or_number_exec(c);
            push_all(&mut l, &disp);
            if 110 <= c && c <= 113 {
                push_str(&mut l, " delta=");
                push_dec_plus(&mut l, v as i64 - 64);
            } else if c == 90 {
                push_str(&mut l, " portion=");
                push_dec(&mut l, v as u64);
            } else {
                push_str(&mut l, " ");
                if v == 0 {
                    push_str(&mut l, "released");
                } else {
                    push_str(&mut l, "pressed");
                }
            }
            Some(make_event(raw, ch, "control", None, Some(v as i16), control_name(c), &l))
        } else if c == 74 {
            push_str(&mut l, "y=");
            push_dec(&mut l, v as u64);
            push_str(&mut l, " (cc74)");
            Some(make_event(raw, ch, "y", None, Some(v as i16), some_str("cc74"), &l))
        } else {
            let mut lab: Vec<char> = Vec::new();
            push_str(&mut lab, "cc_");
            push_dec(&mut lab, c as u64);
            push_str(&mut l, "cc ");
            push_dec(&mut l, c as u64);
            push_str(&mut l, " value=");
            push_dec(&mut l, v as u64);
            Some(make_event(raw, ch, "cc", None, Some(v as i16), Some(string_of(&lab)), &l))
        }
    } else if hi == 13 {
        if n >= 2 {
            push_str(&mut l, "z=");
            push_dec(&mut l, b[1] as u64);
            push_str(&mut l, " (channel pressure)");
            return Some(make_event(raw, ch, "z", None, Some(b[1] as i16), some_str("channel_pressure"), &l));
        }
        None
    } else if hi == 10 {
        if n < 3 {
            return None;
        }
        if ch == 16 {
            let disp = display_or_number_exec(b[1]);
            push_all(&mut l, &disp);
            push_str(&mut l, " fx=");
            push_dec(&mut l, b[2] as u64);
            Some(make_event(raw, ch, "effect", Some(b[1]), Some(b[2] as i16), control_name(b[1]), &l))
        } else {
            push_str(&mut l, "z=");
            push_dec(&mut l, b[2] as u64);
            push_str(&mut l, " note=");
            push_dec(&mut l, b[1] as u64);
            push_str(&mut l, " (poly aftertouch)");
            Some(make_event(raw, ch, "z", Some(b[1]), Some(b[2] as i16), some_str("poly_aftertouch"), &l))
        }
    } else if hi == 14 {
        if n < 3 {
            return None;
        }
        let v = bend_exec(b[1], b[2]);
        push_str(&mut l, "x=");
        push_dec_plus(&mut l, v as i64);
        push_str(&mut l, " (pitch bend)");
        Some(make_event(raw, ch, "x", None, Some(v), some_str("pitch_bend"), &l))
    } else {
        None
    }
}

fn bend_exec(lsb: u8, msb: u8) -> (v: i16)
    ensures
        v == bend_of(lsb, msb),
        -8192 <= v <= 24575,
{
    let hi: i16 = (msb as i16) << 7u32;
    let o: i16 = hi | (lsb as i16);
    assert(0 <= (((msb as i16) << 7u32) | (lsb as i16)) <= 32767) by (bit_vector);
    o - 8192
}

impl Decoder {
    /// Decodes one message: its display event (if any), the new touch state
    /// and the touches of its device afterwards.
    pub fn process(&mut self, raw: InputMessage) -> (r: DecodedEvent)
        requires
            old(self).wf(),
        ensures
            final(self).wf(),
            final(self)@ == touch_step(old(self)@, raw.device_number, raw.bytes@),
            r.raw == raw,
            r.events@.map_values(|e: DisplayEvent| event_model(e)) == opt_seq(
                decode_event(raw.device_number, raw.bytes@),
            ),
            forall|i: int| 0 <= i < r.events.len() ==> record_of(#[trigger] r.events[i], raw),
            r.touches@.map_values(|t: TouchSummary| summary_model(t)) == of_device(
                final(self)@,
                raw.device_number,
            ),
            forall|i: int|
                0 <= i < r.touches.len() ==> (#[trigger] r.touches[i]).v_chan is None
                    && r.touches[i].v_key is None && r.touches[i].abs_pitch is None,
            forall|k: (usize, u8, u8)| #[trigger] final(self).started(k) is Some <==> exists|i: int|
                0 <= i < final(self)@.len() && tkey(final(self)@[i]) == k,
            note_on_key(raw.device_number, raw.bytes@) matches Some(k) ==> final(self).started(k) is Some,
            forall|k: (usize, u8, u8)|
                note_on_key(raw.device_number, raw.bytes@) != Some(k) && #[trigger] final(self).started(k) is Some
                    ==> final(self).started(k) == old(self).started(k),
    {
        let e = decode_one(&raw);
        let n = raw.bytes.len();
        let dev = raw.device_number;
        let ghost s0 = self@;
        if n > 0 {
            let status = raw.bytes[0];
            let ch: u8 = status % 16 + 1;
            let hi = status / 16;
            if hi == 8 {
                if n >= 3 {
                    self.remove_touch((dev, ch, raw.bytes[1]));
                }
            } else if hi == 9 {
                if n >= 3 {
                    if raw.bytes[2] == 0 {
                        self.remove_touch((dev, ch, raw.bytes[1]));
                    } else {
                        let t = TouchState {
                            device: dev,
                            channel: ch,
                            note: raw.bytes[1],
                            velocity: raw.bytes[2],
                            x: 0,
                            y: 0,
                            z: 0,
                            started_at: instant_now(),
                        };
                        self.upsert_touch(t);
                    }
                }
            } else if hi == 11 {
                if n >= 3 && !(ch == 16 && 80 <= raw.bytes[1] && raw.bytes[1] <= 117) && raw.bytes[1] == 74 {
                    self.update_touches(dev, ch, None, TouchField::Y(raw.bytes[2]));
                }
            } else if hi == 13 {
                if n >= 2 {
                    self.update_touches(dev, ch, None, TouchField::Z(raw.bytes[1]));
                }
            } else if hi == 10 {
                if n >= 3 {
                    self.update_touches(dev,
                        ch,
                        Some(raw.bytes[1]),
                        TouchField::Z(raw.bytes[2]),
                    );
                }
            } else if hi == 14 {
                if n >= 3 {
                    let v = bend_exec(raw.bytes[1], raw.bytes[2]);
                    self.update_touches(dev, ch, None, TouchField::X(v));
                }
            }
        }
        assert(self@ == touch_step(s0, dev, raw.bytes@));
        proof {
            let o = self.order@;
            assert forall|k: (usize, u8, u8)| #[trigger] self.started(k) is Some <==> exists|i: int|
                0 <= i < self@.len() && tkey(self@[i]) == k by {
                if self.active@.contains_key(k) {
                    let i = choose|i: int| 0 <= i < o.len() && skey(o[i]) == k;
                    assert(self@[i] == touch_model(o[i]));
                }
                if exists|i: int| 0 <= i < self@.len() && tkey(self@[i]) == k {
                    let i = choose|i: int| 0 <= i < self@.len() && tkey(self@[i]) == k;
                    assert(self@[i] == touch_model(o[i]));
                }
            }
        }
        let mut events: Vec<DisplayEvent> = Vec::new();
        match e {
            Some(x) => {
                events.push(x);
            },
            None => {},
        }
        assert(events@.map_values(|e: DisplayEvent| event_model(e)) =~= opt_seq(
            decode_event(raw.device_number, raw.bytes@),
        ));
        self.finish(raw, events)
    }

    fn finish(&self, raw: InputMessage, events: Vec<DisplayEvent>) -> (r: DecodedEvent)
        requires
            self.wf(),
        ensures
            r.raw == raw,
            r.events == events,
            r.touches@.map_values(|t: TouchSummary| summary_model(t)) == of_device(self@, raw.device_number),
            forall|i: int|
                0 <= i < r.touches.len() ==> (#[trigger] r.touches[i]).v_chan is None
                    && r.touches[i].v_key is None && r.touches[i].abs_pitch is None,
    {
        proof {
            lemma_key_order();
        }
        let dev = raw.device_number;
        let mut touches: Vec<TouchSummary> = Vec::new();
        let iter = self.active.iter();
        let ghost v = iter.remaining();
        let ghost w = v.map_values(|kv: (&(usize, u8, u8), &TouchState)| *kv.1);
        proof {
            self.lemma_listing(v);
        }
        for kv in it: iter
            invariant
                it.seq() == v,
                w == v.map_values(|kv: (&(usize, u8, u8), &TouchState)| *kv.1),
                touches@.map_values(|t: TouchSummary| summary_model(t)) == of_device(
                    models(w).take(it.index() as int),
                    dev,
                ),
                forall|k: int|
                    0 <= k < touches.len() ==> (#[trigger] touches[k]).v_chan is None
                        && touches[k].v_key is None && touches[k].abs_pitch is None,
        {
            let t = *kv.1;
            let ghost i = it.index();
            assert(w[i] == t);
            assert(models(w)[i] == touch_model(t));
            assert(models(w).take(i + 1).drop_last() =~= models(w).take(i as int));
            if t.device == dev {
                touches.push(
                    TouchSummary {
                        device: t.device,
                        channel: t.channel,
                        note: t.note,
                        velocity: t.velocity,
                        x: t.x,
                        y: t.y,
                        z: t.z,
                        age: elapsed_since(&t.started_at),
                        v_chan: None,
                        v_key: None,
                        abs_pitch: None,
                    },
                );
            }
            assert(touches@.map_values(|t: TouchSummary| summary_model(t)) =~= of_device(
                models(w).take(i + 1),
                dev,
            ));
        }
        assert(models(w).take(w.len() as int) =~= models(w));
        DecodedEvent { raw, events, touches }
    }

    /// Walking the map gives the touches in key order.
    proof fn lemma_listing(&self, v: Seq<(&(usize, u8, u8), &TouchState)>)
        requires
            self.wf(),
            vstd::laws_cmp::obeys_cmp::<(usize, u8, u8)>(),
            v == spec_btree_map_iter(&self.active).remaining(),
            increasing_seq(v.map_values(|kv: (&(usize, u8, u8), &TouchState)| *kv.0)),
        ensures
            v.map_values(|kv: (&(usize, u8, u8), &TouchState)| *kv.1) == self.order@,
    {
        let m = self.active@;
        let o = self.order@;
        let w = v.map_values(|kv: (&(usize, u8, u8), &TouchState)| *kv.1);
        let ks = v.map_values(|kv: (&(usize, u8, u8), &TouchState)| *kv.0);
        assert forall|j: int| 0 <= j < v.len() implies m.contains_key(#[trigger] ks[j]) && skey(w[j]) == ks[j]
            && m[ks[j]] == w[j] by {
            assert(m.contains_key(*v[j].0) && m[*v[j].0] == *v[j].1);
            let i = choose|i: int| 0 <= i < o.len() && skey(o[i]) == ks[j];
            assert(m[skey(o[i])] == o[i]);
        }
        assert forall|i: int, j: int| 0 <= i < j < w.len() implies key_lt(
            tkey(#[trigger] models(w)[i]),
            tkey(#[trigger] models(w)[j]),
        ) by {
            assert(ks[i].cmp_spec(&ks[j]) is Less);
            lemma_key_less(ks[i], ks[j]);
            assert(models(w)[i] == touch_model(w[i]));
            assert(models(w)[j] == touch_model(w[j]));
            assert(m.contains_key(ks[i]) && m.contains_key(ks[j]));
        }
        assert forall|i: int| 0 <= i < w.len() implies o.contains(#[trigger] w[i]) by {
            assert(m.contains_key(ks[i]));
            let j = choose|j: int| 0 <= j < o.len() && skey(o[j]) == ks[i];
            assert(m[skey(o[j])] == o[j]);
            assert(o[j] == w[i]);
        }
        assert forall|j: int| 0 <= j < o.len() implies w.contains(#[trigger] o[j]) by {
            let k = skey(o[j]);
            assert(m.contains_key(k));
            assert(v.contains((&k, &m[k])));
            let i = choose|i: int| 0 <= i < v.len() && v[i] == (&k, &m[k]);
            assert(w[i] == m[k]);
            assert(w[i] == o[j]);
        }
        lemma_same_listing(w, o);
    }
}

/// The touches reported after a message are exactly that device's touches,
/// in (channel, note) order, each key once.
pub proof fn lemma_touches_sorted(s: Seq<TouchModel>, dev: usize)
    requires
        sorted_touches(s),
    ensures
        sorted_touches(of_device(s, dev)),
        forall|i: int| 0 <= i < of_device(s, dev).len() ==> (#[trigger] of_device(s, dev)[i]).device == dev,
        forall|i: int| 0 <= i < of_device(s, dev).len() ==> s.contains(#[trigger] of_device(s, dev)[i]),
        forall|i: int| 0 <= i < s.len() && (#[trigger] s[i]).device == dev ==> of_device(s, dev).contains(s[i]),
{
    lemma_of_device_sorted(s, dev);
    lemma_of_device_complete(s, dev);
}

proof fn lemma_of_device_complete(s: Seq<TouchModel>, dev: usize)
    ensures
        forall|i: int| 0 <= i < s.len() && (#[trigger] s[i]).device == dev ==> of_device(s, dev).contains(s[i]),
    decreases s.len(),
{
    if s.len() > 0 {
        let d = s.drop_last();
        lemma_of_device_complete(d, dev);
        assert forall|i: int| 0 <= i < s.len() && (#[trigger] s[i]).device == dev implies of_device(s, dev).contains(s[i]) by {
            let r = of_device(d, dev);
            if i < s.len() - 1 {
                assert(d[i] == s[i]);
                assert(r.contains(s[i]));
                let q = choose|q: int| 0 <= q < r.len() && r[q] == s[i];
                assert(of_device(s, dev)[q] == s[i]);
            } else {
                assert(of_device(s, dev) == r.push(s.last()));
                assert(of_device(s, dev)[r.len() as int] == s[i]);
            }
        }
    }
}

proof fn lemma_remove_key_other(s: Seq<TouchModel>, k: (usize, u8, u8), d: usize)
    requires
        k.0 != d,
    ensures
        of_device(remove_key(s, k), d) == of_device(s, d),
    decreases s.len(),
{
    if s.len() > 0 {
        lemma_remove_key_other(s.drop_last(), k, d);
        let r = remove_key(s.drop_last(), k);
        if tkey(s.last()) != k {
            assert(remove_key(s, k).drop_last() =~= r);
        }
    }
}

proof fn lemma_upsert_other(s: Seq<TouchModel>, t: TouchModel, d: usize)
    requires
        t.device != d,
    ensures
        of_device(upsert(s, t), d) == of_device(s, d),
    decreases s.len(),
{
    if s.len() == 0 {
        assert(seq![t].drop_last() =~= Seq::<TouchModel>::empty());
        assert(of_device(Seq::<TouchModel>::empty(), d) == Seq::<TouchModel>::empty());
        assert(of_device(seq![t], d) == of_device(seq![t].drop_last(), d));
    } else if key_lt(tkey(s.last()), tkey(t)) {
        assert(s.push(t).drop_last() =~= s);
        assert(s.push(t).last() == t);
    } else if tkey(s.last()) == tkey(t) {
        let u = s.drop_last().push(t);
        assert(u.drop_last() =~= s.drop_last());
        assert(u.last() == t);
        assert(s.last().device == t.device);
        assert(of_device(u, d) == of_device(s.drop_last(), d));
    } else {
        lemma_upsert_other(s.drop_last(), t, d);
        let u = upsert(s.drop_last(), t).push(s.last());
        assert(u.drop_last() =~= upsert(s.drop_last(), t));
    }
}

proof fn lemma_update_matching_other(s: Seq<TouchModel>, dev: usize, ch: u8, note: Option<u8>, f: TouchField, d: usize)
    requires
        dev != d,
    ensures
        of_device(update_matching(s, dev, ch, note, f), d) == of_device(s, d),
    decreases s.len(),
{
    if s.len() > 0 {
        lemma_update_matching_other(s.drop_last(), dev, ch, note, f, d);
        let u = update_matching(s, dev, ch, note, f);
        assert(u.drop_last() =~= update_matching(s.drop_last(), dev, ch, note, f));
        assert(u.last() == (if touch_matches(s.last(), dev, ch, note) { set_field(s.last(), f) } else { s.last() }));
    }
}

/// Polyphonic aftertouch `[0xA0 + c, note, p]` from device `dev` sets the
/// pressure of the held touch on channel `c + 1` with that note to `p`;
/// every other touch, and every other field, stays as it was.
pub proof fn lemma_poly_aftertouch_sets_pressure(s: Seq<TouchModel>, dev: usize, b: Seq<u8>)
    requires
        b.len() >= 3,
        0xA0 <= b[0] <= 0xAF,
    ensures
        touch_step(s, dev, b).len() == s.len(),
        forall|i: int| 0 <= i < s.len() ==> #[trigger] touch_step(s, dev, b)[i] == (if s[i].device == dev && s[i].channel
            == b[0] - 0x9F && s[i].note == b[1] {
            TouchModel { z: b[2], ..s[i] }
        } else {
            s[i]
        }),
{
}

/// Channel pressure `[0xD0 + c, p]` from device `dev` sets the pressure of
/// every held touch of that device on channel `c + 1` to `p`, nothing else.
pub proof fn lemma_channel_pressure_sets_pressure(s: Seq<TouchModel>, dev: usize, b: Seq<u8>)
    requires
        b.len() >= 2,
        0xD0 <= b[0] <= 0xDF,
    ensures
        touch_step(s, dev, b).len() == s.len(),
        forall|i: int| 0 <= i < s.len() ==> #[trigger] touch_step(s, dev, b)[i] == (if s[i].device == dev && s[i].channel
            == b[0] - 0xCF {
            TouchModel { z: b[1], ..s[i] }
        } else {
            s[i]
        }),
{
}

/// Control change 74 `[0xB0 + c, 74, v]` from device `dev` sets the y of
/// every held touch of that device on channel `c + 1` to `v`, nothing else.
pub proof fn lemma_cc74_sets_y(s: Seq<TouchModel>, dev: usize, b: Seq<u8>)
    requires
        b.len() >= 3,
        0xB0 <= b[0] <= 0xBF,
        b[1] == 74,
    ensures
        touch_step(s, dev, b).len() == s.len(),
        forall|i: int| 0 <= i < s.len() ==> #[trigger] touch_step(s, dev, b)[i] == (if s[i].device == dev && s[i].channel
            == b[0] - 0xAF {
            TouchModel { y: b[2], ..s[i] }
        } else {
            s[i]
        }),
{
}

/// Pitch bend `[0xE0 + c, lsb, msb]` from device `dev` sets the x of every
/// held touch of that device on channel `c + 1` to the signed bend
/// `128 * msb + lsb - 8192`, nothing else.
pub proof fn lemma_pitch_bend_sets_x(s: Seq<TouchModel>, dev: usize, b: Seq<u8>)
    requires
        b.len() >= 3,
        0xE0 <= b[0] <= 0xEF,
        b[1] < 128,
        b[2] < 128,
    ensures
        touch_step(s, dev, b).len() == s.len(),
        forall|i: int| 0 <= i < s.len() ==> #[trigger] touch_step(s, dev, b)[i] == (if s[i].device == dev && s[i].channel
            == b[0] - 0xDF {
            TouchModel { x: (128 * b[2] + b[1] - 8192) as i16, ..s[i] }
        } else {
            s[i]
        }),
{
    let lsb = b[1];
    let msb = b[2];
    assert(((((msb as i16) << 7u32) | (lsb as i16)) as int) == 128 * msb + lsb) by (bit_vector)
        requires
            lsb < 128,
            msb < 128,
    ;
}

/// A note-on `[0x90 + c, note, v]` with `v > 0` from device `dev` holds the
/// touch (dev, c + 1, note) with velocity `v` and x, y, z at 0, replacing
/// any touch of that key; all touches of other keys stay, and nothing else
/// is added.
pub proof fn lemma_note_on_holds_touch(s: Seq<TouchModel>, dev: usize, b: Seq<u8>)
    requires
        sorted_touches(s),
        b.len() >= 3,
        0x90 <= b[0] <= 0x9F,
        b[2] > 0,
    ensures
        ({
            let r = touch_step(s, dev, b);
            let t = TouchModel { device: dev, channel: (b[0] - 0x8F) as u8, note: b[1], velocity: b[2], x: 0, y: 0, z: 0 };
            &&& sorted_touches(r)
            &&& r.contains(t)
            &&& forall|i: int| 0 <= i < s.len() && tkey(#[trigger] s[i]) != tkey(t) ==> r.contains(s[i])
            &&& forall|j: int| 0 <= j < r.len() ==> #[trigger] r[j] == t || s.contains(r[j])
        }),
{
    let r = touch_step(s, dev, b);
    let t = TouchModel { device: dev, channel: (b[0] - 0x8F) as u8, note: b[1], velocity: b[2], x: 0, y: 0, z: 0 };
    assert(r == upsert(s, t));
    let p = lemma_find_pos(s, tkey(t));
    lemma_upsert(s, t, p);
    if p < s.len() && tkey(s[p]) == tkey(t) {
        assert(r[p] == t);
        assert forall|i: int| 0 <= i < s.len() && tkey(#[trigger] s[i]) != tkey(t) implies r.contains(s[i]) by {
            assert(r[i] == s[i]);
        }
        assert forall|j: int| 0 <= j < r.len() implies #[trigger] r[j] == t || s.contains(r[j]) by {
            if j != p {
                assert(r[j] == s[j]);
            }
        }
    } else {
        assert(r[p] == t);
        assert forall|i: int| 0 <= i < s.len() && tkey(#[trigger] s[i]) != tkey(t) implies r.contains(s[i]) by {
            if i < p {
                assert(r[i] == s[i]);
            } else {
                assert(r[i + 1] == s[i]);
            }
        }
        assert forall|j: int| 0 <= j < r.len() implies #[trigger] r[j] == t || s.contains(r[j]) by {
            if j < p {
                assert(r[j] == s[j]);
            } else if j > p {
                assert(r[j] == s[j - 1]);
            }
        }
    }
}

/// A note-off `[0x80 + c, note, v]` (or a note-on with velocity 0) from
/// device `dev` releases the touch (dev, c + 1, note): no touch of that key
/// is left, every touch of another key stays, and nothing is added.
pub proof fn lemma_note_off_releases_touch(s: Seq<TouchModel>, dev: usize, b: Seq<u8>)
    requires
        sorted_touches(s),
        b.len() >= 3,
        (0x80 <= b[0] <= 0x8F) || (0x90 <= b[0] <= 0x9F && b[2] == 0),
    ensures
        ({
            let r = touch_step(s, dev, b);
            let k = (dev, (b[0] % 16 + 1) as u8, b[1]);
            &&& sorted_touches(r)
            &&& forall|j: int| 0 <= j < r.len() ==> tkey(#[trigger] r[j]) != k && s.contains(r[j])
            &&& forall|i: int| 0 <= i < s.len() && tkey(#[trigger] s[i]) != k ==> r.contains(s[i])
        }),
{
    let r = touch_step(s, dev, b);
    let k = (dev, (b[0] % 16 + 1) as u8, b[1]);
    assert(r == remove_key(s, k));
    if exists|p: int| 0 <= p < s.len() && tkey(s[p]) == k {
        let p = choose|p: int| 0 <= p < s.len() && tkey(s[p]) == k;
        lemma_remove_at(s, k, p);
        assert forall|j: int| 0 <= j < r.len() implies tkey(#[trigger] r[j]) != k && s.contains(r[j]) by {
            if j < p {
                assert(r[j] == s[j]);
                assert(key_lt(tkey(s[j]), tkey(s[p])));
            } else {
                assert(r[j] == s[j + 1]);
                assert(key_lt(tkey(s[p]), tkey(s[j + 1])));
            }
        }
        assert forall|i: int| 0 <= i < s.len() && tkey(#[trigger] s[i]) != k implies r.contains(s[i]) by {
            if i < p {
                assert(r[i] == s[i]);
            } else {
                assert(i != p);
                assert(r[i - 1] == s[i]);
            }
        }
    } else {
        lemma_remove_absent(s, k);
        assert forall|j: int| 0 <= j < r.len() implies tkey(#[trigger] r[j]) != k && s.contains(r[j]) by {
            assert(r[j] == s[j]);
        }
        assert forall|i: int| 0 <= i < s.len() && tkey(#[trigger] s[i]) != k implies r.contains(s[i]) by {
            assert(r[i] == s[i]);
        }
    }
}

/// A message from device `dev` leaves the touches of every other device as
/// they were, and an empty message changes nothing.
pub proof fn lemma_other_devices_untouched(s: Seq<TouchModel>, dev: usize, b: Seq<u8>, d: usize)
    ensures
        d != dev ==> of_device(touch_step(s, dev, b), d) == of_device(s, d),
        b.len() == 0 ==> touch_step(s, dev, b) == s,
{
    if d != dev && b.len() > 0 {
        let ch = chan_of(b[0]);
        lemma_remove_key_other(s, (dev, ch, if b.len() > 1 { b[1] } else { 0 }), d);
        if b.len() >= 3 {
            lemma_upsert_other(
                s,
                TouchModel { device: dev, channel: ch, note: b[1], velocity: b[2], x: 0, y: 0, z: 0 },
                d,
            );
            lemma_update_matching_other(s, dev, ch, None, TouchField::Y(b[2]), d);
            lemma_update_matching_other(s, dev, ch, Some(b[1]), TouchField::Z(b[2]), d);
            lemma_update_matching_other(s, dev, ch, None, TouchField::X(bend_of(b[1], b[2])), d);
        }
        if b.len() >= 2 {
            lemma_update_matching_other(s, dev, ch, None, TouchField::Z(b[1]), d);
        }
    }
}

/// Bytes as `{:02X}`, separated by single spaces.
pub open spec fn hex_join(b: Seq<u8>) -> Seq<char>
    decreases b.len(),
{
    if b.len() == 0 {
        Seq::empty()
    } else if b.len() == 1 {
        hex2(b[0])
    } else {
        hex_join(b.drop_last()) + seq![' '] + hex2(b.last())
    }
}

/// The shown lines of events: all, or the MPE ones only.
pub open spec fn shown_lines(es: Seq<EventModel>, mpe_only: bool) -> Seq<Seq<char>>
    decreases es.len(),
{
    if es.len() == 0 {
        Seq::empty()
    } else {
        let r = shown_lines(es.drop_last(), mpe_only);
        if !mpe_only || is_mpe_kind(es.last().kind) {
            r.push(es.last().line)
        } else {
            r
        }
    }
}

pub open spec fn raw_record(m: InputMessage) -> RecordModel {
    RecordModel {
        device: m.device_number,
        port: m.port_name@,
        channel: None,
        kind: "raw"@,
        note: None,
        value: None,
        label: None,
        raw: Some(m.bytes@),
    }
}

fn clone_bytes(b: &Vec<u8>) -> (r: Vec<u8>)
    ensures
        r@ == b@,
{
    let mut r: Vec<u8> = Vec::new();
    let mut i: usize = 0;
    while i < b.len()
        invariant
            i <= b.len(),
            r@ == b@.take(i as int),
        decreases b.len() - i,
    {
        r.push(b[i]);
        i = i + 1;
        assert(r@ =~= b@.take(i as int));
    }
    assert(b@.take(b.len() as int) =~= b@);
    r
}

fn clone_record(e: &EventRecord) -> (r: EventRecord)
    ensures
        record_model(r) == record_model(*e),
{
    EventRecord {
        device: e.device,
        port: e.port.clone(),
        channel: e.channel,
        kind: e.kind.clone(),
        note: e.note,
        value: e.value,
        label: match &e.label {
            Some(s) => Some(s.clone()),
            None => None,
        },
        raw: match &e.raw {
            Some(b) => Some(clone_bytes(b)),
            None => None,
        },
    }
}

impl DecodedEvent {
    /// `[device] raw` and the bytes in hexadecimal.
    pub fn raw_line(&self) -> (r: String)
        ensures
            r@ == "["@ + dec_digits(self.raw.device_number as nat) + "] raw "@ + hex_join(self.raw.bytes@),
    {
        let mut v: Vec<char> = Vec::new();
        push_str(&mut v, "[");
        push_dec(&mut v, self.raw.device_number as u64);
        push_str(&mut v, "] raw ");
        let ghost head = v@;
        let b = &self.raw.bytes;
        let mut i: usize = 0;
        while i < b.len()
            invariant
                i <= b.len(),
                v@ == head + hex_join(b@.take(i as int)),
            decreases b.len() - i,
        {
            let ghost before = v@;
            if i > 0 {
                v.push(' ');
            }
            push_hex2(&mut v, b[i]);
            let ghost t = b@.take(i + 1);
            assert(t.drop_last() =~= b@.take(i as int));
            assert(t.last() == b[i as int]);
            if i == 0 {
                assert(hex_join(t) == hex2(b[0]));
                assert(b@.take(0) =~= Seq::<u8>::empty());
                assert(v@ =~= head + hex_join(t));
            } else {
                assert(hex_join(t) == hex_join(b@.take(i as int)) + seq![' '] + hex2(b[i as int]));
                assert(v@ =~= head + hex_join(t));
            }
            i = i + 1;
        }
        assert(b@.take(b.len() as int) =~= b@);
        string_of(&v)
    }

    /// The lines of the events (only the MPE ones when `mpe_only`).
    pub fn event_lines(&self, mpe_only: bool) -> (r: Vec<String>)
        ensures
            r@.map_values(|s: String| s@) == shown_lines(
                self.events@.map_values(|e: DisplayEvent| event_model(e)),
                mpe_only,
            ),
    {
        let ghost es = self.events@.map_values(|e: DisplayEvent| event_model(e));
        let mut r: Vec<String> = Vec::new();
        let mut i: usize = 0;
        while i < self.events.len()
            invariant
                i <= self.events.len(),
                es == self.events@.map_values(|e: DisplayEvent| event_model(e)),
                r@.map_values(|s: String| s@) == shown_lines(es.take(i as int), mpe_only),
            decreases self.events.len() - i,
        {
            let e = &self.events[i];
            assert(es.take(i + 1).drop_last() =~= es.take(i as int));
            if !mpe_only || e.record.is_mpe_related() {
                r.push(e.line.clone());
            }
            i = i + 1;
            assert(r@.map_values(|s: String| s@) =~= shown_lines(es.take(i as int), mpe_only));
        }
        assert(es.take(self.events.len() as int) =~= es);
        r
    }

    /// The events' records, plus a `raw` record of the bytes when there is
    /// no event or `log_raw` asks for it.
    pub fn records(&self, log_raw: bool) -> (r: Vec<EventRecord>)
        ensures
            r@.map_values(|x: EventRecord| record_model(x)) == self.events@.map_values(
                |e: DisplayEvent| record_model(e.record),
            ) + if self.events.len() == 0 || log_raw {
                seq![raw_record(self.raw)]
            } else {
                Seq::empty()
            },
    {
        let ghost es = self.events@.map_values(|e: DisplayEvent| record_model(e.record));
        let mut r: Vec<EventRecord> = Vec::new();
        let mut i: usize = 0;
        while i < self.events.len()
            invariant
                i <= self.events.len(),
                es == self.events@.map_values(|e: DisplayEvent| record_model(e.record)),
                r@.map_values(|x: EventRecord| record_model(x)) == es.take(i as int),
            decreases self.events.len() - i,
        {
            let c = clone_record(&self.events[i].record);
            assert(record_model(c) == es[i as int]);
            let ghost before = r@;
            r.push(c);
            assert(r@.map_values(|x: EventRecord| record_model(x)) =~= before.map_values(
                |x: EventRecord| record_model(x),
            ).push(record_model(c)));
            assert(es.take(i + 1) =~= es.take(i as int).push(es[i as int]));
            i = i + 1;
            assert(r@.map_values(|x: EventRecord| record_model(x)) =~= es.take(i as int));
        }
        assert(es.take(self.events.len() as int) =~= es);
        if self.events.len() == 0 || log_raw {
            r.push(
                EventRecord {
                    device: self.raw.device_number,
                    port: self.raw.port_name.clone(),
                    channel: None,
                    kind: "raw".to_owned(),
                    note: None,
                    value: None,
                    label: None,
                    raw: Some(clone_bytes(&self.raw.bytes)),
                },
            );
        }
        assert(r@.map_values(|x: EventRecord| record_model(x)) =~= es + if self.events.len() == 0
            || log_raw {
            seq![raw_record(self.raw)]
        } else {
            Seq::empty()
        });
        r
    }
}

/// Encoder positions, button states and the slider, from the control
/// messages on channel 16.
#[derive(Debug, Clone)]
pub struct ControlStateTracker {
    /// Encoder id (110..=113) -> sum of its relative steps.
    pub encoders: BTreeMap<u8, i64>,
    /// Button id (100..=109, 114..=118) -> pressed.
    pub buttons: BTreeMap<u8, bool>,
    /// Touched slider portion (0..=5); none once the slider is released.
    pub slider_portion: Option<u8>,
    /// Last slider position value (CC 90).
    pub slider_position: Option<u8>,
}

impl Default for ControlStateTracker {
    fn default() -> (r: Self)
        ensures
            r.encoders@ == Map::<u8, i64>::empty(),
            r.buttons@ == Map::<u8, bool>::empty(),
            r.slider_portion is None,
            r.slider_position is None,
    {
        ControlStateTracker {
            encoders: BTreeMap::new(),
            buttons: BTreeMap::new(),
            slider_portion: None,
            slider_position: None,
        }
    }
}

/// A control change on channel 16 with its two data bytes.
pub open spec fn is_control_cc(msg: Seq<u8>) -> bool {
    msg.len() >= 3 && msg[0] / 16 == 11 && msg[0] % 16 == 15
}

pub open spec fn is_encoder(c: u8) -> bool {
    110 <= c <= 113
}

pub open spec fn is_button(c: u8) -> bool {
    (100 <= c <= 109) || (114 <= c <= 118)
}

pub open spec fn is_portion(c: u8) -> bool {
    80 <= c <= 85
}

/// The message changes the control state.
pub open spec fn control_changes(msg: Seq<u8>) -> bool {
    is_control_cc(msg) && (is_encoder(msg[1]) || is_button(msg[1]) || is_portion(msg[1]) || msg[1] == 90)
}

pub open spec fn encoder_value(m: Map<u8, i64>, c: u8) -> int {
    if m.contains_key(c) {
        m[c] as int
    } else {
        0
    }
}

impl ControlStateTracker {
    /// Applies one message; true when it changed the state. An encoder adds
    /// `value - 64`, a button is pressed while its value is not 0, a portion
    /// CC marks that portion touched, and CC 90 records the position (127
    /// releasing the slider). Other messages leave the state alone.
    pub fn apply(&mut self, msg: &[u8]) -> (r: bool)
        requires
            is_control_cc(msg@) && is_encoder(msg@[1]) ==> i64::MIN <= encoder_value(
                old(self).encoders@,
                msg@[1],
            ) + msg@[2] - 64 <= i64::MAX,
        ensures
            r == (final(self).encoders@ != old(self).encoders@ || final(self).buttons@ != old(self).buttons@
                || final(self).slider_portion != old(self).slider_portion
                || final(self).slider_position != old(self).slider_position),
            final(self).encoders@ == if control_changes(msg@) && is_encoder(msg@[1]) {
                old(self).encoders@.insert(
                    msg@[1],
                    (encoder_value(old(self).encoders@, msg@[1]) + msg@[2] - 64) as i64,
                )
            } else {
                old(self).encoders@
            },
            final(self).buttons@ == if control_changes(msg@) && is_button(msg@[1]) {
                old(self).buttons@.insert(msg@[1], msg@[2] != 0)
            } else {
                old(self).buttons@
            },
            final(self).slider_portion == if control_changes(msg@) && is_portion(msg@[1]) {
                Some((msg@[1] - 80) as u8)
            } else if control_changes(msg@) && msg@[1] == 90 && msg@[2] == 127 {
                None
            } else {
                old(self).slider_portion
            },
            final(self).slider_position == if control_changes(msg@) && msg@[1] == 90 {
                Some(msg@[2])
            } else {
                old(self).slider_position
            },
    {
        if msg.len() < 3 {
            return false;
        }
        let status = msg[0] / 16;
        let channel = msg[0] % 16 + 1;
        if channel != 16 {
            return false;
        }
        if status != 11 {
            return false;
        }
        let controller = msg[1];
        let value = msg[2];
        if 110 <= controller && controller <= 113 {
            let delta = value as i16 - 64;
            let (cur, known): (i64, bool) = match self.encoders.get(&controller) {
                Some(x) => (*x, true),
                None => (0, false),
            };
            let ghost before = self.encoders@;
            self.encoders.insert(controller, cur + delta as i64);
            proof {
                if known && delta == 0 {
                    assert(self.encoders@ =~= before);
                } else if !known {
                    assert(!before.contains_key(controller) && self.encoders@.contains_key(controller));
                } else {
                    assert(self.encoders@[controller] != before[controller]);
                }
            }
            !known || delta != 0
        } else if (100 <= controller && controller <= 109) || (114 <= controller && controller <= 118) {
            let pressed = value != 0;
            let same = match self.buttons.get(&controller) {
                Some(b) => *b == pressed,
                None => false,
            };
            let ghost before = self.buttons@;
            self.buttons.insert(controller, pressed);
            proof {
                if same {
                    assert(self.buttons@ =~= before);
                } else if !before.contains_key(controller) {
                    assert(self.buttons@.contains_key(controller));
                } else {
                    assert(self.buttons@[controller] != before[controller]);
                }
            }
            !same
        } else if 80 <= controller && controller <= 85 {
            let portion = controller - 80;
            let same = match self.slider_portion {
                Some(p) => p == portion,
                None => false,
            };
            self.slider_portion = Some(portion);
            !same
        } else if controller == 90 {
            let same_position = match self.slider_position {
                Some(v) => v == value,
                None => false,
            };
            let released_touch = value == 127 && self.slider_portion.is_some();
            self.slider_position = Some(value);
            if value == 127 {
                self.slider_portion = None;
            }
            !same_position || released_touch
        } else {
            false
        }
    }
}

/// The last `n` items of `s` (all of them when there are fewer).
pub open spec fn keep_last<T>(s: Seq<T>, n: nat) -> Seq<T> {
    if s.len() > n {
        s.skip(s.len() - n)
    } else {
        s
    }
}

/// Lines kept by the monitor.
pub const EVENT_BUFFER_LINES: usize = 200;

/// The most recent display lines, at most 200.
pub struct EventBuffer {
    entries: VecDeque<String>,
}

impl View for EventBuffer {
    type V = Seq<String>;

    closed spec fn view(&self) -> Seq<String> {
        self.entries@
    }
}

impl Default for EventBuffer {
    fn default() -> (r: Self)
        ensures
            r@ == Seq::<String>::empty(),
    {
        EventBuffer { entries: VecDeque::new() }
    }
}

impl EventBuffer {
    /// Appends a line, dropping the oldest beyond 200.
    pub fn push(&mut self, line: String)
        ensures
            final(self)@ == keep_last(old(self)@.push(line), 200),
    {
        let ghost full = old(self)@.push(line);
        self.entries.push_back(line);
        let ghost mut k: int = 0;
        while self.entries.len() > EVENT_BUFFER_LINES
            invariant
                0 <= k,
                k <= full.len(),
                self.entries@ == full.skip(k),
                full.len() > 200 ==> k <= full.len() - 200,
                full.len() <= 200 ==> k == 0,
            decreases self.entries.len(),
        {
            self.entries.pop_front();
            proof {
                k = k + 1;
            }
            assert(self.entries@ =~= full.skip(k));
        }
        assert(self.entries@ =~= keep_last(full, 200));
    }

    pub fn entries(&self) -> (r: &VecDeque<String>)
        ensures
            r@ == self@,
    {
        &self.entries
    }
}

} // verus!
