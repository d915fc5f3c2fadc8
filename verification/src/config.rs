//! Which connected Exquis plays which board: the durable device -> board
//! pins of `devices.json`, and the live board order of a session.
//!
//! Pins are never dropped or moved by a sync: a device that is absent keeps
//! its pin, and only a device without a pin is given a new board name (the
//! lowest free one). For the session the boards are numbered
//! `board0..boardN-1` over the N connected devices: a device sits at its
//! pinned index when that is in range and free, and the others fill the
//! remaining places in order.
use vstd::prelude::*;

use crate::exquis::midi::{devices_view, DeviceModel, ExquisDevice};
use crate::num::{dec_digits, lemma_dec_digits_parse, parse_bounded, parse_uint, push_dec};
use crate::text::{chars_of, starts_with, string_of};
use crate::usb::{copy_opt_string, opt_view};

verus! {

/// How a pinned device is recognised: by serial, else by USB location.
#[derive(Debug, Clone)]
pub struct DeviceIdentifier {
    pub serial: Option<String>,
    pub usb_location: Option<String>,
}

pub struct IdentModel {
    pub serial: Option<Seq<char>>,
    pub usb_location: Option<Seq<char>>,
}

impl View for DeviceIdentifier {
    type V = IdentModel;

    open spec fn view(&self) -> IdentModel {
        IdentModel { serial: opt_view(self.serial), usb_location: opt_view(self.usb_location) }
    }
}

impl DeviceIdentifier {
    pub fn copy(&self) -> (r: DeviceIdentifier)
        ensures
            r@ == self@,
    {
        DeviceIdentifier {
            serial: copy_opt_string(&self.serial),
            usb_location: copy_opt_string(&self.usb_location),
        }
    }
}

/// The pins: board name -> identifier, each name once.
#[derive(Debug, Clone)]
pub struct DeviceConfig {
    pub devices: Vec<(String, DeviceIdentifier)>,
}

pub open spec fn entry_view(e: (String, DeviceIdentifier)) -> (Seq<char>, IdentModel) {
    (e.0@, e.1@)
}

impl View for DeviceConfig {
    type V = Seq<(Seq<char>, IdentModel)>;

    open spec fn view(&self) -> Seq<(Seq<char>, IdentModel)> {
        self.devices@.map_values(|e: (String, DeviceIdentifier)| entry_view(e))
    }
}

/// No board name occurs twice.
pub open spec fn names_unique(c: Seq<(Seq<char>, IdentModel)>) -> bool {
    forall|i: int, j: int| 0 <= i < j < c.len() ==> c[i].0 != c[j].0
}

pub open spec fn has_name(c: Seq<(Seq<char>, IdentModel)>, n: Seq<char>) -> bool {
    exists|i: int| 0 <= i < c.len() && c[i].0 == n
}

impl DeviceConfig {
    pub open spec fn wf(&self) -> bool {
        names_unique(self@)
    }

    /// A copy with the same pins.
    pub fn copy(&self) -> (r: DeviceConfig)
        ensures
            r@ == self@,
    {
        let mut v: Vec<(String, DeviceIdentifier)> = Vec::new();
        let mut i: usize = 0;
        while i < self.devices.len()
            invariant
                i <= self.devices.len(),
                v@.map_values(|e: (String, DeviceIdentifier)| entry_view(e)) == self@.take(i as int),
            decreases self.devices.len() - i,
        {
            let e = &self.devices[i];
            let c = (e.0.clone(), e.1.copy());
            let ghost before = v@;
            v.push(c);
            assert(v@.map_values(|e: (String, DeviceIdentifier)| entry_view(e)) =~= before.map_values(
                |e: (String, DeviceIdentifier)| entry_view(e),
            ).push(entry_view(c)));
            assert(self@.take(i + 1) =~= self@.take(i as int).push(self@[i as int]));
            i = i + 1;
        }
        assert(self@.take(self.devices.len() as int) =~= self@);
        DeviceConfig { devices: v }
    }
}

/// A device matched to a board name for this session.
#[derive(Debug, Clone)]
pub struct BoardAssignment {
    pub board_name: String,
    pub device: ExquisDevice,
}

pub struct AssignModel {
    pub board_name: Seq<char>,
    pub device: DeviceModel,
}

pub open spec fn assign_model(a: BoardAssignment) -> AssignModel {
    AssignModel { board_name: a.board_name@, device: a.device@ }
}

/// Serials that older builds stored but that change across power cycles.
pub open spec fn legacy_prefix() -> Seq<char> {
    seq!['M', 'I', 'D', 'I', 'U', '_', 'K', 'S', 'A', '_']
}

pub fn is_legacy_synthetic_id(serial: &str) -> (r: bool)
    ensures
        r == starts_with(serial@, legacy_prefix()),
{
    let v = chars_of(serial);
    let p: Vec<char> = vec!['M', 'I', 'D', 'I', 'U', '_', 'K', 'S', 'A', '_'];
    if v.len() < p.len() {
        return false;
    }
    let mut i: usize = 0;
    while i < p.len()
        invariant
            i <= p.len(),
            p@ == legacy_prefix(),
            v@ == serial@,
            v.len() >= p.len(),
            forall|k: int| 0 <= k < i ==> v@[k] == p@[k],
        decreases p.len() - i,
    {
        if v[i] != p[i] {
            return false;
        }
        i = i + 1;
    }
    assert(v@.take(p.len() as int) =~= legacy_prefix());
    true
}

/// The pin has a serial from an older build.
pub open spec fn is_legacy_pin(id: IdentModel) -> bool {
    id.serial matches Some(s) && starts_with(s, legacy_prefix())
}

/// The pins without the legacy ones, in order.
pub open spec fn without_legacy(c: Seq<(Seq<char>, IdentModel)>) -> Seq<(Seq<char>, IdentModel)>
    decreases c.len(),
{
    if c.len() == 0 {
        c
    } else {
        let r = without_legacy(c.drop_last());
        if is_legacy_pin(c.last().1) {
            r
        } else {
            r.push(c.last())
        }
    }
}

impl DeviceConfig {
    /// Drops the pins whose serial is a legacy synthetic id: they can match
    /// no device any more.
    pub fn drop_legacy_pins(&mut self)
        ensures
            final(self)@ == without_legacy(old(self)@),
    {
        let ghost c0 = self@;
        let mut kept: Vec<(String, DeviceIdentifier)> = Vec::new();
        let mut i: usize = 0;
        while i < self.devices.len()
            invariant
                i <= self.devices.len(),
                self@ == c0,
                kept@.map_values(|e: (String, DeviceIdentifier)| entry_view(e)) == without_legacy(
                    c0.take(i as int),
                ),
            decreases self.devices.len() - i,
        {
            let e = &self.devices[i];
            assert(c0.take(i + 1).drop_last() =~= c0.take(i as int));
            assert(c0.take(i + 1).last() == entry_view(*e));
            let legacy = match &e.1.serial {
                Some(s) => is_legacy_synthetic_id(s.as_str()),
                None => false,
            };
            if !legacy {
                let c = (e.0.clone(), e.1.copy());
                let ghost before = kept@;
                kept.push(c);
                assert(kept@.map_values(|e: (String, DeviceIdentifier)| entry_view(e)) =~= before.map_values(
                    |e: (String, DeviceIdentifier)| entry_view(e),
                ).push(entry_view(c)));
            }
            i = i + 1;
        }
        assert(c0.take(self.devices.len() as int) =~= c0);
        self.devices = kept;
    }
}

/// A pin names this device: same serial, or same USB location.
pub open spec fn ident_matches(d: DeviceModel, id: IdentModel) -> bool {
    match d.usb_info {
        None => false,
        Some(u) => (id.serial matches Some(s) && u.serial_number == Some(s)) || (
        id.usb_location matches Some(l) && u.location == l),
    }
}

pub fn matches_ident(device: &ExquisDevice, ident: &DeviceIdentifier) -> (r: bool)
    ensures
        r == ident_matches(device@, ident@),
{
    match &device.usb_info {
        None => false,
        Some(usb) => {
            let by_serial = match (&ident.serial, &usb.serial_number) {
                (Some(s), Some(us)) => *us == *s,
                _ => false,
            };
            if by_serial {
                return true;
            }
            match &ident.usb_location {
                Some(l) => usb.location == *l,
                None => false,
            }
        },
    }
}

/// Lexicographic order of texts by character (the order of `str`).
pub open spec fn str_lt(a: Seq<char>, b: Seq<char>) -> bool
    decreases a.len(),
{
    if a.len() == 0 {
        b.len() > 0
    } else if b.len() == 0 {
        false
    } else if a[0] != b[0] {
        a[0] < b[0]
    } else {
        str_lt(a.drop_first(), b.drop_first())
    }
}

pub proof fn lemma_str_lt_asym(a: Seq<char>, b: Seq<char>)
    requires
        str_lt(a, b),
    ensures
        !str_lt(b, a),
        a != b,
    decreases a.len(),
{
    if a.len() > 0 && b.len() > 0 && a[0] == b[0] {
        lemma_str_lt_asym(a.drop_first(), b.drop_first());
        if a == b {
            assert(a.drop_first() == b.drop_first());
        }
    }
}

pub proof fn lemma_str_lt_trans(a: Seq<char>, b: Seq<char>, c: Seq<char>)
    requires
        str_lt(a, b),
        str_lt(b, c),
    ensures
        str_lt(a, c),
    decreases a.len(),
{
    if a.len() > 0 && b.len() > 0 && c.len() > 0 && a[0] == b[0] && b[0] == c[0] {
        lemma_str_lt_trans(a.drop_first(), b.drop_first(), c.drop_first());
    }
}

pub proof fn lemma_str_lt_total(a: Seq<char>, b: Seq<char>)
    requires
        a != b,
    ensures
        str_lt(a, b) || str_lt(b, a),
    decreases a.len(),
{
    if a.len() == 0 && b.len() == 0 {
        assert(a =~= b);
    }
    if a.len() > 0 && b.len() > 0 && a[0] == b[0] {
        if a.drop_first() == b.drop_first() {
            assert(a =~= seq![a[0]] + a.drop_first());
            assert(b =~= seq![b[0]] + b.drop_first());
        }
        lemma_str_lt_total(a.drop_first(), b.drop_first());
    }
}

/// Index `x` put after every index whose key sorts before or with its own
/// (one step of a stable sort by text).
pub open spec fn ins_by_text(keys: Seq<Seq<char>>, s: Seq<int>, x: int) -> Seq<int>
    decreases s.len(),
{
    if s.len() == 0 {
        seq![x]
    } else if !str_lt(keys[x], keys[s.last()]) {
        s.push(x)
    } else {
        ins_by_text(keys, s.drop_last(), x).push(s.last())
    }
}

/// The indices `idx` stably sorted by their keys in text order.
pub open spec fn text_order(keys: Seq<Seq<char>>, idx: Seq<int>) -> Seq<int>
    decreases idx.len(),
{
    if idx.len() == 0 {
        Seq::empty()
    } else {
        ins_by_text(keys, text_order(keys, idx.drop_last()), idx.last())
    }
}

proof fn lemma_ins_by_text_at(keys: Seq<Seq<char>>, s: Seq<int>, x: int, pos: int)
    requires
        0 <= pos <= s.len(),
        forall|i: int| pos <= i < s.len() ==> str_lt(keys[x], keys[#[trigger] s[i]]),
        pos > 0 ==> !str_lt(keys[x], keys[s[pos - 1]]),
    ensures
        ins_by_text(keys, s, x) == s.insert(pos, x),
    decreases s.len(),
{
    if s.len() == 0 {
        assert(s.insert(0, x) =~= seq![x]);
    } else if !str_lt(keys[x], keys[s.last()]) {
        assert(pos == s.len());
        assert(s.insert(pos, x) =~= s.push(x));
    } else {
        lemma_ins_by_text_at(keys, s.drop_last(), x, pos);
        assert(s.drop_last().insert(pos, x).push(s.last()) =~= s.insert(pos, x));
    }
}

/// The indices `idx` stably sorted by `keys` in text order.
pub fn sort_by_text(keys: &Vec<Vec<char>>, idx: &Vec<usize>) -> (r: Vec<usize>)
    requires
        forall|j: int| 0 <= j < idx@.len() ==> #[trigger] idx@[j] < keys@.len(),
    ensures
        r@.map_values(|x: usize| x as int) == text_order(
            keys@.map_values(|v: Vec<char>| v@),
            idx@.map_values(|x: usize| x as int),
        ),
        r@.len() == idx@.len(),
        forall|j: int| 0 <= j < r@.len() ==> #[trigger] r@[j] < keys@.len(),
{
    let ghost ks = keys@.map_values(|v: Vec<char>| v@);
    let ghost ix = idx@.map_values(|x: usize| x as int);
    let mut out: Vec<usize> = Vec::new();
    let mut k: usize = 0;
    while k < idx.len()
        invariant
            k <= idx@.len(),
            ks == keys@.map_values(|v: Vec<char>| v@),
            ix == idx@.map_values(|x: usize| x as int),
            forall|j: int| 0 <= j < idx@.len() ==> #[trigger] idx@[j] < keys@.len(),
            out@.map_values(|x: usize| x as int) == text_order(ks, ix.take(k as int)),
            forall|j: int| 0 <= j < out@.len() ==> #[trigger] out@[j] < keys@.len(),
            out@.len() == k,
        decreases idx@.len() - k,
    {
        let x = idx[k];
        let ghost s = out@.map_values(|v: usize| v as int);
        let mut pos: usize = out.len();
        while pos > 0 && str_lt_exec(&keys[x], &keys[out[pos - 1]])
            invariant
                pos <= out@.len(),
                x < keys@.len(),
                ks == keys@.map_values(|v: Vec<char>| v@),
                s == out@.map_values(|v: usize| v as int),
                forall|j: int| 0 <= j < out@.len() ==> #[trigger] out@[j] < keys@.len(),
                forall|i: int| pos <= i < s.len() ==> str_lt(ks[x as int], ks[#[trigger] s[i]]),
            decreases pos,
        {
            pos = pos - 1;
        }
        proof {
            lemma_ins_by_text_at(ks, s, x as int, pos as int);
            assert(ix.take(k + 1).drop_last() =~= ix.take(k as int));
            assert(ix.take(k + 1).last() == x as int);
        }
        out.insert(pos, x);
        assert(out@.map_values(|v: usize| v as int) =~= s.insert(pos as int, x as int));
        k = k + 1;
    }
    assert(ix.take(idx@.len() as int) =~= ix);
    out
}

pub fn str_lt_exec(a: &Vec<char>, b: &Vec<char>) -> (r: bool)
    ensures
        r == str_lt(a@, b@),
{
    let mut i: usize = 0;
    assert(a@.skip(0) =~= a@);
    assert(b@.skip(0) =~= b@);
    while i < a.len() && i < b.len() && a[i] == b[i]
        invariant
            i <= a.len(),
            i <= b.len(),
            str_lt(a@, b@) == str_lt(a@.skip(i as int), b@.skip(i as int)),
        decreases a.len() - i,
    {
        assert(a@.skip(i as int).drop_first() =~= a@.skip(i + 1));
        assert(b@.skip(i as int).drop_first() =~= b@.skip(i + 1));
        i = i + 1;
    }
    if i == a.len() {
        i < b.len()
    } else if i == b.len() {
        false
    } else {
        a[i] < b[i]
    }
}

/// Entry `i` is the pin of `d` with the smallest name.
pub open spec fn is_first_pin(c: Seq<(Seq<char>, IdentModel)>, d: DeviceModel, i: int) -> bool {
    &&& 0 <= i < c.len()
    &&& ident_matches(d, c[i].1)
    &&& forall|j: int| 0 <= j < c.len() && j != i && ident_matches(d, #[trigger] c[j].1) ==> str_lt(c[i].0, c[j].0)
}

/// The board a device is pinned to: the smallest board name whose pin
/// matches it.
pub open spec fn pin_of(c: Seq<(Seq<char>, IdentModel)>, d: DeviceModel) -> Option<Seq<char>> {
    if exists|i: int| is_first_pin(c, d, i) {
        Some(c[choose|i: int| is_first_pin(c, d, i)].0)
    } else {
        None
    }
}

/// The board name this device is pinned to, if any.
pub fn find_existing_board(device: &ExquisDevice, config: &DeviceConfig) -> (r: Option<String>)
    requires
        config.wf(),
    ensures
        match r {
            Some(n) => pin_of(config@, device@) == Some(n@),
            None => pin_of(config@, device@) is None,
        },
{
    let ghost c = config@;
    let mut best: Option<usize> = None;
    let mut best_name: Vec<char> = Vec::new();
    let mut i: usize = 0;
    while i < config.devices.len()
        invariant
            i <= config.devices.len(),
            c == config@,
            names_unique(c),
            match best {
                None => forall|j: int| 0 <= j < i ==> !ident_matches(device@, #[trigger] c[j].1),
                Some(b) => {
                    &&& b < i
                    &&& best_name@ == c[b as int].0
                    &&& ident_matches(device@, c[b as int].1)
                    &&& forall|j: int|
                        0 <= j < i && j != b && ident_matches(device@, #[trigger] c[j].1) ==> str_lt(
                            c[b as int].0,
                            c[j].0,
                        )
                },
            },
        decreases config.devices.len() - i,
    {
        let e = &config.devices[i];
        assert(c[i as int] == entry_view(*e));
        if matches_ident(device, &e.1) {
            let name = chars_of(e.0.as_str());
            match best {
                None => {
                    best = Some(i);
                    best_name = name;
                },
                Some(b) => {
                    if str_lt_exec(&name, &best_name) {
                        proof {
                            assert forall|j: int|
                                0 <= j < i + 1 && j != i && ident_matches(device@, #[trigger] c[j].1) implies str_lt(
                                c[i as int].0,
                                c[j].0,
                            ) by {
                                if j != b {
                                    lemma_str_lt_trans(c[i as int].0, c[b as int].0, c[j].0);
                                }
                            }
                        }
                        best = Some(i);
                        best_name = name;
                    } else {
                        proof {
                            assert(c[b as int].0 != c[i as int].0);
                            lemma_str_lt_total(c[b as int].0, c[i as int].0);
                        }
                    }
                },
            }
        }
        i = i + 1;
    }
    match best {
        None => {
            proof {
                if exists|k: int| is_first_pin(c, device@, k) {
                    let k = choose|k: int| is_first_pin(c, device@, k);
                    assert(!ident_matches(device@, c[k].1));
                }
            }
            None
        },
        Some(b) => {
            proof {
                assert(is_first_pin(c, device@, b as int));
                let k = choose|k: int| is_first_pin(c, device@, k);
                if k != b {
                    lemma_str_lt_asym(c[b as int].0, c[k].0);
                }
            }
            Some(string_of(&best_name))
        },
    }
}

pub open spec fn board_prefix() -> Seq<char> {
    seq!['b', 'o', 'a', 'r', 'd']
}

/// `boardN`.
pub open spec fn board_name(n: nat) -> Seq<char> {
    board_prefix() + dec_digits(n)
}

/// The number of a board name `boardN`.
pub open spec fn board_index_spec(name: Seq<char>) -> Option<int> {
    if starts_with(name, board_prefix()) {
        parse_bounded(name.skip(5), usize::MAX as int)
    } else {
        None
    }
}

pub fn parse_board_index(name: &str) -> (r: Option<usize>)
    ensures
        match r {
            Some(n) => board_index_spec(name@) == Some(n as int),
            None => board_index_spec(name@) is None,
        },
{
    let v = chars_of(name);
    if v.len() < 5 || v[0] != 'b' || v[1] != 'o' || v[2] != 'a' || v[3] != 'r' || v[4] != 'd' {
        proof {
            if v.len() >= 5 {
                assert(v@.take(5) != board_prefix()) by {
                    if v@.take(5) == board_prefix() {
                        assert(v@.take(5)[0] == 'b');
                        assert(v@.take(5)[1] == 'o');
                        assert(v@.take(5)[2] == 'a');
                        assert(v@.take(5)[3] == 'r');
                        assert(v@.take(5)[4] == 'd');
                    }
                }
            }
        }
        return None;
    }
    assert(v@.take(5) =~= board_prefix());
    let rest = crate::text::slice_of(&v, 5, v.len());
    assert(rest@ =~= v@.skip(5));
    match parse_uint(&rest, usize::MAX as u64) {
        Some(n) => Some(n as usize),
        None => None,
    }
}

pub(crate) fn board_name_exec(n: usize) -> (r: String)
    ensures
        r@ == board_name(n as nat),
{
    let mut v: Vec<char> = Vec::new();
    v.push('b');
    v.push('o');
    v.push('a');
    v.push('r');
    v.push('d');
    push_dec(&mut v, n as u64);
    assert(v@ =~= board_name(n as nat));
    string_of(&v)
}

/// The pin a new device gets: its serial, or its USB location when it has
/// none; devices without USB identity are not pinned.
pub open spec fn ident_of(d: DeviceModel) -> Option<IdentModel> {
    match d.usb_info {
        None => None,
        Some(u) => Some(
            IdentModel {
                serial: u.serial_number,
                usb_location: if u.serial_number is None {
                    Some(u.location)
                } else {
                    None
                },
            },
        ),
    }
}

pub fn build_identifier(device: &ExquisDevice) -> (r: Option<DeviceIdentifier>)
    ensures
        match r {
            Some(i) => ident_of(device@) == Some(i@),
            None => ident_of(device@) is None,
        },
{
    match &device.usb_info {
        None => None,
        Some(usb) => Some(
            DeviceIdentifier {
                serial: copy_opt_string(&usb.serial_number),
                usb_location: if usb.serial_number.is_none() {
                    Some(usb.location.clone())
                } else {
                    None
                },
            },
        ),
    }
}

/// The board index a device is pinned to (its pin's `boardN`).
pub open spec fn pref_of(c: Seq<(Seq<char>, IdentModel)>, d: DeviceModel) -> Option<int> {
    match pin_of(c, d) {
        Some(n) => board_index_spec(n),
        None => None,
    }
}

/// (pinned index, device index) of the pinned devices, in device order.
pub open spec fn pinned_pairs(c: Seq<(Seq<char>, IdentModel)>, ds: Seq<DeviceModel>) -> Seq<(int, int)>
    decreases ds.len(),
{
    if ds.len() == 0 {
        Seq::empty()
    } else {
        let r = pinned_pairs(c, ds.drop_last());
        match pref_of(c, ds.last()) {
            Some(p) => r.push((p, ds.len() - 1)),
            None => r,
        }
    }
}

/// The devices without a usable pin, in order.
pub open spec fn unpinned(c: Seq<(Seq<char>, IdentModel)>, ds: Seq<DeviceModel>) -> Seq<int>
    decreases ds.len(),
{
    if ds.len() == 0 {
        Seq::empty()
    } else {
        let r = unpinned(c, ds.drop_last());
        if pref_of(c, ds.last()) is None {
            r.push(ds.len() - 1)
        } else {
            r
        }
    }
}

/// `x` put after every pair whose index is not greater (stable insertion).
pub open spec fn ins_by_first(s: Seq<(int, int)>, x: (int, int)) -> Seq<(int, int)>
    decreases s.len(),
{
    if s.len() == 0 {
        seq![x]
    } else if s.last().0 <= x.0 {
        s.push(x)
    } else {
        ins_by_first(s.drop_last(), x).push(s.last())
    }
}

/// The pairs stably sorted by pinned index.
pub open spec fn sort_by_first(s: Seq<(int, int)>) -> Seq<(int, int)>
    decreases s.len(),
{
    if s.len() == 0 {
        s
    } else {
        ins_by_first(sort_by_first(s.drop_last()), s.last())
    }
}

/// In order, each pair takes its index when that is in range and still
/// free.
pub open spec fn claim(slots: Seq<Option<int>>, pairs: Seq<(int, int)>) -> Seq<Option<int>>
    decreases pairs.len(),
{
    if pairs.len() == 0 {
        slots
    } else {
        let s = claim(slots, pairs.drop_last());
        let p = pairs.last().0;
        if 0 <= p < s.len() && s[p] is None {
            s.update(p, Some(pairs.last().1))
        } else {
            s
        }
    }
}

/// The devices of `pairs` that did not get a place, in pair order.
pub open spec fn displaced(pairs: Seq<(int, int)>, slots: Seq<Option<int>>) -> Seq<int>
    decreases pairs.len(),
{
    if pairs.len() == 0 {
        Seq::empty()
    } else {
        let r = displaced(pairs.drop_last(), slots);
        if slots.contains(Some(pairs.last().1)) {
            r
        } else {
            r.push(pairs.last().1)
        }
    }
}

/// How many of the first `p` places are empty.
pub open spec fn none_before(s: Seq<Option<int>>, p: int) -> int
    decreases p,
{
    if p <= 0 {
        0
    } else {
        none_before(s, p - 1) + if s[p - 1] is None {
            1int
        } else {
            0int
        }
    }
}

/// The empty places, in order, take the waiting devices in order.
pub open spec fn fill(s: Seq<Option<int>>, pool: Seq<int>) -> Seq<Option<int>> {
    Seq::new(
        s.len(),
        |p: int|
            if s[p] is Some {
                s[p]
            } else if none_before(s, p) < pool.len() {
                Some(pool[none_before(s, p)])
            } else {
                None
            },
    )
}

pub open spec fn empty_places(n: nat) -> Seq<Option<int>> {
    Seq::new(n, |i: int| None::<int>)
}

/// The places after the pinned devices claimed theirs.
pub open spec fn claimed_places(c: Seq<(Seq<char>, IdentModel)>, ds: Seq<DeviceModel>) -> Seq<Option<int>> {
    claim(empty_places(ds.len()), sort_by_first(pinned_pairs(c, ds)))
}

/// The devices that wait for a free place: the unpinned ones, then the
/// pinned ones that found their place out of range or taken (by index).
pub open spec fn waiting(c: Seq<(Seq<char>, IdentModel)>, ds: Seq<DeviceModel>) -> Seq<int> {
    unpinned(c, ds) + displaced(sort_by_first(pinned_pairs(c, ds)), claimed_places(c, ds))
}

/// The device (index) at each board place of the session.
pub open spec fn live_slots(c: Seq<(Seq<char>, IdentModel)>, ds: Seq<DeviceModel>) -> Seq<Option<int>> {
    fill(claimed_places(c, ds), waiting(c, ds))
}

/// `boardI` with its device, for the filled places among the first `i`.
pub open spec fn assignments_upto(slots: Seq<Option<int>>, ds: Seq<DeviceModel>, i: int) -> Seq<AssignModel>
    decreases i,
{
    if i <= 0 {
        Seq::empty()
    } else {
        let r = assignments_upto(slots, ds, i - 1);
        match slots[i - 1] {
            Some(di) => r.push(AssignModel { board_name: board_name((i - 1) as nat), device: ds[di] }),
            None => r,
        }
    }
}

/// The lowest `N` such that `boardN` is not pinned.
pub open spec fn free_index(c: Seq<(Seq<char>, IdentModel)>) -> nat {
    choose|k: nat| !has_name(c, board_name(k)) && forall|j: nat| j < k ==> has_name(c, board_name(j))
}

/// The pins after the devices at the first `i` places were seen: each one
/// without a pin (in `c0`) and with a USB identity is pinned to the lowest
/// free board name.
pub open spec fn grow_upto(
    c0: Seq<(Seq<char>, IdentModel)>,
    ds: Seq<DeviceModel>,
    slots: Seq<Option<int>>,
    i: int,
) -> Seq<(Seq<char>, IdentModel)>
    decreases i,
{
    if i <= 0 {
        c0
    } else {
        let cur = grow_upto(c0, ds, slots, i - 1);
        match slots[i - 1] {
            Some(di) => if pin_of(c0, ds[di]) is None && ident_of(ds[di]) is Some {
                cur.push((board_name(free_index(cur)), ident_of(ds[di])->0))
            } else {
                cur
            },
            None => cur,
        }
    }
}

proof fn lemma_board_name_injective(a: nat, b: nat)
    requires
        board_name(a) == board_name(b),
    ensures
        a == b,
{
    lemma_dec_digits_parse(a);
    lemma_dec_digits_parse(b);
    assert(board_name(a).skip(5) =~= dec_digits(a));
    assert(board_name(b).skip(5) =~= dec_digits(b));
}

/// Some board name `boardK` with `K <= c.len()` is not pinned.
proof fn lemma_free_name_exists(c: Seq<(Seq<char>, IdentModel)>)
    ensures
        exists|k: nat| k <= c.len() && !has_name(c, board_name(k)),
{
    if forall|k: nat| k <= c.len() ==> has_name(c, board_name(k)) {
        let names = c.map_values(|e: (Seq<char>, IdentModel)| e.0);
        let range = vstd::set_lib::set_int_range(0, c.len() + 1int);
        vstd::set_lib::lemma_int_range(0, c.len() + 1int);
        let f = |k: int| board_name(k as nat);
        assert(vstd::relations::injective_on(f, range)) by {
            assert forall|x: int, y: int| range.contains(x) && range.contains(y) && #[trigger] f(x) == #[trigger] f(y) implies x == y by {
                lemma_board_name_injective(x as nat, y as nat);
            }
        }
        let img = range.map(f);
        vstd::set_lib::lemma_map_size(range, img, f);
        assert(img.subset_of(names.to_set())) by {
            assert forall|n: Seq<char>| img.contains(n) implies names.to_set().contains(n) by {
                let k = choose|k: int| range.contains(k) && f(k) == n;
                assert(has_name(c, board_name(k as nat)));
                let i = choose|i: int| 0 <= i < c.len() && c[i].0 == board_name(k as nat);
                assert(names[i] == n);
            }
        }
        names.lemma_cardinality_of_set();
        vstd::set_lib::lemma_len_subset(img, names.to_set());
    }
}

fn has_board_name(c: &DeviceConfig, name: &Vec<char>) -> (r: bool)
    ensures
        r == has_name(c@, name@),
{
    let mut i: usize = 0;
    while i < c.devices.len()
        invariant
            i <= c.devices.len(),
            forall|j: int| 0 <= j < i ==> c@[j].0 != name@,
        decreases c.devices.len() - i,
    {
        let n = chars_of(c.devices[i].0.as_str());
        assert(c@[i as int].0 == n@);
        if crate::text::chars_eq(&n, name) {
            return true;
        }
        i = i + 1;
    }
    false
}

fn board_name_chars(n: usize) -> (r: Vec<char>)
    ensures
        r@ == board_name(n as nat),
{
    let mut v: Vec<char> = Vec::new();
    v.push('b');
    v.push('o');
    v.push('a');
    v.push('r');
    v.push('d');
    push_dec(&mut v, n as u64);
    assert(v@ =~= board_name(n as nat));
    v
}

/// The lowest free board index.
fn free_board_index(c: &DeviceConfig) -> (r: usize)
    ensures
        r as nat == free_index(c@),
        !has_name(c@, board_name(r as nat)),
        forall|j: nat| j < r ==> has_name(c@, board_name(j)),
{
    proof {
        lemma_free_name_exists(c@);
    }
    let mut idx: usize = 0;
    loop
        invariant
            idx <= c@.len(),
            forall|j: nat| j < idx ==> has_name(c@, board_name(j)),
            exists|k: nat| k <= c@.len() && !has_name(c@, board_name(k)),
        decreases c@.len() - idx,
    {
        let name = board_name_chars(idx);
        if !has_board_name(c, &name) {
            proof {
                let k = free_index(c@);
                assert(!has_name(c@, board_name(idx as nat)) && forall|j: nat| j < idx ==> has_name(c@, board_name(j)));
                assert(!has_name(c@, board_name(k)) && forall|j: nat| j < k ==> has_name(c@, board_name(j)));
                if k < idx {
                    assert(has_name(c@, board_name(k)));
                }
                if idx < k {
                    assert(has_name(c@, board_name(idx as nat)));
                }
            }
            return idx;
        }
        proof {
            let k = choose|k: nat| k <= c@.len() && !has_name(c@, board_name(k));
            if k <= idx {
                if k < idx {
                    assert(has_name(c@, board_name(k)));
                }
            }
            assert(idx < k);
            assert(c@.len() == c.devices.len());
        }
        idx = idx + 1;
    }
}


pub open spec fn pairs_view(v: Seq<(usize, usize)>) -> Seq<(int, int)> {
    v.map_values(|p: (usize, usize)| (p.0 as int, p.1 as int))
}

pub open spec fn idx_view(v: Seq<usize>) -> Seq<int> {
    v.map_values(|x: usize| x as int)
}

pub open spec fn opt_idx(o: Option<usize>) -> Option<int> {
    match o {
        Some(x) => Some(x as int),
        None => None,
    }
}

pub open spec fn places_view(v: Seq<Option<usize>>) -> Seq<Option<int>> {
    v.map_values(|o: Option<usize>| opt_idx(o))
}

proof fn lemma_ins_at(s: Seq<(int, int)>, x: (int, int), pos: int)
    requires
        0 <= pos <= s.len(),
        forall|i: int| pos <= i < s.len() ==> (#[trigger] s[i]).0 > x.0,
        pos > 0 ==> s[pos - 1].0 <= x.0,
    ensures
        ins_by_first(s, x) == s.insert(pos, x),
    decreases s.len(),
{
    if s.len() == 0 {
        assert(s.insert(0, x) =~= seq![x]);
    } else if s.last().0 <= x.0 {
        assert(pos == s.len());
        assert(s.insert(pos, x) =~= s.push(x));
    } else {
        lemma_ins_at(s.drop_last(), x, pos);
        assert(s.drop_last().insert(pos, x).push(s.last()) =~= s.insert(pos, x));
    }
}

proof fn lemma_ins_exists(s: Seq<(int, int)>, x: (int, int))
    ensures
        exists|pos: int| 0 <= pos <= s.len() && ins_by_first(s, x) == s.insert(pos, x),
    decreases s.len(),
{
    if s.len() == 0 {
        assert(s.insert(0, x) =~= seq![x]);
    } else if s.last().0 <= x.0 {
        assert(s.insert(s.len() as int, x) =~= s.push(x));
    } else {
        lemma_ins_exists(s.drop_last(), x);
        let pos = choose|pos: int|
            0 <= pos <= s.drop_last().len() && ins_by_first(s.drop_last(), x) == s.drop_last().insert(pos, x);
        assert(s.drop_last().insert(pos, x).push(s.last()) =~= s.insert(pos, x));
    }
}

/// Sorting keeps the pairs: the same elements, as many.
proof fn lemma_sort_elems(s: Seq<(int, int)>)
    ensures
        sort_by_first(s).len() == s.len(),
        forall|e: (int, int)| sort_by_first(s).contains(e) <==> s.contains(e),
    decreases s.len(),
{
    if s.len() > 0 {
        let d = s.drop_last();
        lemma_sort_elems(d);
        let t = sort_by_first(d);
        lemma_ins_exists(t, s.last());
        let pos = choose|pos: int| 0 <= pos <= t.len() && ins_by_first(t, s.last()) == t.insert(pos, s.last());
        let u = t.insert(pos, s.last());
        assert forall|e: (int, int)| u.contains(e) <==> s.contains(e) by {
            if u.contains(e) {
                let i = choose|i: int| 0 <= i < u.len() && u[i] == e;
                if i == pos {
                    assert(s[s.len() - 1] == e);
                } else if i < pos {
                    assert(t.contains(t[i]));
                    assert(d.contains(e));
                    let j = choose|j: int| 0 <= j < d.len() && d[j] == e;
                    assert(s[j] == e);
                } else {
                    assert(t.contains(t[i - 1]));
                    assert(d.contains(e));
                    let j = choose|j: int| 0 <= j < d.len() && d[j] == e;
                    assert(s[j] == e);
                }
            }
            if s.contains(e) {
                let i = choose|i: int| 0 <= i < s.len() && s[i] == e;
                if i == s.len() - 1 {
                    assert(u[pos] == e);
                } else {
                    assert(d[i] == e);
                    assert(d.contains(e));
                    assert(t.contains(e));
                    let j = choose|j: int| 0 <= j < t.len() && t[j] == e;
                    if j < pos {
                        assert(u[j] == e);
                    } else {
                        assert(u[j + 1] == e);
                    }
                }
            }
        }
    }
}

proof fn lemma_pinned_bounds(c: Seq<(Seq<char>, IdentModel)>, ds: Seq<DeviceModel>)
    ensures
        forall|i: int|
            0 <= i < pinned_pairs(c, ds).len() ==> 0 <= (#[trigger] pinned_pairs(c, ds)[i]).1 < ds.len()
                && pinned_pairs(c, ds)[i].0 >= 0 && pref_of(c, ds[pinned_pairs(c, ds)[i].1]) == Some(
                pinned_pairs(c, ds)[i].0,
            ),
        forall|i: int| 0 <= i < unpinned(c, ds).len() ==> 0 <= #[trigger] unpinned(c, ds)[i] < ds.len(),
    decreases ds.len(),
{
    if ds.len() > 0 {
        let d = ds.drop_last();
        lemma_pinned_bounds(c, d);
        assert forall|k: int| 0 <= k < d.len() implies d[k] == ds[k] by {}
        match pref_of(c, ds.last()) {
            Some(p) => {
                let pin = pin_of(c, ds.last());
                assert(board_index_spec(pin->0) == Some(p));
                crate::num::lemma_parse_bounded_range(pin->0.skip(5), usize::MAX as int);
                assert(p >= 0);
            },
            None => {},
        }
        let un = unpinned(c, ds);
        let ud = unpinned(c, d);
        assert forall|i: int| 0 <= i < un.len() implies 0 <= #[trigger] un[i] < ds.len() by {
            if i < ud.len() {
                assert(un[i] == ud[i]);
            }
        }
    }
}

fn pins_of_devices(config: &DeviceConfig, devices: &[ExquisDevice]) -> (r: (Vec<(usize, usize)>, Vec<usize>))
    requires
        config.wf(),
    ensures
        pairs_view(r.0@) == pinned_pairs(config@, devices_view(devices@)),
        idx_view(r.1@) == unpinned(config@, devices_view(devices@)),
{
    let ghost dv = devices_view(devices@);
    let mut preferred: Vec<(usize, usize)> = Vec::new();
    let mut unassigned: Vec<usize> = Vec::new();
    let mut di: usize = 0;
    while di < devices.len()
        invariant
            di <= devices.len(),
            config.wf(),
            dv == devices_view(devices@),
            pairs_view(preferred@) == pinned_pairs(config@, dv.take(di as int)),
            idx_view(unassigned@) == unpinned(config@, dv.take(di as int)),
        decreases devices.len() - di,
    {
        let ghost t = dv.take(di + 1);
        assert(t.drop_last() =~= dv.take(di as int));
        assert(t.last() == devices[di as int]@);
        let pref = match find_existing_board(&devices[di], config) {
            Some(n) => parse_board_index(n.as_str()),
            None => None,
        };
        match pref {
            Some(p) => {
                let ghost before = preferred@;
                preferred.push((p, di));
                assert(pairs_view(preferred@) =~= pairs_view(before).push((p as int, di as int)));
            },
            None => {
                let ghost before = unassigned@;
                unassigned.push(di);
                assert(idx_view(unassigned@) =~= idx_view(before).push(di as int));
            },
        }
        di = di + 1;
    }
    assert(dv.take(devices.len() as int) =~= dv);
    (preferred, unassigned)
}

fn stable_sort_pairs(v: &Vec<(usize, usize)>) -> (r: Vec<(usize, usize)>)
    ensures
        pairs_view(r@) == sort_by_first(pairs_view(v@)),
{
    let ghost pv = pairs_view(v@);
    let mut out: Vec<(usize, usize)> = Vec::new();
    let mut k: usize = 0;
    while k < v.len()
        invariant
            k <= v.len(),
            pv == pairs_view(v@),
            pairs_view(out@) == sort_by_first(pv.take(k as int)),
            out.len() == k,
        decreases v.len() - k,
    {
        let x = v[k];
        let ghost s = pairs_view(out@);
        let mut pos: usize = out.len();
        while pos > 0 && out[pos - 1].0 > x.0
            invariant
                pos <= out.len(),
                s == pairs_view(out@),
                forall|i: int| pos <= i < out.len() ==> (#[trigger] s[i]).0 > x.0,
            decreases pos,
        {
            pos = pos - 1;
        }
        proof {
            lemma_ins_at(s, (x.0 as int, x.1 as int), pos as int);
            let t = pv.take(k + 1);
            assert(t.drop_last() =~= pv.take(k as int));
            assert(t.last() == (x.0 as int, x.1 as int));
        }
        out.insert(pos, x);
        assert(pairs_view(out@) =~= s.insert(pos as int, (x.0 as int, x.1 as int)));
        k = k + 1;
    }
    assert(pv.take(v.len() as int) =~= pv);
    out
}

fn claim_places(sorted: &Vec<(usize, usize)>, n: usize) -> (r: (Vec<Option<usize>>, Vec<bool>))
    requires
        forall|i: int| 0 <= i < sorted.len() ==> (#[trigger] sorted[i]).1 < n,
    ensures
        places_view(r.0@) == claim(empty_places(n as nat), pairs_view(sorted@)),
        r.0.len() == n,
        r.1.len() == n,
        forall|x: int| 0 <= x < n ==> (#[trigger] r.1[x] <==> places_view(r.0@).contains(Some(x))),
        forall|p: int| 0 <= p < n ==> ((#[trigger] r.0[p]) matches Some(x) ==> x < n),
{
    let mut slots: Vec<Option<usize>> = Vec::new();
    let mut placed: Vec<bool> = Vec::new();
    let mut i: usize = 0;
    while i < n
        invariant
            i <= n,
            slots.len() == i,
            placed.len() == i,
            places_view(slots@) == empty_places(i as nat),
            forall|x: int| 0 <= x < i ==> !(#[trigger] placed[x]),
        decreases n - i,
    {
        let ghost before = slots@;
        slots.push(None);
        placed.push(false);
        assert(places_view(slots@) =~= places_view(before).push(None));
        i = i + 1;
        assert(places_view(slots@) =~= empty_places(i as nat));
    }
    assert forall|p: int| 0 <= p < n implies ((#[trigger] slots[p]) matches Some(x) ==> x < n) by {
        assert(places_view(slots@)[p] == opt_idx(slots[p]));
        assert(empty_places(n as nat)[p] is None);
    }
    assert forall|x: int| 0 <= x < n implies (#[trigger] placed[x] <==> places_view(slots@).contains(Some(x))) by {
        if places_view(slots@).contains(Some(x)) {
            let k = choose|k: int| 0 <= k < places_view(slots@).len() && places_view(slots@)[k] == Some(x);
            assert(empty_places(n as nat)[k] is None);
        }
    }
    let ghost pv = pairs_view(sorted@);
    let mut k: usize = 0;
    while k < sorted.len()
        invariant
            k <= sorted.len(),
            slots.len() == n,
            placed.len() == n,
            pv == pairs_view(sorted@),
            forall|j: int| 0 <= j < sorted.len() ==> (#[trigger] sorted[j]).1 < n,
            places_view(slots@) == claim(empty_places(n as nat), pv.take(k as int)),
            forall|x: int| 0 <= x < n ==> (#[trigger] placed[x] <==> places_view(slots@).contains(Some(x))),
            forall|p: int| 0 <= p < n ==> ((#[trigger] slots[p]) matches Some(x) ==> x < n),
        decreases sorted.len() - k,
    {
        let (p, di) = sorted[k];
        let ghost before = places_view(slots@);
        assert(pv.take(k + 1).drop_last() =~= pv.take(k as int));
        assert(pv.take(k + 1).last() == (p as int, di as int));
        if p < n && slots[p].is_none() {
            slots.set(p, Some(di));
            placed.set(di, true);
            assert(places_view(slots@) =~= before.update(p as int, Some(di as int)));
            assert forall|x: int| 0 <= x < n implies (#[trigger] placed[x] <==> places_view(slots@).contains(Some(x))) by {
                if x == di {
                    assert(places_view(slots@)[p as int] == Some(x));
                } else {
                    if before.contains(Some(x)) {
                        let q = choose|q: int| 0 <= q < before.len() && before[q] == Some(x);
                        assert(q != p);
                        assert(places_view(slots@)[q] == Some(x));
                    }
                    if places_view(slots@).contains(Some(x)) {
                        let q = choose|q: int| 0 <= q < places_view(slots@).len() && places_view(slots@)[q] == Some(x);
                        assert(q != p);
                        assert(before[q] == Some(x));
                    }
                }
            }
        }
        k = k + 1;
    }
    assert(pv.take(sorted.len() as int) =~= pv);
    (slots, placed)
}

fn fill_places(claimed: &Vec<Option<usize>>, pool: &Vec<usize>, n: usize) -> (r: Vec<Option<usize>>)
    requires
        claimed.len() == n,
        forall|p: int| 0 <= p < n ==> ((#[trigger] claimed[p]) matches Some(x) ==> x < n),
        forall|i: int| 0 <= i < pool.len() ==> #[trigger] pool[i] < n,
    ensures
        places_view(r@) == fill(places_view(claimed@), idx_view(pool@)),
        r.len() == n,
        forall|p: int| 0 <= p < n ==> ((#[trigger] r[p]) matches Some(x) ==> x < n),
{
    let ghost cv = places_view(claimed@);
    let ghost want = fill(cv, idx_view(pool@));
    let mut out: Vec<Option<usize>> = Vec::new();
    let mut nb: usize = 0;
    let mut p: usize = 0;
    while p < n
        invariant
            p <= n,
            claimed.len() == n,
            cv == places_view(claimed@),
            want == fill(cv, idx_view(pool@)),
            forall|q: int| 0 <= q < n ==> ((#[trigger] claimed[q]) matches Some(x) ==> x < n),
            forall|i: int| 0 <= i < pool.len() ==> #[trigger] pool[i] < n,
            nb as int == none_before(cv, p as int),
            nb <= p,
            places_view(out@) == want.take(p as int),
            forall|q: int| 0 <= q < out.len() ==> ((#[trigger] out[q]) matches Some(x) ==> x < n),
        decreases n - p,
    {
        let ghost before = out@;
        match claimed[p] {
            Some(x) => {
                out.push(Some(x));
            },
            None => {
                if nb < pool.len() {
                    out.push(Some(pool[nb]));
                } else {
                    out.push(None);
                }
                nb = nb + 1;
            },
        }
        assert(places_view(out@) =~= want.take(p + 1)) by {
            assert(places_view(out@) =~= places_view(before).push(want[p as int]));
        }
        p = p + 1;
    }
    assert(want.take(n as int) =~= want);
    out
}

/// The session's boards and the pins to save, without any I/O. Every
/// connected device is placed on one of `board0..boardN-1`; the pins of
/// `config` are all kept, and new devices are pinned to free names.
pub fn compute_board_assignments(config: &DeviceConfig, devices: &[ExquisDevice]) -> (r: (
    Vec<BoardAssignment>,
    DeviceConfig,
))
    requires
        config.wf(),
    ensures
        r.0@.map_values(|a: BoardAssignment| assign_model(a)) == assignments_upto(
            live_slots(config@, devices_view(devices@)),
            devices_view(devices@),
            devices@.len() as int,
        ),
        r.1@ == grow_upto(
            config@,
            devices_view(devices@),
            live_slots(config@, devices_view(devices@)),
            devices@.len() as int,
        ),
        r.1.wf(),
{
    let ghost c = config@;
    let ghost dv = devices_view(devices@);
    let total = devices.len();
    let (preferred, unpinned_devs) = pins_of_devices(config, devices);
    let sorted = stable_sort_pairs(&preferred);
    proof {
        lemma_pinned_bounds(c, dv);
        lemma_sort_elems(pairs_view(preferred@));
        assert(dv.len() == total);
        assert forall|i: int| 0 <= i < sorted.len() implies (#[trigger] sorted[i]).1 < total by {
            let e = pairs_view(sorted@)[i];
            assert(e == (sorted[i].0 as int, sorted[i].1 as int));
            assert(sort_by_first(pairs_view(preferred@)).contains(e));
            assert(pairs_view(preferred@).contains(e));
            let j = choose|j: int| 0 <= j < pinned_pairs(c, dv).len() && pinned_pairs(c, dv)[j] == e;
        }
    }
    let (claimed, placed) = claim_places(&sorted, total);
    let ghost cp = places_view(claimed@);
    assert(cp == claimed_places(c, dv));
    // The waiting devices: the unpinned ones, then the displaced ones.
    let mut pool: Vec<usize> = Vec::new();
    let mut u: usize = 0;
    while u < unpinned_devs.len()
        invariant
            u <= unpinned_devs.len(),
            idx_view(unpinned_devs@) == unpinned(c, dv),
            dv.len() == total,
            forall|i: int| 0 <= i < unpinned(c, dv).len() ==> 0 <= #[trigger] unpinned(c, dv)[i] < dv.len(),
            idx_view(pool@) == idx_view(unpinned_devs@).take(u as int),
        decreases unpinned_devs.len() - u,
    {
        let ghost before = pool@;
        pool.push(unpinned_devs[u]);
        assert(idx_view(pool@) =~= idx_view(before).push(unpinned_devs[u as int] as int));
        assert(idx_view(unpinned_devs@).take(u + 1) =~= idx_view(unpinned_devs@).take(u as int).push(
            unpinned_devs[u as int] as int,
        ));
        u = u + 1;
    }
    assert(idx_view(unpinned_devs@).take(unpinned_devs.len() as int) =~= idx_view(unpinned_devs@));
    let ghost spv = pairs_view(sorted@);
    let mut k: usize = 0;
    while k < sorted.len()
        invariant
            k <= sorted.len(),
            spv == pairs_view(sorted@),
            placed.len() == total,
            forall|i: int| 0 <= i < sorted.len() ==> (#[trigger] sorted[i]).1 < total,
            forall|x: int| 0 <= x < total ==> (#[trigger] placed[x] <==> cp.contains(Some(x))),
            idx_view(pool@) == unpinned(c, dv) + displaced(spv.take(k as int), cp),
        decreases sorted.len() - k,
    {
        let di = sorted[k].1;
        let ghost before = pool@;
        assert(spv.take(k + 1).drop_last() =~= spv.take(k as int));
        assert(spv.take(k + 1).last().1 == di as int);
        if !placed[di] {
            pool.push(di);
            assert(idx_view(pool@) =~= idx_view(before).push(di as int));
        }
        k = k + 1;
    }
    assert(spv.take(sorted.len() as int) =~= spv);
    assert(idx_view(pool@) == waiting(c, dv));
    proof {
        assert forall|i: int| 0 <= i < pool.len() implies #[trigger] pool[i] < total by {
            let x = idx_view(pool@)[i];
            let un = unpinned(c, dv);
            if i >= un.len() {
                lemma_displaced_from(spv, cp, i - un.len());
            }
        }
    }
    let slots = fill_places(&claimed, &pool, total);
    let ghost live = places_view(slots@);
    assert(live == live_slots(c, dv));
    // The session's boards.
    let mut result: Vec<BoardAssignment> = Vec::new();
    let mut i: usize = 0;
    while i < total
        invariant
            i <= total,
            slots.len() == total,
            dv == devices_view(devices@),
            total == devices.len(),
            live == places_view(slots@),
            forall|p: int| 0 <= p < total ==> ((#[trigger] slots[p]) matches Some(x) ==> x < total),
            result@.map_values(|a: BoardAssignment| assign_model(a)) == assignments_upto(live, dv, i as int),
        decreases total - i,
    {
        match slots[i] {
            Some(di) => {
                let a = BoardAssignment { board_name: board_name_exec(i), device: devices[di].copy() };
                let ghost before = result@;
                result.push(a);
                assert(result@.map_values(|a: BoardAssignment| assign_model(a)) =~= before.map_values(
                    |a: BoardAssignment| assign_model(a),
                ).push(assign_model(a)));
            },
            None => {},
        }
        i = i + 1;
    }
    // The pins to save.
    let mut cfg = config.copy();
    let mut j: usize = 0;
    while j < total
        invariant
            j <= total,
            slots.len() == total,
            config.wf(),
            c == config@,
            dv == devices_view(devices@),
            total == devices.len(),
            live == places_view(slots@),
            forall|p: int| 0 <= p < total ==> ((#[trigger] slots[p]) matches Some(x) ==> x < total),
            cfg@ == grow_upto(c, dv, live, j as int),
            names_unique(cfg@),
        decreases total - j,
    {
        match slots[j] {
            Some(di) => {
                let d = &devices[di];
                assert(d@ == dv[di as int]);
                if find_existing_board(d, config).is_none() {
                    match build_identifier(d) {
                        Some(id) => {
                            let kf = free_board_index(&cfg);
                            let entry = (board_name_exec(kf), id);
                            let ghost before = cfg@;
                            cfg.devices.push(entry);
                            assert(cfg@ =~= before.push(entry_view(entry)));
                            assert(names_unique(cfg@)) by {
                                let nk = board_name(free_index(before));
                                assert(!has_name(before, nk));
                                assert forall|a: int, b: int| 0 <= a < b < cfg@.len() implies cfg@[a].0 != cfg@[b].0 by {
                                    if b == cfg@.len() - 1 {
                                        assert(before[a].0 != nk);
                                    }
                                }
                            }
                        },
                        None => {},
                    }
                }
            },
            None => {},
        }
        j = j + 1;
    }
    (result, cfg)
}

proof fn lemma_displaced_from(pairs: Seq<(int, int)>, slots: Seq<Option<int>>, i: int)
    requires
        0 <= i < displaced(pairs, slots).len(),
    ensures
        exists|j: int| 0 <= j < pairs.len() && pairs[j].1 == displaced(pairs, slots)[i],
    decreases pairs.len(),
{
    let r = displaced(pairs.drop_last(), slots);
    if i < r.len() {
        lemma_displaced_from(pairs.drop_last(), slots, i);
        let j = choose|j: int| 0 <= j < pairs.drop_last().len() && pairs.drop_last()[j].1 == r[i];
        assert(pairs[j] == pairs.drop_last()[j]);
    } else {
        assert(pairs[pairs.len() - 1].1 == displaced(pairs, slots)[i]);
    }
}


proof fn lemma_grow_prefix(c0: Seq<(Seq<char>, IdentModel)>, ds: Seq<DeviceModel>, slots: Seq<Option<int>>, i: int)
    requires
        0 <= i <= slots.len(),
    ensures
        grow_upto(c0, ds, slots, i).len() >= c0.len(),
        forall|k: int| 0 <= k < c0.len() ==> #[trigger] grow_upto(c0, ds, slots, i)[k] == c0[k],
        names_unique(c0) ==> names_unique(grow_upto(c0, ds, slots, i)),
        forall|k: int|
            c0.len() <= k < grow_upto(c0, ds, slots, i).len() ==> !has_name(
                c0,
                #[trigger] grow_upto(c0, ds, slots, i)[k].0,
            ),
    decreases i,
{
    if i > 0 {
        lemma_grow_prefix(c0, ds, slots, i - 1);
        let cur = grow_upto(c0, ds, slots, i - 1);
        match slots[i - 1] {
            Some(di) => if pin_of(c0, ds[di]) is None && ident_of(ds[di]) is Some {
                lemma_free_index(cur);
                let nk = board_name(free_index(cur));
                let g = cur.push((nk, ident_of(ds[di])->0));
                assert(!has_name(c0, nk)) by {
                    if has_name(c0, nk) {
                        let k = choose|k: int| 0 <= k < c0.len() && c0[k].0 == nk;
                        assert(cur[k] == c0[k]);
                    }
                }
                assert forall|k: int| c0.len() <= k < g.len() implies !has_name(c0, #[trigger] g[k].0) by {
                    if k < cur.len() {
                        assert(g[k] == cur[k]);
                    }
                }
                if names_unique(c0) {
                    assert forall|a: int, b: int| 0 <= a < b < g.len() implies g[a].0 != g[b].0 by {
                        if b == g.len() - 1 {
                            assert(cur[a].0 != nk);
                        }
                    }
                }
            },
            None => {},
        }
    }
}

/// The least free board index is free and everything below it is taken.
proof fn lemma_free_index(c: Seq<(Seq<char>, IdentModel)>)
    ensures
        !has_name(c, board_name(free_index(c))),
        forall|j: nat| j < free_index(c) ==> has_name(c, board_name(j)),
{
    lemma_free_name_exists(c);
    lemma_least_free_from(c, 0);
}

proof fn lemma_least_free_from(c: Seq<(Seq<char>, IdentModel)>, j: nat)
    requires
        forall|i: nat| i < j ==> has_name(c, board_name(i)),
        exists|k: nat| k <= c.len() && !has_name(c, board_name(k)),
    ensures
        exists|k: nat| !has_name(c, board_name(k)) && forall|i: nat| i < k ==> has_name(c, board_name(i)),
    decreases c.len() + 1 - j,
{
    if !has_name(c, board_name(j)) {
        assert(!has_name(c, board_name(j)) && forall|i: nat| i < j ==> has_name(c, board_name(i)));
    } else {
        let k = choose|k: nat| k <= c.len() && !has_name(c, board_name(k));
        assert(j < k) by {
            if k < j {
                assert(has_name(c, board_name(k)));
            }
        }
        lemma_least_free_from(c, j + 1);
    }
}

proof fn lemma_claim_len(slots: Seq<Option<int>>, pairs: Seq<(int, int)>)
    ensures
        claim(slots, pairs).len() == slots.len(),
    decreases pairs.len(),
{
    if pairs.len() > 0 {
        lemma_claim_len(slots, pairs.drop_last());
    }
}

proof fn lemma_live_len(c: Seq<(Seq<char>, IdentModel)>, ds: Seq<DeviceModel>)
    ensures
        live_slots(c, ds).len() == ds.len(),
        claimed_places(c, ds).len() == ds.len(),
{
    lemma_claim_len(empty_places(ds.len()), sort_by_first(pinned_pairs(c, ds)));
}

/// A sync keeps every pin of the saved configuration unchanged, adds only
/// board names that were not pinned before, and keeps names unique.
pub proof fn lemma_sync_keeps_pins(c: Seq<(Seq<char>, IdentModel)>, ds: Seq<DeviceModel>)
    requires
        names_unique(c),
    ensures
        ({
            let g = grow_upto(c, ds, live_slots(c, ds), ds.len() as int);
            &&& g.len() >= c.len()
            &&& forall|k: int| 0 <= k < c.len() ==> #[trigger] g[k] == c[k]
            &&& forall|k: int| c.len() <= k < g.len() ==> !has_name(c, #[trigger] g[k].0)
            &&& names_unique(g)
        }),
{
    lemma_live_len(c, ds);
    lemma_grow_prefix(c, ds, live_slots(c, ds), ds.len() as int);
}


proof fn lemma_none_before_empty(n: nat, q: int)
    requires
        0 <= q <= n,
    ensures
        none_before(empty_places(n), q) == q,
    decreases q,
{
    if q > 0 {
        lemma_none_before_empty(n, q - 1);
    }
}

proof fn lemma_none_before_update(s: Seq<Option<int>>, p: int, v: int, q: int)
    requires
        0 <= p < s.len(),
        s[p] is None,
        0 <= q <= s.len(),
    ensures
        none_before(s.update(p, Some(v)), q) == none_before(s, q) - if q > p {
            1int
        } else {
            0int
        },
    decreases q,
{
    if q > 0 {
        lemma_none_before_update(s, p, v, q - 1);
    }
}

proof fn lemma_none_before_grows(s: Seq<Option<int>>, p: int, q: int)
    requires
        0 <= p < q <= s.len(),
        s[p] is None,
    ensures
        none_before(s, p) + 1 <= none_before(s, q),
    decreases q,
{
    if q > p + 1 {
        lemma_none_before_grows(s, p, q - 1);
    }
}

proof fn lemma_claim_values(slots: Seq<Option<int>>, pairs: Seq<(int, int)>, v: int)
    requires
        claim(slots, pairs).contains(Some(v)),
    ensures
        slots.contains(Some(v)) || exists|j: int| 0 <= j < pairs.len() && pairs[j].1 == v,
    decreases pairs.len(),
{
    if pairs.len() > 0 {
        let d = pairs.drop_last();
        let s1 = claim(slots, d);
        let p = pairs.last().0;
        if 0 <= p < s1.len() && s1[p] is None {
            let s2 = s1.update(p, Some(pairs.last().1));
            let k = choose|k: int| 0 <= k < s2.len() && s2[k] == Some(v);
            if k == p {
                assert(pairs[pairs.len() - 1].1 == v);
            } else {
                assert(s1[k] == Some(v));
                lemma_claim_values(slots, d, v);
                if !slots.contains(Some(v)) {
                    let j = choose|j: int| 0 <= j < d.len() && d[j].1 == v;
                    assert(pairs[j].1 == v);
                }
            }
        } else {
            lemma_claim_values(slots, d, v);
            if !slots.contains(Some(v)) {
                let j = choose|j: int| 0 <= j < d.len() && d[j].1 == v;
                assert(pairs[j].1 == v);
            }
        }
    }
}

proof fn lemma_displaced_congruent(pairs: Seq<(int, int)>, s1: Seq<Option<int>>, s2: Seq<Option<int>>)
    requires
        forall|j: int| 0 <= j < pairs.len() ==> s1.contains(Some((#[trigger] pairs[j]).1)) == s2.contains(Some(pairs[j].1)),
    ensures
        displaced(pairs, s1) == displaced(pairs, s2),
    decreases pairs.len(),
{
    if pairs.len() > 0 {
        let d = pairs.drop_last();
        assert forall|j: int| 0 <= j < d.len() implies s1.contains(Some((#[trigger] d[j]).1)) == s2.contains(Some(d[j].1)) by {
            assert(d[j] == pairs[j]);
        }
        lemma_displaced_congruent(d, s1, s2);
        assert(pairs[pairs.len() - 1] == pairs.last());
    }
}

proof fn lemma_claim_count(slots: Seq<Option<int>>, pairs: Seq<(int, int)>)
    requires
        forall|i: int, j: int| 0 <= i < j < pairs.len() ==> (#[trigger] pairs[i]).1 != (#[trigger] pairs[j]).1,
        forall|j: int| 0 <= j < pairs.len() ==> !slots.contains(Some((#[trigger] pairs[j]).1)),
    ensures
        none_before(claim(slots, pairs), slots.len() as int) == none_before(slots, slots.len() as int) - pairs.len()
            + displaced(pairs, claim(slots, pairs)).len(),
        claim(slots, pairs).len() == slots.len(),
    decreases pairs.len(),
{
    lemma_claim_len(slots, pairs);
    if pairs.len() > 0 {
        let d = pairs.drop_last();
        let x = pairs.last();
        assert forall|i: int, j: int| 0 <= i < j < d.len() implies (#[trigger] d[i]).1 != (#[trigger] d[j]).1 by {
            assert(d[i] == pairs[i] && d[j] == pairs[j]);
        }
        assert forall|j: int| 0 <= j < d.len() implies !slots.contains(Some((#[trigger] d[j]).1)) by {
            assert(d[j] == pairs[j]);
        }
        lemma_claim_count(slots, d);
        let s1 = claim(slots, d);
        lemma_claim_len(slots, d);
        let p = x.0;
        let fin = claim(slots, pairs);
        if 0 <= p < s1.len() && s1[p] is None {
            assert(fin == s1.update(p, Some(x.1)));
            lemma_none_before_update(s1, p, x.1, s1.len() as int);
            assert forall|j: int| 0 <= j < d.len() implies s1.contains(Some((#[trigger] d[j]).1)) == fin.contains(Some(d[j].1)) by {
                let v = d[j].1;
                assert(v != x.1) by {
                    assert(pairs[j].1 != pairs[pairs.len() - 1].1);
                }
                if s1.contains(Some(v)) {
                    let k = choose|k: int| 0 <= k < s1.len() && s1[k] == Some(v);
                    assert(k != p);
                    assert(fin[k] == Some(v));
                }
                if fin.contains(Some(v)) {
                    let k = choose|k: int| 0 <= k < fin.len() && fin[k] == Some(v);
                    assert(k != p);
                    assert(s1[k] == Some(v));
                }
            }
            lemma_displaced_congruent(d, s1, fin);
            assert(fin.contains(Some(x.1))) by {
                assert(fin[p] == Some(x.1));
            }
        } else {
            assert(fin == s1);
            assert(!fin.contains(Some(x.1))) by {
                if fin.contains(Some(x.1)) {
                    lemma_claim_values(slots, d, x.1);
                    assert(!slots.contains(Some(pairs[pairs.len() - 1].1)));
                    let j = choose|j: int| 0 <= j < d.len() && d[j].1 == x.1;
                    assert(pairs[j].1 != pairs[pairs.len() - 1].1);
                }
            }
        }
    }
}

proof fn lemma_pinned_shape(c: Seq<(Seq<char>, IdentModel)>, ds: Seq<DeviceModel>)
    ensures
        unpinned(c, ds).len() + pinned_pairs(c, ds).len() == ds.len(),
        forall|i: int, j: int|
            0 <= i < j < pinned_pairs(c, ds).len() ==> (#[trigger] pinned_pairs(c, ds)[i]).1 < (
            #[trigger] pinned_pairs(c, ds)[j]).1,
        forall|i: int| 0 <= i < pinned_pairs(c, ds).len() ==> (#[trigger] pinned_pairs(c, ds)[i]).1 < ds.len(),
    decreases ds.len(),
{
    if ds.len() > 0 {
        lemma_pinned_shape(c, ds.drop_last());
    }
}

proof fn lemma_sorted_distinct(s: Seq<(int, int)>)
    requires
        forall|i: int, j: int| 0 <= i < j < s.len() ==> (#[trigger] s[i]).1 != (#[trigger] s[j]).1,
    ensures
        forall|i: int, j: int|
            0 <= i < j < sort_by_first(s).len() ==> (#[trigger] sort_by_first(s)[i]).1 != (
            #[trigger] sort_by_first(s)[j]).1,
    decreases s.len(),
{
    if s.len() > 0 {
        let d = s.drop_last();
        assert forall|i: int, j: int| 0 <= i < j < d.len() implies (#[trigger] d[i]).1 != (#[trigger] d[j]).1 by {
            assert(d[i] == s[i] && d[j] == s[j]);
        }
        lemma_sorted_distinct(d);
        lemma_sort_elems(d);
        let t = sort_by_first(d);
        let x = s.last();
        lemma_ins_exists(t, x);
        let pos = choose|pos: int| 0 <= pos <= t.len() && ins_by_first(t, x) == t.insert(pos, x);
        let u = t.insert(pos, x);
        assert forall|k: int| 0 <= k < t.len() implies (#[trigger] t[k]).1 != x.1 by {
            assert(t.contains(t[k]));
            assert(d.contains(t[k]));
            let m = choose|m: int| 0 <= m < d.len() && d[m] == t[k];
            assert(s[m].1 != s[s.len() - 1].1);
        }
        assert forall|i: int, j: int| 0 <= i < j < u.len() implies (#[trigger] u[i]).1 != (#[trigger] u[j]).1 by {
            if i == pos {
                assert(u[j] == t[j - 1]);
            } else if j == pos {
                assert(u[i] == t[i]);
            } else {
                let i0 = if i < pos { i } else { i - 1 };
                let j0 = if j < pos { j } else { j - 1 };
                assert(u[i] == t[i0] && u[j] == t[j0]);
            }
        }
    }
}

proof fn lemma_assign_all(slots: Seq<Option<int>>, ds: Seq<DeviceModel>, i: int)
    requires
        0 <= i <= slots.len(),
        forall|p: int| 0 <= p < slots.len() ==> (#[trigger] slots[p]) is Some,
    ensures
        assignments_upto(slots, ds, i).len() == i,
        forall|k: int| 0 <= k < i ==> (#[trigger] assignments_upto(slots, ds, i)[k]).board_name == board_name(k as nat),
    decreases i,
{
    if i > 0 {
        lemma_assign_all(slots, ds, i - 1);
        let r = assignments_upto(slots, ds, i - 1);
        assert(slots[i - 1] is Some);
        assert forall|k: int| 0 <= k < i implies (#[trigger] assignments_upto(slots, ds, i)[k]).board_name == board_name(k as nat) by {
            if k < i - 1 {
                assert(assignments_upto(slots, ds, i)[k] == r[k]);
            }
        }
    }
}

/// Every connected device gets a board: the session's boards are exactly
/// `board0..boardN-1` for N devices, each place filled.
pub proof fn lemma_every_device_placed(c: Seq<(Seq<char>, IdentModel)>, ds: Seq<DeviceModel>)
    ensures
        live_slots(c, ds).len() == ds.len(),
        forall|p: int| 0 <= p < ds.len() ==> (#[trigger] live_slots(c, ds)[p]) is Some,
        assignments_upto(live_slots(c, ds), ds, ds.len() as int).len() == ds.len(),
        forall|k: int|
            0 <= k < ds.len() ==> (#[trigger] assignments_upto(live_slots(c, ds), ds, ds.len() as int)[k]).board_name
                == board_name(k as nat),
{
    let n = ds.len();
    let pp = pinned_pairs(c, ds);
    let sp = sort_by_first(pp);
    let e = empty_places(n);
    let cl = claim(e, sp);
    lemma_live_len(c, ds);
    lemma_pinned_shape(c, ds);
    assert forall|i: int, j: int| 0 <= i < j < pp.len() implies (#[trigger] pp[i]).1 != (#[trigger] pp[j]).1 by {}
    lemma_sorted_distinct(pp);
    lemma_sort_elems(pp);
    assert forall|j: int| 0 <= j < sp.len() implies !e.contains(Some((#[trigger] sp[j]).1)) by {
        if e.contains(Some(sp[j].1)) {
            let k = choose|k: int| 0 <= k < e.len() && e[k] == Some(sp[j].1);
        }
    }
    lemma_claim_count(e, sp);
    lemma_none_before_empty(n, n as int);
    let pool = waiting(c, ds);
    assert(none_before(cl, n as int) == pool.len());
    let live = live_slots(c, ds);
    assert forall|p: int| 0 <= p < n implies (#[trigger] live[p]) is Some by {
        if cl[p] is None {
            lemma_none_before_grows(cl, p, n as int);
        }
    }
    lemma_assign_all(live, ds, n as int);
}


/// Ordered by pinned index, then by device index, each pair once.
pub open spec fn lex_sorted(s: Seq<(int, int)>) -> bool {
    forall|i: int, j: int|
        0 <= i < j < s.len() ==> (#[trigger] s[i]).0 < (#[trigger] s[j]).0 || (s[i].0 == s[j].0 && s[i].1 < s[j].1)
}

proof fn lemma_ins_lex(s: Seq<(int, int)>, x: (int, int))
    requires
        lex_sorted(s),
        forall|i: int| 0 <= i < s.len() ==> (#[trigger] s[i]).1 < x.1,
    ensures
        lex_sorted(ins_by_first(s, x)),
    decreases s.len(),
{
    if s.len() > 0 && s.last().0 > x.0 {
        let d = s.drop_last();
        assert forall|i: int, j: int| 0 <= i < j < d.len() implies (#[trigger] d[i]).0 < (#[trigger] d[j]).0 || (d[i].0 == d[j].0 && d[i].1 < d[j].1) by {
            assert(d[i] == s[i] && d[j] == s[j]);
        }
        assert forall|i: int| 0 <= i < d.len() implies (#[trigger] d[i]).1 < x.1 by {
            assert(d[i] == s[i]);
        }
        lemma_ins_lex(d, x);
        lemma_ins_exists(d, x);
        let t = ins_by_first(d, x);
        let pos = choose|pos: int| 0 <= pos <= d.len() && t == d.insert(pos, x);
        let u = t.push(s.last());
        assert forall|i: int, j: int| 0 <= i < j < u.len() implies (#[trigger] u[i]).0 < (#[trigger] u[j]).0 || (u[i].0 == u[j].0 && u[i].1 < u[j].1) by {
            if j == u.len() - 1 {
                if i == pos {
                    assert(u[i] == x);
                } else {
                    let i0 = if i < pos { i } else { i - 1 };
                    assert(u[i] == d[i0]);
                    assert(s[i0].0 < s[s.len() - 1].0 || (s[i0].0 == s[s.len() - 1].0 && s[i0].1 < s[s.len() - 1].1));
                }
            } else {
                assert(u[i] == t[i] && u[j] == t[j]);
            }
        }
    } else if s.len() > 0 {
        let u = s.push(x);
        assert forall|i: int, j: int| 0 <= i < j < u.len() implies (#[trigger] u[i]).0 < (#[trigger] u[j]).0 || (u[i].0 == u[j].0 && u[i].1 < u[j].1) by {
            if j == u.len() - 1 {
                assert(s[i].0 <= s[s.len() - 1].0 || i == s.len() - 1);
                assert(u[i] == s[i]);
            } else {
                assert(u[i] == s[i] && u[j] == s[j]);
            }
        }
    }
}

/// A stable sort by pinned index of pairs in device order gives them in
/// (pinned index, device index) order.
proof fn lemma_sort_lex(s: Seq<(int, int)>)
    requires
        forall|i: int, j: int| 0 <= i < j < s.len() ==> (#[trigger] s[i]).1 < (#[trigger] s[j]).1,
    ensures
        lex_sorted(sort_by_first(s)),
    decreases s.len(),
{
    if s.len() > 0 {
        let d = s.drop_last();
        assert forall|i: int, j: int| 0 <= i < j < d.len() implies (#[trigger] d[i]).1 < (#[trigger] d[j]).1 by {
            assert(d[i] == s[i] && d[j] == s[j]);
        }
        lemma_sort_lex(d);
        lemma_sort_elems(d);
        let t = sort_by_first(d);
        assert forall|i: int| 0 <= i < t.len() implies (#[trigger] t[i]).1 < s.last().1 by {
            assert(t.contains(t[i]));
            assert(d.contains(t[i]));
            let m = choose|m: int| 0 <= m < d.len() && d[m] == t[i];
            assert(s[m].1 < s[s.len() - 1].1);
        }
        lemma_ins_lex(t, s.last());
    }
}

/// After claiming, an in-range place `p` holds the first pair (in order)
/// whose index is `p`.
proof fn lemma_claim_first(pairs: Seq<(int, int)>, n: nat, p: int)
    requires
        0 <= p < n,
    ensures
        claim(empty_places(n), pairs).len() == n,
        (exists|j: int| 0 <= j < pairs.len() && pairs[j].0 == p) ==> exists|j: int|
            0 <= j < pairs.len() && pairs[j].0 == p && (forall|k: int| 0 <= k < j ==> pairs[k].0 != p)
                && claim(empty_places(n), pairs)[p] == Some(pairs[j].1),
        !(exists|j: int| 0 <= j < pairs.len() && pairs[j].0 == p) ==> claim(empty_places(n), pairs)[p] is None,
    decreases pairs.len(),
{
    lemma_claim_len(empty_places(n), pairs);
    if pairs.len() > 0 {
        let d = pairs.drop_last();
        lemma_claim_first(d, n, p);
        lemma_claim_len(empty_places(n), d);
        let s1 = claim(empty_places(n), d);
        let x = pairs.last();
        if exists|j: int| 0 <= j < d.len() && d[j].0 == p {
            let j = choose|j: int|
                0 <= j < d.len() && d[j].0 == p && (forall|k: int| 0 <= k < j ==> d[k].0 != p) && s1[p] == Some(d[j].1);
            assert(pairs[j] == d[j]);
            assert forall|k: int| 0 <= k < j implies pairs[k].0 != p by {
                assert(pairs[k] == d[k]);
            }
        } else {
            assert forall|k: int| 0 <= k < d.len() implies pairs[k].0 != p by {
                assert(pairs[k] == d[k]);
            }
            if x.0 == p {
                assert(pairs[pairs.len() - 1].0 == p);
            }
        }
    } else {
        assert(empty_places(n)[p] is None);
    }
}

/// A device pinned to `boardP` with `P` in range sits on `boardP` for the
/// session, unless a device listed before it is pinned to the same board.
pub proof fn lemma_pinned_device_keeps_board(c: Seq<(Seq<char>, IdentModel)>, ds: Seq<DeviceModel>, di: int)
    requires
        0 <= di < ds.len(),
        pref_of(c, ds[di]) matches Some(p) && p < ds.len(),
        forall|dj: int| 0 <= dj < di ==> pref_of(c, ds[dj]) != pref_of(c, ds[di]),
    ensures
        live_slots(c, ds)[pref_of(c, ds[di])->0] == Some(di),
{
    let n = ds.len();
    let p = pref_of(c, ds[di])->0;
    let pp = pinned_pairs(c, ds);
    let sp = sort_by_first(pp);
    lemma_live_len(c, ds);
    lemma_pinned_shape(c, ds);
    lemma_pinned_bounds(c, ds);
    lemma_pinned_member(c, ds, di);
    lemma_sort_elems(pp);
    lemma_sort_lex(pp);
    assert(sp.contains((p, di)));
    let w = choose|w: int| 0 <= w < sp.len() && sp[w] == (p, di);
    lemma_claim_first(sp, n, p);
    let j = choose|j: int|
        0 <= j < sp.len() && sp[j].0 == p && (forall|k: int| 0 <= k < j ==> sp[k].0 != p) && claim(
            empty_places(n),
            sp,
        )[p] == Some(sp[j].1);
    assert(sp[j].1 == di) by {
        assert(pp.contains(sp[j]));
        let m = choose|m: int| 0 <= m < pp.len() && pp[m] == sp[j];
        assert(pref_of(c, ds[pp[m].1]) == Some(p));
        if sp[j].1 < di {
            assert(pref_of(c, ds[sp[j].1]) != pref_of(c, ds[di]));
        }
        if sp[j].1 > di {
            assert(j < w) by {
                if w < j {
                    assert(sp[w].0 != p);
                }
            }
            assert(sp[j].0 < sp[w].0 || (sp[j].0 == sp[w].0 && sp[j].1 < sp[w].1));
        }
    }
}

proof fn lemma_pinned_member(c: Seq<(Seq<char>, IdentModel)>, ds: Seq<DeviceModel>, di: int)
    requires
        0 <= di < ds.len(),
        pref_of(c, ds[di]) is Some,
    ensures
        pinned_pairs(c, ds).contains((pref_of(c, ds[di])->0, di)),
    decreases ds.len(),
{
    let d = ds.drop_last();
    if di < ds.len() - 1 {
        assert(d[di] == ds[di]);
        lemma_pinned_member(c, d, di);
        let r = pinned_pairs(c, d);
        let k = choose|k: int| 0 <= k < r.len() && r[k] == (pref_of(c, ds[di])->0, di);
        match pref_of(c, ds.last()) {
            Some(q) => {
                assert(pinned_pairs(c, ds)[k] == r[k]);
            },
            None => {},
        }
    } else {
        let r = pinned_pairs(c, d);
        assert(pinned_pairs(c, ds)[r.len() as int] == (pref_of(c, ds[di])->0, di));
    }
}


proof fn lemma_assign_devices(slots: Seq<Option<int>>, ds: Seq<DeviceModel>, i: int)
    requires
        0 <= i <= slots.len(),
        forall|p: int| 0 <= p < slots.len() ==> (#[trigger] slots[p]) is Some,
    ensures
        assignments_upto(slots, ds, i).len() == i,
        forall|k: int| 0 <= k < i ==> (#[trigger] assignments_upto(slots, ds, i)[k]) == (AssignModel {
            board_name: board_name(k as nat),
            device: ds[slots[k]->0],
        }),
    decreases i,
{
    if i > 0 {
        lemma_assign_devices(slots, ds, i - 1);
        let r = assignments_upto(slots, ds, i - 1);
        assert(slots[i - 1] is Some);
        assert forall|k: int| 0 <= k < i implies (#[trigger] assignments_upto(slots, ds, i)[k]) == (AssignModel {
            board_name: board_name(k as nat),
            device: ds[slots[k]->0],
        }) by {
            if k < i - 1 {
                assert(assignments_upto(slots, ds, i)[k] == r[k]);
            }
        }
    }
}

/// Claiming into empty places with distinct devices puts each device in at
/// most one place.
proof fn lemma_claim_distinct(slots: Seq<Option<int>>, pairs: Seq<(int, int)>)
    requires
        forall|p: int| 0 <= p < slots.len() ==> (#[trigger] slots[p]) is None,
        forall|i: int, j: int| 0 <= i < j < pairs.len() ==> (#[trigger] pairs[i]).1 != (#[trigger] pairs[j]).1,
    ensures
        forall|p: int, q: int|
            0 <= p < q < claim(slots, pairs).len() && (#[trigger] claim(slots, pairs)[p]) is Some ==> claim(slots, pairs)[p]
                != #[trigger] claim(slots, pairs)[q],
    decreases pairs.len(),
{
    lemma_claim_len(slots, pairs);
    if pairs.len() > 0 {
        let d = pairs.drop_last();
        assert forall|i: int, j: int| 0 <= i < j < d.len() implies (#[trigger] d[i]).1 != (#[trigger] d[j]).1 by {
            assert(d[i] == pairs[i] && d[j] == pairs[j]);
        }
        lemma_claim_distinct(slots, d);
        lemma_claim_len(slots, d);
        let s1 = claim(slots, d);
        let x = pairs.last();
        if 0 <= x.0 < s1.len() && s1[x.0] is None {
            let v = x.1;
            if s1.contains(Some(v)) {
                lemma_claim_values(slots, d, v);
                if slots.contains(Some(v)) {
                    let k = choose|k: int| 0 <= k < slots.len() && slots[k] == Some(v);
                    assert(slots[k] is None);
                }
                let j = choose|j: int| 0 <= j < d.len() && d[j].1 == v;
                assert(pairs[j].1 != pairs[pairs.len() - 1].1);
                assert(false);
            }
            let s2 = s1.update(x.0, Some(v));
            assert(claim(slots, pairs) == s2);
            assert forall|p: int, q: int| 0 <= p < q < s2.len() && (#[trigger] s2[p]) is Some implies s2[p] != #[trigger] s2[q] by {
                if p == x.0 {
                    if s1[q] == Some(v) {
                        assert(s1.contains(Some(v)));
                    }
                } else if q == x.0 {
                    if s1[p] == Some(v) {
                        assert(s1.contains(Some(v)));
                    }
                } else {
                    assert(s2[p] == s1[p] && s2[q] == s1[q]);
                }
            }
        }
    }
}

/// The unpinned devices are listed once each, in order, and none has a pin.
proof fn lemma_unpinned_facts(c: Seq<(Seq<char>, IdentModel)>, ds: Seq<DeviceModel>)
    ensures
        forall|i: int, j: int| 0 <= i < j < unpinned(c, ds).len() ==> (#[trigger] unpinned(c, ds)[i]) < #[trigger] unpinned(c, ds)[j],
        forall|i: int| 0 <= i < unpinned(c, ds).len() ==> 0 <= #[trigger] unpinned(c, ds)[i] < ds.len()
            && pref_of(c, ds[unpinned(c, ds)[i]]) is None,
    decreases ds.len(),
{
    if ds.len() > 0 {
        let d = ds.drop_last();
        lemma_unpinned_facts(c, d);
        let r = unpinned(c, d);
        assert forall|i: int| 0 <= i < r.len() implies #[trigger] ds[r[i]] == d[r[i]] by {}
        if pref_of(c, ds.last()) is None {
            let u = r.push(ds.len() - 1);
            assert(unpinned(c, ds) == u);
            assert forall|i: int| 0 <= i < u.len() implies 0 <= #[trigger] u[i] < ds.len() && pref_of(c, ds[u[i]]) is None by {
                if i < r.len() {
                    assert(u[i] == r[i]);
                    assert(ds[r[i]] == d[r[i]]);
                }
            }
        } else {
            assert forall|i: int| 0 <= i < r.len() implies pref_of(c, ds[#[trigger] r[i]]) is None by {
                assert(ds[r[i]] == d[r[i]]);
            }
        }
    }
}

/// Each device left out by a claim is listed once, came from the pairs,
/// and did not get a place.
proof fn lemma_displaced_facts(pairs: Seq<(int, int)>, slots: Seq<Option<int>>)
    requires
        forall|i: int, j: int| 0 <= i < j < pairs.len() ==> (#[trigger] pairs[i]).1 != (#[trigger] pairs[j]).1,
    ensures
        forall|k: int| 0 <= k < displaced(pairs, slots).len() ==> !slots.contains(Some(#[trigger] displaced(pairs, slots)[k]))
            && exists|j: int| 0 <= j < pairs.len() && pairs[j].1 == displaced(pairs, slots)[k],
        forall|a: int, b: int|
            0 <= a < b < displaced(pairs, slots).len() ==> (#[trigger] displaced(pairs, slots)[a]) != #[trigger] displaced(pairs, slots)[b],
    decreases pairs.len(),
{
    if pairs.len() > 0 {
        let d = pairs.drop_last();
        assert forall|i: int, j: int| 0 <= i < j < d.len() implies (#[trigger] d[i]).1 != (#[trigger] d[j]).1 by {
            assert(d[i] == pairs[i] && d[j] == pairs[j]);
        }
        lemma_displaced_facts(d, slots);
        let r = displaced(d, slots);
        assert forall|k: int| 0 <= k < r.len() implies exists|j: int| 0 <= j < pairs.len() && pairs[j].1 == #[trigger] r[k] by {
            let j = choose|j: int| 0 <= j < d.len() && d[j].1 == r[k];
            assert(pairs[j] == d[j]);
        }
        if !slots.contains(Some(pairs.last().1)) {
            let x = pairs.last().1;
            let u = r.push(x);
            assert forall|k: int| 0 <= k < r.len() implies #[trigger] r[k] != x by {
                let j = choose|j: int| 0 <= j < d.len() && d[j].1 == r[k];
                assert(pairs[j] == d[j]);
                assert(pairs[j].1 != pairs[pairs.len() - 1].1);
            }
            assert forall|k: int| 0 <= k < u.len() implies exists|j: int| 0 <= j < pairs.len() && pairs[j].1 == #[trigger] u[k] by {
                if k == r.len() {
                    assert(pairs[pairs.len() - 1].1 == u[k]);
                } else {
                    assert(u[k] == r[k]);
                }
            }
            assert forall|a: int, b: int| 0 <= a < b < u.len() implies (#[trigger] u[a]) != #[trigger] u[b] by {
                if b == r.len() {
                    assert(u[a] == r[a]);
                } else {
                    assert(u[a] == r[a] && u[b] == r[b]);
                }
            }
        }
    }
}

proof fn lemma_none_before_nonneg(s: Seq<Option<int>>, p: int)
    ensures
        0 <= none_before(s, p),
    decreases p,
{
    if p > 0 {
        lemma_none_before_nonneg(s, p - 1);
    }
}

/// Board assignment is a permutation of the connected devices: board
/// `boardK` (for `K` below the number of devices `N`) gets device number
/// `live_slots(c, ds)[K]`, those numbers are all below `N` and no two boards
/// share a device, so every device gets exactly one board.
pub proof fn lemma_assignment_is_permutation(c: Seq<(Seq<char>, IdentModel)>, ds: Seq<DeviceModel>)
    ensures
        ({
            let live = live_slots(c, ds);
            let a = assignments_upto(live, ds, ds.len() as int);
            &&& live.len() == ds.len()
            &&& a.len() == ds.len()
            &&& forall|k: int| 0 <= k < ds.len() ==> (#[trigger] live[k]) is Some && 0 <= live[k]->0 < ds.len()
                && a[k] == (AssignModel { board_name: board_name(k as nat), device: ds[live[k]->0] })
            &&& forall|p: int, q: int| 0 <= p < q < ds.len() ==> (#[trigger] live[p])->0 != (#[trigger] live[q])->0
        }),
{
    let n = ds.len();
    let pp = pinned_pairs(c, ds);
    let sp = sort_by_first(pp);
    let e = empty_places(n);
    let cl = claim(e, sp);
    let un = unpinned(c, ds);
    let dp = displaced(sp, cl);
    let pool = waiting(c, ds);
    let live = live_slots(c, ds);
    lemma_every_device_placed(c, ds);
    lemma_live_len(c, ds);
    lemma_pinned_shape(c, ds);
    lemma_pinned_bounds(c, ds);
    lemma_sort_elems(pp);
    assert forall|i: int, j: int| 0 <= i < j < pp.len() implies (#[trigger] pp[i]).1 != (#[trigger] pp[j]).1 by {}
    lemma_sorted_distinct(pp);
    lemma_claim_distinct(e, sp);
    lemma_unpinned_facts(c, ds);
    lemma_displaced_facts(sp, cl);
    lemma_assign_devices(live, ds, n as int);
    assert(pool == un + dp);
    // Every device in the pairs is pinned and in range.
    assert forall|j: int| 0 <= j < sp.len() implies 0 <= (#[trigger] sp[j]).1 < n && pref_of(c, ds[sp[j].1]) is Some by {
        assert(sp.contains(sp[j]));
        assert(pp.contains(sp[j]));
        let i = choose|i: int| 0 <= i < pp.len() && pp[i] == sp[j];
    }
    // A claimed place holds a pinned device in range.
    assert forall|p: int| 0 <= p < n && (#[trigger] cl[p]) is Some implies 0 <= cl[p]->0 < n && pref_of(c, ds[cl[p]->0]) is Some by {
        let v = cl[p]->0;
        assert(cl.contains(Some(v)));
        lemma_claim_values(e, sp, v);
        if e.contains(Some(v)) {
            let k = choose|k: int| 0 <= k < e.len() && e[k] == Some(v);
        }
        let j = choose|j: int| 0 <= j < sp.len() && sp[j].1 == v;
        assert(sp[j].1 == v);
    }
    // The waiting devices are in range, listed once, and hold no place.
    assert forall|k: int| #![trigger pool[k]] 0 <= k < pool.len() implies 0 <= pool[k] && pool[k] < n && !cl.contains(Some(pool[k])) by {
        if k < un.len() {
            assert(pool[k] == un[k]);
            if cl.contains(Some(un[k])) {
                let p = choose|p: int| 0 <= p < cl.len() && cl[p] == Some(un[k]);
                assert(cl[p] is Some);
            }
        } else {
            assert(pool[k] == dp[k - un.len()]);
            let j = choose|j: int| 0 <= j < sp.len() && sp[j].1 == dp[k - un.len()];
            assert(sp[j].1 == dp[k - un.len()]);
        }
    }
    assert forall|a: int, b: int| 0 <= a < b < pool.len() implies (#[trigger] pool[a]) != #[trigger] pool[b] by {
        if b < un.len() {
            assert(pool[a] == un[a] && pool[b] == un[b]);
        } else if a < un.len() {
            assert(pool[a] == un[a]);
            assert(pool[b] == dp[b - un.len()]);
            let j = choose|j: int| 0 <= j < sp.len() && sp[j].1 == dp[b - un.len()];
            assert(sp[j].1 == dp[b - un.len()]);
        } else {
            assert(pool[a] == dp[a - un.len()] && pool[b] == dp[b - un.len()]);
        }
    }
    assert(live == fill(cl, pool));
    assert forall|k: int| 0 <= k < n && cl[k] is None implies none_before(cl, k) < pool.len()
        && (#[trigger] live[k]) == Some(pool[none_before(cl, k)]) by {
        assert(live[k] is Some);
    }
    assert forall|k: int| 0 <= k < n implies (#[trigger] live[k]) is Some && 0 <= live[k]->0 < n by {
        if cl[k] is None {
            let m = none_before(cl, k);
            lemma_none_before_nonneg(cl, k);
            assert(m < pool.len() && live[k] == Some(pool[m]));
            assert(0 <= pool[m] < n);
        } else {
            assert(live[k] == cl[k]);
            assert(0 <= cl[k]->0 < n);
        }
    }
    assert forall|p: int, q: int| 0 <= p < q < n implies (#[trigger] live[p])->0 != (#[trigger] live[q])->0 by {
        if cl[p] is Some && cl[q] is Some {
            assert(live[p] == cl[p] && live[q] == cl[q]);
            assert(cl[p] != cl[q]);
        } else if cl[p] is Some {
            let m = none_before(cl, q);
            lemma_none_before_nonneg(cl, q);
            assert(m < pool.len() && live[q] == Some(pool[m]));
            assert(!cl.contains(Some(pool[m])));
            assert(live[p] == cl[p]);
            if cl[p]->0 == pool[m] {
                assert(cl[p] == Some(pool[m]));
                assert(cl.contains(Some(pool[m])));
            }
        } else if cl[q] is Some {
            let m = none_before(cl, p);
            lemma_none_before_nonneg(cl, p);
            assert(m < pool.len() && live[p] == Some(pool[m]));
            assert(!cl.contains(Some(pool[m])));
            assert(live[q] == cl[q]);
            if cl[q]->0 == pool[m] {
                assert(cl[q] == Some(pool[m]));
                assert(cl.contains(Some(pool[m])));
            }
        } else {
            lemma_none_before_grows(cl, p, q);
            lemma_none_before_nonneg(cl, p);
            let m1 = none_before(cl, p);
            let m2 = none_before(cl, q);
            assert(m1 < m2 && m2 < pool.len());
            assert(live[p] == Some(pool[m1]) && live[q] == Some(pool[m2]));
            assert(pool[m1] != pool[m2]);
        }
    }
}

proof fn lemma_unpinned_all(c: Seq<(Seq<char>, IdentModel)>, ds: Seq<DeviceModel>)
    requires
        c.len() == 0,
    ensures
        unpinned(c, ds) == Seq::new(ds.len(), |i: int| i),
        pinned_pairs(c, ds).len() == 0,
    decreases ds.len(),
{
    if ds.len() > 0 {
        lemma_unpinned_all(c, ds.drop_last());
        assert(pin_of(c, ds.last()) is None);
        assert(unpinned(c, ds) =~= Seq::new(ds.len(), |i: int| i));
    }
}

/// With nothing pinned yet, the devices take the boards in the order they
/// are listed: device `K` gets `boardK`.
pub proof fn lemma_no_pins_keeps_order(c: Seq<(Seq<char>, IdentModel)>, ds: Seq<DeviceModel>)
    requires
        c.len() == 0,
    ensures
        forall|k: int| 0 <= k < ds.len() ==> #[trigger] live_slots(c, ds)[k] == Some(k),
{
    let n = ds.len();
    lemma_unpinned_all(c, ds);
    let sp = sort_by_first(pinned_pairs(c, ds));
    lemma_sort_elems(pinned_pairs(c, ds));
    assert(sp.len() == 0);
    assert(claimed_places(c, ds) == empty_places(n));
    assert(displaced(sp, claimed_places(c, ds)) == Seq::<int>::empty());
    assert(waiting(c, ds) =~= Seq::new(n, |i: int| i));
    assert forall|k: int| 0 <= k < n implies #[trigger] live_slots(c, ds)[k] == Some(k) by {
        lemma_none_before_empty(n, k);
    }
}

} // verus!
