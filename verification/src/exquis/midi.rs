//! Exquis MIDI devices: which ports belong to an Exquis, how the ports of
//! one device are grouped, device selection and port lookup by name.
use std::str::FromStr;

use vstd::prelude::*;

use crate::num::{dec_digits, hex_fixed, parse_bounded, parse_u32, parse_uint, push_dec, push_hex_fixed};
use crate::text::{
    ascii_lower, chars_of, contains, contains_str, eq_str, join_sep, lower_chars, push_all, push_joined,
    push_str, rsplit_once,
    rsplit_once_chars, split_once, split_once_chars, starts_with, string_of, trim_start,
    trim_start_chars,
};
use crate::config::{sort_by_text, text_order};
use crate::usb::{matches_label_spec, opt_view, UsbDeviceInfo, UsbModel};

verus! {

/// All devices, or the one with the given number.
#[derive(Debug, Clone, PartialEq, Eq, Structural)]
pub enum DeviceSelection {
    All,
    One(usize),
}

/// Why a device selection failed.
#[derive(Debug, Clone, PartialEq, Eq, Structural)]
pub enum SelectionError {
    /// Neither `all` nor a device number.
    NotASelection,
    /// No device has this number.
    NoDevice(usize),
}

/// `all` (any case) or a device number.
pub open spec fn selection_spec(s: Seq<char>) -> Option<DeviceSelection> {
    if ascii_lower(s) == "all"@ {
        Some(DeviceSelection::All)
    } else {
        match parse_bounded(s, usize::MAX as int) {
            Some(n) => Some(DeviceSelection::One(n as usize)),
            None => None,
        }
    }
}

impl DeviceSelection {
    pub fn parse(s: &str) -> (r: Result<DeviceSelection, SelectionError>)
        ensures
            match r {
                Ok(d) => selection_spec(s@) == Some(d),
                Err(e) => selection_spec(s@) is None && e == SelectionError::NotASelection,
            },
    {
        let v = chars_of(s);
        let low = lower_chars(&v);
        if eq_str(&low, "all") {
            return Ok(DeviceSelection::All);
        }
        match parse_uint(&v, usize::MAX as u64) {
            Some(n) => Ok(DeviceSelection::One(n as usize)),
            None => Err(SelectionError::NotASelection),
        }
    }

    /// `all`, or the number.
    pub fn to_display_string(&self) -> (r: String)
        ensures
            r@ == match self {
                DeviceSelection::All => "all"@,
                DeviceSelection::One(n) => dec_digits(*n as nat),
            },
    {
        match self {
            DeviceSelection::All => "all".to_owned(),
            DeviceSelection::One(n) => {
                let mut v: Vec<char> = Vec::new();
                push_dec(&mut v, *n as u64);
                string_of(&v)
            },
        }
    }
}

impl FromStr for DeviceSelection {
    type Err = SelectionError;

    fn from_str(s: &str) -> (r: Result<DeviceSelection, SelectionError>)
        ensures
            match r {
                Ok(d) => selection_spec(s@) == Some(d),
                Err(e) => selection_spec(s@) is None && e == SelectionError::NotASelection,
            },
    {
        DeviceSelection::parse(s)
    }
}

/// One Exquis: its number (1-based), label, MIDI ports and USB identity.
#[derive(Debug, Clone)]
pub struct ExquisDevice {
    pub number: usize,
    pub label: String,
    pub input_name: Option<String>,
    pub output_name: Option<String>,
    pub input_names: Vec<String>,
    pub output_names: Vec<String>,
    pub usb_info: Option<UsbDeviceInfo>,
}

pub open spec fn names_view(v: Vec<String>) -> Seq<Seq<char>> {
    v@.map_values(|s: String| s@)
}

/// The contents of an `ExquisDevice`.
pub struct DeviceModel {
    pub number: usize,
    pub label: Seq<char>,
    pub input_name: Option<Seq<char>>,
    pub output_name: Option<Seq<char>>,
    pub input_names: Seq<Seq<char>>,
    pub output_names: Seq<Seq<char>>,
    pub usb_info: Option<UsbModel>,
}

impl View for ExquisDevice {
    type V = DeviceModel;

    open spec fn view(&self) -> DeviceModel {
        DeviceModel {
            number: self.number,
            label: self.label@,
            input_name: opt_view(self.input_name),
            output_name: opt_view(self.output_name),
            input_names: names_view(self.input_names),
            output_names: names_view(self.output_names),
            usb_info: match self.usb_info {
                Some(u) => Some(u@),
                None => None,
            },
        }
    }
}

pub fn copy_names(v: &Vec<String>) -> (r: Vec<String>)
    ensures
        names_view(r) == names_view(*v),
{
    let mut r: Vec<String> = Vec::new();
    let mut i: usize = 0;
    while i < v.len()
        invariant
            i <= v.len(),
            names_view(r) == names_view(*v).take(i as int),
        decreases v.len() - i,
    {
        let c = v[i].clone();
        let ghost before = r@;
        r.push(c);
        assert(r@.map_values(|s: String| s@) =~= before.map_values(|s: String| s@).push(c@));
        assert(names_view(*v).take(i + 1) =~= names_view(*v).take(i as int).push(v[i as int]@));
        i = i + 1;
    }
    assert(names_view(*v).take(v.len() as int) =~= names_view(*v));
    r
}

impl ExquisDevice {
    /// A copy with the same contents.
    pub fn copy(&self) -> (r: ExquisDevice)
        ensures
            r@ == self@,
    {
        ExquisDevice {
            number: self.number,
            label: self.label.clone(),
            input_name: crate::usb::copy_opt_string(&self.input_name),
            output_name: crate::usb::copy_opt_string(&self.output_name),
            input_names: copy_names(&self.input_names),
            output_names: copy_names(&self.output_names),
            usb_info: match &self.usb_info {
                Some(u) => Some(u.copy()),
                None => None,
            },
        }
    }
}

pub open spec fn devices_view(ds: Seq<ExquisDevice>) -> Seq<DeviceModel> {
    ds.map_values(|d: ExquisDevice| d@)
}

/// The first device numbered `n`.
pub open spec fn numbered(ds: Seq<DeviceModel>, n: usize) -> Option<DeviceModel>
    decreases ds.len(),
{
    if ds.len() == 0 {
        None
    } else if ds[0].number == n {
        Some(ds[0])
    } else {
        numbered(ds.drop_first(), n)
    }
}

/// The devices a selection names: all of them, or the first with that
/// number (an error when there is none).
pub fn select_devices(devices: &[ExquisDevice], selection: &DeviceSelection) -> (r: Result<
    Vec<ExquisDevice>,
    SelectionError,
>)
    ensures
        *selection is All ==> (r matches Ok(v) && devices_view(v@) == devices_view(devices@)),
        *selection is One ==> match numbered(devices_view(devices@), selection->One_0) {
            Some(d) => r matches Ok(v) && devices_view(v@) == seq![d],
            None => r == Err::<Vec<ExquisDevice>, SelectionError>(
                SelectionError::NoDevice(selection->One_0),
            ),
        },
{
    let ghost dv = devices_view(devices@);
    match selection {
        DeviceSelection::All => {
            let mut r: Vec<ExquisDevice> = Vec::new();
            let mut i: usize = 0;
            while i < devices.len()
                invariant
                    i <= devices.len(),
                    dv == devices_view(devices@),
                    *selection == DeviceSelection::All,
                    devices_view(r@) == dv.take(i as int),
                decreases devices.len() - i,
            {
                let c = devices[i].copy();
                let ghost before = r@;
                r.push(c);
                assert(devices_view(r@) =~= devices_view(before).push(c@));
                assert(dv.take(i + 1) =~= dv.take(i as int).push(dv[i as int]));
                i = i + 1;
            }
            assert(dv.take(devices.len() as int) =~= dv);
            Ok(r)
        },
        DeviceSelection::One(n) => {
            let mut i: usize = 0;
            assert(dv.skip(0) =~= dv);
            while i < devices.len()
                invariant
                    i <= devices.len(),
                    dv == devices_view(devices@),
                    *selection == DeviceSelection::One(*n),
                    numbered(dv, *n) == numbered(dv.skip(i as int), *n),
                decreases devices.len() - i,
            {
                assert(dv.skip(i as int).drop_first() =~= dv.skip(i + 1));
                assert(dv.skip(i as int)[0] == dv[i as int]);
                if devices[i].number == *n {
                    let mut r: Vec<ExquisDevice> = Vec::new();
                    let c = devices[i].copy();
                    assert(c@ == dv[i as int]);
                    assert(numbered(dv.skip(i as int), *n) == Some(dv[i as int]));
                    r.push(c);
                    assert(devices_view(r@) =~= seq![dv[i as int]]);
                    return Ok(r);
                }
                i = i + 1;
            }
            Err(SelectionError::NoDevice(*n))
        },
    }
}

/// An ALSA port name of an Exquis: `Exquis:<label> <client>:<port>`,
/// the client name `Exquis` in any case and the label starting (after
/// leading spaces) with `Exquis MIDI `. Gives the client number and name.
pub open spec fn linux_port_spec(name: Seq<char>) -> Option<(u32, Seq<char>)> {
    match split_once(name, ':') {
        None => None,
        Some((client, rest)) => if ascii_lower(client) != "exquis"@ {
            None
        } else {
            match rsplit_once(rest, ' ') {
                None => None,
                Some((label, client_port)) => if !starts_with(trim_start(label), "Exquis MIDI "@) {
                    None
                } else {
                    match split_once(client_port, ':') {
                        None => None,
                        Some((id, _)) => match parse_bounded(id, u32::MAX as int) {
                            Some(n) => Some((n as u32, client)),
                            None => None,
                        },
                    }
                },
            }
        },
    }
}

pub fn parse_linux_exquis_port(name: &str) -> (r: Option<(u32, String)>)
    ensures
        match r {
            Some((id, client)) => linux_port_spec(name@) == Some((id, client@)),
            None => linux_port_spec(name@) is None,
        },
{
    let v = chars_of(name);
    let (client, rest) = match split_once_chars(&v, ':') {
        Some(p) => p,
        None => {
            return None;
        },
    };
    let low = lower_chars(&client);
    if !eq_str(&low, "exquis") {
        return None;
    }
    let (label, client_port) = match rsplit_once_chars(&rest, ' ') {
        Some(p) => p,
        None => {
            return None;
        },
    };
    let t = trim_start_chars(&label);
    if !crate::text::starts_with_str(&t, "Exquis MIDI ") {
        return None;
    }
    let (id, _port) = match split_once_chars(&client_port, ':') {
        Some(p) => p,
        None => {
            return None;
        },
    };
    match parse_u32(&id) {
        Some(n) => Some((n, string_of(&client))),
        None => None,
    }
}

/// A port whose name contains `exquis` in any case.
pub fn is_exquis_port(name: &str) -> (r: bool)
    ensures
        r == contains(ascii_lower(name@), "exquis"@),
{
    let v = chars_of(name);
    let low = lower_chars(&v);
    contains_str(&low, "exquis")
}

/// The positions of the ports named `target`, in order.
pub open spec fn named_positions(names: Seq<Option<Seq<char>>>, target: Seq<char>) -> Seq<int>
    decreases names.len(),
{
    if names.len() == 0 {
        Seq::empty()
    } else {
        let r = named_positions(names.drop_last(), target);
        if names.last() == Some(target) {
            r.push(names.len() - 1)
        } else {
            r
        }
    }
}

/// Among ports with the given names (`None` where a name could not be
/// read), the `nth` one named `target`, else the first one so named.
pub fn find_nth_port_by_name(names: &[Option<String>], target_name: &str, nth: usize) -> (r: Option<
    usize,
>)
    ensures
        ({
            let m = named_positions(names@.map_values(|o: Option<String>| opt_view(o)), target_name@);
            r == if nth < m.len() {
                Some(m[nth as int] as usize)
            } else if m.len() > 0 {
                Some(m[0] as usize)
            } else {
                None::<usize>
            }
        }),
{
    let ghost ns = names@.map_values(|o: Option<String>| opt_view(o));
    let t = chars_of(target_name);
    let mut matches: Vec<usize> = Vec::new();
    let mut i: usize = 0;
    while i < names.len()
        invariant
            i <= names.len(),
            t@ == target_name@,
            ns == names@.map_values(|o: Option<String>| opt_view(o)),
            matches@.map_values(|x: usize| x as int) == named_positions(ns.take(i as int), target_name@),
        decreases names.len() - i,
    {
        assert(ns.take(i + 1).drop_last() =~= ns.take(i as int));
        let hit = match &names[i] {
            Some(n) => {
                let nv = chars_of(n.as_str());
                crate::text::chars_eq(&nv, &t)
            },
            None => false,
        };
        assert(hit == (ns.take(i + 1).last() == Some(target_name@)));
        if hit {
            matches.push(i);
        }
        i = i + 1;
        assert(matches@.map_values(|x: usize| x as int) =~= named_positions(ns.take(i as int), target_name@));
    }
    assert(ns.take(names.len() as int) =~= ns);
    if nth < matches.len() {
        Some(matches[nth])
    } else if matches.len() > 0 {
        Some(matches[0])
    } else {
        None
    }
}

pub open spec fn usb_view(us: Seq<UsbDeviceInfo>) -> Seq<UsbModel> {
    us.map_values(|u: UsbDeviceInfo| u@)
}

/// The indices below `k` of the USB devices answering to `label`, in order.
pub open spec fn label_matches(us: Seq<UsbModel>, label: Seq<char>, k: int) -> Seq<int>
    decreases k,
{
    if k <= 0 {
        Seq::empty()
    } else {
        label_matches(us, label, k - 1) + if matches_label_spec(us[k - 1], label) {
            seq![k - 1]
        } else {
            Seq::empty()
        }
    }
}

/// The USB identity of port group `index` with a label: the devices that
/// answer to the label, by unique id; when there are fewer, the only USB
/// device if there is exactly one.
pub open spec fn match_usb_spec(us: Seq<UsbModel>, label: Seq<char>, index: int) -> Option<UsbModel> {
    let order = text_order(us.map_values(|u: UsbModel| u.unique_id), label_matches(us, label, us.len() as int));
    if index < order.len() {
        Some(us[order[index]])
    } else if us.len() == 1 {
        Some(us[0])
    } else {
        None
    }
}

pub open spec fn opt_usb(u: Option<UsbDeviceInfo>) -> Option<UsbModel> {
    match u {
        Some(x) => Some(x@),
        None => None,
    }
}

/// The USB device of the `index`-th port group labelled `label`.
pub fn match_usb_info(usb_devices: &[UsbDeviceInfo], label: &str, index: usize) -> (r: Option<UsbDeviceInfo>)
    ensures
        opt_usb(r) == match_usb_spec(usb_view(usb_devices@), label@, index as int),
{
    let ghost us = usb_view(usb_devices@);
    let mut keys: Vec<Vec<char>> = Vec::new();
    let mut idx: Vec<usize> = Vec::new();
    let mut i: usize = 0;
    while i < usb_devices.len()
        invariant
            i <= usb_devices@.len(),
            us == usb_view(usb_devices@),
            keys@.len() == i,
            forall|j: int| 0 <= j < i ==> (#[trigger] keys@[j])@ == us[j].unique_id,
            idx@.map_values(|x: usize| x as int) == label_matches(us, label@, i as int),
            forall|j: int| 0 <= j < idx@.len() ==> #[trigger] idx@[j] < i,
        decreases usb_devices@.len() - i,
    {
        keys.push(chars_of(usb_devices[i].unique_id.as_str()));
        let ghost before = idx@;
        if usb_devices[i].matches_label(label) {
            idx.push(i);
            assert(idx@.map_values(|x: usize| x as int) =~= before.map_values(|x: usize| x as int).push(i as int));
        } else {
            assert(idx@.map_values(|x: usize| x as int) =~= before.map_values(|x: usize| x as int) + Seq::<int>::empty());
        }
        i = i + 1;
    }
    assert(keys@.map_values(|v: Vec<char>| v@) =~= us.map_values(|u: UsbModel| u.unique_id));
    let order = sort_by_text(&keys, &idx);
    if index < order.len() {
        let d = usb_devices[order[index]].copy();
        return Some(d);
    }
    if usb_devices.len() == 1 {
        return Some(usb_devices[0].copy());
    }
    None
}

// ---------------------------------------------------------------------------
// Devices from ALSA port names
// ---------------------------------------------------------------------------

/// The ALSA client a port name belongs to, for an Exquis port.
pub open spec fn port_client(name: Seq<char>) -> Option<u32> {
    match linux_port_spec(name) {
        Some((id, _)) => Some(id),
        None => None,
    }
}

/// Some port of `ns` belongs to client `id`.
pub open spec fn has_client(ns: Seq<Seq<char>>, id: u32) -> bool {
    exists|j: int| 0 <= j < ns.len() && port_client(#[trigger] ns[j]) == Some(id)
}

/// The ports of `ns` that belong to client `id`, in order.
pub open spec fn ports_of(ns: Seq<Seq<char>>, id: u32) -> Seq<Seq<char>>
    decreases ns.len(),
{
    if ns.len() == 0 {
        Seq::empty()
    } else {
        ports_of(ns.drop_last(), id) + if port_client(ns.last()) == Some(id) {
            seq![ns.last()]
        } else {
            Seq::empty()
        }
    }
}

/// The client name of the first port of `ns` that belongs to client `id`.
pub open spec fn first_client_name(ns: Seq<Seq<char>>, id: u32) -> Seq<char>
    decreases ns.len(),
{
    if ns.len() == 0 {
        Seq::empty()
    } else if has_client(ns.drop_last(), id) {
        first_client_name(ns.drop_last(), id)
    } else {
        match linux_port_spec(ns.last()) {
            Some((c, name)) => if c == id { name } else { Seq::empty() },
            None => Seq::empty(),
        }
    }
}

/// Names sorted in text order.
pub open spec fn sorted_texts(ns: Seq<Seq<char>>) -> Seq<Seq<char>> {
    text_order(ns, Seq::new(ns.len(), |i: int| i)).map_values(|i: int| ns[i])
}

pub open spec fn strictly_up(ids: Seq<u32>) -> bool {
    forall|a: int, b: int| 0 <= a < b < ids.len() ==> #[trigger] ids[a] < #[trigger] ids[b]
}

/// The label of device `i` of `count`: the client name, numbered when
/// there is more than one device.
pub open spec fn numbered_label(name: Seq<char>, i: int, count: int) -> Seq<char> {
    if count > 1 {
        name + " ("@ + dec_digits((i + 1) as nat) + ")"@
    } else {
        name
    }
}

pub open spec fn first_of(ns: Seq<Seq<char>>) -> Option<Seq<char>> {
    if ns.len() > 0 { Some(ns[0]) } else { None }
}

/// Device `i` of the ALSA listing: the `i`-th client (by number) with
/// Exquis ports, its input and output ports sorted, its USB identity
/// matched by client name and position.
pub open spec fn linux_device(
    ins: Seq<Seq<char>>,
    outs: Seq<Seq<char>>,
    us: Seq<UsbModel>,
    id: u32,
    i: int,
    count: int,
) -> DeviceModel {
    let name = first_client_name(ins + outs, id);
    let gi = sorted_texts(ports_of(ins, id));
    let go = sorted_texts(ports_of(outs, id));
    DeviceModel {
        number: (i + 1) as usize,
        label: numbered_label(name, i, count),
        input_name: first_of(gi),
        output_name: first_of(go),
        input_names: gi,
        output_names: go,
        usb_info: match_usb_spec(us, name, i),
    }
}

/// Port groups by ALSA client, ordered by client number.
struct PortGroups {
    ids: Vec<u32>,
    names: Vec<Vec<char>>,
    ins: Vec<Vec<String>>,
    outs: Vec<Vec<String>>,
}

/// Groups by client `ids` (ascending), with client `names` and input and
/// output ports `gi`, `go`, are those of the inputs `ins` and outputs `outs`.
#[verifier::opaque]
pub open spec fn groups_hold(
    ids: Seq<u32>,
    names: Seq<Seq<char>>,
    gi: Seq<Seq<Seq<char>>>,
    go: Seq<Seq<Seq<char>>>,
    ins: Seq<Seq<char>>,
    outs: Seq<Seq<char>>,
) -> bool {
    &&& ids.len() == names.len() && ids.len() == gi.len() && ids.len() == go.len()
    &&& strictly_up(ids)
    &&& forall|c: u32| #[trigger] ids.contains(c) <==> has_client(ins + outs, c)
    &&& forall|g: int| 0 <= g < ids.len() ==> #[trigger] gi[g] == ports_of(ins, ids[g])
    &&& forall|g: int| 0 <= g < ids.len() ==> #[trigger] go[g] == ports_of(outs, ids[g])
    &&& forall|g: int| 0 <= g < ids.len() ==> #[trigger] names[g] == first_client_name(ins + outs, ids[g])
}

pub open spec fn chars_views(v: Seq<Vec<char>>) -> Seq<Seq<char>> {
    v.map_values(|c: Vec<char>| c@)
}

pub open spec fn groups_views(v: Seq<Vec<String>>) -> Seq<Seq<Seq<char>>> {
    v.map_values(|g: Vec<String>| names_view(g))
}

impl PortGroups {
    /// The groups of the inputs `ins` and outputs `outs` read so far.
    closed spec fn holds(&self, ins: Seq<Seq<char>>, outs: Seq<Seq<char>>) -> bool {
        &&& self.ids@.len() == self.names@.len()
        &&& self.ids@.len() == self.ins@.len()
        &&& self.ids@.len() == self.outs@.len()
        &&& groups_hold(self.ids@, chars_views(self.names@), groups_views(self.ins@), groups_views(self.outs@), ins, outs)
    }
}

proof fn lemma_ports_of_push(ns: Seq<Seq<char>>, x: Seq<char>, id: u32)
    ensures
        ports_of(ns.push(x), id) == ports_of(ns, id) + if port_client(x) == Some(id) { seq![x] } else { Seq::empty() },
{
    assert(ns.push(x).drop_last() =~= ns);
}

proof fn lemma_has_client_push(ns: Seq<Seq<char>>, x: Seq<char>, id: u32)
    ensures
        has_client(ns.push(x), id) <==> has_client(ns, id) || port_client(x) == Some(id),
{
    if has_client(ns.push(x), id) && !has_client(ns, id) {
        let j = choose|j: int| 0 <= j < ns.push(x).len() && port_client(#[trigger] ns.push(x)[j]) == Some(id);
        if j < ns.len() {
            assert(ns[j] == ns.push(x)[j]);
        }
    }
    if has_client(ns, id) {
        let j = choose|j: int| 0 <= j < ns.len() && port_client(#[trigger] ns[j]) == Some(id);
        assert(ns.push(x)[j] == ns[j]);
    }
    if port_client(x) == Some(id) {
        assert(ns.push(x)[ns.len() as int] == x);
    }
}

proof fn lemma_first_name_push(ns: Seq<Seq<char>>, x: Seq<char>, id: u32)
    ensures
        first_client_name(ns.push(x), id) == if has_client(ns, id) {
            first_client_name(ns, id)
        } else {
            match linux_port_spec(x) {
                Some((c, name)) => if c == id { name } else { Seq::empty() },
                None => Seq::empty(),
            }
        },
{
    assert(ns.push(x).drop_last() =~= ns);
}

/// Reading a port that is not an Exquis port keeps the groups.
proof fn lemma_groups_unparsed(
    ids: Seq<u32>,
    names: Seq<Seq<char>>,
    gi: Seq<Seq<Seq<char>>>,
    go: Seq<Seq<Seq<char>>>,
    ins: Seq<Seq<char>>,
    outs: Seq<Seq<char>>,
    x: Seq<char>,
    input: bool,
)
    requires
        groups_hold(ids, names, gi, go, ins, outs),
        input ==> outs.len() == 0,
        linux_port_spec(x) is None,
    ensures
        input ==> groups_hold(ids, names, gi, go, ins.push(x), outs),
        !input ==> groups_hold(ids, names, gi, go, ins, outs.push(x)),
{
    reveal(groups_hold);
    let ins2 = if input { ins.push(x) } else { ins };
    let outs2 = if input { outs } else { outs.push(x) };
    assert(ins2 + outs2 =~= (ins + outs).push(x));
    assert forall|c: u32| #[trigger] ids.contains(c) <==> has_client(ins2 + outs2, c) by {
        lemma_has_client_push(ins + outs, x, c);
    }
    assert forall|g: int| 0 <= g < ids.len() implies #[trigger] gi[g] == ports_of(ins2, ids[g]) by {
        lemma_ports_of_push(ins, x, ids[g]);
    }
    assert forall|g: int| 0 <= g < ids.len() implies #[trigger] go[g] == ports_of(outs2, ids[g]) by {
        lemma_ports_of_push(outs, x, ids[g]);
    }
    assert forall|g: int| 0 <= g < ids.len() implies #[trigger] names[g] == first_client_name(ins2 + outs2, ids[g]) by {
        lemma_first_name_push(ins + outs, x, ids[g]);
    }
}

/// Reading a port of the client of group `pos` adds it to that group.
proof fn lemma_groups_join(
    ids: Seq<u32>,
    names: Seq<Seq<char>>,
    gi: Seq<Seq<Seq<char>>>,
    go: Seq<Seq<Seq<char>>>,
    ins: Seq<Seq<char>>,
    outs: Seq<Seq<char>>,
    x: Seq<char>,
    input: bool,
    pos: int,
)
    requires
        groups_hold(ids, names, gi, go, ins, outs),
        input ==> outs.len() == 0,
        0 <= pos < ids.len(),
        port_client(x) == Some(ids[pos]),
    ensures
        input ==> groups_hold(ids, names, gi.update(pos, gi[pos].push(x)), go, ins.push(x), outs),
        !input ==> groups_hold(ids, names, gi, go.update(pos, go[pos].push(x)), ins, outs.push(x)),
{
    reveal(groups_hold);
    let ins2 = if input { ins.push(x) } else { ins };
    let outs2 = if input { outs } else { outs.push(x) };
    let gi2 = if input { gi.update(pos, gi[pos].push(x)) } else { gi };
    let go2 = if input { go } else { go.update(pos, go[pos].push(x)) };
    assert(ins2 + outs2 =~= (ins + outs).push(x));
    assert forall|c: u32| #[trigger] ids.contains(c) <==> has_client(ins2 + outs2, c) by {
        lemma_has_client_push(ins + outs, x, c);
        if port_client(x) == Some(c) {
            assert(ids[pos] == c);
        }
    }
    assert forall|g: int| 0 <= g < ids.len() implies #[trigger] gi2[g] == ports_of(ins2, ids[g]) by {
        lemma_ports_of_push(ins, x, ids[g]);
        if g != pos && input {
            assert(ids[g] != ids[pos]);
        }
    }
    assert forall|g: int| 0 <= g < ids.len() implies #[trigger] go2[g] == ports_of(outs2, ids[g]) by {
        lemma_ports_of_push(outs, x, ids[g]);
        if g != pos && !input {
            assert(ids[g] != ids[pos]);
        }
    }
    assert forall|g: int| 0 <= g < ids.len() implies #[trigger] names[g] == first_client_name(ins2 + outs2, ids[g]) by {
        lemma_first_name_push(ins + outs, x, ids[g]);
        assert(ids.contains(ids[g]));
    }
    assert(groups_hold(ids, names, gi2, go2, ins2, outs2));
}

proof fn lemma_insert_up(ids: Seq<u32>, pos: int, id: u32)
    requires
        strictly_up(ids),
        0 <= pos <= ids.len(),
        forall|a: int| 0 <= a < pos ==> ids[a] < id,
        pos < ids.len() ==> ids[pos] > id,
    ensures
        strictly_up(ids.insert(pos, id)),
        forall|c: u32| #[trigger] ids.insert(pos, id).contains(c) <==> ids.contains(c) || c == id,
        !ids.contains(id),
{
    let n = ids.insert(pos, id);
    assert forall|a: int, b: int| 0 <= a < b < n.len() implies #[trigger] n[a] < #[trigger] n[b] by {
        if a < pos && b > pos {
            assert(ids[a] < id);
        } else if a > pos {
            assert(ids[a - 1] < ids[b - 1]);
        } else if a == pos && b > pos + 1 {
            assert(ids[pos] < ids[b - 1]);
        }
    }
    assert forall|c: u32| #[trigger] n.contains(c) <==> ids.contains(c) || c == id by {
        if n.contains(c) {
            let w = choose|w: int| 0 <= w < n.len() && n[w] == c;
            if w < pos {
                assert(ids[w] == c);
            } else if w > pos {
                assert(ids[w - 1] == c);
            }
        }
        if ids.contains(c) {
            let w = choose|w: int| 0 <= w < ids.len() && ids[w] == c;
            if w < pos {
                assert(n[w] == c);
            } else {
                assert(n[w + 1] == c);
            }
        }
        if c == id {
            assert(n[pos] == id);
        }
    }
    if ids.contains(id) {
        let w = choose|w: int| 0 <= w < ids.len() && ids[w] == id;
        if w > pos {
            assert(ids[pos] < ids[w]);
        }
    }
}

proof fn lemma_client_absent(ins: Seq<Seq<char>>, outs: Seq<Seq<char>>, id: u32)
    requires
        !has_client(ins + outs, id),
    ensures
        !has_client(ins, id),
        !has_client(outs, id),
        ports_of(ins, id) == Seq::<Seq<char>>::empty(),
        ports_of(outs, id) == Seq::<Seq<char>>::empty(),
{
    assert(!has_client(ins, id)) by {
        if has_client(ins, id) {
            let j = choose|j: int| 0 <= j < ins.len() && port_client(#[trigger] ins[j]) == Some(id);
            assert((ins + outs)[j] == ins[j]);
        }
    }
    assert(!has_client(outs, id)) by {
        if has_client(outs, id) {
            let j = choose|j: int| 0 <= j < outs.len() && port_client(#[trigger] outs[j]) == Some(id);
            assert((ins + outs)[ins.len() + j] == outs[j]);
        }
    }
    lemma_ports_of_absent(ins, id);
    lemma_ports_of_absent(outs, id);
}

/// The ports of one side after a new group opens at `pos`.
#[verifier::rlimit(60)]
proof fn lemma_open_side(
    ids: Seq<u32>,
    g: Seq<Seq<Seq<char>>>,
    side: Seq<Seq<char>>,
    x: Seq<char>,
    added: bool,
    item: Seq<Seq<char>>,
    side2: Seq<Seq<char>>,
    pos: int,
    id: u32,
)
    requires
        ids.len() == g.len(),
        0 <= pos <= ids.len(),
        strictly_up(ids.insert(pos, id)),
        forall|k: int| 0 <= k < ids.len() ==> #[trigger] g[k] == ports_of(side, ids[k]),
        port_client(x) == Some(id),
        ports_of(side, id) == Seq::<Seq<char>>::empty(),
        item == (if added { seq![x] } else { Seq::<Seq<char>>::empty() }),
        side2 == (if added { side.push(x) } else { side }),
    ensures
        forall|k: int| 0 <= k < ids.len() + 1 ==> #[trigger] g.insert(pos, item)[k] == ports_of(side2, ids.insert(pos, id)[k]),
{
    let ids2 = ids.insert(pos, id);
    let g2 = g.insert(pos, item);
    assert forall|k: int| 0 <= k < ids.len() + 1 implies #[trigger] g2[k] == ports_of(side2, ids2[k]) by {
        lemma_ports_of_push(side, x, ids2[k]);
        if k < pos {
            assert(ids2[k] == ids[k] && g2[k] == g[k]);
            assert(ids2[k] < ids2[pos]);
        } else if k > pos {
            assert(ids2[k] == ids[k - 1] && g2[k] == g[k - 1]);
            assert(ids2[pos] < ids2[k]);
        } else {
            assert(seq![x] =~= Seq::<Seq<char>>::empty() + seq![x]);
        }
    }
}

/// The client names after a new group opens at `pos`.
#[verifier::rlimit(30)]
proof fn lemma_open_names(
    ids: Seq<u32>,
    names: Seq<Seq<char>>,
    all: Seq<Seq<char>>,
    x: Seq<char>,
    pos: int,
    id: u32,
    client: Seq<char>,
)
    requires
        ids.len() == names.len(),
        0 <= pos <= ids.len(),
        forall|c: u32| #[trigger] ids.contains(c) <==> has_client(all, c),
        forall|k: int| 0 <= k < ids.len() ==> #[trigger] names[k] == first_client_name(all, ids[k]),
        linux_port_spec(x) == Some((id, client)),
        !has_client(all, id),
    ensures
        forall|k: int| 0 <= k < ids.len() + 1 ==> #[trigger] names.insert(pos, client)[k]
            == first_client_name(all.push(x), ids.insert(pos, id)[k]),
{
    let ids2 = ids.insert(pos, id);
    let names2 = names.insert(pos, client);
    assert forall|k: int| 0 <= k < ids.len() + 1 implies #[trigger] names2[k] == first_client_name(all.push(x), ids2[k]) by {
        lemma_first_name_push(all, x, ids2[k]);
        if k < pos {
            assert(ids2[k] == ids[k] && names2[k] == names[k]);
            assert(ids.contains(ids[k]));
        } else if k > pos {
            assert(ids2[k] == ids[k - 1] && names2[k] == names[k - 1]);
            assert(ids.contains(ids[k - 1]));
        }
    }
}

/// Reading the first port of a new client opens a group at `pos`.
proof fn lemma_groups_open(
    ids: Seq<u32>,
    names: Seq<Seq<char>>,
    gi: Seq<Seq<Seq<char>>>,
    go: Seq<Seq<Seq<char>>>,
    ins: Seq<Seq<char>>,
    outs: Seq<Seq<char>>,
    x: Seq<char>,
    input: bool,
    pos: int,
    id: u32,
    client: Seq<char>,
)
    requires
        groups_hold(ids, names, gi, go, ins, outs),
        input ==> outs.len() == 0,
        linux_port_spec(x) == Some((id, client)),
        0 <= pos <= ids.len(),
        forall|a: int| 0 <= a < pos ==> ids[a] < id,
        pos < ids.len() ==> ids[pos] > id,
    ensures
        groups_hold(
            ids.insert(pos, id),
            names.insert(pos, client),
            gi.insert(pos, if input { seq![x] } else { Seq::empty() }),
            go.insert(pos, if input { Seq::empty() } else { seq![x] }),
            if input { ins.push(x) } else { ins },
            if input { outs } else { outs.push(x) },
        ),
{
    reveal(groups_hold);
    let ins2 = if input { ins.push(x) } else { ins };
    let outs2 = if input { outs } else { outs.push(x) };
    let ids2 = ids.insert(pos, id);
    lemma_insert_up(ids, pos, id);
    assert(ins2 + outs2 =~= (ins + outs).push(x));
    lemma_client_absent(ins, outs, id);
    assert forall|c: u32| #[trigger] ids2.contains(c) <==> has_client(ins2 + outs2, c) by {
        lemma_has_client_push(ins + outs, x, c);
    }
    lemma_open_side(ids, gi, ins, x, input, if input { seq![x] } else { Seq::empty() }, ins2, pos, id);
    lemma_open_side(ids, go, outs, x, !input, if input { Seq::empty() } else { seq![x] }, outs2, pos, id);
    lemma_open_names(ids, names, ins + outs, x, pos, id, client);
}

proof fn lemma_views_insert(g: Seq<Vec<String>>, pos: int, v: Vec<String>)
    requires
        0 <= pos <= g.len(),
    ensures
        groups_views(g.insert(pos, v)) == groups_views(g).insert(pos, names_view(v)),
{
    assert(groups_views(g.insert(pos, v)) =~= groups_views(g).insert(pos, names_view(v)));
}

proof fn lemma_views_update(g: Seq<Vec<String>>, pos: int, v: Vec<String>)
    requires
        0 <= pos < g.len(),
    ensures
        groups_views(g.update(pos, v)) == groups_views(g).update(pos, names_view(v)),
{
    assert(groups_views(g.update(pos, v)) =~= groups_views(g).update(pos, names_view(v)));
}

proof fn lemma_names_push(v: Seq<String>, x: String)
    ensures
        v.push(x).map_values(|s: String| s@) == v.map_values(|s: String| s@).push(x@),
{
    assert(v.push(x).map_values(|s: String| s@) =~= v.map_values(|s: String| s@).push(x@));
}

impl PortGroups {
    fn new() -> (r: Self)
        ensures
            r.holds(Seq::empty(), Seq::empty()),
    {
        let r = PortGroups { ids: Vec::new(), names: Vec::new(), ins: Vec::new(), outs: Vec::new() };
        reveal(groups_hold);
        assert(chars_views(r.names@) =~= Seq::<Seq<char>>::empty());
        assert(groups_views(r.ins@) =~= Seq::<Seq<Seq<char>>>::empty());
        assert(groups_views(r.outs@) =~= Seq::<Seq<Seq<char>>>::empty());
        assert forall|c: u32| #[trigger] r.ids@.contains(c) <==> has_client(Seq::<Seq<char>>::empty() + Seq::<Seq<char>>::empty(), c) by {}
        r
    }

    /// Add a port (an input when `input`).
    fn add(&mut self, name: &String, input: bool, Ghost(ins): Ghost<Seq<Seq<char>>>, Ghost(outs): Ghost<Seq<Seq<char>>>)
        requires
            old(self).holds(ins, outs),
            input ==> outs.len() == 0,
        ensures
            final(self).holds(if input { ins.push(name@) } else { ins }, if input { outs } else { outs.push(name@) }),
    {
        match parse_linux_exquis_port(name.as_str()) {
            None => {
                proof {
                    lemma_groups_unparsed(
                        self.ids@,
                        chars_views(self.names@),
                        groups_views(self.ins@),
                        groups_views(self.outs@),
                        ins,
                        outs,
                        name@,
                        input,
                    );
                }
            },
            Some((id, client)) => {
                let mut pos: usize = 0;
                while pos < self.ids.len() && self.ids[pos] < id
                    invariant
                        pos <= self.ids@.len(),
                        forall|a: int| 0 <= a < pos ==> self.ids@[a] < id,
                    decreases self.ids@.len() - pos,
                {
                    pos = pos + 1;
                }
                if pos < self.ids.len() && self.ids[pos] == id {
                    self.join(pos, name, input, Ghost(ins), Ghost(outs));
                } else {
                    self.open(pos, id, client, name, input, Ghost(ins), Ghost(outs));
                }
            },
        }
    }

    fn join(&mut self, pos: usize, name: &String, input: bool, Ghost(ins): Ghost<Seq<Seq<char>>>, Ghost(outs): Ghost<Seq<Seq<char>>>)
        requires
            old(self).holds(ins, outs),
            input ==> outs.len() == 0,
            pos < old(self).ids@.len(),
            port_client(name@) == Some(old(self).ids@[pos as int]),
        ensures
            final(self).holds(if input { ins.push(name@) } else { ins }, if input { outs } else { outs.push(name@) }),
    {
        proof {
            lemma_groups_join(
                self.ids@,
                chars_views(self.names@),
                groups_views(self.ins@),
                groups_views(self.outs@),
                ins,
                outs,
                name@,
                input,
                pos as int,
            );
        }
        if input {
            Self::push_into(&mut self.ins, pos, name);
        } else {
            Self::push_into(&mut self.outs, pos, name);
        }
    }

    fn push_into(groups: &mut Vec<Vec<String>>, pos: usize, name: &String)
        requires
            pos < old(groups)@.len(),
        ensures
            final(groups)@.len() == old(groups)@.len(),
            groups_views(final(groups)@) == groups_views(old(groups)@).update(
                pos as int,
                groups_views(old(groups)@)[pos as int].push(name@),
            ),
    {
        let ghost before = groups@;
        let mut v = groups.remove(pos);
        let ghost v0 = v@;
        let c = name.clone();
        v.push(c);
        proof {
            lemma_names_push(v0, c);
        }
        groups.insert(pos, v);
        proof {
            assert(groups@ =~= before.update(pos as int, v));
            lemma_views_update(before, pos as int, v);
        }
    }

    fn open(&mut self, pos: usize, id: u32, client: String, name: &String, input: bool, Ghost(ins): Ghost<Seq<Seq<char>>>, Ghost(outs): Ghost<Seq<Seq<char>>>)
        requires
            old(self).holds(ins, outs),
            input ==> outs.len() == 0,
            linux_port_spec(name@) == Some((id, client@)),
            pos <= old(self).ids@.len(),
            forall|a: int| 0 <= a < pos ==> old(self).ids@[a] < id,
            pos < old(self).ids@.len() ==> old(self).ids@[pos as int] > id,
        ensures
            final(self).holds(if input { ins.push(name@) } else { ins }, if input { outs } else { outs.push(name@) }),
    {
        proof {
            lemma_groups_open(
                self.ids@,
                chars_views(self.names@),
                groups_views(self.ins@),
                groups_views(self.outs@),
                ins,
                outs,
                name@,
                input,
                pos as int,
                id,
                client@,
            );
        }
        let ghost names0 = self.names@;
        self.ids.insert(pos, id);
        let cv = chars_of(client.as_str());
        self.names.insert(pos, cv);
        proof {
            assert(self.names@ =~= names0.insert(pos as int, cv));
            assert(chars_views(self.names@) =~= chars_views(names0).insert(pos as int, client@));
        }
        let (a, b) = Self::first_port(name, input);
        Self::insert_group(&mut self.ins, pos, a);
        Self::insert_group(&mut self.outs, pos, b);
    }

    /// The new group's port lists: the port on its side, nothing on the
    /// other.
    fn first_port(name: &String, input: bool) -> (r: (Vec<String>, Vec<String>))
        ensures
            names_view(r.0) == (if input { seq![name@] } else { Seq::<Seq<char>>::empty() }),
            names_view(r.1) == (if input { Seq::<Seq<char>>::empty() } else { seq![name@] }),
    {
        let mut first: Vec<String> = Vec::new();
        first.push(name.clone());
        let empty: Vec<String> = Vec::new();
        assert(names_view(first) =~= seq![name@]);
        assert(names_view(empty) =~= Seq::<Seq<char>>::empty());
        if input {
            (first, empty)
        } else {
            (empty, first)
        }
    }

    fn insert_group(groups: &mut Vec<Vec<String>>, pos: usize, v: Vec<String>)
        requires
            pos <= old(groups)@.len(),
        ensures
            final(groups)@.len() == old(groups)@.len() + 1,
            groups_views(final(groups)@) == groups_views(old(groups)@).insert(pos as int, names_view(v)),
    {
        let ghost before = groups@;
        let ghost vv = v;
        groups.insert(pos, v);
        proof {
            lemma_views_insert(before, pos as int, vv);
        }
    }
}

proof fn lemma_ports_of_absent(ns: Seq<Seq<char>>, id: u32)
    requires
        !has_client(ns, id),
    ensures
        ports_of(ns, id) == Seq::<Seq<char>>::empty(),
    decreases ns.len(),
{
    if ns.len() > 0 {
        assert(!has_client(ns.drop_last(), id)) by {
            if has_client(ns.drop_last(), id) {
                let j = choose|j: int| 0 <= j < ns.drop_last().len() && port_client(#[trigger] ns.drop_last()[j]) == Some(id);
                assert(ns[j] == ns.drop_last()[j]);
            }
        }
        lemma_ports_of_absent(ns.drop_last(), id);
        if port_client(ns.last()) == Some(id) {
            assert(ns[ns.len() - 1] == ns.last());
        }
    }
}

/// Names sorted in text order (`sort` on strings).
fn sort_names(v: &Vec<String>) -> (r: Vec<String>)
    ensures
        names_view(r) == sorted_texts(names_view(*v)),
{
    let ghost ns = names_view(*v);
    let mut keys: Vec<Vec<char>> = Vec::new();
    let mut idx: Vec<usize> = Vec::new();
    let mut i: usize = 0;
    while i < v.len()
        invariant
            i <= v@.len(),
            ns == names_view(*v),
            keys@.len() == i,
            idx@.len() == i,
            forall|j: int| 0 <= j < i ==> (#[trigger] keys@[j])@ == ns[j],
            forall|j: int| 0 <= j < i ==> #[trigger] idx@[j] == j,
        decreases v@.len() - i,
    {
        keys.push(chars_of(v[i].as_str()));
        idx.push(i);
        i = i + 1;
    }
    assert(keys@.map_values(|k: Vec<char>| k@) =~= ns);
    assert(idx@.map_values(|x: usize| x as int) =~= Seq::new(ns.len(), |j: int| j));
    let order = sort_by_text(&keys, &idx);
    let ghost ord = order@.map_values(|x: usize| x as int);
    let mut out: Vec<String> = Vec::new();
    let mut k: usize = 0;
    while k < order.len()
        invariant
            k <= order@.len(),
            order@.len() == v@.len(),
            forall|j: int| 0 <= j < order@.len() ==> #[trigger] order@[j] < v@.len(),
            ns == names_view(*v),
            ord == order@.map_values(|x: usize| x as int),
            ord == text_order(ns, Seq::new(ns.len(), |j: int| j)),
            names_view(out) == ord.take(k as int).map_values(|j: int| ns[j]),
        decreases order@.len() - k,
    {
        let c = v[order[k]].clone();
        let ghost before = out@;
        out.push(c);
        proof {
            lemma_names_push(before, c);
            assert(ord.take(k + 1) =~= ord.take(k as int).push(order@[k as int] as int));
            assert(ord.take(k + 1).map_values(|j: int| ns[j]) =~= ord.take(k as int).map_values(|j: int| ns[j]).push(ns[order@[k as int] as int]));
        }
        k = k + 1;
    }
    assert(ord.take(order@.len() as int) =~= ord);
    out
}

/// `name (n)` for a numbered device label.
fn numbered_label_exec(name: &Vec<char>, i: usize, count: usize) -> (r: String)
    requires
        i < count,
    ensures
        r@ == numbered_label(name@, i as int, count as int),
{
    proof {
        reveal_strlit(" (");
        reveal_strlit(")");
    }
    let mut out: Vec<char> = Vec::new();
    crate::text::push_all(&mut out, name);
    if count > 1 {
        push_str(&mut out, " (");
        push_dec(&mut out, (i + 1) as u64);
        push_str(&mut out, ")");
    }
    string_of(&out)
}

/// The Exquis devices of an ALSA port listing: one per client that has
/// Exquis ports, in client order, each with its input and output ports
/// sorted, numbered from 1, labelled by client name (numbered when there
/// are several) and matched to a USB device by name and position.
pub fn group_linux_ports(inputs: &Vec<String>, outputs: &Vec<String>, usb_devices: &[UsbDeviceInfo]) -> (r: Vec<ExquisDevice>)
    ensures
        exists|ids: Seq<u32>|
            strictly_up(ids) && (forall|c: u32| #[trigger] ids.contains(c) <==> has_client(names_view(*inputs) + names_view(*outputs), c))
                && r@.len() == ids.len() && forall|i: int| 0 <= i < ids.len() ==> (#[trigger] r@[i])@ == linux_device(
                    names_view(*inputs),
                    names_view(*outputs),
                    usb_view(usb_devices@),
                    ids[i],
                    i,
                    ids.len() as int,
                ),
{
    let ghost ins = names_view(*inputs);
    let ghost outs = names_view(*outputs);
    let mut groups = PortGroups::new();
    assert(ins.take(0) =~= Seq::<Seq<char>>::empty());
    let mut i: usize = 0;
    while i < inputs.len()
        invariant
            i <= inputs@.len(),
            ins == names_view(*inputs),
            groups.holds(ins.take(i as int), Seq::empty()),
        decreases inputs@.len() - i,
    {
        groups.add(&inputs[i], true, Ghost(ins.take(i as int)), Ghost(Seq::empty()));
        assert(ins.take(i + 1) =~= ins.take(i as int).push(inputs@[i as int]@));
        i = i + 1;
    }
    assert(ins.take(inputs@.len() as int) =~= ins);
    assert(outs.take(0) =~= Seq::<Seq<char>>::empty());
    let mut j: usize = 0;
    while j < outputs.len()
        invariant
            j <= outputs@.len(),
            ins == names_view(*inputs),
            outs == names_view(*outputs),
            groups.holds(ins, outs.take(j as int)),
        decreases outputs@.len() - j,
    {
        groups.add(&outputs[j], false, Ghost(ins), Ghost(outs.take(j as int)));
        assert(outs.take(j + 1) =~= outs.take(j as int).push(outputs@[j as int]@));
        j = j + 1;
    }
    assert(outs.take(outputs@.len() as int) =~= outs);
    proof {
        reveal(groups_hold);
    }
    let count = groups.ids.len();
    let ghost us = usb_view(usb_devices@);
    let mut devices: Vec<ExquisDevice> = Vec::new();
    let mut g: usize = 0;
    while g < count
        invariant
            g <= count,
            count == groups.ids@.len(),
            groups.holds(ins, outs),
            ins == names_view(*inputs),
            outs == names_view(*outputs),
            us == usb_view(usb_devices@),
            devices@.len() == g,
            forall|k: int| 0 <= k < g ==> (#[trigger] devices@[k])@ == linux_device(ins, outs, us, groups.ids@[k], k, count as int),
        decreases count - g,
    {
        proof {
            reveal(groups_hold);
        }
        let gi = sort_names(&groups.ins[g]);
        let go = sort_names(&groups.outs[g]);
        let name_s = string_of(&groups.names[g]);
        let usb_info = match_usb_info(usb_devices, name_s.as_str(), g);
        let label = numbered_label_exec(&groups.names[g], g, count);
        let input_name = if gi.len() > 0 { Some(gi[0].clone()) } else { None };
        let output_name = if go.len() > 0 { Some(go[0].clone()) } else { None };
        let d = ExquisDevice {
            number: g + 1,
            label,
            input_name,
            output_name,
            input_names: gi,
            output_names: go,
            usb_info,
        };
        proof {
            assert(groups_views(groups.ins@)[g as int] == names_view(groups.ins@[g as int]));
            assert(groups_views(groups.outs@)[g as int] == names_view(groups.outs@[g as int]));
            assert(chars_views(groups.names@)[g as int] == groups.names@[g as int]@);
            assert(d@ == linux_device(ins, outs, us, groups.ids@[g as int], g as int, count as int));
        }
        devices.push(d);
        g = g + 1;
    }
    proof {
        reveal(groups_hold);
    }
    devices
}

// ---------------------------------------------------------------------------
// Devices from winmm port lists
// ---------------------------------------------------------------------------

/// USB ids of the Exquis.
pub const EXQUIS_VID: u16 = 0x2985;
pub const EXQUIS_PID: u16 = 0x0007;

/// The USB identity a device interface path gives: that of an Exquis whose
/// serial the path holds; `None` for other paths.
pub open spec fn interface_usb_spec(path: Seq<char>) -> Option<UsbModel> {
    match crate::exquis::winmm_drv::usb_serial_spec(path) {
        Some((v, p, serial)) => if v == EXQUIS_VID && p == EXQUIS_PID {
            Some(UsbModel {
                product_name: Some("Exquis"@),
                manufacturer: Some("Intuitive Instruments"@),
                serial_number: Some(serial),
                vendor_id: v as u16,
                product_id: p as u16,
                bus_number: 0,
                address: 0,
                port_numbers: Seq::empty(),
                location: path,
                unique_id: serial,
                firmware_version: None,
            })
        } else {
            None
        },
        None => None,
    }
}

/// The USB identity of the device behind a winmm port, from its device
/// interface path.
pub fn usb_info_from_interface(path: &str) -> (r: Option<UsbDeviceInfo>)
    ensures
        opt_usb(r) == interface_usb_spec(path@),
{
    let (vid, pid, serial) = match crate::exquis::winmm_drv::parse_usb_serial(path) {
        Some(t) => t,
        None => {
            return None;
        },
    };
    if vid != EXQUIS_VID || pid != EXQUIS_PID {
        return None;
    }
    let pc = chars_of(path);
    let pn = chars_of("Exquis");
    let mn = chars_of("Intuitive Instruments");
    Some(UsbDeviceInfo {
        product_name: Some(string_of(&pn)),
        manufacturer: Some(string_of(&mn)),
        serial_number: Some(serial.clone()),
        vendor_id: vid,
        product_id: pid,
        bus_number: 0,
        address: 0,
        port_numbers: Vec::new(),
        location: string_of(&pc),
        unique_id: serial,
        firmware_version: None,
    })
}

pub open spec fn port_name_at(ports: Seq<(usize, String)>, i: int) -> Option<Seq<char>> {
    if 0 <= i < ports.len() { Some(ports[i].1@) } else { None }
}

pub open spec fn as_list(n: Option<Seq<char>>) -> Seq<Seq<char>> {
    match n {
        Some(x) => seq![x],
        None => Seq::empty(),
    }
}

/// Device `i` of a winmm listing: the `i`-th Exquis input and output port
/// paired by position, labelled by the input's name (else the output's,
/// else `Exquis`), numbered when there are several.
pub open spec fn paired_device(
    ins: Seq<(usize, String)>,
    outs: Seq<(usize, String)>,
    infos: Seq<Option<UsbDeviceInfo>>,
    i: int,
    count: int,
) -> DeviceModel {
    let i_name = port_name_at(ins, i);
    let o_name = port_name_at(outs, i);
    let label = match i_name {
        Some(n) => n,
        None => match o_name {
            Some(n) => n,
            None => "Exquis"@,
        },
    };
    DeviceModel {
        number: (i + 1) as usize,
        label: numbered_label(label, i, count),
        input_name: i_name,
        output_name: o_name,
        input_names: as_list(i_name),
        output_names: as_list(o_name),
        usb_info: if 0 <= i < infos.len() { opt_usb(infos[i]) } else { None },
    }
}

/// The Exquis devices of a winmm listing: Exquis input and output ports
/// (with their winmm ids) paired by position, as many devices as the longer
/// list; `usb_infos[i]` is the USB identity found for device `i`.
pub fn pair_ports(
    input_ports: &Vec<(usize, String)>,
    output_ports: &Vec<(usize, String)>,
    usb_infos: &Vec<Option<UsbDeviceInfo>>,
) -> (r: Vec<ExquisDevice>)
    ensures
        r@.len() == if input_ports@.len() >= output_ports@.len() { input_ports@.len() } else { output_ports@.len() },
        forall|i: int| 0 <= i < r@.len() ==> (#[trigger] r@[i])@ == paired_device(
            input_ports@,
            output_ports@,
            usb_infos@,
            i,
            r@.len() as int,
        ),
{
    proof {
        reveal_strlit("Exquis");
    }
    let count = if input_ports.len() >= output_ports.len() { input_ports.len() } else { output_ports.len() };
    let mut devices: Vec<ExquisDevice> = Vec::new();
    let mut i: usize = 0;
    while i < count
        invariant
            i <= count,
            count == if input_ports@.len() >= output_ports@.len() { input_ports@.len() } else { output_ports@.len() },
            devices@.len() == i,
            forall|k: int| 0 <= k < i ==> (#[trigger] devices@[k])@ == paired_device(input_ports@, output_ports@, usb_infos@, k, count as int),
        decreases count - i,
    {
        let in_name: Option<String> = if i < input_ports.len() { Some(input_ports[i].1.clone()) } else { None };
        let out_name: Option<String> = if i < output_ports.len() { Some(output_ports[i].1.clone()) } else { None };
        let label_chars: Vec<char> = match &in_name {
            Some(n) => chars_of(n.as_str()),
            None => match &out_name {
                Some(n) => chars_of(n.as_str()),
                None => chars_of("Exquis"),
            },
        };
        let label = numbered_label_exec(&label_chars, i, count);
        let in_list: Vec<String> = match &in_name {
            Some(n) => {
                let mut v: Vec<String> = Vec::new();
                v.push(n.clone());
                v
            },
            None => Vec::new(),
        };
        let out_list: Vec<String> = match &out_name {
            Some(n) => {
                let mut v: Vec<String> = Vec::new();
                v.push(n.clone());
                v
            },
            None => Vec::new(),
        };
        let usb_info = if i < usb_infos.len() {
            match &usb_infos[i] {
                Some(u) => Some(u.copy()),
                None => None,
            }
        } else {
            None
        };
        let d = ExquisDevice {
            number: i + 1,
            label,
            input_name: in_name,
            output_name: out_name,
            input_names: in_list,
            output_names: out_list,
            usb_info,
        };
        proof {
            assert(names_view(d.input_names) =~= as_list(port_name_at(input_ports@, i as int)));
            assert(names_view(d.output_names) =~= as_list(port_name_at(output_ports@, i as int)));
        }
        devices.push(d);
        i = i + 1;
    }
    devices
}

/// A name, or `fallback` when there is none.
pub open spec fn or_text(o: Option<Seq<char>>, fallback: Seq<char>) -> Seq<char> {
    match o {
        Some(x) => x,
        None => fallback,
    }
}

/// The MIDI port line text: the grouped port names joined by `, `, or the
/// single name, or `missing`.
pub open spec fn ports_text(names: Seq<Seq<char>>, single: Option<Seq<char>>, missing: Seq<char>) -> Seq<char> {
    if names.len() == 0 { or_text(single, missing) } else { join_sep(names, ", "@) }
}

/// The USB lines of a listed device.
pub open spec fn usb_lines(u: UsbDeviceInfo) -> Seq<Seq<char>> {
    seq!["  usb: "@ + hex_fixed(u.vendor_id as nat, 4) + seq![':'] + hex_fixed(u.product_id as nat, 4)]
        + (match u.manufacturer { Some(m) => seq!["  manufacturer: "@ + m@], None => Seq::empty() })
        + (match u.serial_number { Some(n) => seq!["  serial: "@ + n@], None => Seq::empty() })
        + seq![
            "  location: "@ + u.location@,
            "  usb-address: bus "@ + dec_digits(u.bus_number as nat) + " addr "@ + dec_digits(u.address as nat),
        ]
        + (if u.port_numbers@.len() > 0 {
            seq!["  usb-ports: "@ + join_sep(u.port_numbers@.map_values(|b: u8| dec_digits(b as nat)), "."@)]
        } else {
            Seq::empty()
        })
        + seq!["  firmware: "@ + or_text(opt_view(u.firmware_version), "unavailable"@)]
}

/// The lines `list` prints for an Exquis: number and label, the USB id and
/// details (when known), firmware, and its MIDI input and output ports.
pub open spec fn device_listing_spec(d: ExquisDevice) -> Seq<Seq<char>> {
    seq![
        "["@ + dec_digits(d.number as nat) + "] "@ + d.label@,
        "  id: "@ + match d.usb_info { Some(u) => u.unique_id@, None => "unavailable"@ },
    ]
        + (match d.usb_info { Some(u) => usb_lines(u), None => seq!["  firmware: unavailable"@] })
        + seq![
            "  midi-in: "@ + ports_text(names_view(d.input_names), opt_view(d.input_name), "<missing input>"@),
            "  midi-out: "@ + ports_text(names_view(d.output_names), opt_view(d.output_name), "<missing output>"@),
        ]
}

fn join_names(names: &Vec<String>) -> (r: Vec<char>)
    ensures
        r@ == join_sep(names_view(*names), ", "@),
{
    let mut out: Vec<char> = Vec::new();
    let ghost mut ps: Seq<Seq<char>> = Seq::empty();
    let mut i: usize = 0;
    while i < names.len()
        invariant
            i <= names@.len(),
            ps == names_view(*names).take(i as int),
            out@ == join_sep(ps, ", "@),
        decreases names@.len() - i,
    {
        let n = chars_of(names[i].as_str());
        push_joined(&mut out, &n, ", ", i == 0, Ghost(ps));
        proof {
            ps = ps.push(n@);
            assert(ps =~= names_view(*names).take(i + 1));
        }
        i = i + 1;
    }
    assert(ps =~= names_view(*names));
    out
}

fn ports_line(head: &str, names: &Vec<String>, single: &Option<String>, missing: &str) -> (r: String)
    ensures
        r@ == head@ + ports_text(names_view(*names), opt_view(*single), missing@),
{
    let mut v: Vec<char> = Vec::new();
    push_str(&mut v, head);
    if names.len() == 0 {
        match single {
            Some(x) => push_str(&mut v, x.as_str()),
            None => push_str(&mut v, missing),
        }
    } else {
        let j = join_names(names);
        push_all(&mut v, &j);
    }
    string_of(&v)
}

fn line_of(head: &str, tail: &str) -> (r: String)
    ensures
        r@ == head@ + tail@,
{
    let mut v: Vec<char> = Vec::new();
    push_str(&mut v, head);
    push_str(&mut v, tail);
    string_of(&v)
}

fn push_line_string(out: &mut Vec<String>, l: String)
    ensures
        final(out)@.map_values(|s: String| s@) == old(out)@.map_values(|s: String| s@).push(l@),
{
    let ghost before = out@.map_values(|s: String| s@);
    out.push(l);
    assert(out@.map_values(|s: String| s@) =~= before.push(l@));
}

fn usb_first_line(u: &UsbDeviceInfo) -> (r: String)
    ensures
        r@ == "  usb: "@ + hex_fixed(u.vendor_id as nat, 4) + seq![':'] + hex_fixed(u.product_id as nat, 4),
{
    let mut v: Vec<char> = Vec::new();
    push_str(&mut v, "  usb: ");
    push_hex_fixed(&mut v, u.vendor_id as u64, 4);
    v.push(':');
    push_hex_fixed(&mut v, u.product_id as u64, 4);
    assert(v@ =~= "  usb: "@ + hex_fixed(u.vendor_id as nat, 4) + seq![':'] + hex_fixed(u.product_id as nat, 4));
    string_of(&v)
}

fn usb_address_line(u: &UsbDeviceInfo) -> (r: String)
    ensures
        r@ == "  usb-address: bus "@ + dec_digits(u.bus_number as nat) + " addr "@ + dec_digits(u.address as nat),
{
    let mut a: Vec<char> = Vec::new();
    push_str(&mut a, "  usb-address: bus ");
    push_dec(&mut a, u.bus_number as u64);
    push_str(&mut a, " addr ");
    push_dec(&mut a, u.address as u64);
    string_of(&a)
}

fn usb_ports_line(u: &UsbDeviceInfo) -> (r: String)
    ensures
        r@ == "  usb-ports: "@ + join_sep(u.port_numbers@.map_values(|b: u8| dec_digits(b as nat)), "."@),
{
    let mut pv: Vec<char> = Vec::new();
    push_str(&mut pv, "  usb-ports: ");
    let mut joined: Vec<char> = Vec::new();
    let ghost ds = u.port_numbers@.map_values(|b: u8| dec_digits(b as nat));
    let ghost mut ps: Seq<Seq<char>> = Seq::empty();
    let mut i: usize = 0;
    while i < u.port_numbers.len()
        invariant
            i <= u.port_numbers@.len(),
            ds == u.port_numbers@.map_values(|b: u8| dec_digits(b as nat)),
            ps == ds.take(i as int),
            joined@ == join_sep(ps, "."@),
        decreases u.port_numbers@.len() - i,
    {
        let mut d: Vec<char> = Vec::new();
        push_dec(&mut d, u.port_numbers[i] as u64);
        push_joined(&mut joined, &d, ".", i == 0, Ghost(ps));
        proof {
            ps = ps.push(d@);
            assert(ps =~= ds.take(i + 1));
        }
        i = i + 1;
    }
    assert(ps =~= ds);
    push_all(&mut pv, &joined);
    string_of(&pv)
}

fn push_usb_lines(out: &mut Vec<String>, u: &UsbDeviceInfo)
    ensures
        final(out)@.map_values(|s: String| s@) == old(out)@.map_values(|s: String| s@) + usb_lines(*u),
{
    let ghost start = out@.map_values(|s: String| s@);
    push_line_string(out, usb_first_line(u));
    let ghost p1 = out@.map_values(|s: String| s@);
    match &u.manufacturer {
        Some(m) => push_line_string(out, line_of("  manufacturer: ", m.as_str())),
        None => {},
    }
    let ghost p2 = out@.map_values(|s: String| s@);
    assert(p2 =~= p1 + match u.manufacturer { Some(m) => seq!["  manufacturer: "@ + m@], None => Seq::<Seq<char>>::empty() });
    match &u.serial_number {
        Some(n) => push_line_string(out, line_of("  serial: ", n.as_str())),
        None => {},
    }
    let ghost p3 = out@.map_values(|s: String| s@);
    assert(p3 =~= p2 + match u.serial_number { Some(n) => seq!["  serial: "@ + n@], None => Seq::<Seq<char>>::empty() });
    push_line_string(out, line_of("  location: ", u.location.as_str()));
    push_line_string(out, usb_address_line(u));
    let ghost p4 = out@.map_values(|s: String| s@);
    if u.port_numbers.len() > 0 {
        push_line_string(out, usb_ports_line(u));
    }
    let ghost p5 = out@.map_values(|s: String| s@);
    assert(p5 =~= p4 + (if u.port_numbers@.len() > 0 {
        seq!["  usb-ports: "@ + join_sep(u.port_numbers@.map_values(|b: u8| dec_digits(b as nat)), "."@)]
    } else {
        Seq::<Seq<char>>::empty()
    }));
    let mut f: Vec<char> = Vec::new();
    push_str(&mut f, "  firmware: ");
    match &u.firmware_version {
        Some(x) => push_str(&mut f, x.as_str()),
        None => push_str(&mut f, "unavailable"),
    }
    push_line_string(out, string_of(&f));
    assert(out@.map_values(|s: String| s@) =~= start + usb_lines(*u));
}

/// The lines `list` prints for a device.
pub fn device_listing(d: &ExquisDevice) -> (r: Vec<String>)
    ensures
        r@.map_values(|s: String| s@) == device_listing_spec(*d),
{
    let mut out: Vec<String> = Vec::new();
    let mut first: Vec<char> = Vec::new();
    push_str(&mut first, "[");
    push_dec(&mut first, d.number as u64);
    push_str(&mut first, "] ");
    push_str(&mut first, d.label.as_str());
    push_line_string(&mut out, string_of(&first));
    match &d.usb_info {
        Some(u) => push_line_string(&mut out, line_of("  id: ", u.unique_id.as_str())),
        None => push_line_string(&mut out, line_of("  id: ", "unavailable")),
    }
    let ghost p2 = out@.map_values(|s: String| s@);
    proof {
        reveal_strlit("  firmware: unavailable");
        reveal_strlit("  firmware: ");
        reveal_strlit("unavailable");
        assert("  firmware: unavailable"@ =~= "  firmware: "@ + "unavailable"@);
    }
    match &d.usb_info {
        Some(u) => push_usb_lines(&mut out, u),
        None => push_line_string(&mut out, line_of("  firmware: ", "unavailable")),
    }
    let ghost p3 = out@.map_values(|s: String| s@);
    assert(p3 =~= p2 + match d.usb_info { Some(u) => usb_lines(u), None => seq!["  firmware: unavailable"@] });
    push_line_string(&mut out, ports_line("  midi-in: ", &d.input_names, &d.input_name, "<missing input>"));
    push_line_string(&mut out, ports_line("  midi-out: ", &d.output_names, &d.output_name, "<missing output>"));
    assert(out@.map_values(|s: String| s@) =~= device_listing_spec(*d));
    out
}

} // verus!
