//! What is known of an Exquis on the USB bus, how it is recognised, and
//! the location and identity strings built from its descriptors.
use vstd::prelude::*;

use crate::num::{dec_digits, hex_fixed, parse_hex, parse_hex_bounded, push_dec, push_hex_fixed};
use crate::text::{
    ascii_lower, chars_of, contains, contains_chars, contains_str, find, lower_chars, occurs_at,
    push_all, push_str, slice_of, string_of, trim, trim_chars, trim_str,
};

verus! {

/// An Exquis seen on the USB bus.
#[derive(Debug, Clone)]
pub struct UsbDeviceInfo {
    pub product_name: Option<String>,
    pub manufacturer: Option<String>,
    pub serial_number: Option<String>,
    pub vendor_id: u16,
    pub product_id: u16,
    pub bus_number: u8,
    pub address: u8,
    pub port_numbers: Vec<u8>,
    pub location: String,
    pub unique_id: String,
    pub firmware_version: Option<String>,
}

pub open spec fn opt_view(s: Option<String>) -> Option<Seq<char>> {
    match s {
        Some(x) => Some(x@),
        None => None,
    }
}

/// The contents of a `UsbDeviceInfo`.
pub struct UsbModel {
    pub product_name: Option<Seq<char>>,
    pub manufacturer: Option<Seq<char>>,
    pub serial_number: Option<Seq<char>>,
    pub vendor_id: u16,
    pub product_id: u16,
    pub bus_number: u8,
    pub address: u8,
    pub port_numbers: Seq<u8>,
    pub location: Seq<char>,
    pub unique_id: Seq<char>,
    pub firmware_version: Option<Seq<char>>,
}

impl View for UsbDeviceInfo {
    type V = UsbModel;

    open spec fn view(&self) -> UsbModel {
        UsbModel {
            product_name: opt_view(self.product_name),
            manufacturer: opt_view(self.manufacturer),
            serial_number: opt_view(self.serial_number),
            vendor_id: self.vendor_id,
            product_id: self.product_id,
            bus_number: self.bus_number,
            address: self.address,
            port_numbers: self.port_numbers@,
            location: self.location@,
            unique_id: self.unique_id@,
            firmware_version: opt_view(self.firmware_version),
        }
    }
}

pub fn copy_opt_string(s: &Option<String>) -> (r: Option<String>)
    ensures
        opt_view(r) == opt_view(*s),
{
    match s {
        Some(x) => Some(x.clone()),
        None => None,
    }
}

pub fn copy_bytes(b: &Vec<u8>) -> (r: Vec<u8>)
    ensures
        r@ == b@,
{
    let mut r: Vec<u8> = Vec::new();
    let mut i: usize = 0;
    while i < b.len()
        invariant
            i <= b.len(),
            r@ == b@.take(i as int),
        decreases b.len() - i,
    {
        r.push(b[i]);
        i = i + 1;
        assert(r@ =~= b@.take(i as int));
    }
    assert(b@.take(b.len() as int) =~= b@);
    r
}

impl UsbDeviceInfo {
    /// A copy with the same contents.
    pub fn copy(&self) -> (r: UsbDeviceInfo)
        ensures
            r@ == self@,
    {
        UsbDeviceInfo {
            product_name: copy_opt_string(&self.product_name),
            manufacturer: copy_opt_string(&self.manufacturer),
            serial_number: copy_opt_string(&self.serial_number),
            vendor_id: self.vendor_id,
            product_id: self.product_id,
            bus_number: self.bus_number,
            address: self.address,
            port_numbers: copy_bytes(&self.port_numbers),
            location: self.location.clone(),
            unique_id: self.unique_id.clone(),
            firmware_version: copy_opt_string(&self.firmware_version),
        }
    }
}

/// Trimmed and ASCII-lower-cased.
pub open spec fn normalized(s: Seq<char>) -> Seq<char> {
    ascii_lower(trim(s))
}

pub fn normalize(value: &str) -> (r: Vec<char>)
    ensures
        r@ == normalized(value@),
{
    let t = trim_str(value);
    lower_chars(&t)
}

/// The device answers to a port label: its product name and the label
/// contain one another, or its maker is Intuitive Instruments / Exquis, or
/// its identity names Exquis (all compared trimmed and lower-cased).
pub open spec fn matches_label_spec(u: UsbModel, label: Seq<char>) -> bool {
    let n = normalized(label);
    ||| (u.product_name matches Some(p) && (contains(normalized(p), n) || contains(n, normalized(p))))
    ||| (u.manufacturer matches Some(m) && (contains(normalized(m), "intuitive"@) || contains(
        normalized(m),
        "exquis"@,
    )))
    ||| contains(normalized(u.unique_id), "exquis"@)
}

impl UsbDeviceInfo {
    pub fn matches_label(&self, label: &str) -> (r: bool)
        ensures
            r == matches_label_spec(self@, label@),
    {
        let n = normalize(label);
        let by_product = match &self.product_name {
            Some(p) => {
                let np = normalize(p.as_str());
                contains_chars(&np, &n) || contains_chars(&n, &np)
            },
            None => false,
        };
        let by_maker = match &self.manufacturer {
            Some(m) => {
                let nm = normalize(m.as_str());
                contains_str(&nm, "intuitive") || contains_str(&nm, "exquis")
            },
            None => false,
        };
        let nu = normalize(self.unique_id.as_str());
        by_product || by_maker || contains_str(&nu, "exquis")
    }
}

/// `{:03}` of a byte.
pub open spec fn pad3(n: u8) -> Seq<char> {
    if n < 10 {
        seq!['0', '0'] + dec_digits(n as nat)
    } else if n < 100 {
        seq!['0'] + dec_digits(n as nat)
    } else {
        dec_digits(n as nat)
    }
}

fn push_pad3(v: &mut Vec<char>, n: u8)
    ensures
        final(v)@ == old(v)@ + pad3(n),
{
    if n < 10 {
        v.push('0');
        v.push('0');
    } else if n < 100 {
        v.push('0');
    }
    push_dec(v, n as u64);
    assert(final(v)@ =~= old(v)@ + pad3(n));
}

/// Port numbers joined by dots.
pub open spec fn dotted(p: Seq<u8>) -> Seq<char>
    decreases p.len(),
{
    if p.len() == 0 {
        Seq::empty()
    } else if p.len() == 1 {
        dec_digits(p[0] as nat)
    } else {
        dotted(p.drop_last()) + seq!['.'] + dec_digits(p.last() as nat)
    }
}

/// `bus-BBB/addr-AAA`, or `bus-BBB/ports-P.Q/addr-AAA` when the port path
/// is known.
pub open spec fn location_spec(bus: u8, address: u8, ports: Seq<u8>) -> Seq<char> {
    if ports.len() == 0 {
        "bus-"@ + pad3(bus) + "/addr-"@ + pad3(address)
    } else {
        "bus-"@ + pad3(bus) + "/ports-"@ + dotted(ports) + "/addr-"@ + pad3(address)
    }
}

pub fn format_location(bus_number: u8, address: u8, port_numbers: &[u8]) -> (r: String)
    ensures
        r@ == location_spec(bus_number, address, port_numbers@),
{
    let mut v: Vec<char> = Vec::new();
    push_str(&mut v, "bus-");
    push_pad3(&mut v, bus_number);
    if port_numbers.len() > 0 {
        push_str(&mut v, "/ports-");
        let ghost head = v@;
        let mut i: usize = 0;
        while i < port_numbers.len()
            invariant
                i <= port_numbers.len(),
                v@ == head + dotted(port_numbers@.take(i as int)),
            decreases port_numbers.len() - i,
        {
            if i > 0 {
                v.push('.');
            }
            push_dec(&mut v, port_numbers[i] as u64);
            let ghost t = port_numbers@.take(i + 1);
            assert(t.drop_last() =~= port_numbers@.take(i as int));
            if i == 0 {
                assert(port_numbers@.take(0) =~= Seq::<u8>::empty());
            }
            i = i + 1;
            assert(v@ =~= head + dotted(port_numbers@.take(i as int)));
        }
        assert(port_numbers@.take(port_numbers.len() as int) =~= port_numbers@);
    }
    push_str(&mut v, "/addr-");
    push_pad3(&mut v, address);
    assert(v@ =~= location_spec(bus_number, address, port_numbers@));
    string_of(&v)
}

/// The identity of a device without a serial: `usb:VVVV:PPPP:location`.
pub open spec fn fallback_id(vendor_id: u16, product_id: u16, rest: Seq<char>) -> Seq<char> {
    "usb:"@ + hex_fixed(vendor_id as nat, 4) + ":"@ + hex_fixed(product_id as nat, 4) + ":"@ + rest
}

fn fallback_id_exec(vendor_id: u16, product_id: u16, rest: &str) -> (r: String)
    ensures
        r@ == fallback_id(vendor_id, product_id, rest@),
{
    let mut v: Vec<char> = Vec::new();
    push_str(&mut v, "usb:");
    push_hex_fixed(&mut v, vendor_id as u64, 4);
    push_str(&mut v, ":");
    push_hex_fixed(&mut v, product_id as u64, 4);
    push_str(&mut v, ":");
    push_str(&mut v, rest);
    string_of(&v)
}

/// A device is an Exquis when its product names Exquis or its maker is
/// Intuitive Instruments / Dualo.
pub open spec fn is_exquis_spec(product: Option<Seq<char>>, maker: Option<Seq<char>>) -> bool {
    ||| (product matches Some(p) && contains(normalized(p), "exquis"@))
    ||| (maker matches Some(m) && (contains(normalized(m), "intuitive"@) || contains(normalized(m), "dualo"@)))
}

/// The `UsbDeviceInfo` of a device read off the bus, if it is an Exquis:
/// its location from bus, address and port path; its identity the serial,
/// else `usb:VVVV:PPPP:location`.
pub fn describe_usb_device(
    product_name: Option<String>,
    manufacturer: Option<String>,
    serial_number: Option<String>,
    vendor_id: u16,
    product_id: u16,
    bus_number: u8,
    address: u8,
    port_numbers: Vec<u8>,
) -> (r: Option<UsbDeviceInfo>)
    ensures
        match r {
            None => !is_exquis_spec(opt_view(product_name), opt_view(manufacturer)),
            Some(u) => {
                &&& is_exquis_spec(opt_view(product_name), opt_view(manufacturer))
                &&& u@.product_name == opt_view(product_name)
                &&& u@.manufacturer == opt_view(manufacturer)
                &&& u@.serial_number == opt_view(serial_number)
                &&& u.vendor_id == vendor_id && u.product_id == product_id
                &&& u.bus_number == bus_number && u.address == address
                &&& u.port_numbers@ == port_numbers@
                &&& u.location@ == location_spec(bus_number, address, port_numbers@)
                &&& u.unique_id@ == match serial_number {
                    Some(s) => s@,
                    None => fallback_id(vendor_id, product_id, location_spec(bus_number, address, port_numbers@)),
                }
                &&& u.firmware_version is None
            },
        },
{
    let by_product = match &product_name {
        Some(p) => {
            let np = normalize(p.as_str());
            contains_str(&np, "exquis")
        },
        None => false,
    };
    let by_maker = match &manufacturer {
        Some(m) => {
            let nm = normalize(m.as_str());
            contains_str(&nm, "intuitive") || contains_str(&nm, "dualo")
        },
        None => false,
    };
    if !(by_product || by_maker) {
        return None;
    }
    let location = format_location(bus_number, address, &port_numbers);
    let unique_id = match &serial_number {
        Some(s) => s.clone(),
        None => fallback_id_exec(vendor_id, product_id, location.as_str()),
    };
    Some(
        UsbDeviceInfo {
            product_name,
            manufacturer,
            serial_number,
            vendor_id,
            product_id,
            bus_number,
            address,
            port_numbers,
            location,
            unique_id,
            firmware_version: None,
        },
    )
}

/// Where `p` first occurs in `s`.
pub open spec fn first_occurrence(s: Seq<char>, p: Seq<char>) -> int {
    choose|i: int| occurs_at(s, p, i) && forall|k: int| 0 <= k < i ==> !occurs_at(s, p, k)
}

/// `i` is where `p` first occurs in `s`.
pub proof fn lemma_first_occurrence_at(s: Seq<char>, p: Seq<char>, i: int)
    requires
        occurs_at(s, p, i),
        forall|k: int| 0 <= k < i ==> !occurs_at(s, p, k),
    ensures
        contains(s, p),
        first_occurrence(s, p) == i,
{
    let f = first_occurrence(s, p);
    assert(occurs_at(s, p, f) && forall|k: int| 0 <= k < f ==> !occurs_at(s, p, k));
    if f < i {
        assert(!occurs_at(s, p, f));
    }
    if i < f {
        assert(!occurs_at(s, p, i));
    }
}

/// The four characters after the first `needle` in `input`, read as
/// hexadecimal (`None` when `needle` is absent, too close to the end, or
/// not followed by a number).
#[verifier::opaque]
pub open spec fn hex_after_spec(input: Seq<char>, needle: Seq<char>) -> Option<int> {
    if !contains(input, needle) {
        None
    } else {
        let start = first_occurrence(input, needle) + needle.len();
        if start + 4 <= input.len() {
            parse_hex_bounded(input.subrange(start, start + 4), 0xFFFF)
        } else {
            None
        }
    }
}

pub fn extract_hex_after(input: &str, needle: &str) -> (r: Option<u16>)
    ensures
        match r {
            Some(v) => hex_after_spec(input@, needle@) == Some(v as int),
            None => hex_after_spec(input@, needle@) is None,
        },
{
    reveal(hex_after_spec);
    let s = chars_of(input);
    let nd = chars_of(needle);
    let i = match find(&s, &nd) {
        Some(i) => i,
        None => {
            return None;
        },
    };
    proof {
        let f = first_occurrence(s@, nd@);
        assert(occurs_at(s@, nd@, i as int));
        assert(occurs_at(s@, nd@, f) && forall|k: int| 0 <= k < f ==> !occurs_at(s@, nd@, k));
        if f < i {
            assert(!occurs_at(s@, nd@, f));
        }
        if i < f {
            assert(!occurs_at(s@, nd@, i as int));
        }
        assert(f == i);
    }
    if nd.len() > s.len() - i || s.len() - i - nd.len() < 4 {
        return None;
    }
    let start = i + nd.len();
    let part = slice_of(&s, start, start + 4);
    match parse_hex(&part, 0xFFFF) {
        Some(v) => Some(v as u16),
        None => None,
    }
}

/// The ids of the first hardware id (lower-cased) naming both `vid_` and
/// `pid_` with a number; `(0, 0)` when none does.
pub open spec fn vid_pid_spec(ids: Seq<Seq<char>>) -> (u16, u16)
    decreases ids.len(),
{
    if ids.len() == 0 {
        (0u16, 0u16)
    } else {
        let l = ascii_lower(ids[0]);
        match (hex_after_spec(l, "vid_"@), hex_after_spec(l, "pid_"@)) {
            (Some(v), Some(p)) => (v as u16, p as u16),
            _ => vid_pid_spec(ids.drop_first()),
        }
    }
}

pub fn parse_vid_pid(hardware_ids: &[String]) -> (r: (u16, u16))
    ensures
        r == vid_pid_spec(hardware_ids@.map_values(|s: String| s@)),
{
    let ghost ids = hardware_ids@.map_values(|s: String| s@);
    let mut i: usize = 0;
    assert(ids.skip(0) =~= ids);
    while i < hardware_ids.len()
        invariant
            i <= hardware_ids.len(),
            ids == hardware_ids@.map_values(|s: String| s@),
            vid_pid_spec(ids) == vid_pid_spec(ids.skip(i as int)),
        decreases hardware_ids.len() - i,
    {
        let raw = chars_of(hardware_ids[i].as_str());
        let lowered = lower_chars(&raw);
        let text = string_of(&lowered);
        proof {
            assert(ids.skip(i as int).drop_first() =~= ids.skip(i + 1));
            assert(ids.skip(i as int)[0] == hardware_ids[i as int]@);
            assert(text@ == ascii_lower(ids.skip(i as int)[0]));
        }
        let v = extract_hex_after(text.as_str(), "vid_");
        let p = extract_hex_after(text.as_str(), "pid_");
        if v.is_some() && p.is_some() {
            return (v.unwrap(), p.unwrap());
        }
        i = i + 1;
    }
    (0, 0)
}

/// The last `\`-separated component of a device id, trimmed; none when
/// it is empty.
pub open spec fn tail_component(id: Seq<char>) -> Seq<char> {
    if crate::text::has_char(id, '\\') {
        trim(id.skip(crate::text::last_index(id, '\\') + 1))
    } else {
        trim(id)
    }
}

pub fn extract_tail_component(device_id: &str) -> (r: Option<String>)
    ensures
        match r {
            Some(s) => s@ == tail_component(device_id@) && s@.len() > 0,
            None => tail_component(device_id@).len() == 0,
        },
{
    let s = chars_of(device_id);
    let start = match crate::text::rfind_char(&s, '\\') {
        Some(i) => {
            proof {
                crate::text::lemma_last_index_unique(s@, '\\', i as int);
            }
            assert(i < s.len());
            i + 1
        },
        None => 0,
    };
    let part = slice_of(&s, start, s.len());
    assert(part@ == s@.skip(start as int)) by {
        assert(part@ =~= s@.skip(start as int));
    }
    assert(start == 0 ==> part@ =~= s@);
    let t = trim_chars(&part);
    if t.len() == 0 {
        None
    } else {
        Some(string_of(&t))
    }
}

/// The numbers among `parts` that read as bytes, in order.
pub open spec fn byte_parts(parts: Seq<Seq<char>>) -> Seq<u8>
    decreases parts.len(),
{
    if parts.len() == 0 {
        Seq::empty()
    } else {
        let r = byte_parts(parts.drop_last());
        match crate::num::parse_bounded(parts.last(), 255) {
            Some(v) => r.push(v as u8),
            None => r,
        }
    }
}

/// The port path of a USB device named `BUS-P1.P2...` on the bus (as in
/// sysfs): the numbers after the first `-`, split at `.`; parts that are not
/// bytes are skipped, and a name without `-` has no ports.
pub open spec fn port_path_spec(name: Seq<char>) -> Seq<u8> {
    match crate::text::split_once(name, '-') {
        Some((_bus, path)) => byte_parts(crate::text::split_on(path, '.')),
        None => Seq::empty(),
    }
}

/// The port numbers in a bus device name such as `1-1.4`.
pub fn port_path(name: &str) -> (r: Vec<u8>)
    ensures
        r@ == port_path_spec(name@),
{
    let cs = chars_of(name);
    let mut out: Vec<u8> = Vec::new();
    match crate::text::split_once_chars(&cs, '-') {
        Some((_bus, path)) => {
            let parts = crate::text::split_chars(&path, '.');
            let ghost ps = crate::text::split_on(path@, '.');
            let mut i: usize = 0;
            while i < parts.len()
                invariant
                    i <= parts@.len(),
                    parts@.len() == ps.len(),
                    forall|k: int| 0 <= k < parts@.len() ==> (#[trigger] parts@[k])@ == ps[k],
                    out@ == byte_parts(ps.take(i as int)),
                decreases parts@.len() - i,
            {
                assert(ps.take(i + 1).drop_last() =~= ps.take(i as int));
                assert(ps.take(i + 1).last() == parts@[i as int]@);
                match crate::num::parse_u8(&parts[i]) {
                    Some(v) => {
                        out.push(v);
                    },
                    None => {},
                }
                i = i + 1;
            }
            assert(ps.take(parts@.len() as int) =~= ps);
        },
        None => {},
    }
    out
}

} // verus!
