//! Exquis colours, developer-mode SysEx messages and control names.
use vstd::prelude::*;

use crate::num::{dec_digits, fmt_u64, parse_bounded, parse_u16, parse_u8};
use crate::text::{
    ascii_lower, chars_of, eq_str, lower_chars, push_all, push_str, replace_char, replace_chars,
    split_chars, split_on, string_of, trim, trim_chars, trim_str,
};

verus! {

/// A pad colour in the Exquis 7-bit range (each channel 0..=127 in use).
#[derive(Debug, Clone, Copy, PartialEq, Eq, Structural)]
pub struct Color {
    pub red: u8,
    pub green: u8,
    pub blue: u8,
}

/// Why a colour could not be read.
#[derive(Debug, Clone, Copy, PartialEq, Eq, Structural)]
pub enum ColorError {
    /// A hex colour that is not 6 or 8 characters long.
    HexLength,
    /// A hex colour with a character that is not a hex digit.
    HexDigit,
    /// Neither a colour name nor three comma-separated values.
    NotNameOrRgb,
    /// One of the three values is not a number.
    RgbValue,
    /// One of the three values is above 255.
    RgbRange,
}

/// 8-bit channel value scaled uniformly to the 7-bit range.
pub open spec fn scale_to_7bit(v: int) -> int {
    (v * 127 + 127) / 255
}

fn scale8(v: u16) -> (r: u8)
    requires
        v <= 255,
    ensures
        r as int == scale_to_7bit(v as int),
        r <= 127,
{
    ((v as u32 * 127 + 127) / 255) as u8
}

/// The named colours `Color::named` knows (name already trimmed and lowered).
pub open spec fn named_spec(l: Seq<char>) -> Option<Color> {
    if l == "black"@ {
        Some(Color { red: 0, green: 0, blue: 0 })
    } else if l == "red"@ {
        Some(Color { red: 127, green: 0, blue: 0 })
    } else if l == "green"@ {
        Some(Color { red: 0, green: 127, blue: 0 })
    } else if l == "blue"@ {
        Some(Color { red: 0, green: 0, blue: 127 })
    } else if l == "amber"@ {
        Some(Color { red: 127, green: 64, blue: 0 })
    } else if l == "yellow"@ {
        Some(Color { red: 127, green: 127, blue: 0 })
    } else if l == "cyan"@ {
        Some(Color { red: 0, green: 127, blue: 127 })
    } else if l == "magenta"@ {
        Some(Color { red: 127, green: 0, blue: 127 })
    } else if l == "white"@ {
        Some(Color { red: 127, green: 127, blue: 127 })
    } else if l == "orange"@ {
        Some(Color { red: 127, green: 40, blue: 0 })
    } else if l == "purple"@ {
        Some(Color { red: 72, green: 0, blue: 96 })
    } else {
        None
    }
}

/// Byte is a UTF-8 continuation byte (slicing before it splits a character).
pub open spec fn is_continuation(b: u8) -> bool {
    0x80 <= b < 0xC0
}

/// An ASCII hex digit byte.
pub open spec fn is_hex_byte(b: u8) -> bool {
    (0x30 <= b <= 0x39) || (0x41 <= b <= 0x46) || (0x61 <= b <= 0x66)
}

/// Value of an ASCII hex digit byte.
pub open spec fn hex_byte_value(b: u8) -> int {
    if b <= 0x39 {
        b - 0x30
    } else if b <= 0x46 {
        b - 0x37
    } else {
        b - 0x57
    }
}

/// `u8::from_str_radix(s, 16)` on the two-byte text `[a, b]`.
pub open spec fn hex_pair(a: u8, b: u8) -> Option<int> {
    if a == 0x2B {
        if is_hex_byte(b) {
            Some(hex_byte_value(b))
        } else {
            None
        }
    } else if is_hex_byte(a) && is_hex_byte(b) {
        Some(16 * hex_byte_value(a) + hex_byte_value(b))
    } else {
        None
    }
}

/// `bytes` without all leading `b`.
pub open spec fn strip_leading_byte(s: Seq<u8>, b: u8) -> Seq<u8>
    decreases s.len(),
{
    if s.len() > 0 && s[0] == b {
        strip_leading_byte(s.drop_first(), b)
    } else {
        s
    }
}

/// Three 8-bit channels from `RRGGBB` or `AARRGGBB` bytes (alpha dropped).
/// Where cutting the text into two-byte pieces would split a character, the
/// result is `HexDigit`.
pub open spec fn hex_rgb(h: Seq<u8>) -> Result<(int, int, int), ColorError> {
    if h.len() == 8 && is_continuation(h[2]) {
        Err(ColorError::HexDigit)
    } else {
        let h2 = if h.len() == 8 {
            h.skip(2)
        } else {
            h
        };
        if h2.len() != 6 {
            Err(ColorError::HexLength)
        } else if is_continuation(h2[2]) || is_continuation(h2[4]) {
            Err(ColorError::HexDigit)
        } else {
            match (hex_pair(h2[0], h2[1]), hex_pair(h2[2], h2[3]), hex_pair(h2[4], h2[5])) {
                (Some(r), Some(g), Some(b)) => Ok((r, g, b)),
                _ => Err(ColorError::HexDigit),
            }
        }
    }
}

/// `Color::from_hex` on the UTF-8 bytes of the trimmed input: an optional
/// run of leading `#` is dropped, then each 8-bit channel is scaled to 7 bits.
pub open spec fn from_hex_bytes(t: Seq<u8>) -> Result<Color, ColorError> {
    match hex_rgb(strip_leading_byte(t, 0x23)) {
        Ok((r, g, b)) => Ok(
            Color {
                red: scale_to_7bit(r) as u8,
                green: scale_to_7bit(g) as u8,
                blue: scale_to_7bit(b) as u8,
            },
        ),
        Err(e) => Err(e),
    }
}

/// `Color::from_hex` on text.
pub open spec fn from_hex_spec(s: Seq<char>) -> Result<Color, ColorError> {
    from_hex_bytes(vstd::utf8::encode_utf8(trim(s)))
}

/// One component of `r,g,b`: `Err` for a non-number, `Ok(None)` for a number
/// above 255, otherwise the scaled value.
pub open spec fn rgb_component(part: Seq<char>) -> Result<Option<int>, ()> {
    match parse_bounded(trim(part), 65535) {
        None => Err(()),
        Some(v) => if v > 255 {
            Ok(None)
        } else {
            Ok(Some(scale_to_7bit(v)))
        },
    }
}

/// The first error among the first `n` components, or the scaled values.
pub open spec fn rgb_components(parts: Seq<Seq<char>>) -> Result<Color, ColorError> {
    match rgb_component(parts[0]) {
        Err(_) => Err(ColorError::RgbValue),
        Ok(None) => Err(ColorError::RgbRange),
        Ok(Some(r)) => match rgb_component(parts[1]) {
            Err(_) => Err(ColorError::RgbValue),
            Ok(None) => Err(ColorError::RgbRange),
            Ok(Some(g)) => match rgb_component(parts[2]) {
                Err(_) => Err(ColorError::RgbValue),
                Ok(None) => Err(ColorError::RgbRange),
                Ok(Some(b)) => Ok(Color { red: r as u8, green: g as u8, blue: b as u8 }),
            },
        },
    }
}

/// `Color::from_str`: a colour name, or `r,g,b` with 8-bit values.
pub open spec fn color_from_str_spec(s: Seq<char>) -> Result<Color, ColorError> {
    match named_spec(ascii_lower(trim(s))) {
        Some(c) => Ok(c),
        None => {
            let parts = split_on(s, ',');
            if parts.len() != 3 {
                Err(ColorError::NotNameOrRgb)
            } else {
                rgb_components(parts)
            }
        },
    }
}

fn hex_byte(b: u8) -> (r: Option<u8>)
    ensures
        match r {
            Some(v) => is_hex_byte(b) && v as int == hex_byte_value(b) && v < 16,
            None => !is_hex_byte(b),
        },
{
    if 0x30 <= b && b <= 0x39 {
        Some(b - 0x30)
    } else if 0x41 <= b && b <= 0x46 {
        Some(b - 0x37)
    } else if 0x61 <= b && b <= 0x66 {
        Some(b - 0x57)
    } else {
        None
    }
}

fn hex_pair_exec(a: u8, b: u8) -> (r: Option<u16>)
    ensures
        match r {
            Some(v) => hex_pair(a, b) == Some(v as int) && v <= 255,
            None => hex_pair(a, b) is None,
        },
{
    if a == 0x2B {
        match hex_byte(b) {
            Some(v) => Some(v as u16),
            None => None,
        }
    } else {
        match (hex_byte(a), hex_byte(b)) {
            (Some(x), Some(y)) => Some(16 * (x as u16) + y as u16),
            _ => None,
        }
    }
}

/// `hex_rgb` on `t[start..]`.
pub fn hex_rgb_exec(t: &[u8], start: usize) -> (r: Result<(u8, u8, u8), ColorError>)
    requires
        start <= t@.len(),
    ensures
        match r {
            Ok((a, b, c)) => hex_rgb(t@.skip(start as int)) == Ok::<(int, int, int), ColorError>(
                (a as int, b as int, c as int),
            ),
            Err(e) => hex_rgb(t@.skip(start as int)) == Err::<(int, int, int), ColorError>(e),
        },
{
    let n = t.len();
    let ghost h = t@.skip(start as int);
    let len = n - start;
    if len == 8 && 0x80 <= t[start + 2] && t[start + 2] < 0xC0 {
        return Err(ColorError::HexDigit);
    }
    let s = if len == 8 {
        start + 2
    } else {
        start
    };
    let ghost h2 = if h.len() == 8 {
        h.skip(2)
    } else {
        h
    };
    assert(h2 =~= t@.skip(s as int));
    if n - s != 6 {
        return Err(ColorError::HexLength);
    }
    if (0x80 <= t[s + 2] && t[s + 2] < 0xC0) || (0x80 <= t[s + 4] && t[s + 4] < 0xC0) {
        return Err(ColorError::HexDigit);
    }
    let r = hex_pair_exec(t[s], t[s + 1]);
    let g = hex_pair_exec(t[s + 2], t[s + 3]);
    let b = hex_pair_exec(t[s + 4], t[s + 5]);
    match (r, g, b) {
        (Some(r), Some(g), Some(b)) => Ok((r as u8, g as u8, b as u8)),
        _ => Err(ColorError::HexDigit),
    }
}

fn from_hex_exec(t: &[u8]) -> (r: Result<Color, ColorError>)
    ensures
        r == from_hex_bytes(t@),
{
    let n = t.len();
    let mut i: usize = 0;
    assert(t@.skip(0) =~= t@);
    while i < n && t[i] == 0x23
        invariant
            n == t@.len(),
            i <= n,
            strip_leading_byte(t@, 0x23) == strip_leading_byte(t@.skip(i as int), 0x23),
        decreases n - i,
    {
        assert(t@.skip(i as int).drop_first() =~= t@.skip(i + 1));
        i += 1;
    }
    assert(strip_leading_byte(t@.skip(i as int), 0x23) == t@.skip(i as int));
    match hex_rgb_exec(t, i) {
        Ok((r, g, b)) => Ok(
            Color { red: scale8(r as u16), green: scale8(g as u16), blue: scale8(b as u16) },
        ),
        Err(e) => Err(e),
    }
}

impl Color {
    /// A colour from its three channels.
    pub fn new(red: u8, green: u8, blue: u8) -> (c: Self)
        ensures
            c == (Color { red, green, blue }),
    {
        Color { red, green, blue }
    }

    /// One of the eleven named colours (case-insensitive, surrounding
    /// whitespace ignored).
    pub fn named(name: &str) -> (r: Option<Self>)
        ensures
            r == named_spec(ascii_lower(trim(name@))),
    {
        let t = trim_str(name);
        let l = lower_chars(&t);
        if eq_str(&l, "black") {
            Some(Color::new(0, 0, 0))
        } else if eq_str(&l, "red") {
            Some(Color::new(127, 0, 0))
        } else if eq_str(&l, "green") {
            Some(Color::new(0, 127, 0))
        } else if eq_str(&l, "blue") {
            Some(Color::new(0, 0, 127))
        } else if eq_str(&l, "amber") {
            Some(Color::new(127, 64, 0))
        } else if eq_str(&l, "yellow") {
            Some(Color::new(127, 127, 0))
        } else if eq_str(&l, "cyan") {
            Some(Color::new(0, 127, 127))
        } else if eq_str(&l, "magenta") {
            Some(Color::new(127, 0, 127))
        } else if eq_str(&l, "white") {
            Some(Color::new(127, 127, 127))
        } else if eq_str(&l, "orange") {
            Some(Color::new(127, 40, 0))
        } else if eq_str(&l, "purple") {
            Some(Color::new(72, 0, 96))
        } else {
            None
        }
    }

    /// The four data bytes the Exquis expects for a colour: r, g, b, 0.
    pub fn to_7bit(self) -> (r: [u8; 4])
        ensures
            r@ == seq![self.red, self.green, self.blue, 0u8],
    {
        let r = [self.red, self.green, self.blue, 0x00];
        assert(r@ =~= seq![self.red, self.green, self.blue, 0u8]);
        r
    }

    /// Reads `RRGGBB` or `AARRGGBB` hex (alpha ignored, optional leading `#`),
    /// scaling each 8-bit channel to 7 bits.
    pub fn from_hex(hex: &str) -> (r: Result<Self, ColorError>)
        ensures
            r == from_hex_spec(hex@),
    {
        let t = trim_str(hex);
        let s = string_of(&t);
        let bytes = s.as_str().as_bytes();
        from_hex_exec(bytes)
    }

    /// `Color::from_str`: a colour name, or `r,g,b` with 8-bit values scaled
    /// to 7 bits.
    pub fn parse(input: &str) -> (r: Result<Self, ColorError>)
        ensures
            r == color_from_str_spec(input@),
    {
        if let Some(c) = Color::named(input) {
            return Ok(c);
        }
        let chars = chars_of(input);
        let parts = split_chars(&chars, ',');
        if parts.len() != 3 {
            return Err(ColorError::NotNameOrRgb);
        }
        let mut rgb: [u8; 3] = [0, 0, 0];
        let mut i: usize = 0;
        while i < 3
            invariant
                parts@.len() == 3,
                split_on(input@, ',').len() == 3,
                named_spec(ascii_lower(trim(input@))) is None,
                forall|j: int| 0 <= j < 3 ==> (#[trigger] parts@[j])@ == split_on(input@, ',')[j],
                i <= 3,
                forall|j: int|
                    0 <= j < i ==> rgb_component(split_on(input@, ',')[j]) == Ok::<
                        Option<int>,
                        (),
                    >(Some(rgb@[j] as int)),
            decreases 3 - i,
        {
            let part = trim_chars(&parts[i]);
            match parse_u16(&part) {
                None => {
                    proof {
                        let ps = split_on(input@, ',');
                        assert(rgb_component(ps[i as int]) is Err);
                        if i >= 1 { assert(rgb_component(ps[0]) == Ok::<Option<int>, ()>(Some(rgb@[0] as int))); }
                        if i >= 2 { assert(rgb_component(ps[1]) == Ok::<Option<int>, ()>(Some(rgb@[1] as int))); }
                    }
                    return Err(ColorError::RgbValue);
                },
                Some(v) => {
                    if v > 255 {
                        proof {
                            let ps = split_on(input@, ',');
                            assert(rgb_component(ps[i as int]) == Ok::<Option<int>, ()>(None));
                            if i >= 1 { assert(rgb_component(ps[0]) == Ok::<Option<int>, ()>(Some(rgb@[0] as int))); }
                            if i >= 2 { assert(rgb_component(ps[1]) == Ok::<Option<int>, ()>(Some(rgb@[1] as int))); }
                        }
                        return Err(ColorError::RgbRange);
                    }
                    rgb[i] = scale8(v);
                },
            }
            i += 1;
        }
        proof {
            let ps = split_on(input@, ',');
            assert(rgb_component(ps[0]) == Ok::<Option<int>, ()>(Some(rgb@[0] as int)));
            assert(rgb_component(ps[1]) == Ok::<Option<int>, ()>(Some(rgb@[1] as int)));
            assert(rgb_component(ps[2]) == Ok::<Option<int>, ()>(Some(rgb@[2] as int)));
        }
        Ok(Color::new(rgb[0], rgb[1], rgb[2]))
    }

    /// `Display`: `r,g,b` in decimal.
    pub fn to_display_string(&self) -> (s: String)
        ensures
            s@ == dec_digits(self.red as nat) + seq![','] + dec_digits(self.green as nat) + seq![
                ',',
            ] + dec_digits(self.blue as nat),
    {
        let mut v = fmt_u64(self.red as u64);
        v.push(',');
        let g = fmt_u64(self.green as u64);
        push_all(&mut v, &g);
        v.push(',');
        let b = fmt_u64(self.blue as u64);
        push_all(&mut v, &b);
        string_of(&v)
    }
}

impl std::str::FromStr for Color {
    type Err = ColorError;

    fn from_str(input: &str) -> (r: Result<Self, ColorError>)
        ensures
            r == color_from_str_spec(input@),
    {
        Color::parse(input)
    }
}

/// What the colour arguments accept.
pub fn color_help_text() -> (s: &'static str)
    ensures
        s@ == "named colors like black, amber, red or RGB like 255,128,0"@,
{
    "named colors like black, amber, red or RGB like 255,128,0"
}

/// Exquis zones a developer-mode mask can take over.
#[derive(Debug, Clone, Copy, PartialEq, Eq, Structural)]
pub enum NamedZone {
    Pads,
    Encoders,
    Slider,
    UpDown,
    Settings,
    OtherButtons,
}

impl NamedZone {
    /// The zone's bit in the developer-mode mask.
    pub fn bit(self) -> (b: u8)
        ensures
            b == match self {
                NamedZone::Pads => 0x01u8,
                NamedZone::Encoders => 0x02u8,
                NamedZone::Slider => 0x04u8,
                NamedZone::UpDown => 0x08u8,
                NamedZone::Settings => 0x10u8,
                NamedZone::OtherButtons => 0x20u8,
            },
    {
        match self {
            NamedZone::Pads => 0x01,
            NamedZone::Encoders => 0x02,
            NamedZone::Slider => 0x04,
            NamedZone::UpDown => 0x08,
            NamedZone::Settings => 0x10,
            NamedZone::OtherButtons => 0x20,
        }
    }
}

/// Developer-mode mask for every zone except the pads (0x3E).
pub const DEV_MASK_NO_PADS: u8 = 0x3E;

/// The SysEx header every Exquis developer-mode message starts with.
pub open spec fn sysex_header() -> Seq<u8> {
    seq![0xF0u8, 0x00u8, 0x21u8, 0x7Eu8, 0x7Fu8]
}

/// SysEx that enters developer mode for the zones in `mask` (0 leaves it).
pub fn enter_dev_mode(mask: u8) -> (r: Vec<u8>)
    ensures
        r@ == sysex_header() + seq![0x00u8, mask, 0xF7u8],
{
    let r = vec![0xF0, 0x00, 0x21, 0x7E, 0x7F, 0x00, mask, 0xF7];
    assert(r@ =~= sysex_header() + seq![0x00u8, mask, 0xF7u8]);
    r
}

/// SysEx that leaves developer mode.
pub fn exit_dev_mode() -> (r: Vec<u8>)
    ensures
        r@ == sysex_header() + seq![0x00u8, 0x00u8, 0xF7u8],
{
    enter_dev_mode(0x00)
}

/// The four colour bytes of `c`.
pub open spec fn color_bytes(c: Color) -> Seq<u8> {
    seq![c.red, c.green, c.blue, 0u8]
}

/// SysEx that sets the LED of control `pad` to `color`.
pub fn set_led_color(pad: u8, color: Color) -> (r: Vec<u8>)
    ensures
        r@ == sysex_header() + seq![0x04u8, pad] + color_bytes(color) + seq![0xF7u8],
{
    let mut bytes = vec![0xF0, 0x00, 0x21, 0x7E, 0x7F, 0x04, pad];
    bytes.push(color.red);
    bytes.push(color.green);
    bytes.push(color.blue);
    bytes.push(0x00);
    bytes.push(0xF7);
    assert(bytes@ =~= sysex_header() + seq![0x04u8, pad] + color_bytes(color) + seq![0xF7u8]);
    bytes
}

/// `color_bytes(c)` repeated `n` times.
pub open spec fn repeat_color(c: Color, n: nat) -> Seq<u8>
    decreases n,
{
    if n == 0 {
        seq![]
    } else {
        repeat_color(c, (n - 1) as nat) + color_bytes(c)
    }
}

spec fn group_is(s: Seq<u8>, i: int, c: Color) -> bool {
    &&& s[4 * i] == c.red
    &&& s[4 * i + 1] == c.green
    &&& s[4 * i + 2] == c.blue
    &&& s[4 * i + 3] == 0
}

proof fn lemma_repeat_color_bytes(c: Color, n: nat)
    ensures
        repeat_color(c, n).len() == 4 * n,
        forall|i: int| 0 <= i < n ==> #[trigger] group_is(repeat_color(c, n), i, c),
    decreases n,
{
    if n > 0 {
        let m = (n - 1) as nat;
        lemma_repeat_color_bytes(c, m);
        let r = repeat_color(c, n);
        let q = repeat_color(c, m);
        assert(r == q + color_bytes(c));
        assert forall|i: int| 0 <= i < n implies #[trigger] group_is(r, i, c) by {
            if i < m {
                assert(group_is(q, i, c));
                assert(r[4 * i] == q[4 * i]);
                assert(r[4 * i + 1] == q[4 * i + 1]);
                assert(r[4 * i + 2] == q[4 * i + 2]);
                assert(r[4 * i + 3] == q[4 * i + 3]);
            } else {
                assert(4 * i == 4 * m);
            }
        }
    }
}

/// The fill message is the 7-byte header `F0 00 21 7E 7F 04 00`, then for
/// each of the 61 pads the colour as red, green, blue and a zero byte (the
/// same four bytes `set_led_color` sends for one control), then `F7`.
pub proof fn lemma_fill_all_pads_layout(c: Color, pad: u8)
    ensures
        ({
            let f = sysex_header() + seq![0x04u8, 0x00u8] + repeat_color(c, 61) + seq![0xF7u8];
            let one = sysex_header() + seq![0x04u8, pad] + color_bytes(c) + seq![0xF7u8];
            &&& f.len() == 252
            &&& f.take(7) == seq![0xF0u8, 0x00u8, 0x21u8, 0x7Eu8, 0x7Fu8, 0x04u8, 0x00u8]
            &&& f[251] == 0xF7
            &&& forall|i: int| 0 <= i < 61 ==> #[trigger] f.subrange(7 + 4 * i, 11 + 4 * i) == seq![c.red, c.green, c.blue, 0u8]
            &&& one.len() == 12
            &&& one.subrange(7, 11) == seq![c.red, c.green, c.blue, 0u8]
        }),
{
    let f = sysex_header() + seq![0x04u8, 0x00u8] + repeat_color(c, 61) + seq![0xF7u8];
    let one = sysex_header() + seq![0x04u8, pad] + color_bytes(c) + seq![0xF7u8];
    lemma_repeat_color_bytes(c, 61);
    let r = repeat_color(c, 61);
    assert forall|i: int| 0 <= i < 61 implies #[trigger] f.subrange(7 + 4 * i, 11 + 4 * i) == seq![c.red, c.green, c.blue, 0u8] by {
        assert(group_is(r, i, c));
        assert(f[7 + 4 * i] == r[4 * i]);
        assert(f[8 + 4 * i] == r[4 * i + 1]);
        assert(f[9 + 4 * i] == r[4 * i + 2]);
        assert(f[10 + 4 * i] == r[4 * i + 3]);
        assert(f.subrange(7 + 4 * i, 11 + 4 * i) =~= seq![c.red, c.green, c.blue, 0u8]);
    }
    assert(f.take(7) =~= seq![0xF0u8, 0x00u8, 0x21u8, 0x7Eu8, 0x7Fu8, 0x04u8, 0x00u8]);
    assert(one.subrange(7, 11) =~= seq![c.red, c.green, c.blue, 0u8]);
}

/// The byte of an ASCII hexadecimal digit and its value.
pub(crate) proof fn lemma_hex_digit_byte(c: char)
    requires
        crate::num::is_hex_digit(c),
    ensures
        (c as u32) < 128,
        crate::exquis::proto::is_hex_byte(c as u8),
        (c as u8) != 0x2B,
        !crate::exquis::proto::is_continuation(c as u8),
        crate::exquis::proto::hex_byte_value(c as u8) == crate::num::hex_digit_value(c),
        !crate::text::is_ws(c),
{
}

/// The UTF-8 bytes of a text of hexadecimal digits are its characters.
pub(crate) proof fn lemma_hex_text_bytes(h: Seq<char>)
    requires
        crate::num::all_hex(h),
    ensures
        vstd::utf8::encode_utf8(h).len() == h.len(),
        forall|i: int| 0 <= i < h.len() ==> #[trigger] vstd::utf8::encode_utf8(h)[i] == h[i] as u8,
        vstd::utf8::encode_utf8(seq!['#'] + h) == seq![0x23u8] + vstd::utf8::encode_utf8(h),
{
    assert forall|i: int| 0 <= i < h.len() implies '\0' <= #[trigger] h[i] <= '\u{7f}' by {
        lemma_hex_digit_byte(h[i]);
    }
    assert(vstd::utf8::is_ascii_chars(h));
    vstd::utf8::is_ascii_chars_encode_utf8(h);
    let g = seq!['#'] + h;
    assert forall|i: int| 0 <= i < g.len() implies '\0' <= #[trigger] g[i] <= '\u{7f}' by {
        if i > 0 {
            assert(g[i] == h[i - 1]);
            lemma_hex_digit_byte(h[i - 1]);
        }
    }
    assert(vstd::utf8::is_ascii_chars(g));
    vstd::utf8::is_ascii_chars_encode_utf8(g);
    assert forall|i: int| 0 <= i < g.len() implies #[trigger] vstd::utf8::encode_utf8(g)[i] == (seq![0x23u8]
        + vstd::utf8::encode_utf8(h))[i] by {
        assert(vstd::utf8::encode_utf8(g)[i] == g[i] as u8);
        if i > 0 {
            assert(g[i] == h[i - 1]);
        }
    }
    assert(vstd::utf8::encode_utf8(g) =~= seq![0x23u8] + vstd::utf8::encode_utf8(h));
}

/// The leading `#`s of the UTF-8 bytes of `#...#` followed by hex digits.
proof fn lemma_strip_hashes(n: nat, t: Seq<u8>)
    requires
        t.len() > 0,
        t[0] != 0x23,
    ensures
        strip_leading_byte(Seq::new(n, |i: int| 0x23u8) + t, 0x23) == t,
    decreases n,
{
    let s = Seq::new(n, |i: int| 0x23u8) + t;
    if n > 0 {
        assert(s.drop_first() =~= Seq::new((n - 1) as nat, |i: int| 0x23u8) + t);
        lemma_strip_hashes((n - 1) as nat, t);
    } else {
        assert(s =~= t);
    }
}

/// `Color::from_hex` on six (`RRGGBB`) or eight (`AARRGGBB`) hexadecimal
/// digits, in either case and after any number of `#`: each 8-bit channel
/// `v` those digits spell (alpha dropped) becomes the 7-bit
/// `(127 * v + 127) / 255`, so 0 stays 0 and 255 becomes 127.
pub proof fn lemma_from_hex_digits(h: Seq<char>, n: nat)
    requires
        h.len() == 6 || h.len() == 8,
        crate::num::all_hex(h),
    ensures
        ({
            let o = h.len() - 6;
            let v = |k: int| 16 * crate::num::hex_digit_value(h[o + k]) + crate::num::hex_digit_value(h[o + k + 1]);
            let c = Color {
                red: ((127 * v(0) + 127) / 255) as u8,
                green: ((127 * v(2) + 127) / 255) as u8,
                blue: ((127 * v(4) + 127) / 255) as u8,
            };
            &&& from_hex_spec(h) == Ok::<Color, ColorError>(c)
            &&& from_hex_spec(Seq::new(n, |i: int| '#') + h) == Ok::<Color, ColorError>(c)
        }),
{
    let g = Seq::new(n, |i: int| '#') + h;
    lemma_hex_digit_byte(h[0]);
    lemma_hex_digit_byte(h[h.len() - 1]);
    crate::text::lemma_trim_id(h);
    if n > 0 {
        assert(g[0] == '#');
    } else {
        assert(g =~= h);
    }
    assert(g.last() == h.last());
    crate::text::lemma_trim_id(g);
    lemma_hex_text_bytes(h);
    let t = vstd::utf8::encode_utf8(h);
    assert(t[0] == h[0] as u8);
    lemma_hash_run_bytes(n, h);
    lemma_strip_hashes(0, t);
    lemma_strip_hashes(n, t);
    let o = h.len() - 6;
    let h2 = if h.len() == 8 { t.skip(2) } else { t };
    assert forall|i: int| 0 <= i < 6 implies #[trigger] h2[i] == h[o + i] as u8 by {
        assert(t[o + i] == h[o + i] as u8);
    }
    lemma_hex_digit_byte(h[o]);
    lemma_hex_digit_byte(h[o + 1]);
    lemma_hex_digit_byte(h[o + 2]);
    lemma_hex_digit_byte(h[o + 3]);
    lemma_hex_digit_byte(h[o + 4]);
    lemma_hex_digit_byte(h[o + 5]);
    if h.len() == 8 {
        lemma_hex_digit_byte(h[2]);
        assert(t[2] == h[2] as u8);
    }
    assert(h2[0] == h[o] as u8);
    assert(h2[1] == h[o + 1] as u8);
    assert(h2[2] == h[o + 2] as u8);
    assert(h2[3] == h[o + 3] as u8);
    assert(h2[4] == h[o + 4] as u8);
    assert(h2[5] == h[o + 5] as u8);
    assert(Seq::new(0, |i: int| 0x23u8) + t =~= t);
}

/// The UTF-8 bytes of `n` `#`s followed by hex digits.
proof fn lemma_hash_run_bytes(n: nat, h: Seq<char>)
    requires
        crate::num::all_hex(h),
    ensures
        vstd::utf8::encode_utf8(Seq::new(n, |i: int| '#') + h) == Seq::new(n, |i: int| 0x23u8)
            + vstd::utf8::encode_utf8(h),
    decreases n,
{
    let g = Seq::new(n, |i: int| '#') + h;
    if n == 0 {
        assert(g =~= h);
        assert(Seq::new(n, |i: int| 0x23u8) + vstd::utf8::encode_utf8(h) =~= vstd::utf8::encode_utf8(h));
    } else {
        lemma_hash_run_bytes((n - 1) as nat, h);
        assert(g.drop_first() =~= Seq::new((n - 1) as nat, |i: int| '#') + h);
        assert(g[0] == '#');
        assert(('#' as u32) == 0x23u32);
        assert((0x23u32 & 0x7Fu32) as u8 == 0x23u8) by (bit_vector);
        assert(vstd::utf8::encode_scalar('#' as u32) =~= seq![0x23u8]);
        assert(Seq::new(n, |i: int| 0x23u8) + vstd::utf8::encode_utf8(h) =~= seq![0x23u8] + (Seq::new(
            (n - 1) as nat,
            |i: int| 0x23u8,
        ) + vstd::utf8::encode_utf8(h)));
    }
}

/// The snapshot's pad bytes are, for each pad in turn, its MIDI note then
/// its red, green and blue.
pub proof fn lemma_pad_bytes_groups(pads: Seq<(u8, Color)>)
    ensures
        pad_bytes(pads).len() == 4 * pads.len(),
        forall|i: int| 0 <= i < pads.len() ==> #[trigger] pad_bytes(pads).subrange(4 * i, 4 * i + 4) == seq![
            pads[i].0,
            pads[i].1.red,
            pads[i].1.green,
            pads[i].1.blue,
        ],
    decreases pads.len(),
{
    if pads.len() > 0 {
        let d = pads.drop_last();
        lemma_pad_bytes_groups(d);
        let r = pad_bytes(pads);
        let q = pad_bytes(d);
        let p = pads.last();
        assert(r == q + seq![p.0, p.1.red, p.1.green, p.1.blue]);
        assert forall|i: int| 0 <= i < pads.len() implies #[trigger] r.subrange(4 * i, 4 * i + 4) == seq![
            pads[i].0,
            pads[i].1.red,
            pads[i].1.green,
            pads[i].1.blue,
        ] by {
            if i < d.len() {
                assert(q.subrange(4 * i, 4 * i + 4) == seq![d[i].0, d[i].1.red, d[i].1.green, d[i].1.blue]);
                assert(r.subrange(4 * i, 4 * i + 4) =~= q.subrange(4 * i, 4 * i + 4));
            } else {
                assert(r.subrange(4 * i, 4 * i + 4) =~= seq![p.0, p.1.red, p.1.green, p.1.blue]);
            }
        }
    }
}

/// SysEx that sets all 61 pad LEDs to `color` (takes over the pad zone).
pub fn fill_all_pads(color: Color) -> (r: Vec<u8>)
    ensures
        r@ == sysex_header() + seq![0x04u8, 0x00u8] + repeat_color(color, 61) + seq![0xF7u8],
        r@.len() == 7 + 61 * 4 + 1,
{
    let mut bytes = vec![0xF0, 0x00, 0x21, 0x7E, 0x7F, 0x04, 0x00];
    let ghost head = bytes@;
    let mut i: usize = 0;
    while i < 61
        invariant
            i <= 61,
            bytes@ == head + repeat_color(color, i as nat),
            repeat_color(color, i as nat).len() == 4 * i,
        decreases 61 - i,
    {
        bytes.push(color.red);
        bytes.push(color.green);
        bytes.push(color.blue);
        bytes.push(0x00);
        i += 1;
        assert(bytes@ =~= head + repeat_color(color, i as nat));
    }
    bytes.push(0xF7);
    assert(bytes@ =~= sysex_header() + seq![0x04u8, 0x00u8] + repeat_color(color, 61) + seq![
        0xF7u8,
    ]);
    bytes
}

/// The snapshot header: command 09h and the 11 layout bytes (pitch-bend
/// range byte 0x30).
pub open spec fn snapshot_header() -> Seq<u8> {
    sysex_header() + seq![
        0x09u8,
        0x00u8,
        0x01u8,
        0x01u8,
        0x30u8,
        0x00u8,
        0x00u8,
        0x01u8,
        0x01u8,
        0x00u8,
        0x00u8,
        0x00u8,
    ]
}

/// Each `(midinote, color)` as four bytes: note, r, g, b.
pub open spec fn pad_bytes(pads: Seq<(u8, Color)>) -> Seq<u8>
    decreases pads.len(),
{
    if pads.len() == 0 {
        seq![]
    } else {
        let p = pads.last();
        pad_bytes(pads.drop_last()) + seq![p.0, p.1.red, p.1.green, p.1.blue]
    }
}

proof fn lemma_pad_bytes_len(pads: Seq<(u8, Color)>)
    ensures
        pad_bytes(pads).len() == 4 * pads.len(),
    decreases pads.len(),
{
    if pads.len() > 0 {
        lemma_pad_bytes_len(pads.drop_last());
    }
}

/// Snapshot SysEx that sets the note and colour of all 61 pads while
/// keeping MPE (262 bytes).
pub fn snapshot_set_pads(pads: &[(u8, Color); 61]) -> (r: Vec<u8>)
    ensures
        r@ == snapshot_header() + pad_bytes(pads@) + seq![0xF7u8],
        r@.len() == 262,
{
    let mut bytes: Vec<u8> = vec![
        0xF0,
        0x00,
        0x21,
        0x7E,
        0x7F,
        0x09,
        0x00,
        0x01,
        0x01,
        0x30,
        0x00,
        0x00,
        0x01,
        0x01,
        0x00,
        0x00,
        0x00,
    ];
    assert(bytes@ =~= snapshot_header());
    let mut i: usize = 0;
    while i < 61
        invariant
            i <= 61,
            pads@.len() == 61,
            bytes@ == snapshot_header() + pad_bytes(pads@.take(i as int)),
        decreases 61 - i,
    {
        let (midinote, color) = pads[i];
        bytes.push(midinote);
        bytes.push(color.red);
        bytes.push(color.green);
        bytes.push(color.blue);
        proof {
            assert(pads@.take(i + 1).drop_last() =~= pads@.take(i as int));
        }
        i += 1;
        assert(bytes@ =~= snapshot_header() + pad_bytes(pads@.take(i as int)));
    }
    bytes.push(0xF7);
    proof {
        assert(pads@.take(61) =~= pads@);
        lemma_pad_bytes_len(pads@);
    }
    assert(bytes@ =~= snapshot_header() + pad_bytes(pads@) + seq![0xF7u8]);
    bytes
}

/// Snapshot that colours every pad `color` with the default note mapping
/// (pad i plays MIDI note 36 + i).
pub fn snapshot_fill_color(color: Color) -> (r: Vec<u8>)
    ensures
        r@ == snapshot_header() + pad_bytes(Seq::new(61, |i: int| ((36 + i) as u8, color))) + seq![
            0xF7u8,
        ],
        r@.len() == 262,
{
    let mut pads: [(u8, Color); 61] = [(0u8, color); 61];
    let mut i: usize = 0;
    while i < 61
        invariant
            i <= 61,
            pads@.len() == 61,
            forall|j: int| 0 <= j < i ==> pads@[j] == ((36 + j) as u8, color),
        decreases 61 - i,
    {
        pads[i] = (36 + i as u8, color);
        i += 1;
    }
    assert(pads@ =~= Seq::new(61, |i: int| ((36 + i) as u8, color)));
    snapshot_set_pads(&pads)
}

/// Snapshot that gives pad i colour `colors[i]` with the default note
/// mapping (pad i plays MIDI note 36 + i).
pub fn snapshot_set_colors(colors: &[Color; 61]) -> (r: Vec<u8>)
    ensures
        r@ == snapshot_header() + pad_bytes(Seq::new(61, |i: int| ((36 + i) as u8, colors@[i])))
            + seq![0xF7u8],
        r@.len() == 262,
{
    let mut pads: [(u8, Color); 61] = [(0u8, Color::new(0, 0, 0)); 61];
    let mut i: usize = 0;
    while i < 61
        invariant
            i <= 61,
            pads@.len() == 61,
            colors@.len() == 61,
            forall|j: int| 0 <= j < i ==> pads@[j] == ((36 + j) as u8, colors@[j]),
        decreases 61 - i,
    {
        pads[i] = (36 + i as u8, colors[i]);
        i += 1;
    }
    assert(pads@ =~= Seq::new(61, |i: int| ((36 + i) as u8, colors@[i])));
    snapshot_set_pads(&pads)
}

/// Machine name of Exquis control `id`.
pub open spec fn control_name_spec(id: u8) -> Option<Seq<char>> {
    if id <= 60 {
        Some("pad_"@ + dec_digits(id as nat))
    } else if 80 <= id <= 85 {
        Some("slider_portion_"@ + dec_digits((id - 79) as nat))
    } else if id == 90 {
        Some("slider_position"@)
    } else if id == 100 {
        Some("settings"@)
    } else if id == 101 {
        Some("sound"@)
    } else if id == 102 {
        Some("record"@)
    } else if id == 103 {
        Some("loop"@)
    } else if id == 104 {
        Some("clips"@)
    } else if id == 105 {
        Some("play_stop"@)
    } else if id == 106 {
        Some("down"@)
    } else if id == 107 {
        Some("up"@)
    } else if id == 108 {
        Some("undo"@)
    } else if id == 109 {
        Some("redo"@)
    } else if 110 <= id <= 113 {
        Some("encoder_"@ + dec_digits((id - 109) as nat))
    } else if 114 <= id <= 117 {
        Some("encoder_"@ + dec_digits((id - 113) as nat) + "_button"@)
    } else {
        None
    }
}
/// Human name of Exquis control `id`.
pub open spec fn control_display_name_spec(id: u8) -> Option<Seq<char>> {
    if id <= 60 {
        Some("Pad "@ + dec_digits(id as nat))
    } else if 80 <= id <= 85 {
        Some("Slider Portion "@ + dec_digits((id - 79) as nat))
    } else if id == 90 {
        Some("Slider Position"@)
    } else if id == 100 {
        Some("Settings"@)
    } else if id == 101 {
        Some("Sound"@)
    } else if id == 102 {
        Some("Record"@)
    } else if id == 103 {
        Some("Loop"@)
    } else if id == 104 {
        Some("Clips"@)
    } else if id == 105 {
        Some("Play/Stop"@)
    } else if id == 106 {
        Some("Down"@)
    } else if id == 107 {
        Some("Up"@)
    } else if id == 108 {
        Some("Undo"@)
    } else if id == 109 {
        Some("Redo"@)
    } else if 110 <= id <= 113 {
        Some("Encoder "@ + dec_digits((id - 109) as nat))
    } else if 114 <= id <= 117 {
        Some("Encoder "@ + dec_digits((id - 113) as nat) + " Button"@)
    } else {
        None
    }
}
/// Machine name of Exquis control `id` (`pad_12`, `encoder_1_button`, ...).
pub fn control_name(id: u8) -> (r: Option<String>)
    ensures
        match r {
            Some(s) => control_name_spec(id) == Some(s@),
            None => control_name_spec(id) is None,
        },
{
    let mut v: Vec<char> = Vec::new();
    if id <= 60 {
        push_str(&mut v, "pad_");
        let d = fmt_u64(id as u64);
        push_all(&mut v, &d);
    } else if 80 <= id && id <= 85 {
        push_str(&mut v, "slider_portion_");
        let d = fmt_u64((id - 79) as u64);
        push_all(&mut v, &d);
    } else if 110 <= id && id <= 113 {
        push_str(&mut v, "encoder_");
        let d = fmt_u64((id - 109) as u64);
        push_all(&mut v, &d);
    } else if 114 <= id && id <= 117 {
        push_str(&mut v, "encoder_");
        let d = fmt_u64((id - 113) as u64);
        push_all(&mut v, &d);
        push_str(&mut v, "_button");
    } else {
        let fixed: &str = if id == 90 {
            "slider_position"
    } else if id == 100 {
        "settings"
    } else if id == 101 {
        "sound"
    } else if id == 102 {
        "record"
    } else if id == 103 {
        "loop"
    } else if id == 104 {
        "clips"
    } else if id == 105 {
        "play_stop"
    } else if id == 106 {
        "down"
    } else if id == 107 {
        "up"
    } else if id == 108 {
        "undo"
    } else if id == 109 {
        "redo"
        } else {
            return None;
        };
        push_str(&mut v, fixed);
    }
    proof {
        assert(v@ =~= control_name_spec(id).unwrap());
    }
    Some(string_of(&v))
}
/// Human name of Exquis control `id` (`Pad 12`, `Encoder 1 Button`, ...).
pub fn control_display_name(id: u8) -> (r: Option<String>)
    ensures
        match r {
            Some(s) => control_display_name_spec(id) == Some(s@),
            None => control_display_name_spec(id) is None,
        },
{
    let mut v: Vec<char> = Vec::new();
    if id <= 60 {
        push_str(&mut v, "Pad ");
        let d = fmt_u64(id as u64);
        push_all(&mut v, &d);
    } else if 80 <= id && id <= 85 {
        push_str(&mut v, "Slider Portion ");
        let d = fmt_u64((id - 79) as u64);
        push_all(&mut v, &d);
    } else if 110 <= id && id <= 113 {
        push_str(&mut v, "Encoder ");
        let d = fmt_u64((id - 109) as u64);
        push_all(&mut v, &d);
    } else if 114 <= id && id <= 117 {
        push_str(&mut v, "Encoder ");
        let d = fmt_u64((id - 113) as u64);
        push_all(&mut v, &d);
        push_str(&mut v, " Button");
    } else {
        let fixed: &str = if id == 90 {
            "Slider Position"
    } else if id == 100 {
        "Settings"
    } else if id == 101 {
        "Sound"
    } else if id == 102 {
        "Record"
    } else if id == 103 {
        "Loop"
    } else if id == 104 {
        "Clips"
    } else if id == 105 {
        "Play/Stop"
    } else if id == 106 {
        "Down"
    } else if id == 107 {
        "Up"
    } else if id == 108 {
        "Undo"
    } else if id == 109 {
        "Redo"
        } else {
            return None;
        };
        push_str(&mut v, fixed);
    }
    proof {
        assert(v@ =~= control_display_name_spec(id).unwrap());
    }
    Some(string_of(&v))
}
/// The control names `control_id_from_name` knows (normalised input).
pub open spec fn control_id_table(l: Seq<char>) -> Option<u8> {
    if l == "settings"@ {
        Some(100u8)
    } else if l == "sound"@ {
        Some(101u8)
    } else if l == "record"@ {
        Some(102u8)
    } else if l == "loop"@ {
        Some(103u8)
    } else if l == "clips"@ {
        Some(104u8)
    } else if l == "play_stop"@ {
        Some(105u8)
    } else if l == "play"@ {
        Some(105u8)
    } else if l == "stop"@ {
        Some(105u8)
    } else if l == "down"@ {
        Some(106u8)
    } else if l == "up"@ {
        Some(107u8)
    } else if l == "undo"@ {
        Some(108u8)
    } else if l == "redo"@ {
        Some(109u8)
    } else if l == "encoder_1"@ {
        Some(110u8)
    } else if l == "encoder_2"@ {
        Some(111u8)
    } else if l == "encoder_3"@ {
        Some(112u8)
    } else if l == "encoder_4"@ {
        Some(113u8)
    } else if l == "encoder_1_button"@ {
        Some(114u8)
    } else if l == "encoder_2_button"@ {
        Some(115u8)
    } else if l == "encoder_3_button"@ {
        Some(116u8)
    } else if l == "encoder_4_button"@ {
        Some(117u8)
    } else if l == "encoder_5_button"@ {
        Some(118u8)
    } else if l == "slider_1"@ {
        Some(80u8)
    } else if l == "slider_portion_1"@ {
        Some(80u8)
    } else if l == "slider_2"@ {
        Some(81u8)
    } else if l == "slider_portion_2"@ {
        Some(81u8)
    } else if l == "slider_3"@ {
        Some(82u8)
    } else if l == "slider_portion_3"@ {
        Some(82u8)
    } else if l == "slider_4"@ {
        Some(83u8)
    } else if l == "slider_portion_4"@ {
        Some(83u8)
    } else if l == "slider_5"@ {
        Some(84u8)
    } else if l == "slider_portion_5"@ {
        Some(84u8)
    } else if l == "slider_6"@ {
        Some(85u8)
    } else if l == "slider_portion_6"@ {
        Some(85u8)
    } else if l == "slider_position"@ {
        Some(90u8)
    } else {
        None
    }
}

/// Name normalised for lookup: trimmed, ASCII lower case, `-` read as `_`.
pub open spec fn control_key(name: Seq<char>) -> Seq<char> {
    replace_char(ascii_lower(trim(name)), '-', '_')
}

/// `control_id_from_name`: a known control name, else a number 0..=255.
pub open spec fn control_id_spec(name: Seq<char>) -> Option<u8> {
    let l = control_key(name);
    match control_id_table(l) {
        Some(v) => Some(v),
        None => match parse_bounded(l, 255) {
            Some(v) => Some(v as u8),
            None => None,
        },
    }
}

/// The id of a named Exquis control (`settings`, `encoder-1`, `slider-1`,
/// ...), or a raw numeric id.
pub fn control_id_from_name(name: &str) -> (r: Option<u8>)
    ensures
        r == control_id_spec(name@),
{
    let t = trim_str(name);
    let low = lower_chars(&t);
    let l = replace_chars(&low, '-', '_');
    if eq_str(&l, "settings") {
        Some(100)
    } else if eq_str(&l, "sound") {
        Some(101)
    } else if eq_str(&l, "record") {
        Some(102)
    } else if eq_str(&l, "loop") {
        Some(103)
    } else if eq_str(&l, "clips") {
        Some(104)
    } else if eq_str(&l, "play_stop") {
        Some(105)
    } else if eq_str(&l, "play") {
        Some(105)
    } else if eq_str(&l, "stop") {
        Some(105)
    } else if eq_str(&l, "down") {
        Some(106)
    } else if eq_str(&l, "up") {
        Some(107)
    } else if eq_str(&l, "undo") {
        Some(108)
    } else if eq_str(&l, "redo") {
        Some(109)
    } else if eq_str(&l, "encoder_1") {
        Some(110)
    } else if eq_str(&l, "encoder_2") {
        Some(111)
    } else if eq_str(&l, "encoder_3") {
        Some(112)
    } else if eq_str(&l, "encoder_4") {
        Some(113)
    } else if eq_str(&l, "encoder_1_button") {
        Some(114)
    } else if eq_str(&l, "encoder_2_button") {
        Some(115)
    } else if eq_str(&l, "encoder_3_button") {
        Some(116)
    } else if eq_str(&l, "encoder_4_button") {
        Some(117)
    } else if eq_str(&l, "encoder_5_button") {
        Some(118)
    } else if eq_str(&l, "slider_1") {
        Some(80)
    } else if eq_str(&l, "slider_portion_1") {
        Some(80)
    } else if eq_str(&l, "slider_2") {
        Some(81)
    } else if eq_str(&l, "slider_portion_2") {
        Some(81)
    } else if eq_str(&l, "slider_3") {
        Some(82)
    } else if eq_str(&l, "slider_portion_3") {
        Some(82)
    } else if eq_str(&l, "slider_4") {
        Some(83)
    } else if eq_str(&l, "slider_portion_4") {
        Some(83)
    } else if eq_str(&l, "slider_5") {
        Some(84)
    } else if eq_str(&l, "slider_portion_5") {
        Some(84)
    } else if eq_str(&l, "slider_6") {
        Some(85)
    } else if eq_str(&l, "slider_portion_6") {
        Some(85)
    } else if eq_str(&l, "slider_position") {
        Some(90)
    } else {
        match parse_u8(&l) {
            Some(v) => Some(v),
            None => None,
        }
    }
}

/// A name of lower-case ASCII letters, digits and `_`, not empty.
pub open spec fn key_name(n: Seq<char>) -> bool {
    &&& n.len() > 0
    &&& forall|k: int| 0 <= k < n.len() ==> ('a' <= #[trigger] n[k] <= 'z') || ('0' <= n[k] <= '9') || n[k] == '_'
}

/// Such a name is its own lookup key.
pub proof fn lemma_key_name_is_key(n: Seq<char>)
    requires
        key_name(n),
    ensures
        control_key(n) == n,
{
    assert(!crate::text::is_ws(n[0]) && !crate::text::is_ws(n.last()));
    crate::text::lemma_trim_id(n);
    assert(ascii_lower(n) =~= n);
    assert(replace_char(n, '-', '_') =~= n);
}

proof fn lemma_fixed_names()
    ensures
        control_id_spec("settings"@) == Some(100u8),
        control_id_spec("sound"@) == Some(101u8),
        control_id_spec("record"@) == Some(102u8),
        control_id_spec("loop"@) == Some(103u8),
        control_id_spec("clips"@) == Some(104u8),
        control_id_spec("play_stop"@) == Some(105u8),
        control_id_spec("down"@) == Some(106u8),
        control_id_spec("up"@) == Some(107u8),
        control_id_spec("undo"@) == Some(108u8),
        control_id_spec("redo"@) == Some(109u8),
        control_id_spec("slider_position"@) == Some(90u8),
{
    reveal_strlit("settings");
    reveal_strlit("sound");
    reveal_strlit("record");
    reveal_strlit("loop");
    reveal_strlit("clips");
    reveal_strlit("play_stop");
    reveal_strlit("play");
    reveal_strlit("stop");
    reveal_strlit("down");
    reveal_strlit("up");
    reveal_strlit("undo");
    reveal_strlit("redo");
    reveal_strlit("encoder_1");
    reveal_strlit("encoder_2");
    reveal_strlit("encoder_3");
    reveal_strlit("encoder_4");
    reveal_strlit("encoder_1_button");
    reveal_strlit("encoder_2_button");
    reveal_strlit("encoder_3_button");
    reveal_strlit("encoder_4_button");
    reveal_strlit("encoder_5_button");
    reveal_strlit("slider_1");
    reveal_strlit("slider_portion_1");
    reveal_strlit("slider_2");
    reveal_strlit("slider_portion_2");
    reveal_strlit("slider_3");
    reveal_strlit("slider_portion_3");
    reveal_strlit("slider_4");
    reveal_strlit("slider_portion_4");
    reveal_strlit("slider_5");
    reveal_strlit("slider_portion_5");
    reveal_strlit("slider_6");
    reveal_strlit("slider_portion_6");
    reveal_strlit("slider_position");
    lemma_key_name_is_key("settings"@);
    lemma_key_name_is_key("sound"@);
    lemma_key_name_is_key("record"@);
    lemma_key_name_is_key("loop"@);
    lemma_key_name_is_key("clips"@);
    lemma_key_name_is_key("play_stop"@);
    lemma_key_name_is_key("down"@);
    lemma_key_name_is_key("up"@);
    lemma_key_name_is_key("undo"@);
    lemma_key_name_is_key("redo"@);
    lemma_key_name_is_key("slider_position"@);
}

proof fn lemma_numbered_names(k: nat)
    ensures
        1 <= k <= 4 ==> control_id_spec("encoder_"@ + dec_digits(k)) == Some((109 + k) as u8),
        1 <= k <= 4 ==> control_id_spec("encoder_"@ + dec_digits(k) + "_button"@) == Some((113 + k) as u8),
        1 <= k <= 6 ==> control_id_spec("slider_portion_"@ + dec_digits(k)) == Some((79 + k) as u8),
{
    reveal_strlit("settings");
    reveal_strlit("sound");
    reveal_strlit("record");
    reveal_strlit("loop");
    reveal_strlit("clips");
    reveal_strlit("play_stop");
    reveal_strlit("play");
    reveal_strlit("stop");
    reveal_strlit("down");
    reveal_strlit("up");
    reveal_strlit("undo");
    reveal_strlit("redo");
    reveal_strlit("encoder_1");
    reveal_strlit("encoder_2");
    reveal_strlit("encoder_3");
    reveal_strlit("encoder_4");
    reveal_strlit("encoder_1_button");
    reveal_strlit("encoder_2_button");
    reveal_strlit("encoder_3_button");
    reveal_strlit("encoder_4_button");
    reveal_strlit("encoder_5_button");
    reveal_strlit("slider_1");
    reveal_strlit("slider_portion_1");
    reveal_strlit("slider_2");
    reveal_strlit("slider_portion_2");
    reveal_strlit("slider_3");
    reveal_strlit("slider_portion_3");
    reveal_strlit("slider_4");
    reveal_strlit("slider_portion_4");
    reveal_strlit("slider_5");
    reveal_strlit("slider_portion_5");
    reveal_strlit("slider_6");
    reveal_strlit("slider_portion_6");
    reveal_strlit("slider_position");
    reveal_strlit("encoder_");
    reveal_strlit("_button");
    reveal_strlit("slider_portion_");
    if 1 <= k <= 6 {
        let d = dec_digits(k);
        assert(d == seq![crate::num::digit_char(k as int)]);
        let e = "encoder_"@ + d;
        let b = "encoder_"@ + d + "_button"@;
        let sp = "slider_portion_"@ + d;
        lemma_key_name_is_key(sp);
        if k <= 4 {
            lemma_key_name_is_key(e);
            lemma_key_name_is_key(b);
        }
        if k == 1 {
            assert(e =~= "encoder_1"@ && b =~= "encoder_1_button"@ && sp =~= "slider_portion_1"@);
            assert(control_key(b) == b);
            assert(control_id_table("encoder_1_button"@) == Some(114u8));
        } else if k == 2 {
            assert(e =~= "encoder_2"@ && b =~= "encoder_2_button"@ && sp =~= "slider_portion_2"@);
            assert("encoder_2"@[8] != "encoder_1"@[8]);
            assert("slider_portion_2"@[15] != "slider_portion_1"@[15]);
            assert(control_key(b) == b);
            assert("encoder_2_button"@[8] != "encoder_1_button"@[8]);
            assert(control_id_table("encoder_2_button"@) == Some(115u8));
        } else if k == 3 {
            assert(e =~= "encoder_3"@ && b =~= "encoder_3_button"@ && sp =~= "slider_portion_3"@);
            assert("encoder_3"@[8] != "encoder_1"@[8]);
            assert("slider_portion_3"@[15] != "slider_portion_1"@[15]);
            assert("encoder_3"@[8] != "encoder_2"@[8]);
            assert("slider_portion_3"@[15] != "slider_portion_2"@[15]);
            assert(control_key(b) == b);
            assert("encoder_3_button"@[8] != "encoder_1_button"@[8]);
            assert("encoder_3_button"@[8] != "encoder_2_button"@[8]);
            assert(control_id_table("encoder_3_button"@) == Some(116u8));
        } else if k == 4 {
            assert(e =~= "encoder_4"@ && b =~= "encoder_4_button"@ && sp =~= "slider_portion_4"@);
            assert("encoder_4"@[8] != "encoder_1"@[8]);
            assert("slider_portion_4"@[15] != "slider_portion_1"@[15]);
            assert("encoder_4"@[8] != "encoder_2"@[8]);
            assert("slider_portion_4"@[15] != "slider_portion_2"@[15]);
            assert("encoder_4"@[8] != "encoder_3"@[8]);
            assert("slider_portion_4"@[15] != "slider_portion_3"@[15]);
            assert(control_key(b) == b);
            assert("encoder_4_button"@[8] != "encoder_1_button"@[8]);
            assert("encoder_4_button"@[8] != "encoder_2_button"@[8]);
            assert("encoder_4_button"@[8] != "encoder_3_button"@[8]);
            assert(control_id_table("encoder_4_button"@) == Some(117u8));
        } else if k == 5 {
            assert(sp =~= "slider_portion_5"@);
            assert("slider_portion_5"@[15] != "slider_portion_1"@[15]);
            assert("slider_portion_5"@[15] != "slider_portion_2"@[15]);
            assert("slider_portion_5"@[15] != "slider_portion_3"@[15]);
            assert("slider_portion_5"@[15] != "slider_portion_4"@[15]);
        } else {
            assert(sp =~= "slider_portion_6"@);
            assert("slider_portion_6"@[15] != "slider_portion_1"@[15]);
            assert("slider_portion_6"@[15] != "slider_portion_2"@[15]);
            assert("slider_portion_6"@[15] != "slider_portion_3"@[15]);
            assert("slider_portion_6"@[15] != "slider_portion_4"@[15]);
            assert("slider_portion_6"@[15] != "slider_portion_5"@[15]);
        }
    }
}

/// Control names read back: the machine name of every control other than
/// a pad (the slider portions and position, the buttons, the encoders and
/// their buttons) names that control again. Pad names (`pad_N`) are not
/// read back.
pub proof fn lemma_control_name_round_trip(id: u8)
    requires
        (80 <= id <= 85) || id == 90 || (100 <= id <= 117),
    ensures
        control_name_spec(id) is Some,
        control_id_spec(control_name_spec(id)->0) == Some(id),
{
    lemma_fixed_names();
    if 80 <= id <= 85 {
        lemma_numbered_names((id - 79) as nat);
    } else if 110 <= id <= 113 {
        lemma_numbered_names((id - 109) as nat);
    } else if 114 <= id <= 117 {
        lemma_numbered_names((id - 113) as nat);
    }
}

/// A machine name written as words: each `_` becomes a space and the first
/// letter of each word is upper case.
pub open spec fn title_words(s: Seq<char>) -> Seq<char> {
    Seq::new(
        s.len(),
        |i: int|
            if s[i] == '_' {
                ' '
            } else if i == 0 || s[i - 1] == '_' {
                crate::text::upper_char(s[i])
            } else {
                s[i]
            },
    )
}

proof fn lemma_title_numbered(pre: Seq<char>, pre_t: Seq<char>, d: Seq<char>, suf: Seq<char>, suf_t: Seq<char>)
    requires
        pre.len() > 0,
        pre.last() == '_',
        title_words(pre) == pre_t,
        d.len() > 0,
        crate::num::all_digits(d),
        suf.len() == 0 || suf[0] == '_',
        title_words(suf) == suf_t,
    ensures
        title_words(pre + d + suf) == pre_t + d + suf_t,
{
    let s = pre + d + suf;
    let t = pre_t + d + suf_t;
    let a = pre.len() as int;
    let e = a + d.len();
    assert forall|i: int| 0 <= i < s.len() implies #[trigger] title_words(s)[i] == t[i] by {
        if i < a {
            assert(s[i] == pre[i]);
            if i > 0 {
                assert(s[i - 1] == pre[i - 1]);
            }
            assert(title_words(pre)[i] == t[i]);
        } else if i < e {
            assert(s[i] == d[i - a]);
            assert(crate::num::is_digit(d[i - a]));
            if i == a {
                assert(s[i - 1] == pre.last());
            } else {
                assert(s[i - 1] == d[i - a - 1]);
                assert(crate::num::is_digit(d[i - a - 1]));
            }
        } else {
            assert(s[i] == suf[i - e]);
            if i > e {
                assert(s[i - 1] == suf[i - e - 1]);
            }
            assert(title_words(suf)[i - e] == t[i]);
        }
    }
    assert(title_words(s) =~= t);
}

/// Every control with a machine name has a display name and the other way
/// round; the display name is the machine name written as words
/// (`encoder_2_button` is `Encoder 2 Button`), except that `play_stop` is
/// shown as `Play/Stop`.
pub proof fn lemma_display_names_are_title_words(id: u8)
    ensures
        (control_name_spec(id) is Some) == (control_display_name_spec(id) is Some),
        control_name_spec(id) is Some && id != 105 ==> control_display_name_spec(id)->0 == title_words(
            control_name_spec(id)->0,
        ),
        id == 105 ==> control_name_spec(id) == Some("play_stop"@) && control_display_name_spec(id) == Some(
            "Play/Stop"@,
        ),
{
    reveal_strlit(" Button");
    reveal_strlit("Clips");
    reveal_strlit("Down");
    reveal_strlit("Encoder ");
    reveal_strlit("Loop");
    reveal_strlit("Pad ");
    reveal_strlit("Play/Stop");
    reveal_strlit("Record");
    reveal_strlit("Redo");
    reveal_strlit("Settings");
    reveal_strlit("Slider Portion ");
    reveal_strlit("Slider Position");
    reveal_strlit("Sound");
    reveal_strlit("Undo");
    reveal_strlit("Up");
    reveal_strlit("_button");
    reveal_strlit("clips");
    reveal_strlit("down");
    reveal_strlit("encoder_");
    reveal_strlit("loop");
    reveal_strlit("pad_");
    reveal_strlit("play_stop");
    reveal_strlit("record");
    reveal_strlit("redo");
    reveal_strlit("settings");
    reveal_strlit("slider_portion_");
    reveal_strlit("slider_position");
    reveal_strlit("sound");
    reveal_strlit("undo");
    reveal_strlit("up");
    let empty = Seq::<char>::empty();
    assert(title_words(empty) =~= empty);
    if id <= 60 {
        crate::num::lemma_dec_digits_parse(id as nat);
        assert(title_words("pad_"@) =~= "Pad "@);
        lemma_title_numbered("pad_"@, "Pad "@, dec_digits(id as nat), empty, empty);
        assert("pad_"@ + dec_digits(id as nat) + empty =~= "pad_"@ + dec_digits(id as nat));
        assert("Pad "@ + dec_digits(id as nat) + empty =~= "Pad "@ + dec_digits(id as nat));
    } else if 80 <= id <= 85 {
        crate::num::lemma_dec_digits_parse((id - 79) as nat);
        assert(title_words("slider_portion_"@) =~= "Slider Portion "@);
        lemma_title_numbered("slider_portion_"@, "Slider Portion "@, dec_digits((id - 79) as nat), empty, empty);
        assert("slider_portion_"@ + dec_digits((id - 79) as nat) + empty =~= "slider_portion_"@ + dec_digits((id - 79) as nat));
        assert("Slider Portion "@ + dec_digits((id - 79) as nat) + empty =~= "Slider Portion "@ + dec_digits((id - 79) as nat));
    } else if 110 <= id <= 113 {
        crate::num::lemma_dec_digits_parse((id - 109) as nat);
        assert(title_words("encoder_"@) =~= "Encoder "@);
        lemma_title_numbered("encoder_"@, "Encoder "@, dec_digits((id - 109) as nat), empty, empty);
        assert("encoder_"@ + dec_digits((id - 109) as nat) + empty =~= "encoder_"@ + dec_digits((id - 109) as nat));
        assert("Encoder "@ + dec_digits((id - 109) as nat) + empty =~= "Encoder "@ + dec_digits((id - 109) as nat));
    } else if 114 <= id <= 117 {
        crate::num::lemma_dec_digits_parse((id - 113) as nat);
        assert(title_words("encoder_"@) =~= "Encoder "@);
        assert(title_words("_button"@) =~= " Button"@);
        lemma_title_numbered("encoder_"@, "Encoder "@, dec_digits((id - 113) as nat), "_button"@, " Button"@);
    } else {
        assert(title_words("settings"@) =~= "Settings"@);
        assert(title_words("sound"@) =~= "Sound"@);
        assert(title_words("record"@) =~= "Record"@);
        assert(title_words("loop"@) =~= "Loop"@);
        assert(title_words("clips"@) =~= "Clips"@);
        assert(title_words("down"@) =~= "Down"@);
        assert(title_words("up"@) =~= "Up"@);
        assert(title_words("undo"@) =~= "Undo"@);
        assert(title_words("redo"@) =~= "Redo"@);
        assert(title_words("slider_position"@) =~= "Slider Position"@);
    }
}

} // verus!
