//! Decimal and hexadecimal numerals, as `FromStr` / `from_str_radix` read
//! them and as `{}` / `{:02X}` print them.
use vstd::prelude::*;

verus! {

/// An ASCII decimal digit.
pub open spec fn is_digit(c: char) -> bool {
    '0' <= c && c <= '9'
}

/// The value of a decimal digit.
pub open spec fn digit_value(c: char) -> int {
    c as int - 48
}

/// Every character is a decimal digit.
pub open spec fn all_digits(s: Seq<char>) -> bool {
    forall|i: int| 0 <= i < s.len() ==> is_digit(#[trigger] s[i])
}

/// The number a string of decimal digits spells.
pub open spec fn dec_value(s: Seq<char>) -> int
    decreases s.len(),
{
    if s.len() == 0 {
        0
    } else {
        10 * dec_value(s.drop_last()) + digit_value(s.last())
    }
}

/// The digits after an optional leading `+`.
pub open spec fn unsigned_digits(s: Seq<char>) -> Seq<char> {
    if s.len() > 0 && s[0] == '+' {
        s.drop_first()
    } else {
        s
    }
}

/// What `FromStr` for an unsigned integer reads, before range checking: an
/// optional `+` and one or more decimal digits.
pub open spec fn parse_unsigned(s: Seq<char>) -> Option<int> {
    let d = unsigned_digits(s);
    if d.len() > 0 && all_digits(d) {
        Some(dec_value(d))
    } else {
        None
    }
}

/// `FromStr` for an unsigned integer type whose largest value is `max`.
pub open spec fn parse_bounded(s: Seq<char>, max: int) -> Option<int> {
    match parse_unsigned(s) {
        Some(v) => if v <= max {
            Some(v)
        } else {
            None
        },
        None => None,
    }
}

/// What `FromStr` for a signed integer reads, before range checking.
pub open spec fn parse_signed(s: Seq<char>) -> Option<int> {
    if s.len() > 0 && s[0] == '-' {
        let d = s.drop_first();
        if d.len() > 0 && all_digits(d) {
            Some(-dec_value(d))
        } else {
            None
        }
    } else {
        parse_unsigned(s)
    }
}

/// `<i32 as FromStr>::from_str`.
pub open spec fn parse_i32_spec(s: Seq<char>) -> Option<int> {
    match parse_signed(s) {
        Some(v) => if i32::MIN <= v <= i32::MAX {
            Some(v)
        } else {
            None
        },
        None => None,
    }
}

proof fn lemma_dec_value_nonneg(s: Seq<char>)
    requires
        all_digits(s),
    ensures
        dec_value(s) >= 0,
    decreases s.len(),
{
    if s.len() > 0 {
        lemma_dec_value_nonneg(s.drop_last());
    }
}

proof fn lemma_dec_value_prefix_le(s: Seq<char>, j: int)
    requires
        all_digits(s),
        0 <= j <= s.len(),
    ensures
        dec_value(s.take(j)) <= dec_value(s),
    decreases s.len() - j,
{
    if j < s.len() {
        assert(s.drop_last().take(j) =~= s.take(j));
        lemma_dec_value_prefix_le(s.drop_last(), j);
        lemma_dec_value_nonneg(s.drop_last());
    } else {
        assert(s.take(j) =~= s);
    }
}

/// What `parse_bounded` gives lies in `0..=max`.
pub proof fn lemma_parse_bounded_range(s: Seq<char>, max: int)
    ensures
        parse_bounded(s, max) matches Some(v) ==> 0 <= v <= max,
{
    let d = unsigned_digits(s);
    if d.len() > 0 && all_digits(d) {
        lemma_dec_value_nonneg(d);
    }
}

/// Reads `s` as optional `+` and decimal digits whose value is at most `max`.
pub fn parse_uint(s: &[char], max: u64) -> (r: Option<u64>)
    ensures
        match r {
            Some(v) => parse_bounded(s@, max as int) == Some(v as int),
            None => parse_bounded(s@, max as int) is None,
        },
{
    let n = s.len();
    let start: usize = if n > 0 && s[0] == '+' {
        1
    } else {
        0
    };
    let ghost d = unsigned_digits(s@);
    assert(d =~= s@.skip(start as int));
    if start >= n {
        return None;
    }
    let mut acc: u64 = 0;
    let mut i = start;
    while i < n
        invariant
            n == s@.len(),
            start <= i <= n,
            d =~= s@.skip(start as int),
            d == unsigned_digits(s@),
            acc as int == dec_value(d.take(i - start)),
            acc <= max,
            all_digits(d.take(i - start)),
        decreases n - i,
    {
        let c = s[i];
        assert(d[i - start] == c);
        if !('0' <= c && c <= '9') {
            assert(!is_digit(d[i - start]));
            assert(!all_digits(d));
            return None;
        }
        let dv = (c as u32 - 48) as u64;
        let next: u128 = (acc as u128) * 10 + (dv as u128);
        proof {
            let p = d.take(i - start + 1);
            assert(p.drop_last() =~= d.take(i - start));
            assert(p.last() == c);
        }
        assert(dec_value(d.take(i - start + 1)) == next);
        if next > max as u128 {
            proof {
                if all_digits(d) {
                    lemma_dec_value_prefix_le(d, i - start + 1);
                }
            }
            return None;
        }
        acc = next as u64;
        i += 1;
        assert(all_digits(d.take(i - start)));
    }
    assert(d.take(n - start) =~= d);
    Some(acc)
}

/// `<u8 as FromStr>::from_str`.
pub fn parse_u8(s: &[char]) -> (r: Option<u8>)
    ensures
        match r {
            Some(v) => parse_bounded(s@, 255) == Some(v as int),
            None => parse_bounded(s@, 255) is None,
        },
{
    match parse_uint(s, 255) {
        Some(v) => Some(v as u8),
        None => None,
    }
}

/// `<u16 as FromStr>::from_str`.
pub fn parse_u16(s: &[char]) -> (r: Option<u16>)
    ensures
        match r {
            Some(v) => parse_bounded(s@, 65535) == Some(v as int),
            None => parse_bounded(s@, 65535) is None,
        },
{
    match parse_uint(s, 65535) {
        Some(v) => Some(v as u16),
        None => None,
    }
}

/// `<u32 as FromStr>::from_str`.
pub fn parse_u32(s: &[char]) -> (r: Option<u32>)
    ensures
        match r {
            Some(v) => parse_bounded(s@, u32::MAX as int) == Some(v as int),
            None => parse_bounded(s@, u32::MAX as int) is None,
        },
{
    match parse_uint(s, 0xFFFF_FFFF) {
        Some(v) => Some(v as u32),
        None => None,
    }
}

/// `<u64 as FromStr>::from_str`.
pub fn parse_u64(s: &[char]) -> (r: Option<u64>)
    ensures
        match r {
            Some(v) => parse_bounded(s@, u64::MAX as int) == Some(v as int),
            None => parse_bounded(s@, u64::MAX as int) is None,
        },
{
    parse_uint(s, 0xFFFF_FFFF_FFFF_FFFF)
}

/// `<i32 as FromStr>::from_str`.
pub fn parse_i32(s: &[char]) -> (r: Option<i32>)
    ensures
        match r {
            Some(v) => parse_i32_spec(s@) == Some(v as int),
            None => parse_i32_spec(s@) is None,
        },
{
    let n = s.len();
    if n > 0 && s[0] == '-' {
        let rest = crate::text::slice_of(s, 1, n);
        assert(rest@ =~= s@.drop_first());
        if rest.len() > 0 && rest[0] == '+' {
            // `-+5` is not a number; `parse_uint` would accept the `+`.
            assert(!is_digit(rest@[0]));
            return None;
        }
        assert(unsigned_digits(rest@) =~= rest@);
        match parse_uint(&rest, 0x8000_0000) {
            Some(v) => {
                let r = 0i64 - (v as i64);
                Some(r as i32)
            },
            None => None,
        }
    } else {
        match parse_uint(s, 0x7FFF_FFFF) {
            Some(v) => Some(v as i32),
            None => None,
        }
    }
}

// ---------------------------------------------------------------------------
// Hexadecimal
// ---------------------------------------------------------------------------

/// An ASCII hexadecimal digit (either case).
pub open spec fn is_hex_digit(c: char) -> bool {
    ('0' <= c && c <= '9') || ('a' <= c && c <= 'f') || ('A' <= c && c <= 'F')
}

/// The value of a hexadecimal digit.
pub open spec fn hex_digit_value(c: char) -> int {
    if '0' <= c && c <= '9' {
        c as int - 48
    } else if 'a' <= c && c <= 'f' {
        c as int - 87
    } else {
        c as int - 55
    }
}

/// Every character is a hexadecimal digit.
pub open spec fn all_hex(s: Seq<char>) -> bool {
    forall|i: int| 0 <= i < s.len() ==> is_hex_digit(#[trigger] s[i])
}

/// The number a string of hexadecimal digits spells.
pub open spec fn hex_value(s: Seq<char>) -> int
    decreases s.len(),
{
    if s.len() == 0 {
        0
    } else {
        16 * hex_value(s.drop_last()) + hex_digit_value(s.last())
    }
}

/// `from_str_radix(s, 16)` for an unsigned type whose largest value is `max`.
pub open spec fn parse_hex_bounded(s: Seq<char>, max: int) -> Option<int> {
    let d = unsigned_digits(s);
    if d.len() > 0 && all_hex(d) && hex_value(d) <= max {
        Some(hex_value(d))
    } else {
        None
    }
}

proof fn lemma_hex_value_nonneg(s: Seq<char>)
    requires
        all_hex(s),
    ensures
        hex_value(s) >= 0,
    decreases s.len(),
{
    if s.len() > 0 {
        lemma_hex_value_nonneg(s.drop_last());
    }
}

proof fn lemma_hex_value_prefix_le(s: Seq<char>, j: int)
    requires
        all_hex(s),
        0 <= j <= s.len(),
    ensures
        hex_value(s.take(j)) <= hex_value(s),
    decreases s.len() - j,
{
    if j < s.len() {
        assert(s.drop_last().take(j) =~= s.take(j));
        lemma_hex_value_prefix_le(s.drop_last(), j);
        lemma_hex_value_nonneg(s.drop_last());
    } else {
        assert(s.take(j) =~= s);
    }
}

/// Executable `hex_digit_value` (or `None` for a non-digit).
pub fn hex_digit(c: char) -> (r: Option<u8>)
    ensures
        match r {
            Some(v) => is_hex_digit(c) && v as int == hex_digit_value(c) && v < 16,
            None => !is_hex_digit(c),
        },
{
    if '0' <= c && c <= '9' {
        Some((c as u32 - 48) as u8)
    } else if 'a' <= c && c <= 'f' {
        Some((c as u32 - 87) as u8)
    } else if 'A' <= c && c <= 'F' {
        Some((c as u32 - 55) as u8)
    } else {
        None
    }
}

/// `from_str_radix(s, 16)` for a value of at most `max`.
pub fn parse_hex(s: &[char], max: u64) -> (r: Option<u64>)
    ensures
        match r {
            Some(v) => parse_hex_bounded(s@, max as int) == Some(v as int),
            None => parse_hex_bounded(s@, max as int) is None,
        },
{
    let n = s.len();
    let start: usize = if n > 0 && s[0] == '+' {
        1
    } else {
        0
    };
    let ghost d = unsigned_digits(s@);
    assert(d =~= s@.skip(start as int));
    if start >= n {
        return None;
    }
    let mut acc: u64 = 0;
    let mut i = start;
    while i < n
        invariant
            n == s@.len(),
            start <= i <= n,
            d =~= s@.skip(start as int),
            d == unsigned_digits(s@),
            acc as int == hex_value(d.take(i - start)),
            acc <= max,
            all_hex(d.take(i - start)),
        decreases n - i,
    {
        let c = s[i];
        assert(d[i - start] == c);
        let dv = match hex_digit(c) {
            Some(v) => v,
            None => {
                assert(!is_hex_digit(d[i - start]));
                assert(!all_hex(d));
                return None;
            },
        };
        let next: u128 = (acc as u128) * 16 + (dv as u128);
        proof {
            let p = d.take(i - start + 1);
            assert(p.drop_last() =~= d.take(i - start));
            assert(p.last() == c);
        }
        assert(hex_value(d.take(i - start + 1)) == next);
        if next > max as u128 {
            proof {
                if all_hex(d) {
                    lemma_hex_value_prefix_le(d, i - start + 1);
                }
            }
            return None;
        }
        acc = next as u64;
        i += 1;
        assert(all_hex(d.take(i - start)));
    }
    assert(d.take(n - start) =~= d);
    Some(acc)
}

// ---------------------------------------------------------------------------
// Printing
// ---------------------------------------------------------------------------

/// The character of decimal digit `d`.
pub open spec fn digit_char(d: int) -> char {
    if d == 0 { '0' } else if d == 1 { '1' } else if d == 2 { '2' } else if d == 3 { '3' }
    else if d == 4 { '4' } else if d == 5 { '5' } else if d == 6 { '6' } else if d == 7 { '7' }
    else if d == 8 { '8' } else { '9' }
}

/// `n` printed in decimal (`{}`).
pub open spec fn dec_digits(n: nat) -> Seq<char>
    decreases n,
{
    if n < 10 {
        seq![digit_char(n as int)]
    } else {
        dec_digits(n / 10).push(digit_char((n % 10) as int))
    }
}

/// A signed `n` printed in decimal (`{}`).
pub open spec fn dec_signed(n: int) -> Seq<char> {
    if n < 0 {
        seq!['-'] + dec_digits((-n) as nat)
    } else {
        dec_digits(n as nat)
    }
}

/// The decimal digit character for `d`.
fn digit_char_exec(d: u64) -> (c: char)
    requires
        d < 10,
    ensures
        c == digit_char(d as int),
        is_digit(c),
        digit_value(c) == d,
{
    if d == 0 { '0' } else if d == 1 { '1' } else if d == 2 { '2' } else if d == 3 { '3' }
    else if d == 4 { '4' } else if d == 5 { '5' } else if d == 6 { '6' } else if d == 7 { '7' }
    else if d == 8 { '8' } else { '9' }
}

/// `n` printed in decimal.
pub fn fmt_u64(n: u64) -> (r: Vec<char>)
    ensures
        r@ == dec_digits(n as nat),
    decreases n,
{
    if n < 10 {
        let mut v = Vec::new();
        v.push(digit_char_exec(n));
        assert(v@ =~= dec_digits(n as nat));
        v
    } else {
        let mut v = fmt_u64(n / 10);
        v.push(digit_char_exec(n % 10));
        v
    }
}

/// A signed `n` printed in decimal.
pub fn fmt_i64(n: i64) -> (r: Vec<char>)
    ensures
        r@ == dec_signed(n as int),
{
    if n < 0 {
        let m: u64 = (0i128 - (n as i128)) as u64;
        let mut v = Vec::new();
        v.push('-');
        let d = fmt_u64(m);
        crate::text::push_all(&mut v, &d);
        assert(v@ =~= dec_signed(n as int));
        v
    } else {
        fmt_u64(n as u64)
    }
}

/// `n` printed in decimal as a `String`.
pub fn u64_to_string(n: u64) -> (s: String)
    ensures
        s@ == dec_digits(n as nat),
{
    let v = fmt_u64(n);
    crate::text::string_of(&v)
}

/// Upper-case hexadecimal digit character for `d < 16`.
pub open spec fn hex_char(d: int) -> char {
    if d < 10 { digit_char(d) } else if d == 10 { 'A' } else if d == 11 { 'B' }
    else if d == 12 { 'C' } else if d == 13 { 'D' } else if d == 14 { 'E' } else { 'F' }
}

/// `b` printed as `{:02X}`.
pub open spec fn hex2(b: u8) -> Seq<char> {
    seq![hex_char(b as int / 16), hex_char(b as int % 16)]
}

fn hex_char_exec(d: u8) -> (c: char)
    requires
        d < 16,
    ensures
        c == hex_char(d as int),
        is_hex_digit(c),
        hex_digit_value(c) == d,
{
    if d < 10 {
        digit_char_exec(d as u64)
    } else if d == 10 { 'A' } else if d == 11 { 'B' } else if d == 12 { 'C' }
    else if d == 13 { 'D' } else if d == 14 { 'E' } else { 'F' }
}

/// Appends `b` printed as `{:02X}`.
pub fn push_hex2(out: &mut Vec<char>, b: u8)
    ensures
        final(out)@ == old(out)@ + hex2(b),
{
    out.push(hex_char_exec(b / 16));
    out.push(hex_char_exec(b % 16));
    assert(final(out)@ =~= old(out)@ + hex2(b));
}

/// Lower-case hexadecimal digit character for `d < 16`.
pub open spec fn hex_lower_char(d: int) -> char {
    if d < 10 { digit_char(d) } else if d == 10 { 'a' } else if d == 11 { 'b' }
    else if d == 12 { 'c' } else if d == 13 { 'd' } else if d == 14 { 'e' } else { 'f' }
}

/// The last `w` lower-case hexadecimal digits of `n` (`{:0w$x}` when `n`
/// has at most `w` digits).
pub open spec fn hex_fixed(n: nat, w: nat) -> Seq<char>
    decreases w,
{
    if w == 0 {
        Seq::empty()
    } else {
        hex_fixed(n / 16, (w - 1) as nat).push(hex_lower_char((n % 16) as int))
    }
}

fn hex_lower_char_exec(d: u64) -> (c: char)
    requires
        d < 16,
    ensures
        c == hex_lower_char(d as int),
{
    if d < 10 {
        digit_char_exec(d)
    } else if d == 10 { 'a' } else if d == 11 { 'b' } else if d == 12 { 'c' }
    else if d == 13 { 'd' } else if d == 14 { 'e' } else { 'f' }
}

/// Appends the last `w` lower-case hexadecimal digits of `n`.
pub fn push_hex_fixed(out: &mut Vec<char>, n: u64, w: u8)
    ensures
        final(out)@ == old(out)@ + hex_fixed(n as nat, w as nat),
    decreases w,
{
    if w == 0 {
        assert(final(out)@ =~= old(out)@ + hex_fixed(n as nat, w as nat));
        return;
    }
    push_hex_fixed(out, n / 16, w - 1);
    out.push(hex_lower_char_exec(n % 16));
    assert(final(out)@ =~= old(out)@ + hex_fixed(n as nat, w as nat));
}

/// `n` printed in decimal with a sign always (`{:+}`).
pub open spec fn dec_plus(n: int) -> Seq<char> {
    if n < 0 {
        dec_signed(n)
    } else {
        seq!['+'] + dec_digits(n as nat)
    }
}

/// Appends `n` printed as `{:+}`.
pub fn push_dec_plus(out: &mut Vec<char>, n: i64)
    ensures
        final(out)@ == old(out)@ + dec_plus(n as int),
{
    if n < 0 {
        let d = fmt_i64(n);
        crate::text::push_all(out, &d);
    } else {
        out.push('+');
        let d = fmt_u64(n as u64);
        crate::text::push_all(out, &d);
    }
    assert(final(out)@ =~= old(out)@ + dec_plus(n as int));
}

/// Appends `n` printed in decimal.
pub fn push_dec(out: &mut Vec<char>, n: u64)
    ensures
        final(out)@ == old(out)@ + dec_digits(n as nat),
{
    let d = fmt_u64(n);
    crate::text::push_all(out, &d);
}

// ---------------------------------------------------------------------------
// Round trips
// ---------------------------------------------------------------------------

proof fn lemma_digit_char(d: int)
    requires
        0 <= d < 10,
    ensures
        is_digit(digit_char(d)),
        digit_value(digit_char(d)) == d,
        is_hex_digit(digit_char(d)),
        hex_digit_value(digit_char(d)) == d,
{
}

proof fn lemma_hex_char(d: int)
    requires
        0 <= d < 16,
    ensures
        is_hex_digit(hex_char(d)),
        hex_digit_value(hex_char(d)) == d,
{
    if d < 10 {
        lemma_digit_char(d);
    }
}

/// Printing a number in decimal and reading it back gives the number.
pub proof fn lemma_dec_digits_parse(n: nat)
    ensures
        all_digits(dec_digits(n)),
        dec_digits(n).len() > 0,
        dec_value(dec_digits(n)) == n,
        dec_digits(n)[0] != '+',
        dec_digits(n)[0] != '-',
        parse_unsigned(dec_digits(n)) == Some(n as int),
    decreases n,
{
    lemma_digit_char((n % 10) as int);
    if n < 10 {
        lemma_digit_char(n as int);
        assert(dec_digits(n).drop_last() =~= Seq::<char>::empty());
        assert(dec_value(dec_digits(n)) == 10 * dec_value(Seq::<char>::empty()) + digit_value(
            digit_char(n as int),
        ));
    }
    if n >= 10 {
        lemma_dec_digits_parse(n / 10);
        let p = dec_digits(n / 10);
        let s = dec_digits(n);
        assert(s.drop_last() =~= p);
        assert(s.last() == digit_char((n % 10) as int));
        assert(dec_value(s) == 10 * dec_value(p) + digit_value(s.last()));
        assert(s[0] == p[0]);
        assert forall|i: int| 0 <= i < s.len() implies is_digit(#[trigger] s[i]) by {
            if i < p.len() {
                assert(s[i] == p[i]);
            }
        }
    }
}

/// Printing a signed number in decimal and reading it back gives the number.
pub proof fn lemma_dec_signed_parse(n: int)
    ensures
        parse_signed(dec_signed(n)) == Some(n),
{
    if n < 0 {
        lemma_dec_digits_parse((-n) as nat);
        let s = dec_signed(n);
        assert(s.drop_first() =~= dec_digits((-n) as nat));
    } else {
        lemma_dec_digits_parse(n as nat);
    }
}

/// Printing a byte as two hex digits and reading it back gives the byte.
pub proof fn lemma_hex2_parse(b: u8)
    ensures
        all_hex(hex2(b)),
        hex_value(hex2(b)) == b as int,
        hex2(b).len() == 2,
{
    let s = hex2(b);
    lemma_hex_char(b as int / 16);
    lemma_hex_char(b as int % 16);
    assert(s.drop_last() =~= seq![hex_char(b as int / 16)]);
    assert(seq![hex_char(b as int / 16)].drop_last() =~= Seq::<char>::empty());
    assert(hex_value(seq![hex_char(b as int / 16)]) == 16 * hex_value(Seq::<char>::empty())
        + hex_digit_value(hex_char(b as int / 16)));
    assert(hex_value(s) == 16 * hex_value(s.drop_last()) + hex_digit_value(s.last()));
}

} // verus!
