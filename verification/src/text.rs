//! Character-level text primitives shared by the layout parsers and the
//! name lookups: trimming, ASCII case folding, substring search, decimal and
//! hexadecimal numerals.
use vstd::prelude::*;

verus! {

// ---------------------------------------------------------------------------
// Conversions between `str`/`String` and character vectors
// ---------------------------------------------------------------------------

/// The characters of `s`, in order.
pub fn chars_of(s: &str) -> (v: Vec<char>)
    ensures
        v@ == s@,
{
    let mut v: Vec<char> = Vec::new();
    for c in it: s.chars()
        invariant
            v@ == it.seq().take(it.index() as int),
    {
        v.push(c);
    }
    v
}

/// Appends one character to a `String` (`String::push`).
#[verifier::external_body]
fn push_char(s: &mut String, c: char)
    ensures
        final(s)@ == old(s)@.push(c),
{
    s.push(c);
}

/// A `String` holding exactly the characters of `v`.
pub fn string_of(v: &[char]) -> (s: String)
    ensures
        s@ == v@,
{
    let mut s = String::new();
    let mut i: usize = 0;
    while i < v.len()
        invariant
            i <= v@.len(),
            s@ == v@.take(i as int),
        decreases v@.len() - i,
    {
        push_char(&mut s, v[i]);
        i += 1;
        assert(s@ =~= v@.take(i as int));
    }
    assert(v@.take(v@.len() as int) =~= v@);
    s
}

/// Appends all characters of `src` to `dst`.
pub fn push_all(dst: &mut Vec<char>, src: &[char])
    ensures
        final(dst)@ == old(dst)@ + src@,
{
    let mut i: usize = 0;
    while i < src.len()
        invariant
            i <= src@.len(),
            dst@ == old(dst)@ + src@.take(i as int),
        decreases src@.len() - i,
    {
        dst.push(src[i]);
        i += 1;
        assert(dst@ =~= old(dst)@ + src@.take(i as int));
    }
    assert(src@.take(src@.len() as int) =~= src@);
}

/// Appends all characters of `src` to `dst`.
pub fn push_str(dst: &mut Vec<char>, src: &str)
    ensures
        final(dst)@ == old(dst)@ + src@,
{
    let v = chars_of(src);
    push_all(dst, &v);
}

/// Copy of `s[start..end]`.
pub fn slice_of(s: &[char], start: usize, end: usize) -> (r: Vec<char>)
    requires
        start <= end <= s@.len(),
    ensures
        r@ == s@.subrange(start as int, end as int),
{
    let mut r: Vec<char> = Vec::new();
    let mut i = start;
    while i < end
        invariant
            start <= i <= end <= s@.len(),
            r@ == s@.subrange(start as int, i as int),
        decreases end - i,
    {
        r.push(s[i]);
        i += 1;
        assert(r@ =~= s@.subrange(start as int, i as int));
    }
    r
}

/// Whether two character sequences are equal.
pub fn chars_eq(a: &[char], b: &[char]) -> (r: bool)
    ensures
        r == (a@ == b@),
{
    if a.len() != b.len() {
        return false;
    }
    let mut i: usize = 0;
    while i < a.len()
        invariant
            a@.len() == b@.len(),
            i <= a@.len(),
            forall|j: int| 0 <= j < i ==> a@[j] == b@[j],
        decreases a@.len() - i,
    {
        if a[i] != b[i] {
            return false;
        }
        i += 1;
    }
    assert(a@ =~= b@);
    true
}

/// Whether the characters of `a` spell out `b`.
pub fn eq_str(a: &[char], b: &str) -> (r: bool)
    ensures
        r == (a@ == b@),
{
    let bv = chars_of(b);
    chars_eq(a, &bv)
}

// ---------------------------------------------------------------------------
// Whitespace and trimming
// ---------------------------------------------------------------------------

/// Unicode `White_Space` (the characters `char::is_whitespace` accepts).
pub open spec fn is_ws(c: char) -> bool {
    let u = c as u32;
    ||| 0x09 <= u <= 0x0D
    ||| u == 0x20
    ||| u == 0x85
    ||| u == 0xA0
    ||| u == 0x1680
    ||| 0x2000 <= u <= 0x200A
    ||| u == 0x2028
    ||| u == 0x2029
    ||| u == 0x202F
    ||| u == 0x205F
    ||| u == 0x3000
}

/// Executable `is_ws`.
pub fn is_whitespace(c: char) -> (r: bool)
    ensures
        r == is_ws(c),
{
    let u = c as u32;
    (0x09 <= u && u <= 0x0D) || u == 0x20 || u == 0x85 || u == 0xA0 || u == 0x1680 || (0x2000
        <= u && u <= 0x200A) || u == 0x2028 || u == 0x2029 || u == 0x202F || u == 0x205F || u
        == 0x3000
}

/// `s` without its leading whitespace.
pub open spec fn trim_start(s: Seq<char>) -> Seq<char>
    decreases s.len(),
{
    if s.len() > 0 && is_ws(s[0]) {
        trim_start(s.drop_first())
    } else {
        s
    }
}

/// `s` without its trailing whitespace.
pub open spec fn trim_end(s: Seq<char>) -> Seq<char>
    decreases s.len(),
{
    if s.len() > 0 && is_ws(s.last()) {
        trim_end(s.drop_last())
    } else {
        s
    }
}

/// `s` without leading and trailing whitespace (`str::trim`).
pub open spec fn trim(s: Seq<char>) -> Seq<char> {
    trim_end(trim_start(s))
}

proof fn lemma_trim_start_skip(s: Seq<char>, i: int)
    requires
        0 <= i <= s.len(),
        forall|j: int| 0 <= j < i ==> is_ws(#[trigger] s[j]),
    ensures
        trim_start(s) == trim_start(s.skip(i)),
    decreases i,
{
    if i > 0 {
        assert(s.skip(1) =~= s.drop_first());
        lemma_trim_start_skip(s.drop_first(), i - 1);
        assert(s.drop_first().skip(i - 1) =~= s.skip(i));
    } else {
        assert(s.skip(0) =~= s);
    }
}

proof fn lemma_trim_end_take(s: Seq<char>, i: int)
    requires
        0 <= i <= s.len(),
        forall|j: int| i <= j < s.len() ==> is_ws(#[trigger] s[j]),
    ensures
        trim_end(s) == trim_end(s.take(i)),
    decreases s.len() - i,
{
    if i < s.len() {
        lemma_trim_end_take(s.drop_last(), i);
        assert(s.drop_last().take(i) =~= s.take(i));
    } else {
        assert(s.take(i) =~= s);
    }
}

/// Index of the first non-whitespace character of `s` (or its length).
fn first_non_ws(s: &[char]) -> (i: usize)
    ensures
        i <= s@.len(),
        trim_start(s@) == s@.skip(i as int),
{
    let mut i: usize = 0;
    while i < s.len() && is_whitespace(s[i])
        invariant
            i <= s@.len(),
            forall|j: int| 0 <= j < i ==> is_ws(#[trigger] s@[j]),
        decreases s@.len() - i,
    {
        i += 1;
    }
    proof {
        lemma_trim_start_skip(s@, i as int);
        let t = s@.skip(i as int);
        if t.len() > 0 {
            assert(t[0] == s@[i as int]);
        }
    }
    i
}

/// `str::trim` on characters.
pub fn trim_chars(s: &[char]) -> (r: Vec<char>)
    ensures
        r@ == trim(s@),
{
    let start = first_non_ws(s);
    let mut end = s.len();
    while end > start && is_whitespace(s[end - 1])
        invariant
            start <= end <= s@.len(),
            forall|j: int| end <= j < s@.len() ==> is_ws(#[trigger] s@[j]),
        decreases end,
    {
        end -= 1;
    }
    proof {
        let t = s@.skip(start as int);
        let k = end - start;
        assert forall|j: int| k <= j < t.len() implies is_ws(#[trigger] t[j]) by {
            assert(t[j] == s@[j + start]);
        }
        lemma_trim_end_take(t, k as int);
        let u = t.take(k as int);
        assert(u =~= s@.subrange(start as int, end as int));
        if u.len() > 0 {
            assert(u.last() == s@[end - 1]);
        }
    }
    slice_of(s, start, end)
}

/// `str::trim_start` on characters.
pub fn trim_start_chars(s: &[char]) -> (r: Vec<char>)
    ensures
        r@ == trim_start(s@),
{
    let start = first_non_ws(s);
    let r = slice_of(s, start, s.len());
    assert(r@ =~= s@.skip(start as int));
    r
}

/// `str::trim` on a string slice, as characters.
pub fn trim_str(s: &str) -> (r: Vec<char>)
    ensures
        r@ == trim(s@),
{
    let v = chars_of(s);
    trim_chars(&v)
}

// ---------------------------------------------------------------------------
// ASCII case
// ---------------------------------------------------------------------------

/// `char::to_ascii_lowercase`.
pub open spec fn lower_char(c: char) -> char {
    if 'A' <= c && c <= 'Z' {
        ((c as u32) + 32) as char
    } else {
        c
    }
}

/// `char::to_ascii_uppercase`.
pub open spec fn upper_char(c: char) -> char {
    if 'a' <= c && c <= 'z' {
        ((c as u32) - 32) as char
    } else {
        c
    }
}

/// `str::to_ascii_lowercase`.
pub open spec fn ascii_lower(s: Seq<char>) -> Seq<char> {
    s.map_values(|c: char| lower_char(c))
}

/// `str::to_ascii_uppercase`.
pub open spec fn ascii_upper(s: Seq<char>) -> Seq<char> {
    s.map_values(|c: char| upper_char(c))
}

/// Executable `lower_char`.
pub fn to_lower_char(c: char) -> (r: char)
    ensures
        r == lower_char(c),
{
    if 'A' <= c && c <= 'Z' {
        let u = (c as u32) + 32;
        assert(0x61 <= u <= 0x7A);
        char_from_ascii(u)
    } else {
        c
    }
}

/// Executable `upper_char`.
pub fn to_upper_char(c: char) -> (r: char)
    ensures
        r == upper_char(c),
{
    if 'a' <= c && c <= 'z' {
        let u = (c as u32) - 32;
        char_from_ascii(u)
    } else {
        c
    }
}

/// The ASCII character with code `u`.
fn char_from_ascii(u: u32) -> (c: char)
    requires
        u < 128,
    ensures
        c == u as char,
        c as u32 == u,
{
    let b = u as u8;
    let c = b as char;
    assert(c as u32 == u) by {
        assert(b as u32 == u);
    }
    c
}

/// What `str::to_lowercase` gives for a text: its Unicode lower case, a
/// function of the text alone.
pub uninterp spec fn unicode_lower(s: Seq<char>) -> Seq<char>;

/// `str::to_lowercase`. Claimed: the result is `unicode_lower` of the text,
/// and on ASCII text it is the ASCII lower case (what Unicode lower-casing
/// does to ASCII letters). Nothing else of the Unicode tables is stated.
#[verifier::external_body]
pub(crate) fn to_lowercase(s: &str) -> (r: String)
    ensures
        r@ == unicode_lower(s@),
        all_ascii(s@) ==> r@ == ascii_lower(s@),
{
    s.to_lowercase()
}

/// The lower case `str::to_lowercase` gives: on ASCII text the ASCII lower
/// case (as `to_lowercase` is claimed to give), otherwise the Unicode one.
pub open spec fn text_lower(s: Seq<char>) -> Seq<char> {
    if all_ascii(s) {
        ascii_lower(s)
    } else {
        unicode_lower(s)
    }
}

/// What `str::to_uppercase` gives for a text: its Unicode upper case, a
/// function of the text alone.
pub uninterp spec fn unicode_upper(s: Seq<char>) -> Seq<char>;

/// The upper case `str::to_uppercase` gives: on ASCII text the ASCII upper
/// case (as `to_uppercase` is claimed to give), otherwise the Unicode one.
#[verifier::opaque]
pub open spec fn text_upper(s: Seq<char>) -> Seq<char> {
    if all_ascii(s) {
        ascii_upper(s)
    } else {
        unicode_upper(s)
    }
}

/// `str::to_uppercase`. Claimed: the result is `unicode_upper` of the text,
/// and on ASCII text it is the ASCII upper case. Nothing else of the
/// Unicode tables is stated.
#[verifier::external_body]
pub(crate) fn to_uppercase(s: &str) -> (r: String)
    ensures
        r@ == unicode_upper(s@),
        all_ascii(s@) ==> r@ == ascii_upper(s@),
{
    s.to_uppercase()
}

/// `str::to_ascii_lowercase` on characters.
pub fn lower_chars(s: &[char]) -> (r: Vec<char>)
    ensures
        r@ == ascii_lower(s@),
{
    let mut r: Vec<char> = Vec::new();
    let mut i: usize = 0;
    while i < s.len()
        invariant
            i <= s@.len(),
            r@ == ascii_lower(s@.take(i as int)),
        decreases s@.len() - i,
    {
        r.push(to_lower_char(s[i]));
        i += 1;
        assert(r@ =~= ascii_lower(s@.take(i as int)));
    }
    assert(s@.take(s@.len() as int) =~= s@);
    r
}

/// `str::to_ascii_uppercase` on characters.
pub fn upper_chars(s: &[char]) -> (r: Vec<char>)
    ensures
        r@ == ascii_upper(s@),
{
    let mut r: Vec<char> = Vec::new();
    let mut i: usize = 0;
    while i < s.len()
        invariant
            i <= s@.len(),
            r@ == ascii_upper(s@.take(i as int)),
        decreases s@.len() - i,
    {
        r.push(to_upper_char(s[i]));
        i += 1;
        assert(r@ =~= ascii_upper(s@.take(i as int)));
    }
    assert(s@.take(s@.len() as int) =~= s@);
    r
}

/// Whether every character is ASCII.
pub open spec fn all_ascii(s: Seq<char>) -> bool {
    forall|i: int| 0 <= i < s.len() ==> (#[trigger] s[i] as u32) < 128
}

/// Executable `all_ascii`.
pub fn is_all_ascii(s: &[char]) -> (r: bool)
    ensures
        r == all_ascii(s@),
{
    let mut i: usize = 0;
    while i < s.len()
        invariant
            i <= s@.len(),
            forall|j: int| 0 <= j < i ==> (#[trigger] s@[j] as u32) < 128,
        decreases s@.len() - i,
    {
        if s[i] as u32 >= 128 {
            return false;
        }
        i += 1;
    }
    true
}

// ---------------------------------------------------------------------------
// Searching
// ---------------------------------------------------------------------------

/// `p` occurs in `s` at index `i`.
pub open spec fn occurs_at(s: Seq<char>, p: Seq<char>, i: int) -> bool {
    0 <= i && i + p.len() <= s.len() && s.subrange(i, i + p.len()) == p
}

/// `s` contains `p` as a substring.
pub open spec fn contains(s: Seq<char>, p: Seq<char>) -> bool {
    exists|i: int| occurs_at(s, p, i)
}

/// `s` starts with `p`.
pub open spec fn starts_with(s: Seq<char>, p: Seq<char>) -> bool {
    p.len() <= s.len() && s.take(p.len() as int) == p
}

/// `s` ends with `p`.
pub open spec fn ends_with(s: Seq<char>, p: Seq<char>) -> bool {
    p.len() <= s.len() && s.skip(s.len() - p.len()) == p
}

/// Whether `p` occurs in `s` at index `i`.
pub fn matches_at(s: &[char], p: &[char], i: usize) -> (r: bool)
    ensures
        r == occurs_at(s@, p@, i as int),
{
    if i > s.len() || p.len() > s.len() - i {
        return false;
    }
    let n = s.len();
    let mut j: usize = 0;
    while j < p.len()
        invariant
            n == s@.len(),
            i + p@.len() <= s@.len(),
            j <= p@.len(),
            forall|k: int| 0 <= k < j ==> s@[i + k] == p@[k],
        decreases p@.len() - j,
    {
        if s[i + j] != p[j] {
            assert(s@.subrange(i as int, i + p@.len())[j as int] != p@[j as int]);
            return false;
        }
        j += 1;
    }
    assert(s@.subrange(i as int, i + p@.len()) =~= p@);
    true
}

/// Index of the first occurrence of `p` in `s`.
pub fn find(s: &[char], p: &[char]) -> (r: Option<usize>)
    ensures
        match r {
            Some(i) => occurs_at(s@, p@, i as int) && forall|k: int|
                0 <= k < i ==> !occurs_at(s@, p@, k),
            None => !contains(s@, p@),
        },
{
    let n = s.len();
    let mut i: usize = 0;
    while i < n
        invariant
            n == s@.len(),
            i <= n,
            forall|k: int| 0 <= k < i ==> !occurs_at(s@, p@, k),
        decreases n - i,
    {
        if matches_at(s, p, i) {
            return Some(i);
        }
        i += 1;
    }
    if matches_at(s, p, n) {
        return Some(n);
    }
    assert forall|k: int| !occurs_at(s@, p@, k) by {
        if 0 <= k < i {
        }
    }
    None
}

/// Whether `s` contains `p`.
pub fn contains_chars(s: &[char], p: &[char]) -> (r: bool)
    ensures
        r == contains(s@, p@),
{
    match find(s, p) {
        Some(_) => true,
        None => false,
    }
}

/// Whether `s` contains the text `p`.
pub fn contains_str(s: &[char], p: &str) -> (r: bool)
    ensures
        r == contains(s@, p@),
{
    let pv = chars_of(p);
    contains_chars(s, &pv)
}

/// Whether `s` starts with the text `p`.
pub fn starts_with_str(s: &[char], p: &str) -> (r: bool)
    ensures
        r == starts_with(s@, p@),
{
    let pv = chars_of(p);
    let r = matches_at(s, &pv, 0);
    proof {
        if r {
            assert(s@.take(pv@.len() as int) =~= s@.subrange(0, pv@.len() as int));
        }
        if starts_with(s@, p@) {
            assert(s@.take(pv@.len() as int) =~= s@.subrange(0, pv@.len() as int));
        }
    }
    r
}

/// Whether `s` ends with the text `p`.
pub fn ends_with_str(s: &[char], p: &str) -> (r: bool)
    ensures
        r == ends_with(s@, p@),
{
    let pv = chars_of(p);
    if pv.len() > s.len() {
        return false;
    }
    let i = s.len() - pv.len();
    let r = matches_at(s, &pv, i);
    proof {
        assert(s@.skip(i as int) =~= s@.subrange(i as int, i + pv@.len()));
    }
    r
}

/// `c` occurs in `s`.
pub open spec fn has_char(s: Seq<char>, c: char) -> bool {
    exists|i: int| 0 <= i < s.len() && s[i] == c
}

/// Index of the first `c` in `s`.
pub fn find_char(s: &[char], c: char) -> (r: Option<usize>)
    ensures
        match r {
            Some(i) => i < s@.len() && s@[i as int] == c && forall|k: int|
                0 <= k < i ==> s@[k] != c,
            None => !has_char(s@, c),
        },
{
    let mut i: usize = 0;
    while i < s.len()
        invariant
            i <= s@.len(),
            forall|k: int| 0 <= k < i ==> s@[k] != c,
        decreases s@.len() - i,
    {
        if s[i] == c {
            return Some(i);
        }
        i += 1;
    }
    None
}

/// Index of the last `c` in `s`.
pub fn rfind_char(s: &[char], c: char) -> (r: Option<usize>)
    ensures
        match r {
            Some(i) => i < s@.len() && s@[i as int] == c && forall|k: int|
                i < k < s@.len() ==> s@[k] != c,
            None => !has_char(s@, c),
        },
{
    let mut i: usize = s.len();
    while i > 0
        invariant
            i <= s@.len(),
            forall|k: int| i <= k < s@.len() ==> s@[k] != c,
        decreases i,
    {
        if s[i - 1] == c {
            return Some(i - 1);
        }
        i -= 1;
    }
    None
}

/// Whether `c` occurs in `s`.
pub fn has_char_exec(s: &[char], c: char) -> (r: bool)
    ensures
        r == has_char(s@, c),
{
    match find_char(s, c) {
        Some(_) => true,
        None => false,
    }
}

/// Index of the first occurrence of `c` (spec of `find_char`).
pub open spec fn first_index(s: Seq<char>, c: char) -> int {
    choose|i: int| 0 <= i < s.len() && s[i] == c && forall|k: int| 0 <= k < i ==> s[k] != c
}

/// Index of the last occurrence of `c` (spec of `rfind_char`).
pub open spec fn last_index(s: Seq<char>, c: char) -> int {
    choose|i: int| 0 <= i < s.len() && s[i] == c && forall|k: int| i < k < s.len() ==> s[k] != c
}

/// `str::split_once(c)`: the text before and after the first `c`.
pub open spec fn split_once(s: Seq<char>, c: char) -> Option<(Seq<char>, Seq<char>)> {
    if has_char(s, c) {
        let i = first_index(s, c);
        Some((s.take(i), s.skip(i + 1)))
    } else {
        None
    }
}

/// `str::rsplit_once(c)`: the text before and after the last `c`.
pub open spec fn rsplit_once(s: Seq<char>, c: char) -> Option<(Seq<char>, Seq<char>)> {
    if has_char(s, c) {
        let i = last_index(s, c);
        Some((s.take(i), s.skip(i + 1)))
    } else {
        None
    }
}

pub proof fn lemma_first_index_unique(s: Seq<char>, c: char, i: int)
    requires
        0 <= i < s.len(),
        s[i] == c,
        forall|k: int| 0 <= k < i ==> s[k] != c,
    ensures
        has_char(s, c),
        first_index(s, c) == i,
{
    assert(has_char(s, c));
    let j = first_index(s, c);
    assert(0 <= j < s.len() && s[j] == c && forall|k: int| 0 <= k < j ==> s[k] != c);
    if j < i {
        assert(s[j] != c);
    }
    if i < j {
        assert(s[i] != c);
    }
}

pub proof fn lemma_last_index_unique(s: Seq<char>, c: char, i: int)
    requires
        0 <= i < s.len(),
        s[i] == c,
        forall|k: int| i < k < s.len() ==> s[k] != c,
    ensures
        has_char(s, c),
        last_index(s, c) == i,
{
    assert(has_char(s, c));
    let j = last_index(s, c);
    assert(0 <= j < s.len() && s[j] == c && forall|k: int| j < k < s.len() ==> s[k] != c);
    if j < i {
        assert(s[i] != c);
    }
    if i < j {
        assert(s[j] != c);
    }
}

/// Executable `split_once`.
pub fn split_once_chars(s: &[char], c: char) -> (r: Option<(Vec<char>, Vec<char>)>)
    ensures
        match r {
            Some((a, b)) => split_once(s@, c) == Some((a@, b@)),
            None => split_once(s@, c) is None,
        },
{
    match find_char(s, c) {
        Some(i) => {
            proof {
                lemma_first_index_unique(s@, c, i as int);
            }
            let n = s.len();
            assert(i < n);
            let a = slice_of(s, 0, i);
            let b = slice_of(s, i + 1, n);
            assert(a@ =~= s@.take(i as int));
            assert(b@ =~= s@.skip(i + 1));
            Some((a, b))
        },
        None => None,
    }
}

/// Executable `rsplit_once`.
pub fn rsplit_once_chars(s: &[char], c: char) -> (r: Option<(Vec<char>, Vec<char>)>)
    ensures
        match r {
            Some((a, b)) => rsplit_once(s@, c) == Some((a@, b@)),
            None => rsplit_once(s@, c) is None,
        },
{
    match rfind_char(s, c) {
        Some(i) => {
            proof {
                lemma_last_index_unique(s@, c, i as int);
            }
            let n = s.len();
            assert(i < n);
            let a = slice_of(s, 0, i);
            let b = slice_of(s, i + 1, n);
            assert(a@ =~= s@.take(i as int));
            assert(b@ =~= s@.skip(i + 1));
            Some((a, b))
        },
        None => None,
    }
}

// ---------------------------------------------------------------------------
// Lines
// ---------------------------------------------------------------------------

/// Index of the first `c` in `s`, or -1.
pub open spec fn index_of(s: Seq<char>, c: char) -> int
    decreases s.len(),
{
    if s.len() == 0 {
        -1
    } else if s[0] == c {
        0
    } else {
        let k = index_of(s.drop_first(), c);
        if k < 0 {
            -1
        } else {
            k + 1
        }
    }
}

/// `index_of` finds the first occurrence, or reports that there is none.
pub proof fn lemma_index_of(s: Seq<char>, c: char)
    ensures
        -1 <= index_of(s, c) < s.len(),
        index_of(s, c) >= 0 ==> s[index_of(s, c)] == c,
        forall|j: int| 0 <= j < index_of(s, c) ==> s[j] != c,
        index_of(s, c) < 0 ==> forall|j: int| 0 <= j < s.len() ==> s[j] != c,
    decreases s.len(),
{
    if s.len() > 0 && s[0] != c {
        lemma_index_of(s.drop_first(), c);
        assert forall|j: int| 0 <= j < index_of(s, c) implies s[j] != c by {
            if j > 0 {
                assert(s[j] == s.drop_first()[j - 1]);
            }
        }
        assert forall|j: int| index_of(s, c) < 0 && 0 <= j < s.len() implies s[j] != c by {
            if j > 0 {
                assert(s[j] == s.drop_first()[j - 1]);
            }
        }
    }
}

/// A line that was ended by a line feed loses a carriage return before it.
pub open spec fn strip_cr(l: Seq<char>) -> Seq<char> {
    if l.len() > 0 && l.last() == '\r' {
        l.drop_last()
    } else {
        l
    }
}

/// `str::lines`: the pieces between line feeds, each without a `\r` before
/// its line feed; a final line feed does not start another line.
pub open spec fn lines(s: Seq<char>) -> Seq<Seq<char>>
    decreases s.len(),
{
    if s.len() == 0 {
        seq![]
    } else {
        let k = index_of(s, '\n');
        if k < 0 {
            seq![s]
        } else {
            proof {
                lemma_index_of(s, '\n');
            }
            seq![strip_cr(s.take(k))] + lines(s.skip(k + 1))
        }
    }
}

/// Index of the first `c` at or after `from`.
fn find_char_from(s: &[char], c: char, from: usize) -> (r: Option<usize>)
    requires
        from <= s@.len(),
    ensures
        match r {
            Some(i) => from <= i < s@.len() && index_of(s@.skip(from as int), c) == i - from,
            None => index_of(s@.skip(from as int), c) < 0,
        },
{
    let n = s.len();
    let ghost rem = s@.skip(from as int);
    proof {
        lemma_index_of(rem, c);
    }
    let mut i = from;
    while i < n
        invariant
            n == s@.len(),
            from <= i <= n,
            rem == s@.skip(from as int),
            forall|j: int| from <= j < i ==> s@[j] != c,
        decreases n - i,
    {
        if s[i] == c {
            proof {
                lemma_index_of(rem, c);
                let k = index_of(rem, c);
                if 0 <= k < i - from {
                    assert(rem[k] == s@[from + k]);
                }
                if k > i - from {
                    assert(rem[i - from] == s@[i as int]);
                }
                if k < 0 {
                    assert(rem[i - from] == s@[i as int]);
                }
            }
            return Some(i);
        }
        i += 1;
    }
    proof {
        lemma_index_of(rem, c);
        let k = index_of(rem, c);
        if k >= 0 {
            assert(rem[k] == s@[from + k]);
        }
    }
    None
}

/// `str::lines` on characters.
pub fn split_lines(s: &[char]) -> (r: Vec<Vec<char>>)
    ensures
        r@.len() == lines(s@).len(),
        forall|i: int| 0 <= i < r@.len() ==> (#[trigger] r@[i])@ == lines(s@)[i],
{
    let n = s.len();
    let mut out: Vec<Vec<char>> = Vec::new();
    let ghost mut done: Seq<Seq<char>> = seq![];
    let mut start: usize = 0;
    assert(s@.skip(0) =~= s@);
    while start < n
        invariant
            n == s@.len(),
            start <= n,
            out@.len() == done.len(),
            forall|i: int| 0 <= i < out@.len() ==> (#[trigger] out@[i])@ == done[i],
            lines(s@) == done + lines(s@.skip(start as int)),
        decreases n - start,
    {
        let ghost rem = s@.skip(start as int);
        match find_char_from(s, '\n', start) {
            Some(i) => {
                let mut end = i;
                if end > start && s[end - 1] == '\r' {
                    end = end - 1;
                }
                let line = slice_of(s, start, end);
                proof {
                    let k = i - start;
                    assert(rem.take(k) =~= s@.subrange(start as int, i as int));
                    assert(line@ =~= strip_cr(rem.take(k)));
                    assert(rem.skip(k + 1) =~= s@.skip(i + 1));
                    assert(lines(rem) == seq![strip_cr(rem.take(k))] + lines(rem.skip(k + 1)));
                    assert(done.push(line@) + lines(s@.skip(i + 1)) =~= done + lines(rem));
                    done = done.push(line@);
                }
                out.push(line);
                start = i + 1;
            },
            None => {
                let line = slice_of(s, start, n);
                proof {
                    assert(line@ =~= rem);
                    assert(lines(rem) == seq![rem]);
                    assert(s@.skip(n as int) =~= Seq::<char>::empty());
                    assert(lines(s@.skip(n as int)) =~= Seq::<Seq<char>>::empty());
                    assert(done.push(line@) + lines(s@.skip(n as int)) =~= done + lines(rem));
                    done = done.push(line@);
                }
                out.push(line);
                start = n;
            },
        }
    }
    proof {
        assert(s@.skip(n as int) =~= Seq::<char>::empty());
        assert(lines(s@.skip(n as int)) =~= Seq::<Seq<char>>::empty());
        assert(done + lines(s@.skip(n as int)) =~= done);
    }
    out
}

/// `str::split(c)`: the pieces between occurrences of `c` (one more piece
/// than there are occurrences).
pub open spec fn split_on(s: Seq<char>, c: char) -> Seq<Seq<char>>
    decreases s.len(),
{
    let k = index_of(s, c);
    if k < 0 {
        seq![s]
    } else {
        proof {
            lemma_index_of(s, c);
        }
        seq![s.take(k)] + split_on(s.skip(k + 1), c)
    }
}

/// `str::split(c)` on characters.
pub fn split_chars(s: &[char], c: char) -> (r: Vec<Vec<char>>)
    ensures
        r@.len() == split_on(s@, c).len(),
        forall|i: int| 0 <= i < r@.len() ==> (#[trigger] r@[i])@ == split_on(s@, c)[i],
{
    let n = s.len();
    let mut out: Vec<Vec<char>> = Vec::new();
    let ghost mut done: Seq<Seq<char>> = seq![];
    let mut start: usize = 0;
    assert(s@.skip(0) =~= s@);
    loop
        invariant
            n == s@.len(),
            start <= n,
            out@.len() == done.len(),
            forall|i: int| 0 <= i < out@.len() ==> (#[trigger] out@[i])@ == done[i],
            split_on(s@, c) == done + split_on(s@.skip(start as int), c),
        decreases n - start,
    {
        let ghost rem = s@.skip(start as int);
        match find_char_from(s, c, start) {
            Some(i) => {
                let piece = slice_of(s, start, i);
                proof {
                    let k = i - start;
                    assert(piece@ =~= rem.take(k));
                    assert(rem.skip(k + 1) =~= s@.skip(i + 1));
                    assert(done.push(piece@) + split_on(s@.skip(i + 1), c) =~= done + split_on(
                        rem,
                        c,
                    ));
                    done = done.push(piece@);
                }
                out.push(piece);
                start = i + 1;
            },
            None => {
                let piece = slice_of(s, start, n);
                proof {
                    assert(piece@ =~= rem);
                    assert(done.push(piece@) =~= done + split_on(rem, c));
                    done = done.push(piece@);
                }
                out.push(piece);
                return out;
            },
        }
    }
}

/// `s` with every `from` replaced by `to`.
pub open spec fn replace_char(s: Seq<char>, from: char, to: char) -> Seq<char> {
    s.map_values(|x: char| if x == from { to } else { x })
}

/// Executable `replace_char`.
pub fn replace_chars(s: &[char], from: char, to: char) -> (r: Vec<char>)
    ensures
        r@ == replace_char(s@, from, to),
{
    let mut r: Vec<char> = Vec::new();
    let mut i: usize = 0;
    while i < s.len()
        invariant
            i <= s@.len(),
            r@ == replace_char(s@.take(i as int), from, to),
        decreases s@.len() - i,
    {
        let x = s[i];
        r.push(if x == from { to } else { x });
        i += 1;
        assert(r@ =~= replace_char(s@.take(i as int), from, to));
    }
    assert(s@.take(s@.len() as int) =~= s@);
    r
}

/// `s` without all leading `c` (`str::trim_start_matches(c)`).
pub open spec fn strip_leading(s: Seq<char>, c: char) -> Seq<char>
    decreases s.len(),
{
    if s.len() > 0 && s[0] == c {
        strip_leading(s.drop_first(), c)
    } else {
        s
    }
}

/// Executable `strip_leading`.
pub fn strip_leading_chars(s: &[char], c: char) -> (r: Vec<char>)
    ensures
        r@ == strip_leading(s@, c),
{
    let n = s.len();
    let mut i: usize = 0;
    assert(s@.skip(0) =~= s@);
    while i < n && s[i] == c
        invariant
            n == s@.len(),
            i <= n,
            strip_leading(s@, c) == strip_leading(s@.skip(i as int), c),
        decreases n - i,
    {
        assert(s@.skip(i as int).drop_first() =~= s@.skip(i + 1));
        i += 1;
    }
    let r = slice_of(s, i, n);
    assert(r@ =~= s@.skip(i as int));
    r
}

/// `s` without all trailing `c` (`str::trim_end_matches(c)`).
pub open spec fn strip_trailing(s: Seq<char>, c: char) -> Seq<char>
    decreases s.len(),
{
    if s.len() > 0 && s.last() == c {
        strip_trailing(s.drop_last(), c)
    } else {
        s
    }
}

/// Executable `strip_trailing`.
pub fn strip_trailing_chars(s: &[char], c: char) -> (r: Vec<char>)
    ensures
        r@ == strip_trailing(s@, c),
{
    let mut n = s.len();
    assert(s@.take(n as int) =~= s@);
    while n > 0 && s[n - 1] == c
        invariant
            n <= s@.len(),
            strip_trailing(s@, c) == strip_trailing(s@.take(n as int), c),
        decreases n,
    {
        assert(s@.take(n as int).drop_last() =~= s@.take(n - 1));
        n -= 1;
    }
    let r = slice_of(s, 0, n);
    assert(r@ =~= s@.take(n as int));
    r
}

/// Scanning state of `str::split_whitespace` after `s`: the words closed so
/// far and the word being read.
pub open spec fn words_acc(s: Seq<char>) -> (Seq<Seq<char>>, Seq<char>)
    decreases s.len(),
{
    if s.len() == 0 {
        (Seq::empty(), Seq::empty())
    } else {
        let (done, cur) = words_acc(s.drop_last());
        let c = s.last();
        if is_ws(c) {
            if cur.len() > 0 {
                (done.push(cur), Seq::empty())
            } else {
                (done, cur)
            }
        } else {
            (done, cur.push(c))
        }
    }
}

/// `str::split_whitespace`: the maximal runs of non-whitespace characters.
pub open spec fn words(s: Seq<char>) -> Seq<Seq<char>> {
    let (done, cur) = words_acc(s);
    if cur.len() > 0 {
        done.push(cur)
    } else {
        done
    }
}

/// Executable `words`.
pub fn split_words(s: &[char]) -> (r: Vec<Vec<char>>)
    ensures
        r@.len() == words(s@).len(),
        forall|i: int| 0 <= i < r@.len() ==> (#[trigger] r@[i])@ == words(s@)[i],
{
    let mut done: Vec<Vec<char>> = Vec::new();
    let mut cur: Vec<char> = Vec::new();
    let mut i: usize = 0;
    while i < s.len()
        invariant
            i <= s@.len(),
            done@.len() == words_acc(s@.take(i as int)).0.len(),
            forall|j: int| 0 <= j < done@.len() ==> (#[trigger] done@[j])@ == words_acc(s@.take(i as int)).0[j],
            cur@ == words_acc(s@.take(i as int)).1,
        decreases s@.len() - i,
    {
        let c = s[i];
        assert(s@.take(i + 1).drop_last() =~= s@.take(i as int));
        if is_whitespace(c) {
            if cur.len() > 0 {
                let w = cur;
                done.push(w);
                cur = Vec::new();
            }
        } else {
            cur.push(c);
        }
        i = i + 1;
    }
    assert(s@.take(s@.len() as int) =~= s@);
    if cur.len() > 0 {
        done.push(cur);
    }
    done
}

/// The text before the first whitespace character and the text after it
/// (`str::splitn(2, char::is_whitespace)` when it gives two parts).
pub open spec fn split_first_ws(s: Seq<char>) -> Option<(Seq<char>, Seq<char>)> {
    if exists|i: int| 0 <= i < s.len() && is_ws(#[trigger] s[i]) {
        let k = choose|i: int| 0 <= i < s.len() && is_ws(#[trigger] s[i]) && forall|j: int| 0 <= j < i ==> !is_ws(#[trigger] s[j]);
        Some((s.take(k), s.skip(k + 1)))
    } else {
        None
    }
}

/// Executable `split_first_ws`.
pub fn split_first_ws_chars(s: &[char]) -> (r: Option<(Vec<char>, Vec<char>)>)
    ensures
        match r {
            Some((a, b)) => split_first_ws(s@) == Some((a@, b@)),
            None => split_first_ws(s@) is None,
        },
{
    let mut i: usize = 0;
    while i < s.len()
        invariant
            i <= s@.len(),
            forall|j: int| 0 <= j < i ==> !is_ws(#[trigger] s@[j]),
        decreases s@.len() - i,
    {
        if is_whitespace(s[i]) {
            proof {
                let k = choose|k: int| 0 <= k < s@.len() && is_ws(#[trigger] s@[k]) && forall|j: int| 0 <= j < k ==> !is_ws(#[trigger] s@[j]);
                if k < i {
                    assert(!is_ws(s@[k]));
                }
                if i < k {
                    assert(!is_ws(s@[i as int]));
                }
            }
            let a = slice_of(s, 0, i);
            let b = slice_of(s, i + 1, s.len());
            assert(a@ =~= s@.take(i as int));
            assert(b@ =~= s@.skip(i + 1));
            return Some((a, b));
        }
        i = i + 1;
    }
    None
}

/// The parts with `sep` between each two.
pub open spec fn join_sep(parts: Seq<Seq<char>>, sep: Seq<char>) -> Seq<char>
    decreases parts.len(),
{
    if parts.len() == 0 {
        Seq::empty()
    } else if parts.len() == 1 {
        parts[0]
    } else {
        join_sep(parts.drop_last(), sep) + sep + parts.last()
    }
}

/// Appends `part` to a text of joined parts.
pub fn push_joined(out: &mut Vec<char>, part: &[char], sep: &str, first: bool, Ghost(ps): Ghost<Seq<Seq<char>>>)
    requires
        old(out)@ == join_sep(ps, sep@),
        first == (ps.len() == 0),
    ensures
        final(out)@ == join_sep(ps.push(part@), sep@),
{
    if !first {
        push_str(out, sep);
    }
    push_all(out, part);
    assert(ps.push(part@).drop_last() =~= ps);
    assert(final(out)@ =~= join_sep(ps.push(part@), sep@));
}

/// Lines each followed by a line feed.
pub open spec fn join_lines(ls: Seq<Seq<char>>) -> Seq<char>
    decreases ls.len(),
{
    if ls.len() == 0 {
        Seq::empty()
    } else {
        ls[0] + seq!['\n'] + join_lines(ls.drop_first())
    }
}

/// Appending a line to the list appends it (and a line feed) to the text.
pub proof fn lemma_join_lines_push(ls: Seq<Seq<char>>, l: Seq<char>)
    ensures
        join_lines(ls.push(l)) == join_lines(ls) + l + seq!['\n'],
    decreases ls.len(),
{
    if ls.len() == 0 {
        assert(ls.push(l).drop_first() =~= Seq::<Seq<char>>::empty());
        assert(ls.push(l)[0] == l);
        assert(join_lines(ls.push(l)) == l + seq!['\n'] + join_lines(Seq::<Seq<char>>::empty()));
        assert(join_lines(ls.push(l)) =~= join_lines(ls) + l + seq!['\n']);
    } else {
        assert(ls.push(l).drop_first() =~= ls.drop_first().push(l));
        lemma_join_lines_push(ls.drop_first(), l);
        assert(ls.push(l)[0] == ls[0]);
        assert(join_lines(ls.push(l)) == ls[0] + seq!['\n'] + join_lines(ls.drop_first().push(l)));
        assert(join_lines(ls) == ls[0] + seq!['\n'] + join_lines(ls.drop_first()));
        assert(join_lines(ls.push(l)) =~= join_lines(ls) + l + seq!['\n']);
    }
}

/// Appends `l` and a line feed to `out`.
pub fn push_line(out: &mut Vec<char>, l: &[char], Ghost(ls): Ghost<Seq<Seq<char>>>)
    requires
        old(out)@ == join_lines(ls),
    ensures
        final(out)@ == join_lines(ls.push(l@)),
{
    push_all(out, l);
    out.push('\n');
    proof {
        lemma_join_lines_push(ls, l@);
    }
    assert(final(out)@ =~= join_lines(ls.push(l@)));
}

// ---------------------------------------------------------------------------
// Facts for reading back generated text
// ---------------------------------------------------------------------------

/// A text without leading and trailing whitespace is its own trim.
pub proof fn lemma_trim_id(l: Seq<char>)
    requires
        l.len() > 0,
        !is_ws(l[0]),
        !is_ws(l.last()),
    ensures
        trim(l) == l,
{
    assert(trim_start(l) == l);
    assert(trim_end(l) == l);
}

/// `split_once` at a known first occurrence.
pub proof fn lemma_split_once_at(s: Seq<char>, c: char, i: int)
    requires
        0 <= i < s.len(),
        s[i] == c,
        forall|k: int| 0 <= k < i ==> s[k] != c,
    ensures
        split_once(s, c) == Some((s.take(i), s.skip(i + 1))),
{
    lemma_first_index_unique(s, c, i);
}

/// `rsplit_once` at a known last occurrence.
pub proof fn lemma_rsplit_once_at(s: Seq<char>, c: char, i: int)
    requires
        0 <= i < s.len(),
        s[i] == c,
        forall|k: int| i < k < s.len() ==> s[k] != c,
    ensures
        rsplit_once(s, c) == Some((s.take(i), s.skip(i + 1))),
{
    lemma_last_index_unique(s, c, i);
}

/// The first `c` in `a + [c] + b`, when `a` has none, is right after `a`.
pub proof fn lemma_index_of_prefix(a: Seq<char>, b: Seq<char>, c: char)
    requires
        forall|k: int| 0 <= k < a.len() ==> a[k] != c,
    ensures
        index_of(a + seq![c] + b, c) == a.len(),
    decreases a.len(),
{
    let s = a + seq![c] + b;
    if a.len() > 0 {
        assert(s.drop_first() =~= a.drop_first() + seq![c] + b);
        lemma_index_of_prefix(a.drop_first(), b, c);
    }
}

/// No line feed or carriage return in `l`.
pub open spec fn no_line_break(l: Seq<char>) -> bool {
    forall|k: int| 0 <= k < l.len() ==> #[trigger] l[k] != '\n' && l[k] != '\r'
}

/// Reading the lines of joined lines gives them back.
pub proof fn lemma_lines_join(ls: Seq<Seq<char>>)
    requires
        forall|i: int| 0 <= i < ls.len() ==> no_line_break(#[trigger] ls[i]),
    ensures
        lines(join_lines(ls)) == ls,
    decreases ls.len(),
{
    if ls.len() > 0 {
        let a = ls[0];
        let rest = join_lines(ls.drop_first());
        let s = join_lines(ls);
        assert(s == a + seq!['\n'] + rest);
        assert(no_line_break(a));
        lemma_index_of_prefix(a, rest, '\n');
        assert(s.take(a.len() as int) =~= a);
        assert(s.skip(a.len() as int + 1) =~= rest);
        assert forall|i: int| 0 <= i < ls.drop_first().len() implies no_line_break(
            #[trigger] ls.drop_first()[i],
        ) by {
            assert(ls.drop_first()[i] == ls[i + 1]);
        }
        lemma_lines_join(ls.drop_first());
        if a.len() > 0 {
            assert(a.last() != '\r');
        }
        assert(strip_cr(a) == a);
        assert(lines(s) =~= ls);
    } else {
        assert(join_lines(ls) =~= Seq::<char>::empty());
    }
}

} // verus!
