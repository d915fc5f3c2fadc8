//! Chord names from Scala's `chordnam.par`: reading the file's lines, step
//! patterns of pitch-class sets, and ranking candidate names.
use vstd::prelude::*;

use crate::config::{lemma_str_lt_asym, lemma_str_lt_total, lemma_str_lt_trans, str_lt, str_lt_exec};
use crate::num::{dec_signed, fmt_i64, parse_bounded, parse_i32, parse_i32_spec, parse_u64};
use crate::text::{
    ends_with, lines, split_lines, split_once, split_once_chars, strip_leading, strip_leading_chars, strip_trailing, strip_trailing_chars, trim, trim_chars, push_all, split_on, split_chars, words, split_words, split_first_ws, split_first_ws_chars, slice_of, trim_start, trim_start_chars, ascii_lower, chars_of, contains, contains_str, has_char, has_char_exec, is_whitespace, is_ws,
    lower_chars, starts_with, starts_with_str, string_of,
};

verus! {

// ---------------------------------------------------------------------------
// Line shapes
// ---------------------------------------------------------------------------

pub open spec fn is_ascii_digit(c: char) -> bool {
    '0' <= c && c <= '9'
}

pub open spec fn is_step_char(c: char) -> bool {
    is_ascii_digit(c) || c == '-'
}

/// Digit groups joined by single dashes, at least two groups: `4-3-3`.
pub open spec fn is_step_word(p: Seq<char>) -> bool {
    &&& p.len() > 0
    &&& is_ascii_digit(p[0])
    &&& is_ascii_digit(p.last())
    &&& exists|i: int| 0 <= i < p.len() && p[i] == '-'
    &&& forall|i: int| 0 <= i < p.len() - 1 && #[trigger] p[i] == '-' ==> p[i + 1] != '-'
    &&& forall|i: int| 0 <= i < p.len() ==> is_step_char(#[trigger] p[i])
}

/// A step-pattern line: a step word (`4-3-3`) directly followed by
/// whitespace.
pub open spec fn step_pattern_line(s: Seq<char>) -> bool {
    exists|n: int| 0 <= n < s.len() && is_ws(#[trigger] s[n]) && is_step_word(s.take(n))
}

/// Whether `line` starts with an EDO step pattern such as `4-3-3 Major Triad`.
pub fn is_step_pattern_line(line: &str) -> (r: bool)
    ensures
        r == step_pattern_line(line@),
{
    let s = chars_of(line);
    let mut saw_digit = false;
    let mut dash_seen = false;
    let mut i: usize = 0;
    while i < s.len()
        invariant
            i <= s@.len(),
            s@ == line@,
            forall|j: int| 0 <= j < i ==> is_step_char(#[trigger] s@[j]),
            i > 0 ==> is_ascii_digit(s@[0]),
            saw_digit == (i > 0 && is_ascii_digit(s@[i - 1])),
            dash_seen == exists|j: int| 0 <= j < i && s@[j] == '-',
            forall|j: int| 0 <= j < i - 1 && #[trigger] s@[j] == '-' ==> s@[j + 1] != '-',
        decreases s@.len() - i,
    {
        let c = s[i];
        if '0' <= c && c <= '9' {
            saw_digit = true;
            i = i + 1;
        } else if c == '-' {
            if !saw_digit {
                proof {
                    assert forall|n: int| 0 <= n < s@.len() && is_ws(#[trigger] s@[n]) implies !is_step_word(s@.take(n)) by {
                        let p = s@.take(n);
                        if n <= i {
                            // the character at `n` is a step character, not whitespace
                            if n < i {
                                assert(is_step_char(s@[n]));
                            }
                            assert(s@[n] == s@[i as int] || n < i);
                        } else {
                            if i == 0 {
                                assert(p[0] == '-');
                            } else {
                                assert(p[i - 1] == '-' && p[i as int] == '-');
                            }
                        }
                    }
                }
                return false;
            }
            dash_seen = true;
            saw_digit = false;
            i = i + 1;
        } else if is_whitespace(c) {
            let r = saw_digit && dash_seen;
            proof {
                let p = s@.take(i as int);
                if r {
                    assert forall|j: int| 0 <= j < i implies p[j] == s@[j] by {}
                    let w = choose|j: int| 0 <= j < i && s@[j] == '-';
                    assert(p[w] == '-');
                    assert(p.last() == s@[i - 1]);
                    assert forall|j: int| 0 <= j < p.len() - 1 && #[trigger] p[j] == '-' implies p[j + 1] != '-' by {
                        assert(s@[j] == '-');
                    }
                    assert forall|j: int| 0 <= j < p.len() implies is_step_char(#[trigger] p[j]) by {
                        assert(is_step_char(s@[j]));
                    }
                    assert(is_step_word(p));
                } else {
                    assert forall|n: int| 0 <= n < s@.len() && is_ws(#[trigger] s@[n]) implies !is_step_word(s@.take(n)) by {
                        if n < i {
                            assert(is_step_char(s@[n]));
                        } else if n > i {
                            assert(s@.take(n)[i as int] == c);
                        } else {
                            if !dash_seen {
                                assert forall|j: int| 0 <= j < p.len() implies p[j] != '-' by {}
                            }
                        }
                    }
                }
            }
            return r;
        } else {
            proof {
                assert forall|n: int| 0 <= n < s@.len() && is_ws(#[trigger] s@[n]) implies !is_step_word(s@.take(n)) by {
                    if n < i {
                        assert(is_step_char(s@[n]));
                    } else if n > i {
                        assert(s@.take(n)[i as int] == c);
                    }
                }
            }
            return false;
        }
    }
    proof {
        assert forall|n: int| 0 <= n < s@.len() && is_ws(#[trigger] s@[n]) implies !is_step_word(s@.take(n)) by {
            assert(is_step_char(s@[n]));
        }
    }
    false
}

pub open spec fn is_blank(c: char) -> bool {
    c == ' ' || c == '\t'
}

/// `s[a..b]` is a whole run of at least two blanks with text on both sides.
pub open spec fn splits_at(s: Seq<char>, a: int, b: int) -> bool {
    &&& 0 < a && a + 2 <= b && b < s.len()
    &&& forall|k: int| a <= k < b ==> is_blank(#[trigger] s[k])
    &&& !is_blank(s[a - 1])
    &&& !is_blank(s[b])
}

/// The text before and after the first run of two or more blanks that has
/// text on both sides.
#[verifier::opaque]
pub open spec fn two_space_split(s: Seq<char>) -> Option<(Seq<char>, Seq<char>)> {
    if exists|a: int, b: int| splits_at(s, a, b) {
        let (a, b) = choose|a: int, b: int|
            splits_at(s, a, b) && forall|a2: int, b2: int| splits_at(s, a2, b2) ==> a <= a2;
        Some((s.take(a), s.skip(b)))
    } else {
        None
    }
}

proof fn lemma_split_runs_unique(s: Seq<char>, a: int, b: int, a2: int, b2: int)
    requires
        splits_at(s, a, b),
        splits_at(s, a2, b2),
        a <= a2 < b,
    ensures
        a == a2 && b == b2,
{
    if a < a2 {
        assert(is_blank(s[a2 - 1]));
    }
    if b < b2 {
        assert(is_blank(s[b]));
    }
    if b2 < b {
        assert(is_blank(s[b2]));
    }
}

/// Split a line at its first run of two or more spaces or tabs that has
/// text on both sides: `"foo  bar baz"` gives `("foo", "bar baz")`.
pub fn split_two_spaces(line: &str) -> (r: Option<(String, String)>)
    ensures
        match r {
            Some((a, b)) => two_space_split(line@) == Some((a@, b@)),
            None => two_space_split(line@) is None,
        },
{
    reveal(two_space_split);
    let s = chars_of(line);
    let n = s.len();
    let mut i: usize = 0;
    while i < n
        invariant
            n == s@.len(),
            s@ == line@,
            i <= n,
            forall|a: int, b: int| splits_at(s@, a, b) ==> a >= i,
            i < n && is_blank(s@[i as int]) ==> i == 0 || !is_blank(s@[i - 1]),
        decreases n - i,
    {
        let c = s[i];
        if c == ' ' || c == '\t' {
            let start = i;
            let mut j = i;
            while j < n && (s[j] == ' ' || s[j] == '\t')
                invariant
                    start <= j <= n,
                    n == s@.len(),
                    forall|k: int| start <= k < j ==> is_blank(#[trigger] s@[k]),
                decreases n - j,
            {
                j = j + 1;
            }
            if j - start >= 2 && start > 0 && j < n {
                proof {
                    reveal(two_space_split);
                    assert(splits_at(s@, start as int, j as int));
                    let (a, b) = choose|a: int, b: int|
                        splits_at(s@, a, b) && forall|a2: int, b2: int| splits_at(s@, a2, b2) ==> a <= a2;
                    assert(a <= start);
                    lemma_split_runs_unique(s@, a, b, start as int, j as int);
                }
                let def = slice_of(&s, 0, start);
                let name = slice_of(&s, j, n);
                assert(def@ =~= s@.take(start as int));
                assert(name@ =~= s@.skip(j as int));
                return Some((string_of(&def), string_of(&name)));
            }
            proof {
                // A split starting inside this run would be this very run.
                assert forall|a: int, b: int| splits_at(s@, a, b) implies a >= j by {
                    if a < j && b < j {
                        assert(is_blank(s@[b]));
                    }
                }
            }
            i = j;
        } else {
            i = i + 1;
        }
    }
    None
}

/// A name with a leading `=` (and the blanks after it) removed.
pub open spec fn strip_eq(s: Seq<char>) -> Seq<char> {
    if s.len() > 0 && s[0] == '=' {
        trim_start(s.drop_first())
    } else {
        s
    }
}

/// Drop a leading `=` and the whitespace after it.
pub fn strip_eq_prefix(s: &[char]) -> (r: Vec<char>)
    ensures
        r@ == strip_eq(s@),
{
    if s.len() > 0 && s[0] == '=' {
        let rest = slice_of(s, 1, s.len());
        assert(rest@ =~= s@.drop_first());
        trim_start_chars(&rest)
    } else {
        slice_of(s, 0, s.len())
    }
}

pub open spec fn is_word_char(c: char) -> bool {
    ('0' <= c && c <= '9') || ('a' <= c && c <= 'z') || ('A' <= c && c <= 'Z') || c == '_'
}

/// `s` holds a cents-error mark `~<digits>c` ending at a word boundary.
pub open spec fn has_cents_mark(s: Seq<char>) -> bool {
    exists|i: int, j: int|
        0 <= i && i + 1 < j < s.len() && #[trigger] s[i] == '~' && #[trigger] s[j] == 'c'
            && (forall|k: int| i < k < j ==> is_ascii_digit(#[trigger] s[k]))
            && (j + 1 == s.len() || !is_word_char(s[j + 1]))
}

/// Whether `s` holds a `~<digits>c` cents-error mark ending at a word
/// boundary (what `~\d+c\b` finds).
pub fn has_cents_err_mark(s: &[char]) -> (r: bool)
    ensures
        r == has_cents_mark(s@),
{
    let n = s.len();
    let mut i: usize = 0;
    while i < n
        invariant
            n == s@.len(),
            i <= n,
            forall|a: int, b: int|
                0 <= a < i && a + 1 < b < n && #[trigger] s@[a] == '~' && #[trigger] s@[b] == 'c'
                    ==> !((forall|k: int| a < k < b ==> is_ascii_digit(#[trigger] s@[k]))
                        && (b + 1 == n || !is_word_char(s@[b + 1]))),
        decreases n - i,
    {
        if s[i] == '~' && i + 1 < n && '0' <= s[i + 1] && s[i + 1] <= '9' {
            let mut j = i + 1;
            while j < n && '0' <= s[j] && s[j] <= '9'
                invariant
                    i < j <= n,
                    n == s@.len(),
                    forall|k: int| i < k < j ==> is_ascii_digit(#[trigger] s@[k]),
                decreases n - j,
            {
                j = j + 1;
            }
            if j < n && s[j] == 'c' {
                let word = if j + 1 < n {
                    let a = s[j + 1];
                    ('0' <= a && a <= '9') || ('a' <= a && a <= 'z') || ('A' <= a && a <= 'Z') || a == '_'
                } else {
                    false
                };
                if !word {
                    assert(s@[i as int] == '~' && s@[j as int] == 'c');
                    return true;
                }
            }
            proof {
                assert forall|b: int|
                    i + 1 < b < n && #[trigger] s@[b] == 'c'
                        implies !((forall|k: int| i < k < b ==> is_ascii_digit(#[trigger] s@[k]))
                            && (b + 1 == n || !is_word_char(s@[b + 1]))) by {
                    if b < j {
                        assert(is_ascii_digit(s@[b]));
                    } else if b > j {
                        if forall|k: int| i < k < b ==> is_ascii_digit(#[trigger] s@[k]) {
                            assert(is_ascii_digit(s@[j as int]));
                        }
                    }
                }
            }
        }
        i = i + 1;
    }
    false
}

/// Bytes the character takes in UTF-8.
pub open spec fn utf8_width(c: char) -> int {
    let u = c as u32;
    if u < 0x80 {
        1
    } else if u < 0x800 {
        2
    } else if u < 0x10000 {
        3
    } else {
        4
    }
}

/// Length of the text in UTF-8 bytes (what `str::len` gives).
pub open spec fn utf8_len(s: Seq<char>) -> int
    decreases s.len(),
{
    if s.len() == 0 {
        0
    } else {
        utf8_len(s.drop_last()) + utf8_width(s.last())
    }
}

pub open spec fn is_busy(c: char) -> bool {
    c == '(' || c == ')' || c == '"' || c == '\''
}

/// How many brackets and quotes the text holds.
pub open spec fn busy_count(s: Seq<char>) -> int
    decreases s.len(),
{
    if s.len() == 0 {
        0
    } else {
        busy_count(s.drop_last()) + if is_busy(s.last()) { 1int } else { 0 }
    }
}

/// How many times `c` occurs in the text.
pub open spec fn char_count(s: Seq<char>, c: char) -> int
    decreases s.len(),
{
    if s.len() == 0 {
        0
    } else {
        char_count(s.drop_last(), c) + if s.last() == c { 1int } else { 0 }
    }
}

pub open spec fn min_int(a: int, b: int) -> int {
    if a < b { a } else { b }
}

/// Score of the chord-quality words in a lower-cased name.
pub open spec fn quality_score(l: Seq<char>) -> int {
    0int
        + (if contains(l, "-edo12"@) { -800int } else { 0 })
        + (if contains(l, "major triad"@) { -1200int } else { 0 })
        + (if contains(l, "minor triad"@) { -1200int } else { 0 })
        + (if contains(l, "overtone"@) { 500int } else { 0 })
        + (if contains(l, "undertone"@) { 500int } else { 0 })
        + (if starts_with(l, "neutral triad"@) { -2200int } else if contains(l, "neutral triad"@) { -1600int } else { 0 })
        + (if has_cents_mark(l) { 220int } else { 0 })
}

/// Score of inversions and prefixes in a lower-cased name.
pub open spec fn inversion_score(l: Seq<char>) -> int {
    0int
        + (if contains(l, "inversion"@) { 1000int } else { 0 })
        + (if contains(l, "2nd inversion"@) { 30int } else { 0 })
        + (if contains(l, "1st inversion"@) { 20int } else { 0 })
        + (if contains(l, "3rd inversion"@) { 40int } else { 0 })
        + (if contains(l, "4th inversion"@) { 50int } else { 0 })
        + (if starts_with(l, "nm "@) { 350int } else { 0 })
        + (if has_char(l, '|') { 90int } else { 0 })
}

/// Score of rare qualifiers in a lower-cased name.
pub open spec fn qualifier_score(l: Seq<char>) -> int {
    0int
        + (if contains(l, "split fifth"@) { 180int } else { 0 })
        + (if contains(l, "quasi-"@) { 80int } else { 0 })
        + (if contains(l, "ultra-gothic"@) { 120int } else { 0 })
        + (if contains(l, "tredecimal"@) { 80int } else { 0 })
        + (if contains(l, "trevicesimal"@) { 80int } else { 0 })
        + (if contains(l, "bivalent"@) { 60int } else { 0 })
        + (if contains(l, "subfocal"@) { 60int } else { 0 })
        + (if contains(l, "isoharmonic"@) { 60int } else { 0 })
        + (if contains(l, "neo-medieval"@) { 100int } else { 0 })
}

/// Score of the name's length (in UTF-8 bytes), brackets and commas.
pub open spec fn size_score(len: int, busy: int, commas: int) -> int {
    min_int(2 * len, 500)
        + (if len > 22 { min_int((len - 22) * 6, 800) } else { 0 })
        + 10 * busy
        + 40 * commas
        + (if commas >= 2 { 120int } else { 0 })
}

/// The ranking score of a chord name (lower is better): familiar names are
/// favoured; inversions, rare qualifiers, approximation marks, length,
/// brackets and commas cost.
pub open spec fn name_score_spec(s: Seq<char>) -> int {
    let l = ascii_lower(s);
    quality_score(l) + inversion_score(l) + qualifier_score(l)
        + size_score(utf8_len(s), busy_count(s), char_count(s, ','))
}

/// The score's arithmetic stays within `i32` (names far below hundreds of
/// megabytes).
pub open spec fn name_score_fits(s: Seq<char>) -> bool {
    &&& utf8_len(s) <= 357913963
    &&& 10 * busy_count(s) <= i32::MAX
    &&& 40 * char_count(s, ',') <= i32::MAX
    &&& name_score_spec(s) <= i32::MAX
}

proof fn lemma_counts_bounded(s: Seq<char>)
    ensures
        0 <= busy_count(s) <= s.len(),
        0 <= char_count(s, ',') <= s.len(),
        s.len() <= utf8_len(s) <= 4 * s.len(),
    decreases s.len(),
{
    if s.len() > 0 {
        lemma_counts_bounded(s.drop_last());
    }
}

fn quality_score_exec(l: &[char]) -> (r: i128)
    ensures
        r == quality_score(l@),
{
    let mut score: i128 = 0;
    if contains_str(l, "-edo12") {
        score = score + -800;
    }
    if contains_str(l, "major triad") {
        score = score + -1200;
    }
    if contains_str(l, "minor triad") {
        score = score + -1200;
    }
    if contains_str(l, "overtone") {
        score = score + 500;
    }
    if contains_str(l, "undertone") {
        score = score + 500;
    }
    if starts_with_str(l, "neutral triad") {
        score = score - 2200;
    } else if contains_str(l, "neutral triad") {
        score = score - 1600;
    }
    if has_cents_err_mark(l) {
        score = score + 220;
    }
    score
}

fn inversion_score_exec(l: &[char]) -> (r: i128)
    ensures
        r == inversion_score(l@),
{
    let mut score: i128 = 0;
    if contains_str(l, "inversion") {
        score = score + 1000;
    }
    if contains_str(l, "2nd inversion") {
        score = score + 30;
    }
    if contains_str(l, "1st inversion") {
        score = score + 20;
    }
    if contains_str(l, "3rd inversion") {
        score = score + 40;
    }
    if contains_str(l, "4th inversion") {
        score = score + 50;
    }
    if starts_with_str(l, "nm ") {
        score = score + 350;
    }
    if has_char_exec(l, '|') {
        score = score + 90;
    }
    score
}

fn qualifier_score_exec(l: &[char]) -> (r: i128)
    ensures
        r == qualifier_score(l@),
{
    let mut score: i128 = 0;
    if contains_str(l, "split fifth") {
        score = score + 180;
    }
    if contains_str(l, "quasi-") {
        score = score + 80;
    }
    if contains_str(l, "ultra-gothic") {
        score = score + 120;
    }
    if contains_str(l, "tredecimal") {
        score = score + 80;
    }
    if contains_str(l, "trevicesimal") {
        score = score + 80;
    }
    if contains_str(l, "bivalent") {
        score = score + 60;
    }
    if contains_str(l, "subfocal") {
        score = score + 60;
    }
    if contains_str(l, "isoharmonic") {
        score = score + 60;
    }
    if contains_str(l, "neo-medieval") {
        score = score + 100;
    }
    score
}

/// UTF-8 length of a text.
pub(crate) fn utf8_length(s: &[char]) -> (r: u128)
    ensures
        r == utf8_len(s@),
{
    text_counts(s).0
}

/// UTF-8 length, bracket/quote count and comma count of a text.
fn text_counts(s: &[char]) -> (r: (u128, u128, u128))
    ensures
        r.0 == utf8_len(s@),
        r.1 == busy_count(s@),
        r.2 == char_count(s@, ','),
{
    let mut len: u128 = 0;
    let mut busy: u128 = 0;
    let mut commas: u128 = 0;
    let mut i: usize = 0;
    while i < s.len()
        invariant
            i <= s@.len(),
            len == utf8_len(s@.take(i as int)),
            busy == busy_count(s@.take(i as int)),
            commas == char_count(s@.take(i as int), ','),
            len <= 4 * i,
            busy <= i,
            commas <= i,
        decreases s@.len() - i,
    {
        let c = s[i];
        let u = c as u32;
        let w: u128 = if u < 0x80 { 1 } else if u < 0x800 { 2 } else if u < 0x10000 { 3 } else { 4 };
        assert(s@.take(i + 1).drop_last() =~= s@.take(i as int));
        len = len + w;
        if c == '(' || c == ')' || c == '"' || c == '\'' {
            busy = busy + 1;
        }
        if c == ',' {
            commas = commas + 1;
        }
        i = i + 1;
    }
    assert(s@.take(s@.len() as int) =~= s@);
    (len, busy, commas)
}

/// Ranking score of a chord name; lower is better.
pub fn name_score(name: &str) -> (r: i32)
    requires
        name_score_fits(name@),
    ensures
        r == name_score_spec(name@),
{
    let s = chars_of(name);
    let lower = lower_chars(&s);
    let (len, busy, commas) = text_counts(&s);
    proof {
        lemma_counts_bounded(s@);
    }
    let words = quality_score_exec(&lower) + inversion_score_exec(&lower) + qualifier_score_exec(&lower);
    let l = len as i128;
    let mut size: i128 = if 2 * l < 500 { 2 * l } else { 500 };
    if l > 22 {
        size = size + if (l - 22) * 6 < 800 { (l - 22) * 6 } else { 800 };
    }
    size = size + 10 * (busy as i128) + 40 * (commas as i128);
    if commas >= 2 {
        size = size + 120;
    }
    assert(size == size_score(len as int, busy as int, commas as int));
    (words + size) as i32
}

/// Name `i` ranks no lower than name `j`: a lower score, or the same score
/// and no later in text order.
pub open spec fn ranks_first(names: Seq<String>, i: int, j: int) -> bool {
    name_score_spec(names[i]@) < name_score_spec(names[j]@)
        || (name_score_spec(names[i]@) == name_score_spec(names[j]@) && !str_lt(names[j]@, names[i]@))
}

/// The best of the non-empty names: the lowest score, ties going to the
/// name first in text order; the empty text when no name is non-empty.
pub fn best_name(names: &[String]) -> (r: &str)
    requires
        forall|i: int| 0 <= i < names@.len() ==> name_score_fits(#[trigger] names@[i]@),
    ensures
        (forall|i: int| 0 <= i < names@.len() ==> (#[trigger] names@[i])@.len() == 0) ==> r@.len() == 0,
        (exists|i: int| 0 <= i < names@.len() && (#[trigger] names@[i])@.len() > 0) ==> exists|i: int|
            0 <= i < names@.len() && (#[trigger] names@[i])@.len() > 0 && r@ == names@[i]@
                && forall|j: int| 0 <= j < names@.len() && (#[trigger] names@[j])@.len() > 0 ==> ranks_first(names@, i, j),
{
    let mut best: Option<usize> = None;
    let mut best_score: i32 = 0;
    let mut best_chars: Vec<char> = Vec::new();
    let mut k: usize = 0;
    while k < names.len()
        invariant
            k <= names@.len(),
            forall|i: int| 0 <= i < names@.len() ==> name_score_fits(#[trigger] names@[i]@),
            best is None <==> forall|i: int| 0 <= i < k ==> (#[trigger] names@[i])@.len() == 0,
            best matches Some(b) ==> {
                &&& b < k
                &&& names@[b as int]@.len() > 0
                &&& best_score == name_score_spec(names@[b as int]@)
                &&& best_chars@ == names@[b as int]@
                &&& forall|j: int| 0 <= j < k && (#[trigger] names@[j])@.len() > 0 ==> ranks_first(names@, b as int, j)
            },
        decreases names@.len() - k,
    {
        let c = chars_of(names[k].as_str());
        if c.len() > 0 {
            let sc = name_score(names[k].as_str());
            let better = match best {
                None => true,
                Some(_) => sc < best_score || (sc == best_score && str_lt_exec(&c, &best_chars)),
            };
            if better {
                proof {
                    if let Some(b) = best {
                        assert forall|j: int| 0 <= j < k + 1 && (#[trigger] names@[j])@.len() > 0 implies ranks_first(names@, k as int, j) by {
                            if j < k {
                                assert(ranks_first(names@, b as int, j));
                                if sc == best_score && str_lt(c@, best_chars@) {
                                    if str_lt(names@[j]@, c@) {
                                        lemma_str_lt_trans(names@[j]@, c@, best_chars@);
                                        if name_score_spec(names@[b as int]@) == name_score_spec(names@[j]@) {
                                            assert(!str_lt(names@[j]@, names@[b as int]@));
                                        }
                                    }
                                }
                                if sc < best_score && str_lt(names@[j]@, c@) {
                                    assert(name_score_spec(names@[j]@) >= best_score);
                                }
                            } else {
                                if str_lt(c@, c@) {
                                    lemma_str_lt_asym(c@, c@);
                                }
                            }
                        }
                    } else {
                        assert forall|j: int| 0 <= j < k + 1 && (#[trigger] names@[j])@.len() > 0 implies ranks_first(names@, k as int, j) by {
                            if j == k && str_lt(c@, c@) {
                                lemma_str_lt_asym(c@, c@);
                            }
                        }
                    }
                }
                best = Some(k);
                best_score = sc;
                best_chars = c;
            } else {
                proof {
                    let b = best.unwrap();
                    assert forall|j: int| 0 <= j < k + 1 && (#[trigger] names@[j])@.len() > 0 implies ranks_first(names@, b as int, j) by {
                        if j == k {
                            if sc == best_score && best_chars@ != c@ {
                                lemma_str_lt_total(best_chars@, c@);
                            }
                            if sc == best_score && str_lt(c@, best_chars@) {
                            }
                            if sc == best_score && best_chars@ == c@ && str_lt(c@, best_chars@) {
                                lemma_str_lt_asym(c@, c@);
                            }
                        }
                    }
                }
            }
        }
        k = k + 1;
    }
    match best {
        Some(b) => names[b].as_str(),
        None => {
            proof {
                reveal_strlit("");
            }
            ""
        },
    }
}

// ---------------------------------------------------------------------------
// Pitch-class sets and step patterns
// ---------------------------------------------------------------------------

/// `n` reduced into `[0, m)`.
pub fn mod_pos(n: i32, m: i32) -> (r: i32)
    requires
        m > 0,
    ensures
        r == n % m,
        0 <= r < m,
{
    match n.checked_rem_euclid(m) {
        Some(v) => v,
        None => 0,
    }
}

/// Pitch class `pc` of an `edo`-step octave, in `[0, edo)`.
pub fn norm_pc(edo: i32, pc: i32) -> (r: i32)
    requires
        edo > 0,
    ensures
        r == pc % edo,
        0 <= r < edo,
{
    mod_pos(pc, edo)
}

pub open spec fn strictly_increasing(s: Seq<i32>) -> bool {
    forall|i: int, j: int| 0 <= i < j < s.len() ==> #[trigger] s[i] < #[trigger] s[j]
}

/// The values of `nums`, sorted, each once.
pub fn uniq_sorted(nums: &[i32]) -> (r: Vec<i32>)
    ensures
        strictly_increasing(r@),
        r@.to_set() == nums@.to_set(),
{
    let mut out: Vec<i32> = Vec::new();
    let mut k: usize = 0;
    while k < nums.len()
        invariant
            k <= nums@.len(),
            strictly_increasing(out@),
            out@.to_set() == nums@.take(k as int).to_set(),
        decreases nums@.len() - k,
    {
        let x = nums[k];
        let mut j: usize = 0;
        while j < out.len() && out[j] < x
            invariant
                j <= out@.len(),
                forall|t: int| 0 <= t < j ==> out@[t] < x,
            decreases out@.len() - j,
        {
            j = j + 1;
        }
        let ghost before = out@;
        if j < out.len() && out[j] == x {
            proof {
                assert(before.to_set().contains(x));
                assert(nums@.take(k + 1) =~= nums@.take(k as int).push(x));
                nums@.take(k as int).lemma_push_to_set_commute(x);
                assert(nums@.take(k as int).to_set().insert(x) =~= nums@.take(k as int).to_set());
            }
        } else {
            out.insert(j, x);
            proof {
                assert(out@ =~= before.insert(j as int, x));
                assert forall|a: int, b: int| 0 <= a < b < out@.len() implies #[trigger] out@[a] < #[trigger] out@[b] by {
                    if b < j {
                    } else if a < j && b == j {
                    } else if a < j {
                        assert(before[a] < before[b - 1]);
                    } else if a == j {
                        assert(x <= before[j as int]);
                        if b - 1 > j {
                            assert(before[j as int] < before[b - 1]);
                        }
                    } else {
                        assert(before[a - 1] < before[b - 1]);
                    }
                }
                assert(nums@.take(k + 1) =~= nums@.take(k as int).push(x));
                nums@.take(k as int).lemma_push_to_set_commute(x);
                assert forall|v: i32| out@.to_set().contains(v) <==> before.to_set().insert(x).contains(v) by {
                    if out@.contains(v) {
                        let w = choose|w: int| 0 <= w < out@.len() && out@[w] == v;
                        if w < j {
                            assert(before[w] == v);
                        } else if w > j {
                            assert(before[w - 1] == v);
                        }
                    }
                    if before.contains(v) {
                        let w = choose|w: int| 0 <= w < before.len() && before[w] == v;
                        if w < j {
                            assert(out@[w] == v);
                        } else {
                            assert(out@[w + 1] == v);
                        }
                    }
                    if v == x {
                        assert(out@[j as int] == x);
                    }
                }
                assert(out@.to_set() =~= before.to_set().insert(x));
            }
        }
        k = k + 1;
    }
    assert(nums@.take(nums@.len() as int) =~= nums@);
    out
}

/// The steps between neighbouring pitch classes, joined by dashes:
/// `[0, 4, 7]` gives `4-3`; fewer than two pitch classes give nothing.
pub open spec fn step_text(rel: Seq<i32>) -> Seq<char>
    decreases rel.len(),
{
    if rel.len() < 2 {
        Seq::empty()
    } else if rel.len() == 2 {
        dec_signed(rel[1] - rel[0])
    } else {
        step_text(rel.drop_last()) + seq!['-'] + dec_signed(rel.last() - rel[rel.len() - 2])
    }
}

/// Every step between neighbours fits in an `i32`.
pub open spec fn steps_fit(rel: Seq<i32>) -> bool {
    forall|i: int| 1 <= i < rel.len() ==> i32::MIN <= #[trigger] rel[i] - rel[i - 1] <= i32::MAX
}

/// The step pattern of a sorted pitch-class list, such as `4-3-5`.
pub fn step_pattern_from_rel_pcs(rel: &[i32]) -> (r: String)
    requires
        steps_fit(rel@),
    ensures
        r@ == step_text(rel@),
{
    let mut out: Vec<char> = Vec::new();
    if rel.len() < 2 {
        return string_of(&out);
    }
    let mut i: usize = 1;
    while i < rel.len()
        invariant
            1 <= i <= rel@.len(),
            rel@.len() >= 2,
            steps_fit(rel@),
            out@ == step_text(rel@.take(i as int)),
        decreases rel@.len() - i,
    {
        if i > 1 {
            out.push('-');
        }
        let d = fmt_i64((rel[i] - rel[i - 1]) as i64);
        push_all(&mut out, &d);
        proof {
            let t = rel@.take(i + 1);
            assert(t.drop_last() =~= rel@.take(i as int));
            assert(t.last() == rel@[i as int] && t[t.len() - 2] == rel@[i - 1]);
        }
        i = i + 1;
    }
    assert(rel@.take(rel@.len() as int) =~= rel@);
    string_of(&out)
}

/// The pitch classes of `pcs` relative to `root_pc` in an `edo`-step octave.
pub open spec fn rel_of(edo: int, root_pc: int, pcs: Seq<i32>) -> Seq<int> {
    pcs.map_values(|pc: i32| (pc - root_pc) % edo)
}

/// Every `pc - root_pc` fits in an `i32`.
pub open spec fn offsets_fit(root_pc: i32, pcs: Seq<i32>) -> bool {
    forall|i: int| 0 <= i < pcs.len() ==> i32::MIN <= #[trigger] pcs[i] - root_pc <= i32::MAX
}

/// The sorted distinct pitch classes of `pcs` relative to `root_pc`, and
/// their step pattern; the pattern is empty unless the root itself is among
/// them together with at least one other pitch class.
pub fn step_pattern_from_pcs(edo: i32, root_pc: i32, pcs: &[i32]) -> (r: (Vec<i32>, String))
    requires
        edo > 0,
        offsets_fit(root_pc, pcs@),
    ensures
        strictly_increasing(r.0@),
        r.0@.to_set().map(|v: i32| v as int) == rel_of(edo as int, root_pc as int, pcs@).to_set(),
        forall|i: int| 0 <= i < r.0@.len() ==> 0 <= #[trigger] r.0@[i] < edo,
        r.1@ == if r.0@.len() < 2 || r.0@[0] != 0 { Seq::empty() } else { step_text(r.0@) },
{
    let mut rel: Vec<i32> = Vec::new();
    let mut i: usize = 0;
    while i < pcs.len()
        invariant
            i <= pcs@.len(),
            edo > 0,
            offsets_fit(root_pc, pcs@),
            rel@.len() == i,
            forall|j: int| 0 <= j < i ==> #[trigger] rel@[j] == (pcs@[j] - root_pc) % (edo as int),
        decreases pcs@.len() - i,
    {
        rel.push(norm_pc(edo, pcs[i] - root_pc));
        i = i + 1;
    }
    let uniq = uniq_sorted(&rel);
    proof {
        let want = rel_of(edo as int, root_pc as int, pcs@);
        assert forall|v: int| uniq@.to_set().map(|v: i32| v as int).contains(v) <==> want.to_set().contains(v) by {
            if uniq@.to_set().map(|v: i32| v as int).contains(v) {
                let w = choose|w: i32| uniq@.to_set().contains(w) && w as int == v;
                assert(rel@.to_set().contains(w));
                let t = choose|t: int| 0 <= t < rel@.len() && rel@[t] == w;
                assert(want[t] == v);
            }
            if want.to_set().contains(v) {
                let t = choose|t: int| 0 <= t < want.len() && want[t] == v;
                assert(rel@[t] as int == v);
                assert(rel@.to_set().contains(rel@[t]));
                assert(uniq@.to_set().contains(rel@[t]));
            }
        }
        assert(uniq@.to_set().map(|v: i32| v as int) =~= want.to_set());
        assert forall|k: int| 0 <= k < uniq@.len() implies 0 <= #[trigger] uniq@[k] < edo by {
            assert(uniq@.to_set().contains(uniq@[k]));
            assert(rel@.to_set().contains(uniq@[k]));
        }
    }
    if uniq.len() < 2 || uniq[0] != 0 {
        let empty: Vec<char> = Vec::new();
        return (uniq, string_of(&empty));
    }
    let pattern = step_pattern_from_rel_pcs(&uniq);
    (uniq, pattern)
}

// ---------------------------------------------------------------------------
// Chord templates
// ---------------------------------------------------------------------------

/// A frequency ratio `num/den` (both positive).
#[derive(Debug, Clone, Copy, PartialEq, Eq)]
pub struct Ratio {
    pub num: u64,
    pub den: u64,
}

/// What a ratio token reads as: `a/b` or `a` (meaning `a/1`), surrounding
/// blanks and brackets ignored, zero parts refused.
pub open spec fn ratio_spec(tok: Seq<char>) -> Option<(int, int)> {
    let t = trim(tok);
    if t.len() == 0 {
        None
    } else {
        let u = strip_trailing(strip_leading(t, '('), ')');
        match split_once(u, '/') {
            Some((a, b)) => match (parse_bounded(a, u64::MAX as int), parse_bounded(b, u64::MAX as int)) {
                (Some(x), Some(y)) => if x == 0 || y == 0 {
                    None
                } else {
                    Some((x, y))
                },
                _ => None,
            },
            None => match parse_bounded(u, u64::MAX as int) {
                Some(x) => if x == 0 {
                    None
                } else {
                    Some((x, 1))
                },
                None => None,
            },
        }
    }
}

/// Read a ratio token such as `5/4`, `(3` or `7`.
pub fn parse_ratio_token(tok: &[char]) -> (r: Option<Ratio>)
    ensures
        match r {
            Some(q) => ratio_spec(tok@) == Some((q.num as int, q.den as int)),
            None => ratio_spec(tok@) is None,
        },
{
    let t = trim_chars(tok);
    if t.len() == 0 {
        return None;
    }
    let opened = strip_leading_chars(&t, '(');
    let u = strip_trailing_chars(&opened, ')');
    match split_once_chars(&u, '/') {
        Some((a, b)) => {
            let x = match parse_u64(&a) {
                Some(v) => v,
                None => {
                    return None;
                },
            };
            let y = match parse_u64(&b) {
                Some(v) => v,
                None => {
                    return None;
                },
            };
            if x == 0 || y == 0 {
                None
            } else {
                Some(Ratio { num: x, den: y })
            }
        },
        None => match parse_u64(&u) {
            Some(x) => if x == 0 {
                None
            } else {
                Some(Ratio { num: x, den: 1 })
            },
            None => None,
        },
    }
}

/// The ratios of the tokens that read as ratios, in order.
pub open spec fn ratios_of(toks: Seq<Seq<char>>) -> Seq<(int, int)>
    decreases toks.len(),
{
    if toks.len() == 0 {
        Seq::empty()
    } else {
        let before = ratios_of(toks.drop_last());
        match ratio_spec(toks.last()) {
            Some(q) => before.push(q),
            None => before,
        }
    }
}

/// A tuning-independent chord definition line of `chordnam.par`.
#[derive(Debug, Clone)]
pub enum TemplateDef {
    /// An absolute chord `4:5:6 name`: the ratios of its tones (two or more).
    Chord { ratios: Vec<Ratio>, name: String },
    /// Successive intervals given as ratios (two or more).
    RatioSteps { ratios: Vec<Ratio>, name: String },
    /// Successive intervals in cents, as decimal text (two or more).
    CentSteps { steps: Vec<String>, name: String },
}

/// The meaning of a `TemplateDef`.
pub enum TemplateModel {
    Chord(Seq<(int, int)>, Seq<char>),
    RatioSteps(Seq<(int, int)>, Seq<char>),
    CentSteps(Seq<Seq<char>>, Seq<char>),
}

pub open spec fn ratio_views(v: Seq<Ratio>) -> Seq<(int, int)> {
    v.map_values(|q: Ratio| (q.num as int, q.den as int))
}

impl TemplateDef {
    pub open spec fn model(&self) -> TemplateModel {
        match self {
            TemplateDef::Chord { ratios, name } => TemplateModel::Chord(ratio_views(ratios@), name@),
            TemplateDef::RatioSteps { ratios, name } => TemplateModel::RatioSteps(ratio_views(ratios@), name@),
            TemplateDef::CentSteps { steps, name } => TemplateModel::CentSteps(
                steps@.map_values(|t: String| t@),
                name@,
            ),
        }
    }
}

/// Some word holds a decimal point.
pub open spec fn any_dotted(parts: Seq<Seq<char>>) -> bool {
    exists|i: int| 0 <= i < parts.len() && has_char(#[trigger] parts[i], '.')
}

/// Every word reads as a ratio.
pub open spec fn all_ratios(parts: Seq<Seq<char>>) -> bool {
    forall|i: int| 0 <= i < parts.len() ==> (#[trigger] ratio_spec(parts[i])) is Some
}

/// What a template line of `chordnam.par` defines: comment, directive and
/// step-pattern lines define none; `4:5:6 name` is a chord of ratios (bad
/// tokens skipped); otherwise a definition and a name apart by two blanks
/// give successive intervals, in cents when some word has a decimal point
/// and else as ratios (all of which must read).
pub open spec fn template_spec(raw: Seq<char>) -> Option<TemplateModel> {
    let line = trim(raw);
    if line.len() == 0 || line[0] == '!' || line[0] == '<' || step_pattern_line(line) {
        None
    } else if has_char(line, ':') {
        chord_line_spec(line)
    } else {
        steps_line_spec(line)
    }
}

/// A `4:5:6 name` line: the ratios before the first blank (bad tokens
/// skipped, at least two needed) and the name after it.
#[verifier::opaque]
pub open spec fn chord_line_spec(line: Seq<char>) -> Option<TemplateModel> {
    match split_first_ws(line) {
        None => None,
        Some((def, rest)) => {
            let name = strip_eq(trim(rest));
            let chord = strip_trailing(strip_leading(def, '('), ')');
            let ratios = ratios_of(split_on(chord, ':'));
            if ratios.len() < 2 {
                None
            } else {
                Some(TemplateModel::Chord(ratios, name))
            }
        },
    }
}

/// The intervals named by the words of a definition.
pub open spec fn steps_of(parts: Seq<Seq<char>>, name: Seq<char>) -> Option<TemplateModel> {
    if any_dotted(parts) {
        Some(TemplateModel::CentSteps(parts, name))
    } else if all_ratios(parts) {
        Some(TemplateModel::RatioSteps(parts.map_values(|p: Seq<char>| ratio_spec(p).unwrap()), name))
    } else {
        None
    }
}

/// A definition and a name apart by two blanks: two or more intervals.
#[verifier::opaque]
pub open spec fn steps_line_spec(line: Seq<char>) -> Option<TemplateModel> {
    match two_space_split(line) {
        None => None,
        Some((d, n)) => {
            let parts = words(trim(d));
            if parts.len() < 2 {
                None
            } else {
                steps_of(parts, strip_eq(trim(n)))
            }
        },
    }
}

fn chord_ratios(pieces: &Vec<Vec<char>>, Ghost(spec_pieces): Ghost<Seq<Seq<char>>>) -> (r: Vec<Ratio>)
    requires
        pieces@.len() == spec_pieces.len(),
        forall|i: int| 0 <= i < pieces@.len() ==> (#[trigger] pieces@[i])@ == spec_pieces[i],
    ensures
        ratio_views(r@) == ratios_of(spec_pieces),
{
    let mut r: Vec<Ratio> = Vec::new();
    let mut i: usize = 0;
    while i < pieces.len()
        invariant
            i <= pieces@.len(),
            pieces@.len() == spec_pieces.len(),
            forall|k: int| 0 <= k < pieces@.len() ==> (#[trigger] pieces@[k])@ == spec_pieces[k],
            ratio_views(r@) == ratios_of(spec_pieces.take(i as int)),
        decreases pieces@.len() - i,
    {
        assert(spec_pieces.take(i + 1).drop_last() =~= spec_pieces.take(i as int));
        assert(spec_pieces.take(i + 1).last() == pieces@[i as int]@);
        match parse_ratio_token(&pieces[i]) {
            Some(q) => {
                let ghost before = r@;
                r.push(q);
                assert(ratio_views(r@) =~= ratio_views(before).push((q.num as int, q.den as int)));
            },
            None => {},
        }
        i = i + 1;
    }
    assert(spec_pieces.take(spec_pieces.len() as int) =~= spec_pieces);
    r
}

fn template_steps(parts: &Vec<Vec<char>>, Ghost(spec_parts): Ghost<Seq<Seq<char>>>, name: Vec<char>) -> (r: Option<TemplateDef>)
    requires
        parts@.len() == spec_parts.len(),
        forall|i: int| 0 <= i < parts@.len() ==> (#[trigger] parts@[i])@ == spec_parts[i],
    ensures
        match r {
            Some(t) => steps_of(spec_parts, name@) == Some(t.model()),
            None => steps_of(spec_parts, name@) is None,
        },
{
    let mut dotted = false;
    let mut i: usize = 0;
    while i < parts.len()
        invariant
            i <= parts@.len(),
            parts@.len() == spec_parts.len(),
            forall|k: int| 0 <= k < parts@.len() ==> (#[trigger] parts@[k])@ == spec_parts[k],
            dotted == exists|k: int| 0 <= k < i && has_char(#[trigger] spec_parts[k], '.'),
        decreases parts@.len() - i,
    {
        if has_char_exec(&parts[i], '.') {
            dotted = true;
        }
        i = i + 1;
    }
    if dotted {
        let mut steps: Vec<String> = Vec::new();
        let mut k: usize = 0;
        while k < parts.len()
            invariant
                k <= parts@.len(),
                parts@.len() == spec_parts.len(),
                forall|j: int| 0 <= j < parts@.len() ==> (#[trigger] parts@[j])@ == spec_parts[j],
                steps@.map_values(|t: String| t@) == spec_parts.take(k as int),
                steps@.len() == k,
            decreases parts@.len() - k,
        {
            let ghost before = steps@;
            let t = string_of(&parts[k]);
            steps.push(t);
            proof {
                let lhs = steps@.map_values(|t: String| t@);
                let rhs = spec_parts.take(k + 1);
                assert forall|j: int| 0 <= j < k + 1 implies lhs[j] == rhs[j] by {
                    if j < k {
                        assert(before.map_values(|t: String| t@)[j] == spec_parts.take(k as int)[j]);
                        assert(steps@[j] == before[j]);
                    } else {
                        assert(steps@[j] == t);
                    }
                }
                assert(lhs =~= rhs);
            }
            k = k + 1;
        }
        assert(spec_parts.take(spec_parts.len() as int) =~= spec_parts);
        return Some(TemplateDef::CentSteps { steps, name: string_of(&name) });
    }
    let mut ratios: Vec<Ratio> = Vec::new();
    let mut k: usize = 0;
    while k < parts.len()
        invariant
            k <= parts@.len(),
            parts@.len() == spec_parts.len(),
            forall|j: int| 0 <= j < parts@.len() ==> (#[trigger] parts@[j])@ == spec_parts[j],
            ratio_views(ratios@) == spec_parts.take(k as int).map_values(|p: Seq<char>| ratio_spec(p).unwrap()),
            forall|j: int| 0 <= j < k ==> (#[trigger] ratio_spec(spec_parts[j])) is Some,
            !any_dotted(spec_parts),
            ratios@.len() == k,
        decreases parts@.len() - k,
    {
        match parse_ratio_token(&parts[k]) {
            Some(q) => {
                let ghost before = ratios@;
                ratios.push(q);
                proof {
                    let lhs = ratio_views(ratios@);
                    let rhs = spec_parts.take(k + 1).map_values(|p: Seq<char>| ratio_spec(p).unwrap());
                    assert forall|j: int| 0 <= j < k + 1 implies lhs[j] == rhs[j] by {
                        if j < k {
                            assert(ratio_views(before)[j] == spec_parts.take(k as int).map_values(|p: Seq<char>| ratio_spec(p).unwrap())[j]);
                            assert(ratios@[j] == before[j]);
                        } else {
                            assert(ratios@[j] == q);
                        }
                    }
                    assert(lhs =~= rhs);
                }
            },
            None => {
                assert(!all_ratios(spec_parts));
                return None;
            },
        }
        k = k + 1;
    }
    assert(spec_parts.take(spec_parts.len() as int) =~= spec_parts);
    Some(TemplateDef::RatioSteps { ratios, name: string_of(&name) })
}

fn chord_line(line: &Vec<char>) -> (r: Option<TemplateDef>)
    ensures
        match r {
            Some(t) => chord_line_spec(line@) == Some(t.model()),
            None => chord_line_spec(line@) is None,
        },
{
    reveal(chord_line_spec);
    let (def, rest) = match split_first_ws_chars(line) {
        Some(p) => p,
        None => {
            return None;
        },
    };
    let rest_t = trim_chars(&rest);
    let name = strip_eq_prefix(&rest_t);
    let opened = strip_leading_chars(&def, '(');
    let chord = strip_trailing_chars(&opened, ')');
    let pieces = split_chars(&chord, ':');
    let ratios = chord_ratios(&pieces, Ghost(split_on(chord@, ':')));
    if ratios.len() < 2 {
        return None;
    }
    Some(TemplateDef::Chord { ratios, name: string_of(&name) })
}

fn steps_line(text: &str) -> (r: Option<TemplateDef>)
    ensures
        match r {
            Some(t) => steps_line_spec(text@) == Some(t.model()),
            None => steps_line_spec(text@) is None,
        },
{
    reveal(steps_line_spec);
    let (d, n) = match split_two_spaces(text) {
        Some(p) => p,
        None => {
            return None;
        },
    };
    let dc = chars_of(d.as_str());
    let dt = trim_chars(&dc);
    let parts = split_words(&dt);
    let nc = chars_of(n.as_str());
    let nt = trim_chars(&nc);
    let name = strip_eq_prefix(&nt);
    if parts.len() < 2 {
        return None;
    }
    template_steps(&parts, Ghost(words(dt@)), name)
}

/// Read a tuning-independent chord definition line; see `template_spec`.
/// Cent values stay text: reading them as numbers is left to the caller.
pub fn template_def(raw: &str) -> (r: Option<TemplateDef>)
    ensures
        match r {
            Some(t) => template_spec(raw@) == Some(t.model()),
            None => template_spec(raw@) is None,
        },
{
    let rc = chars_of(raw);
    let line = trim_chars(&rc);
    if line.len() == 0 || line[0] == '!' || line[0] == '<' {
        return None;
    }
    let text = string_of(&line);
    if is_step_pattern_line(text.as_str()) {
        return None;
    }
    if has_char_exec(&line, ':') {
        chord_line(&line)
    } else {
        steps_line(text.as_str())
    }
}

// ---------------------------------------------------------------------------
// Chord-name tables
// ---------------------------------------------------------------------------

/// The names of one step pattern in one EDO.
#[derive(Debug, Clone)]
pub struct ChordPatterns {
    pub edo: i32,
    pub pattern: String,
    pub names: Vec<String>,
}

pub type PatternsModel = (i32, Seq<char>, Seq<Seq<char>>);

pub open spec fn cp_view(c: ChordPatterns) -> PatternsModel {
    (c.edo, c.pattern@, c.names@.map_values(|n: String| n@))
}

pub open spec fn cps_view(v: Seq<ChordPatterns>) -> Seq<PatternsModel> {
    v.map_values(|c: ChordPatterns| cp_view(c))
}

/// Index of the first entry for `edo` and `p`, or -1.
pub open spec fn entry_index(t: Seq<PatternsModel>, edo: i32, p: Seq<char>) -> int
    decreases t.len(),
{
    if t.len() == 0 {
        -1
    } else {
        let k = entry_index(t.drop_last(), edo, p);
        if k >= 0 {
            k
        } else if t.last().0 == edo && t.last().1 == p {
            t.len() - 1
        } else {
            -1
        }
    }
}

/// The names listed for `edo` and `p`.
pub open spec fn lookup_names(t: Seq<PatternsModel>, edo: i32, p: Seq<char>) -> Seq<Seq<char>> {
    let k = entry_index(t, edo, p);
    if k >= 0 { t[k].2 } else { Seq::empty() }
}

/// The entry for `edo` and `p`, created empty if missing.
pub open spec fn touch_entry(t: Seq<PatternsModel>, edo: i32, p: Seq<char>) -> Seq<PatternsModel> {
    if entry_index(t, edo, p) >= 0 { t } else { t.push((edo, p, Seq::empty())) }
}

/// Name `n` listed for `edo` and `p`, once.
pub open spec fn add_entry_name(t: Seq<PatternsModel>, edo: i32, p: Seq<char>, n: Seq<char>) -> Seq<PatternsModel> {
    let u = touch_entry(t, edo, p);
    let k = entry_index(u, edo, p);
    if u[k].2.contains(n) { u } else { u.update(k, (edo, p, u[k].2.push(n))) }
}

proof fn lemma_entry_index_bounds(t: Seq<PatternsModel>, edo: i32, p: Seq<char>)
    ensures
        -1 <= entry_index(t, edo, p) < t.len(),
        entry_index(t, edo, p) >= 0 ==> t[entry_index(t, edo, p)].0 == edo && t[entry_index(t, edo, p)].1 == p,
        entry_index(t, edo, p) < 0 ==> forall|j: int| 0 <= j < t.len() ==> !(t[j].0 == edo && t[j].1 == p),
        entry_index(t, edo, p) >= 0 ==> forall|j: int| 0 <= j < entry_index(t, edo, p) ==> !(t[j].0 == edo && t[j].1 == p),
    decreases t.len(),
{
    if t.len() > 0 {
        lemma_entry_index_bounds(t.drop_last(), edo, p);
        assert forall|j: int| 0 <= j < t.len() - 1 implies t.drop_last()[j] == t[j] by {}
    }
}

proof fn lemma_entry_index_push(t: Seq<PatternsModel>, x: PatternsModel, edo: i32, p: Seq<char>)
    requires
        entry_index(t, edo, p) < 0,
        x.0 == edo && x.1 == p,
    ensures
        entry_index(t.push(x), edo, p) == t.len(),
{
    assert(t.push(x).drop_last() =~= t);
}

/// Index of the entry for `edo` and `p`.
fn find_entry(v: &Vec<ChordPatterns>, edo: i32, p: &Vec<char>) -> (r: Option<usize>)
    ensures
        match r {
            Some(k) => k as int == entry_index(cps_view(v@), edo, p@),
            None => entry_index(cps_view(v@), edo, p@) < 0,
        },
{
    let ghost t = cps_view(v@);
    proof {
        lemma_entry_index_bounds(t, edo, p@);
    }
    let mut k: usize = 0;
    while k < v.len()
        invariant
            k <= v@.len(),
            t == cps_view(v@),
            forall|j: int| 0 <= j < k ==> !(t[j].0 == edo && t[j].1 == p@),
            -1 <= entry_index(t, edo, p@) < t.len(),
            entry_index(t, edo, p@) >= 0 ==> t[entry_index(t, edo, p@)].0 == edo && t[entry_index(t, edo, p@)].1 == p@,
            entry_index(t, edo, p@) >= 0 ==> forall|j: int| 0 <= j < entry_index(t, edo, p@) ==> !(t[j].0 == edo && t[j].1 == p@),
            entry_index(t, edo, p@) < 0 ==> forall|j: int| 0 <= j < t.len() ==> !(t[j].0 == edo && t[j].1 == p@),
        decreases v@.len() - k,
    {
        let c = chars_of(v[k].pattern.as_str());
        if v[k].edo == edo && crate::text::chars_eq(&c, p) {
            proof {
                let e = entry_index(t, edo, p@);
                assert(t[k as int] == cp_view(v@[k as int]));
                assert(t[k as int].0 == edo && t[k as int].1 == p@);
                if e >= 0 && e < k {
                    assert(!(t[e].0 == edo && t[e].1 == p@));
                }
            }
            return Some(k);
        }
        k = k + 1;
    }
    None
}

fn names_contain(names: &Vec<String>, n: &Vec<char>) -> (r: bool)
    ensures
        r == names@.map_values(|x: String| x@).contains(n@),
{
    let ghost nv = names@.map_values(|x: String| x@);
    let mut k: usize = 0;
    while k < names.len()
        invariant
            k <= names@.len(),
            nv == names@.map_values(|x: String| x@),
            forall|j: int| 0 <= j < k ==> nv[j] != n@,
        decreases names@.len() - k,
    {
        let c = chars_of(names[k].as_str());
        if crate::text::chars_eq(&c, n) {
            assert(nv[k as int] == n@);
            return true;
        }
        k = k + 1;
    }
    false
}

/// Make sure an entry for `edo` and `p` exists; its index.
fn touch(v: &mut Vec<ChordPatterns>, edo: i32, p: &Vec<char>) -> (k: usize)
    ensures
        cps_view(final(v)@) == touch_entry(cps_view(old(v)@), edo, p@),
        k as int == entry_index(cps_view(final(v)@), edo, p@),
        k < final(v)@.len(),
{
    match find_entry(v, edo, p) {
        Some(k) => {
            proof {
                lemma_entry_index_bounds(cps_view(v@), edo, p@);
            }
            k
        },
        None => {
            let ghost before = cps_view(v@);
            let k = v.len();
            let e: Vec<String> = Vec::new();
            v.push(ChordPatterns { edo, pattern: string_of(p), names: e });
            proof {
                assert(e@.map_values(|x: String| x@) =~= Seq::<Seq<char>>::empty());
                assert(cps_view(v@) =~= before.push((edo, p@, Seq::<Seq<char>>::empty())));
                lemma_entry_index_push(before, (edo, p@, Seq::<Seq<char>>::empty()), edo, p@);
            }
            k
        },
    }
}

/// List `n` under `edo` and `p` (once).
fn add_name(v: &mut Vec<ChordPatterns>, edo: i32, p: &Vec<char>, n: &Vec<char>)
    ensures
        cps_view(final(v)@) == add_entry_name(cps_view(old(v)@), edo, p@, n@),
{
    let k = touch(v, edo, p);
    let ghost u = cps_view(v@);
    proof {
        lemma_entry_index_bounds(u, edo, p@);
    }
    if names_contain(&v[k].names, n) {
        return;
    }
    let mut c = v.remove(k);
    let ghost c0 = c;
    let s = string_of(n);
    c.names.push(s);
    v.insert(k, c);
    proof {
        assert(c.names@.map_values(|x: String| x@) =~= c0.names@.map_values(|x: String| x@).push(n@));
        assert(cps_view(v@) =~= u.update(k as int, (edo, p@, u[k as int].2.push(n@))));
    }
}

/// The chord names of `chordnam.par`: step patterns listed under EDO
/// scale definitions, and tuning-independent templates.
#[derive(Debug)]
pub struct ChordFile {
    pub exact: Vec<ChordPatterns>,
    pub templates: Vec<TemplateDef>,
}

/// Reader state between lines.
pub struct ChordState {
    pub exact: Seq<PatternsModel>,
    pub templates: Seq<TemplateModel>,
    pub current: Option<i32>,
}

pub open spec fn template_name(t: TemplateModel) -> Seq<char> {
    match t {
        TemplateModel::Chord(_, n) => n,
        TemplateModel::RatioSteps(_, n) => n,
        TemplateModel::CentSteps(_, n) => n,
    }
}

pub open spec fn scale_def_prefix() -> Seq<char> {
    "<SCALA_SCALE_DEF 2^(1/"@
}

/// The EDO a scale definition line `<SCALA_SCALE_DEF 2^(1/N)>` names.
pub open spec fn scale_def_edo(line: Seq<char>) -> Option<int> {
    let m = line.skip(scale_def_prefix().len() as int);
    if ends_with(m, ")>"@) {
        parse_i32_spec(m.take(m.len() - 2))
    } else {
        None
    }
}

/// One line of `chordnam.par`: comments (`!`) and other directives are
/// skipped; `<SCALA_SCALE_DEF 2^(1/N)>` makes `N` (when positive) the
/// current EDO; a step-pattern line under a current EDO lists its name
/// there; any other line may define a template with a name.
#[verifier::opaque]
pub open spec fn chord_step(st: ChordState, raw: Seq<char>) -> ChordState {
    let line = trim(raw);
    if line.len() == 0 || line[0] == '!' {
        st
    } else if starts_with(line, scale_def_prefix()) {
        match scale_def_edo(line) {
            Some(e) => if e > 0 {
                ChordState { current: Some(e as i32), ..st }
            } else {
                ChordState { current: None, ..st }
            },
            None => ChordState { current: None, ..st },
        }
    } else if line[0] == '<' {
        st
    } else if st.current is Some && step_pattern_line(line) {
        match split_first_ws(line) {
            Some((pat, rest)) => {
                let name = strip_eq(trim(rest));
                if name.len() > 0 {
                    ChordState { exact: add_entry_name(st.exact, st.current.unwrap(), pat, name), ..st }
                } else {
                    st
                }
            },
            None => st,
        }
    } else {
        match template_spec(raw) {
            Some(t) => if template_name(t).len() > 0 {
                ChordState { templates: st.templates.push(t), ..st }
            } else {
                st
            },
            None => st,
        }
    }
}

pub open spec fn chord_run(ls: Seq<Seq<char>>, st: ChordState) -> ChordState
    decreases ls.len(),
{
    if ls.len() == 0 {
        st
    } else {
        chord_run(ls.drop_first(), chord_step(st, ls[0]))
    }
}

/// What reading `chordnam.par` text gives.
pub open spec fn chordnam_spec(text: Seq<char>) -> ChordState {
    chord_run(lines(text), ChordState { exact: Seq::empty(), templates: Seq::empty(), current: None })
}

pub open spec fn templates_view(v: Seq<TemplateDef>) -> Seq<TemplateModel> {
    v.map_values(|t: TemplateDef| t.model())
}

fn template_name_len(t: &TemplateDef) -> (r: usize)
    ensures
        r == template_name(t.model()).len(),
{
    match t {
        TemplateDef::Chord { name, .. } => chars_of(name.as_str()).len(),
        TemplateDef::RatioSteps { name, .. } => chars_of(name.as_str()).len(),
        TemplateDef::CentSteps { name, .. } => chars_of(name.as_str()).len(),
    }
}

fn chordnam_line(
    exact: &mut Vec<ChordPatterns>,
    templates: &mut Vec<TemplateDef>,
    current: &mut Option<i32>,
    raw: &Vec<char>,
)
    ensures
        ({
            let st = chord_step(
                ChordState { exact: cps_view(old(exact)@), templates: templates_view(old(templates)@), current: *old(current) },
                raw@,
            );
            st.exact == cps_view(final(exact)@) && st.templates == templates_view(final(templates)@) && st.current == *final(current)
        }),
{
    reveal(chord_step);
    proof {
        reveal_strlit("<SCALA_SCALE_DEF 2^(1/");
        reveal_strlit(")>");
    }
    let line = trim_chars(raw);
    if line.len() == 0 || line[0] == '!' {
        return;
    }
    if starts_with_str(&line, "<SCALA_SCALE_DEF 2^(1/") {
        let m = slice_of(&line, 22, line.len());
        assert(m@ =~= line@.skip(22));
        if crate::text::ends_with_str(&m, ")>") {
            let num = slice_of(&m, 0, m.len() - 2);
            assert(num@ =~= m@.take(m@.len() - 2));
            match parse_i32(&num) {
                Some(e) => {
                    if e > 0 {
                        *current = Some(e);
                    } else {
                        *current = None;
                    }
                    return;
                },
                None => {},
            }
        }
        *current = None;
        return;
    }
    if line[0] == '<' {
        return;
    }
    let text = string_of(&line);
    match *current {
        Some(edo) => {
            if is_step_pattern_line(text.as_str()) {
                match split_first_ws_chars(&line) {
                    Some((pat, rest)) => {
                        let rt = trim_chars(&rest);
                        let name = strip_eq_prefix(&rt);
                        if name.len() > 0 {
                            add_name(exact, edo, &pat, &name);
                        }
                    },
                    None => {},
                }
                return;
            }
        },
        None => {},
    }
    let rs = string_of(raw);
    match template_def(rs.as_str()) {
        Some(t) => {
            if template_name_len(&t) > 0 {
                let ghost before = templates@;
                templates.push(t);
                assert(templates_view(templates@) =~= templates_view(before).push(t.model()));
            }
        },
        None => {},
    }
}

/// Read `chordnam.par` text; see `chord_step`.
pub fn parse_chordnam(text: &str) -> (r: ChordFile)
    ensures
        cps_view(r.exact@) == chordnam_spec(text@).exact,
        templates_view(r.templates@) == chordnam_spec(text@).templates,
{
    let chars = chars_of(text);
    let ls = split_lines(&chars);
    let ghost all = lines(text@);
    let mut exact: Vec<ChordPatterns> = Vec::new();
    let mut templates: Vec<TemplateDef> = Vec::new();
    let mut current: Option<i32> = None;
    let mut i: usize = 0;
    assert(all.skip(0) =~= all);
    assert(cps_view(exact@) =~= Seq::<PatternsModel>::empty());
    assert(templates_view(templates@) =~= Seq::<TemplateModel>::empty());
    while i < ls.len()
        invariant
            all == lines(text@),
            ls@.len() == all.len(),
            forall|j: int| 0 <= j < ls@.len() ==> (#[trigger] ls@[j])@ == all[j],
            i <= ls@.len(),
            chordnam_spec(text@) == chord_run(
                all.skip(i as int),
                ChordState { exact: cps_view(exact@), templates: templates_view(templates@), current },
            ),
        decreases ls@.len() - i,
    {
        let ghost rest = all.skip(i as int);
        assert(rest[0] == all[i as int]);
        assert(rest.drop_first() =~= all.skip(i + 1));
        chordnam_line(&mut exact, &mut templates, &mut current, &ls[i]);
        i += 1;
    }
    assert(all.skip(i as int) =~= Seq::<Seq<char>>::empty());
    ChordFile { exact, templates }
}

// ---------------------------------------------------------------------------
// 12-EDO patterns embedded in multiples of 12
// ---------------------------------------------------------------------------

/// The positive steps of a dash-separated pattern (other pieces skipped).
pub open spec fn pieces_steps(pieces: Seq<Seq<char>>) -> Seq<int>
    decreases pieces.len(),
{
    if pieces.len() == 0 {
        Seq::empty()
    } else {
        let before = pieces_steps(pieces.drop_last());
        match parse_i32_spec(pieces.last()) {
            Some(v) => if v > 0 { before.push(v) } else { before },
            None => before,
        }
    }
}

pub open spec fn pattern_steps(pat: Seq<char>) -> Seq<int> {
    pieces_steps(split_on(pat, '-'))
}

/// Numbers joined by dashes.
pub open spec fn join_dash(nums: Seq<int>) -> Seq<char>
    decreases nums.len(),
{
    if nums.len() == 0 {
        Seq::empty()
    } else if nums.len() == 1 {
        dec_signed(nums[0])
    } else {
        join_dash(nums.drop_last()) + seq!['-'] + dec_signed(nums.last())
    }
}

/// The non-empty names, each marked `-EDO12`.
pub open spec fn edo12_names(ns: Seq<Seq<char>>) -> Seq<Seq<char>>
    decreases ns.len(),
{
    if ns.len() == 0 {
        Seq::empty()
    } else {
        edo12_names(ns.drop_last()) + if ns.last().len() > 0 { seq![ns.last() + "-EDO12"@] } else { Seq::empty() }
    }
}

/// Each of `ns` listed under `edo` and `p`, once.
pub open spec fn add_entry_names(t: Seq<PatternsModel>, edo: i32, p: Seq<char>, ns: Seq<Seq<char>>) -> Seq<PatternsModel>
    decreases ns.len(),
{
    if ns.len() == 0 {
        t
    } else {
        add_entry_name(add_entry_names(t, edo, p, ns.drop_last()), edo, p, ns.last())
    }
}

/// One 12-EDO entry scaled into `edo`: its steps times `edo / 12`.
pub open spec fn embed_entry(acc: Seq<PatternsModel>, edo: i32, c: PatternsModel) -> Seq<PatternsModel> {
    let steps = pattern_steps(c.1);
    if steps.len() == 0 {
        acc
    } else {
        let pn = join_dash(steps.map_values(|x: int| x * (edo / 12)));
        add_entry_names(touch_entry(acc, edo, pn), edo, pn, edo12_names(c.2))
    }
}

pub open spec fn embed_upto(exact: Seq<PatternsModel>, edo: i32, k: int) -> Seq<PatternsModel>
    decreases k,
{
    if k <= 0 {
        Seq::empty()
    } else {
        let acc = embed_upto(exact, edo, k - 1);
        if exact[k - 1].0 == 12 { embed_entry(acc, edo, exact[k - 1]) } else { acc }
    }
}

/// The 12-EDO patterns of `exact` embedded in `edo`, for a multiple of 12
/// other than 12 itself; nothing otherwise.
pub open spec fn embed12_spec(exact: Seq<PatternsModel>, edo: i32) -> Seq<PatternsModel> {
    if edo != 12 && edo % 12 == 0 {
        embed_upto(exact, edo, exact.len() as int)
    } else {
        Seq::empty()
    }
}

/// The scaled steps stay within `i32`.
pub open spec fn embed_fits(exact: Seq<PatternsModel>, edo: i32) -> bool {
    forall|k: int, j: int|
        0 <= k < exact.len() && exact[k].0 == 12 && 0 <= j < pattern_steps(exact[k].1).len()
            ==> i32::MIN <= #[trigger] pattern_steps(exact[k].1)[j] * (edo / 12) <= i32::MAX
}

fn pattern_steps_exec(pat: &Vec<char>) -> (r: Vec<i32>)
    ensures
        r@.map_values(|x: i32| x as int) == pattern_steps(pat@),
{
    let pieces = split_chars(pat, '-');
    let ghost ps = split_on(pat@, '-');
    let mut out: Vec<i32> = Vec::new();
    let mut i: usize = 0;
    while i < pieces.len()
        invariant
            i <= pieces@.len(),
            ps == split_on(pat@, '-'),
            pieces@.len() == ps.len(),
            forall|j: int| 0 <= j < pieces@.len() ==> (#[trigger] pieces@[j])@ == ps[j],
            out@.map_values(|x: i32| x as int) == pieces_steps(ps.take(i as int)),
        decreases pieces@.len() - i,
    {
        assert(ps.take(i + 1).drop_last() =~= ps.take(i as int));
        assert(ps.take(i + 1).last() == pieces@[i as int]@);
        let ghost before = out@;
        match parse_i32(&pieces[i]) {
            Some(v) => {
                if v > 0 {
                    out.push(v);
                    assert(out@.map_values(|x: i32| x as int) =~= before.map_values(|x: i32| x as int).push(v as int));
                }
            },
            None => {},
        }
        i = i + 1;
    }
    assert(ps.take(pieces@.len() as int) =~= ps);
    out
}

fn join_scaled(steps: &Vec<i32>, f: i32) -> (r: Vec<char>)
    requires
        forall|j: int| 0 <= j < steps@.len() ==> i32::MIN <= #[trigger] steps@[j] * f <= i32::MAX,
    ensures
        r@ == join_dash(steps@.map_values(|x: i32| x as int).map_values(|x: int| x * f)),
{
    let ghost ns = steps@.map_values(|x: i32| x as int).map_values(|x: int| x * f);
    let mut out: Vec<char> = Vec::new();
    let mut i: usize = 0;
    while i < steps.len()
        invariant
            i <= steps@.len(),
            ns == steps@.map_values(|x: i32| x as int).map_values(|x: int| x * f),
            forall|j: int| 0 <= j < steps@.len() ==> i32::MIN <= #[trigger] steps@[j] * f <= i32::MAX,
            out@ == join_dash(ns.take(i as int)),
        decreases steps@.len() - i,
    {
        if i > 0 {
            out.push('-');
        }
        let v: i32 = steps[i] * f;
        let d = fmt_i64(v as i64);
        push_all(&mut out, &d);
        proof {
            let t = ns.take(i + 1);
            assert(t.drop_last() =~= ns.take(i as int));
            assert(t.last() == v as int);
            if i == 0 {
                assert(t.len() == 1);
            }
        }
        i = i + 1;
    }
    assert(ns.take(steps@.len() as int) =~= ns);
    out
}

fn add_names(v: &mut Vec<ChordPatterns>, edo: i32, p: &Vec<char>, ns: &Vec<Vec<char>>)
    ensures
        cps_view(final(v)@) == add_entry_names(cps_view(old(v)@), edo, p@, ns@.map_values(|n: Vec<char>| n@)),
{
    let ghost nv = ns@.map_values(|n: Vec<char>| n@);
    let ghost start = cps_view(v@);
    let mut i: usize = 0;
    while i < ns.len()
        invariant
            i <= ns@.len(),
            nv == ns@.map_values(|n: Vec<char>| n@),
            cps_view(v@) == add_entry_names(start, edo, p@, nv.take(i as int)),
        decreases ns@.len() - i,
    {
        add_name(v, edo, p, &ns[i]);
        assert(nv.take(i + 1).drop_last() =~= nv.take(i as int));
        i = i + 1;
    }
    assert(nv.take(ns@.len() as int) =~= nv);
}

fn edo12_names_exec(names: &Vec<String>) -> (r: Vec<Vec<char>>)
    ensures
        r@.map_values(|n: Vec<char>| n@) == edo12_names(names@.map_values(|n: String| n@)),
{
    proof {
        reveal_strlit("-EDO12");
    }
    let ghost nv = names@.map_values(|n: String| n@);
    let mut out: Vec<Vec<char>> = Vec::new();
    let mut i: usize = 0;
    while i < names.len()
        invariant
            i <= names@.len(),
            nv == names@.map_values(|n: String| n@),
            out@.map_values(|n: Vec<char>| n@) == edo12_names(nv.take(i as int)),
        decreases names@.len() - i,
    {
        let c = chars_of(names[i].as_str());
        assert(nv.take(i + 1).drop_last() =~= nv.take(i as int));
        assert(nv.take(i + 1).last() == c@);
        if c.len() > 0 {
            let mut m = c;
            let ghost c0 = m@;
            crate::text::push_str(&mut m, "-EDO12");
            let ghost before = out@;
            out.push(m);
            assert(out@.map_values(|n: Vec<char>| n@) =~= before.map_values(|n: Vec<char>| n@).push(c0 + "-EDO12"@));
        } else {
            assert(edo12_names(nv.take(i + 1)) =~= edo12_names(nv.take(i as int)));
        }
        i = i + 1;
    }
    assert(nv.take(names@.len() as int) =~= nv);
    out
}

/// The 12-EDO patterns of `exact` scaled into `edo` (a multiple of 12
/// other than 12), names marked `-EDO12`; nothing for other EDOs.
pub fn embed12_for_edo(exact: &Vec<ChordPatterns>, edo: i32) -> (r: Vec<ChordPatterns>)
    requires
        embed_fits(cps_view(exact@), edo),
    ensures
        cps_view(r@) == embed12_spec(cps_view(exact@), edo),
{
    let mut out: Vec<ChordPatterns> = Vec::new();
    assert(cps_view(out@) =~= Seq::<PatternsModel>::empty());
    if !(edo != 12 && edo % 12 == 0) {
        return out;
    }
    let f: i32 = edo / 12;
    let ghost ex = cps_view(exact@);
    let mut k: usize = 0;
    while k < exact.len()
        invariant
            k <= exact@.len(),
            ex == cps_view(exact@),
            embed_fits(ex, edo),
            f == edo / 12,
            cps_view(out@) == embed_upto(ex, edo, k as int),
        decreases exact@.len() - k,
    {
        if exact[k].edo == 12 {
            let pc = chars_of(exact[k].pattern.as_str());
            let steps = pattern_steps_exec(&pc);
            proof {
                assert(ex[k as int] == cp_view(exact@[k as int]));
            }
            if steps.len() > 0 {
                assert forall|j: int| 0 <= j < steps@.len() implies i32::MIN <= #[trigger] steps@[j] * f <= i32::MAX by {
                    assert(steps@.map_values(|x: i32| x as int)[j] == steps@[j] as int);
                    assert(pattern_steps(ex[k as int].1)[j] == steps@[j]);
                }
                let pn = join_scaled(&steps, f);
                let names = edo12_names_exec(&exact[k].names);
                touch(&mut out, edo, &pn);
                add_names(&mut out, edo, &pn, &names);
            } else {
                assert(pattern_steps(ex[k as int].1).len() == 0);
            }
        }
        k = k + 1;
    }
    out
}

// ---------------------------------------------------------------------------
// Naming a set of pitch classes
// ---------------------------------------------------------------------------

/// The names for one root: its pattern, relative pitch classes and names.
#[derive(Debug, Clone)]
pub struct ChordResult {
    pub root_pc: i32,
    pub rel: Vec<i32>,
    pub pattern: String,
    pub names: Vec<String>,
}

/// `acc` followed by the names of `ns` it does not hold yet.
pub open spec fn append_new(acc: Seq<Seq<char>>, ns: Seq<Seq<char>>) -> Seq<Seq<char>>
    decreases ns.len(),
{
    if ns.len() == 0 {
        acc
    } else {
        let a = append_new(acc, ns.drop_last());
        if a.contains(ns.last()) { a } else { a.push(ns.last()) }
    }
}

/// The names of a step pattern in `edo`: the file's own names for that
/// EDO, then (outside 12-EDO) the embedded 12-EDO names, then the projected
/// template names, each name once.
pub open spec fn names_for(
    exact: Seq<PatternsModel>,
    embed: Seq<PatternsModel>,
    approx: Seq<PatternsModel>,
    edo: i32,
    pattern: Seq<char>,
) -> Seq<Seq<char>> {
    if pattern.len() == 0 {
        Seq::empty()
    } else {
        let a = lookup_names(exact, edo, pattern);
        let b = if edo != 12 { append_new(a, lookup_names(embed, edo, pattern)) } else { a };
        append_new(b, lookup_names(approx, edo, pattern))
    }
}

fn lookup_exec(t: &Vec<ChordPatterns>, edo: i32, p: &Vec<char>) -> (r: Vec<Vec<char>>)
    ensures
        r@.map_values(|n: Vec<char>| n@) == lookup_names(cps_view(t@), edo, p@),
{
    match find_entry(t, edo, p) {
        Some(k) => {
            proof {
                lemma_entry_index_bounds(cps_view(t@), edo, p@);
            }
            let names = &t[k].names;
            let ghost nv = names@.map_values(|n: String| n@);
            let mut out: Vec<Vec<char>> = Vec::new();
            let mut i: usize = 0;
            while i < names.len()
                invariant
                    i <= names@.len(),
                    nv == names@.map_values(|n: String| n@),
                    out@.map_values(|n: Vec<char>| n@) == nv.take(i as int),
                    out@.len() == i,
                decreases names@.len() - i,
            {
                let c = chars_of(names[i].as_str());
                let ghost before = out@;
                out.push(c);
                proof {
                    let lhs = out@.map_values(|n: Vec<char>| n@);
                    let rhs = nv.take(i + 1);
                    let prev = before.map_values(|n: Vec<char>| n@);
                    assert forall|q: int| 0 <= q < i + 1 implies lhs[q] == rhs[q] by {
                        if q < i {
                            assert(prev[q] == nv.take(i as int)[q]);
                            assert(out@[q] == before[q]);
                        }
                    }
                }
                assert(out@.map_values(|n: Vec<char>| n@) =~= nv.take(i + 1));
                i = i + 1;
            }
            assert(nv.take(names@.len() as int) =~= nv);
            assert(cps_view(t@)[k as int] == cp_view(t@[k as int]));
            out
        },
        None => {
            let out: Vec<Vec<char>> = Vec::new();
            assert(out@.map_values(|n: Vec<char>| n@) =~= Seq::<Seq<char>>::empty());
            out
        },
    }
}

fn append_new_exec(acc: &mut Vec<Vec<char>>, ns: &Vec<Vec<char>>)
    ensures
        final(acc)@.map_values(|n: Vec<char>| n@) == append_new(
            old(acc)@.map_values(|n: Vec<char>| n@),
            ns@.map_values(|n: Vec<char>| n@),
        ),
{
    let ghost a0 = acc@.map_values(|n: Vec<char>| n@);
    let ghost nv = ns@.map_values(|n: Vec<char>| n@);
    let mut i: usize = 0;
    while i < ns.len()
        invariant
            i <= ns@.len(),
            nv == ns@.map_values(|n: Vec<char>| n@),
            acc@.map_values(|n: Vec<char>| n@) == append_new(a0, nv.take(i as int)),
        decreases ns@.len() - i,
    {
        let ghost av = acc@.map_values(|n: Vec<char>| n@);
        let mut found = false;
        let mut j: usize = 0;
        while j < acc.len()
            invariant
                j <= acc@.len(),
                av == acc@.map_values(|n: Vec<char>| n@),
                found == exists|q: int| 0 <= q < j && av[q] == ns@[i as int]@,
                i < ns@.len(),
            decreases acc@.len() - j,
        {
            if crate::text::chars_eq(&acc[j], &ns[i]) {
                assert(av[j as int] == ns@[i as int]@);
                found = true;
            }
            proof {
                if !found {
                    assert(av[j as int] == acc@[j as int]@);
                }
            }
            j = j + 1;
        }
        assert(nv.take(i + 1).drop_last() =~= nv.take(i as int));
        assert(nv.take(i + 1).last() == ns@[i as int]@);
        if !found {
            let c = crate::text::slice_of(&ns[i], 0, ns[i].len());
            let ghost before = acc@;
            acc.push(c);
            proof {
                let lhs = acc@.map_values(|n: Vec<char>| n@);
                let rhs = av.push(ns@[i as int]@);
                assert forall|q: int| 0 <= q < before.len() + 1 implies lhs[q] == rhs[q] by {
                    if q < before.len() {
                        assert(acc@[q] == before[q]);
                    }
                }
            }
            assert(acc@.map_values(|n: Vec<char>| n@) =~= av.push(ns@[i as int]@));
        } else {
            assert(av.contains(ns@[i as int]@));
        }
        i = i + 1;
    }
    assert(nv.take(ns@.len() as int) =~= nv);
}

fn strings_of(v: Vec<Vec<char>>) -> (r: Vec<String>)
    ensures
        r@.map_values(|n: String| n@) == v@.map_values(|n: Vec<char>| n@),
{
    let mut out: Vec<String> = Vec::new();
    let mut i: usize = 0;
    while i < v.len()
        invariant
            i <= v@.len(),
            out@.map_values(|n: String| n@) == v@.take(i as int).map_values(|n: Vec<char>| n@),
            out@.len() == i,
        decreases v@.len() - i,
    {
        let s = string_of(&v[i]);
        let ghost before = out@;
        out.push(s);
        proof {
            let lhs = out@.map_values(|n: String| n@);
            let rhs = v@.take(i + 1).map_values(|n: Vec<char>| n@);
            let prev = before.map_values(|n: String| n@);
            let prev_r = v@.take(i as int).map_values(|n: Vec<char>| n@);
            assert forall|q: int| 0 <= q < i + 1 implies lhs[q] == rhs[q] by {
                if q < i {
                    assert(prev[q] == prev_r[q]);
                    assert(out@[q] == before[q]);
                }
            }
        }
        assert(out@.map_values(|n: String| n@) =~= v@.take(i + 1).map_values(|n: Vec<char>| n@));
        i = i + 1;
    }
    assert(v@.take(v@.len() as int) =~= v@);
    out
}

/// The names of a pattern; see `names_for`.
pub fn names_for_pattern(
    exact: &Vec<ChordPatterns>,
    embed: &Vec<ChordPatterns>,
    approx: &Vec<ChordPatterns>,
    edo: i32,
    pattern: &Vec<char>,
) -> (r: Vec<String>)
    ensures
        r@.map_values(|n: String| n@) == names_for(cps_view(exact@), cps_view(embed@), cps_view(approx@), edo, pattern@),
{
    if pattern.len() == 0 {
        let e: Vec<String> = Vec::new();
        assert(e@.map_values(|n: String| n@) =~= Seq::<Seq<char>>::empty());
        return e;
    }
    let mut acc = lookup_exec(exact, edo, pattern);
    if edo != 12 {
        let more = lookup_exec(embed, edo, pattern);
        append_new_exec(&mut acc, &more);
    }
    let more = lookup_exec(approx, edo, pattern);
    append_new_exec(&mut acc, &more);
    strings_of(acc)
}

/// The chord results for the pitch classes `pcs` (reduced modulo `edo`):
/// one per distinct class in increasing order, each with its intervals
/// above that root, their step pattern, and the names the tables give it.
pub open spec fn chords_found(
    exact: Seq<PatternsModel>,
    embed: Seq<PatternsModel>,
    approx: Seq<PatternsModel>,
    edo: i32,
    pcs: Seq<i32>,
    r: Seq<ChordResult>,
) -> bool {
    exists|u: Seq<i32>|
        strictly_increasing(u) && u.to_set().map(|v: i32| v as int) == pcs.map_values(|p: i32| (p as int) % (edo as int)).to_set()
            && r.len() == u.len() && forall|i: int| 0 <= i < u.len() ==> {
                let c = #[trigger] r[i];
                &&& c.root_pc == u[i]
                &&& strictly_increasing(c.rel@)
                &&& c.rel@.to_set().map(|v: i32| v as int) == rel_of(edo as int, u[i] as int, u).to_set()
                &&& c.pattern@ == (if c.rel@.len() < 2 || c.rel@[0] != 0 { Seq::empty() } else { step_text(c.rel@) })
                &&& c.names@.map_values(|n: String| n@) == names_for(exact, embed, approx, edo, c.pattern@)
            }
}

/// Names for the pitch classes `pitch_classes` of an `edo`-step octave:
/// one result per distinct pitch class (in ascending order) taken as the
/// root, with the step pattern of the set from that root and its names
/// from the file's tables (`exact`), the embedded 12-EDO table (`embed`)
/// and the projected templates (`approx`) for this EDO. Nothing for a
/// non-positive EDO or no pitch classes.
pub fn find_chord_names(
    exact: &Vec<ChordPatterns>,
    embed: &Vec<ChordPatterns>,
    approx: &Vec<ChordPatterns>,
    edo: i32,
    pitch_classes: &[i32],
) -> (r: Vec<ChordResult>)
    ensures
        edo <= 0 ==> r@.len() == 0,
        edo > 0 ==> chords_found(cps_view(exact@), cps_view(embed@), cps_view(approx@), edo, pitch_classes@, r@),
{
    let mut out: Vec<ChordResult> = Vec::new();
    if edo <= 0 {
        return out;
    }
    let mut pcs: Vec<i32> = Vec::new();
    let mut i: usize = 0;
    while i < pitch_classes.len()
        invariant
            i <= pitch_classes@.len(),
            edo > 0,
            pcs@.len() == i,
            forall|j: int| 0 <= j < i ==> #[trigger] pcs@[j] == (pitch_classes@[j] as int) % (edo as int),
        decreases pitch_classes@.len() - i,
    {
        pcs.push(norm_pc(edo, pitch_classes[i]));
        i = i + 1;
    }
    let uniq = uniq_sorted(&pcs);
    let ghost want = pitch_classes@.map_values(|p: i32| (p as int) % (edo as int));
    proof {
        assert(pcs@.map_values(|v: i32| v as int) =~= want);
        assert forall|v: int| uniq@.to_set().map(|x: i32| x as int).contains(v) <==> want.to_set().contains(v) by {
            if uniq@.to_set().map(|x: i32| x as int).contains(v) {
                let w = choose|w: i32| uniq@.to_set().contains(w) && w as int == v;
                assert(pcs@.to_set().contains(w));
                let t = choose|t: int| 0 <= t < pcs@.len() && pcs@[t] == w;
                assert(want[t] == v);
            }
            if want.to_set().contains(v) {
                let t = choose|t: int| 0 <= t < want.len() && want[t] == v;
                assert(pcs@.to_set().contains(pcs@[t]));
                assert(uniq@.to_set().contains(pcs@[t]));
            }
        }
        assert(uniq@.to_set().map(|x: i32| x as int) =~= want.to_set());
        assert forall|k: int| 0 <= k < uniq@.len() implies 0 <= #[trigger] uniq@[k] < edo by {
            assert(uniq@.to_set().contains(uniq@[k]));
            assert(pcs@.to_set().contains(uniq@[k]));
        }
    }
    let mut k: usize = 0;
    while k < uniq.len()
        invariant
            k <= uniq@.len(),
            edo > 0,
            forall|q: int| 0 <= q < uniq@.len() ==> 0 <= #[trigger] uniq@[q] < edo,
            out@.len() == k,
            forall|q: int| 0 <= q < k ==> {
                let c = #[trigger] out@[q];
                &&& c.root_pc == uniq@[q]
                &&& strictly_increasing(c.rel@)
                &&& c.rel@.to_set().map(|v: i32| v as int) == rel_of(edo as int, uniq@[q] as int, uniq@).to_set()
                &&& c.pattern@ == (if c.rel@.len() < 2 || c.rel@[0] != 0 { Seq::empty() } else { step_text(c.rel@) })
                &&& c.names@.map_values(|n: String| n@) == names_for(
                    cps_view(exact@),
                    cps_view(embed@),
                    cps_view(approx@),
                    edo,
                    c.pattern@,
                )
            },
        decreases uniq@.len() - k,
    {
        let root = uniq[k];
        proof {
            assert forall|j: int| 0 <= j < uniq@.len() implies i32::MIN <= #[trigger] uniq@[j] - root <= i32::MAX by {}
        }
        let (rel, pattern) = step_pattern_from_pcs(edo, root, &uniq);
        let pc = chars_of(pattern.as_str());
        let names = names_for_pattern(exact, embed, approx, edo, &pc);
        out.push(ChordResult { root_pc: root, rel, pattern, names });
        k = k + 1;
    }
    out
}

/// `append_new(acc, ns)` keeps `acc` in front, holds every name of `ns`,
/// holds only names of `acc` or `ns`, and adds each name at most once.
proof fn lemma_append_new(acc: Seq<Seq<char>>, ns: Seq<Seq<char>>)
    ensures
        append_new(acc, ns).len() >= acc.len(),
        append_new(acc, ns).take(acc.len() as int) == acc,
        forall|x: Seq<char>| ns.contains(x) ==> #[trigger] append_new(acc, ns).contains(x),
        forall|j: int| 0 <= j < append_new(acc, ns).len() ==> acc.contains(#[trigger] append_new(acc, ns)[j]) || ns.contains(
            append_new(acc, ns)[j],
        ),
        acc.no_duplicates() ==> append_new(acc, ns).no_duplicates(),
        forall|j: int| acc.len() <= j < append_new(acc, ns).len() ==> !acc.contains(#[trigger] append_new(acc, ns)[j])
            && ns.contains(append_new(acc, ns)[j]),
    decreases ns.len(),
{
    if ns.len() > 0 {
        let d = ns.drop_last();
        lemma_append_new(acc, d);
        let a = append_new(acc, d);
        let r = append_new(acc, ns);
        assert forall|x: Seq<char>| ns.contains(x) implies #[trigger] r.contains(x) by {
            let i = choose|i: int| 0 <= i < ns.len() && ns[i] == x;
            if i < ns.len() - 1 {
                assert(d[i] == x);
                assert(d.contains(x));
                assert(a.contains(x));
                if !a.contains(ns.last()) {
                    let q = choose|q: int| 0 <= q < a.len() && a[q] == x;
                    assert(r[q] == x);
                }
            } else {
                if !a.contains(ns.last()) {
                    assert(r[a.len() as int] == x);
                }
            }
        }
        assert forall|j: int| 0 <= j < r.len() implies acc.contains(#[trigger] r[j]) || ns.contains(r[j]) by {
            if j < a.len() {
                assert(r[j] == a[j]);
                if d.contains(a[j]) {
                    let q = choose|q: int| 0 <= q < d.len() && d[q] == a[j];
                    assert(ns[q] == a[j]);
                }
            } else {
                assert(r[j] == ns.last());
                assert(ns[ns.len() - 1] == ns.last());
            }
        }
        if !a.contains(ns.last()) {
            assert(r.take(acc.len() as int) =~= a.take(acc.len() as int));
        }
        assert forall|j: int| acc.len() <= j < r.len() implies !acc.contains(#[trigger] r[j]) && ns.contains(r[j]) by {
            if j < a.len() {
                assert(r[j] == a[j]);
                let q = choose|q: int| 0 <= q < d.len() && d[q] == a[j];
                assert(ns[q] == a[j]);
            } else {
                assert(r[j] == ns.last());
                assert(ns[ns.len() - 1] == ns.last());
                if acc.contains(r[j]) {
                    let q = choose|q: int| 0 <= q < acc.len() && acc[q] == r[j];
                    assert(a.take(acc.len() as int)[q] == acc[q]);
                    assert(a[q] == r[j]);
                }
            }
        }
    }
}

/// The names listed for `edo` and `p` are those of the first entry of the
/// table with that EDO and pattern, and none when there is no such entry.
pub proof fn lemma_lookup_first_entry(t: Seq<PatternsModel>, edo: i32, p: Seq<char>, k: int)
    requires
        0 <= k < t.len(),
        t[k].0 == edo && t[k].1 == p,
        forall|j: int| 0 <= j < k ==> !(#[trigger] t[j].0 == edo && t[j].1 == p),
    ensures
        lookup_names(t, edo, p) == t[k].2,
{
    lemma_entry_index_bounds(t, edo, p);
}

/// A table without an entry for `edo` and `p` lists no names for it.
pub proof fn lemma_lookup_missing(t: Seq<PatternsModel>, edo: i32, p: Seq<char>)
    requires
        forall|j: int| 0 <= j < t.len() ==> !(#[trigger] t[j].0 == edo && t[j].1 == p),
    ensures
        lookup_names(t, edo, p) == Seq::<Seq<char>>::empty(),
{
    lemma_entry_index_bounds(t, edo, p);
}

/// The names of a non-empty step pattern: the exact table's names come
/// first, in their order; every name the embedded table lists (outside
/// 12-EDO) and every name the projected-template table lists is there too,
/// the embedded names before any name only the projected table gives;
/// every name comes from one of those tables; and no name is repeated when
/// the exact table repeats none. An empty pattern has no names.
pub proof fn lemma_names_for_sources(
    exact: Seq<PatternsModel>,
    embed: Seq<PatternsModel>,
    approx: Seq<PatternsModel>,
    edo: i32,
    pattern: Seq<char>,
)
    ensures
        pattern.len() == 0 ==> names_for(exact, embed, approx, edo, pattern).len() == 0,
        pattern.len() > 0 ==> ({
            let r = names_for(exact, embed, approx, edo, pattern);
            let e = lookup_names(exact, edo, pattern);
            let m = lookup_names(embed, edo, pattern);
            let a = lookup_names(approx, edo, pattern);
            &&& r.len() >= e.len()
            &&& r.take(e.len() as int) == e
            &&& forall|x: Seq<char>| a.contains(x) ==> #[trigger] r.contains(x)
            &&& edo != 12 ==> forall|x: Seq<char>| m.contains(x) ==> #[trigger] r.contains(x)
            &&& forall|j: int| 0 <= j < r.len() ==> e.contains(#[trigger] r[j]) || (edo != 12 && m.contains(r[j]))
                || a.contains(r[j])
            &&& e.no_duplicates() ==> r.no_duplicates()
            &&& edo != 12 ==> forall|j: int, k: int|
                0 <= j < k < r.len() && m.contains(#[trigger] r[k]) ==> e.contains(#[trigger] r[j]) || m.contains(r[j])
        }),
{
    if pattern.len() > 0 {
        let e = lookup_names(exact, edo, pattern);
        let m = lookup_names(embed, edo, pattern);
        let a = lookup_names(approx, edo, pattern);
        let b = if edo != 12 { append_new(e, m) } else { e };
        let r = names_for(exact, embed, approx, edo, pattern);
        assert(r == append_new(b, a));
        if edo != 12 {
            lemma_append_new(e, m);
        }
        lemma_append_new(b, a);
        assert(r.take(e.len() as int) =~= b.take(e.len() as int));
        assert forall|x: Seq<char>| edo != 12 && m.contains(x) implies #[trigger] r.contains(x) by {
            assert(b.contains(x));
            let q = choose|q: int| 0 <= q < b.len() && b[q] == x;
            assert(r[q] == x);
        }
        if edo != 12 {
            assert forall|j: int, k: int| 0 <= j < k < r.len() && m.contains(#[trigger] r[k]) implies e.contains(
                #[trigger] r[j],
            ) || m.contains(r[j]) by {
                if k >= b.len() {
                    assert(!b.contains(r[k]));
                    let q = choose|q: int| 0 <= q < m.len() && m[q] == r[k];
                    assert(b.contains(m[q]));
                }
                assert(r[j] == b[j]);
                if e.contains(b[j]) {
                } else {
                    if j >= e.len() {
                        assert(m.contains(b[j]));
                    } else {
                        assert(b.take(e.len() as int)[j] == e[j]);
                    }
                }
            }
        }
        assert forall|j: int| 0 <= j < r.len() implies e.contains(#[trigger] r[j]) || (edo != 12 && m.contains(r[j]))
            || a.contains(r[j]) by {
            if b.contains(r[j]) && edo != 12 {
                let q = choose|q: int| 0 <= q < b.len() && b[q] == r[j];
                assert(e.contains(b[q]) || m.contains(b[q]));
            }
        }
    }
}

} // verus!
