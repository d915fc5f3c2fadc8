//! Where layout files live and in which order they cycle.
//!
//! `.wtn` layouts live in `./wtn/`, `.xtn` layouts in `./xtn/`. A bare file
//! name with a known extension is taken to be in its kind's directory; the
//! hardware "next layout" button walks the sorted listing and wraps.
//!
//! Paths are handled as text. How a path splits into components depends on
//! the platform, so the parts read through `std::path` are only described
//! by what holds on every platform; the decisions made on them are exact.
use vstd::prelude::*;

use crate::config::{lemma_str_lt_asym, lemma_str_lt_total, lemma_str_lt_trans, str_lt, str_lt_exec};
use crate::text::{
    ascii_lower, chars_of, chars_eq, contains, has_char, has_char_exec, lower_chars, push_str,
    string_of,
};

verus! {

/// The two kinds of layout file.
#[derive(Debug, Clone, Copy, PartialEq, Eq, Structural)]
pub enum LayoutKind {
    Wtn,
    Xtn,
}

/// The directory (and extension) of a layout kind.
pub open spec fn kind_dir(k: LayoutKind) -> Seq<char> {
    match k {
        LayoutKind::Wtn => "wtn"@,
        LayoutKind::Xtn => "xtn"@,
    }
}

/// The layout kind of a file extension, in any letter case.
pub open spec fn kind_of_ext(ext: Seq<char>) -> Option<LayoutKind> {
    if ascii_lower(ext) == "wtn"@ {
        Some(LayoutKind::Wtn)
    } else if ascii_lower(ext) == "xtn"@ {
        Some(LayoutKind::Xtn)
    } else {
        None
    }
}

/// Index of the last `c` in `s`, or -1 when there is none.
pub open spec fn last_index(s: Seq<char>, c: char) -> int
    decreases s.len(),
{
    if s.len() == 0 {
        -1
    } else if s.last() == c {
        s.len() - 1
    } else {
        last_index(s.drop_last(), c)
    }
}

pub proof fn lemma_last_index(s: Seq<char>, c: char)
    ensures
        -1 <= last_index(s, c) < s.len(),
        last_index(s, c) >= 0 ==> s[last_index(s, c)] == c,
        forall|j: int| last_index(s, c) < j < s.len() ==> s[j] != c,
    decreases s.len(),
{
    if s.len() > 0 && s.last() != c {
        lemma_last_index(s.drop_last(), c);
        assert forall|j: int| last_index(s, c) < j < s.len() implies s[j] != c by {
            if j < s.len() - 1 {
                assert(s[j] == s.drop_last()[j]);
            }
        }
    }
}

/// A path that reads the same on every platform: no backslash, no colon
/// (so no Windows prefix) and no leading double slash; only `/` separates
/// its components.
pub open spec fn plain_path(p: Seq<char>) -> bool {
    &&& !has_char(p, '\\')
    &&& !has_char(p, ':')
    &&& !(p.len() >= 2 && p[0] == '/' && p[1] == '/')
}

/// The file name of a plain path: its last component, where empty
/// components (repeated or trailing separators) and `.` are skipped; none
/// when the path ends in `..` or has no component left.
pub open spec fn file_name_of(p: Seq<char>) -> Option<Seq<char>>
    decreases p.len(),
{
    let k = last_index(p, '/');
    let s = p.subrange(k + 1, p.len() as int);
    if s.len() == 0 || s == seq!['.'] {
        if k >= 0 {
            proof {
                lemma_last_index(p, '/');
            }
            file_name_of(p.subrange(0, k))
        } else {
            None
        }
    } else if s == seq!['.', '.'] {
        None
    } else {
        Some(s)
    }
}

/// The extension of a file name: what follows its last dot, unless it has
/// no dot or its only dot is the leading one.
pub open spec fn ext_of_name(f: Seq<char>) -> Option<Seq<char>> {
    let k = last_index(f, '.');
    if k <= 0 {
        None
    } else {
        Some(f.subrange(k + 1, f.len() as int))
    }
}

/// The extension of a plain path's file name.
pub open spec fn ext_of_path(p: Seq<char>) -> Option<Seq<char>> {
    match file_name_of(p) {
        Some(f) => ext_of_name(f),
        None => None,
    }
}

/// The stem of a file name: all before its last dot, or the whole name
/// when it has no dot or its only dot is the leading one.
pub open spec fn stem_of_name(f: Seq<char>) -> Seq<char> {
    let k = last_index(f, '.');
    if k <= 0 {
        f
    } else {
        f.subrange(0, k)
    }
}

/// The layout kind named by a plain path's extension.
pub open spec fn kind_of_path(p: Seq<char>) -> Option<LayoutKind> {
    match ext_of_path(p) {
        Some(e) => kind_of_ext(e),
        None => None,
    }
}

/// An optional text as characters.
pub open spec fn opt_chars(o: Option<String>) -> Option<Seq<char>> {
    match o {
        Some(s) => Some(s@),
        None => None,
    }
}

/// `Path::extension` of `p`. Claimed: an extension found is preceded by a
/// dot somewhere in `p`; and for a plain path (only `/` separates, as on
/// every platform) the extension is that of the file name as the
/// documentation of `Path::file_name`, `Path::extension` and
/// `Path::components` describes it. How other paths split depends on the
/// platform, and nothing more is stated of them.
#[verifier::external_body]
pub(crate) fn path_extension(p: &str) -> (r: Option<String>)
    ensures
        r matches Some(e) ==> contains(p@, seq!['.'] + e@),
        plain_path(p@) ==> opt_chars(r) == ext_of_path(p@),
{
    std::path::Path::new(p).extension().map(|e| e.to_string_lossy().into_owned())
}

/// `Path::file_name` of `p`. Claimed: a file name found is a non-empty part
/// of `p`; and for a plain path it is the last component as the
/// documentation of `Path::file_name` and `Path::components` describes it
/// (repeated and trailing separators and `.` skipped, none after `..`).
/// Where the components of other paths split depends on the platform;
/// nothing more is stated of them.
#[verifier::external_body]
pub(crate) fn path_file_name(p: &str) -> (r: Option<String>)
    ensures
        r matches Some(n) ==> n@.len() > 0 && contains(p@, n@),
        plain_path(p@) ==> opt_chars(r) == file_name_of(p@),
{
    std::path::Path::new(p).file_name().map(|n| n.to_string_lossy().into_owned())
}

/// `Path::file_stem` of `p`, as text. Claimed: a stem found is a non-empty
/// part of `p`; and for a plain path it is the stem of the file name as the
/// documentation of `Path::file_stem` describes it (all before the last
/// dot, or the whole name when it has no dot or only a leading one). Where
/// the components of other paths split depends on the platform; nothing
/// more is stated of them.
#[verifier::external_body]
pub(crate) fn path_file_stem(p: &str) -> (r: Option<String>)
    ensures
        r matches Some(n) ==> n@.len() > 0 && contains(p@, n@),
        plain_path(p@) ==> opt_chars(r) == match file_name_of(p@) {
            Some(f) => Some(stem_of_name(f)),
            None => None,
        },
{
    std::path::Path::new(p).file_stem().and_then(|s| s.to_str()).map(|s| s.to_string())
}

/// `Path::is_absolute` of `p`. Claimed: the empty path is not absolute,
/// and neither is a plain path that does not start at the root (on Unix an
/// absolute path starts at the root; on Windows it also needs a prefix,
/// which a plain path cannot have). Which other paths are absolute depends
/// on the platform.
#[verifier::external_body]
fn path_is_absolute(p: &str) -> (r: bool)
    ensures
        r ==> p@.len() > 0,
        plain_path(p@) && !(p@.len() > 0 && p@[0] == '/') ==> !r,
{
    std::path::Path::new(p).is_absolute()
}

/// `std::path::MAIN_SEPARATOR`, the platform's path separator: claimed to
/// be `/` or `\\`, the only separators std documents.
#[verifier::external_body]
fn main_separator() -> (r: char)
    ensures
        r == '/' || r == '\\',
{
    std::path::MAIN_SEPARATOR
}

/// The layout kind of an extension (`wtn` or `xtn`, in any case).
pub fn kind_for_extension(ext: &str) -> (r: Option<LayoutKind>)
    ensures
        r == kind_of_ext(ext@),
{
    proof {
        reveal_strlit("wtn");
        reveal_strlit("xtn");
    }
    let e = chars_of(ext);
    let lower = lower_chars(&e);
    let wtn = chars_of("wtn");
    let xtn = chars_of("xtn");
    if chars_eq(&lower, &wtn) {
        Some(LayoutKind::Wtn)
    } else if chars_eq(&lower, &xtn) {
        Some(LayoutKind::Xtn)
    } else {
        None
    }
}

/// Whether a layout path is a Wooting layout: its extension is `wtn` in any
/// case. Every other path goes to the Exquis.
pub fn is_wtn(p: &str) -> (r: bool)
    ensures
        r ==> exists|e: Seq<char>| contains(p@, seq!['.'] + e) && kind_of_ext(e) == Some(LayoutKind::Wtn),
        plain_path(p@) ==> (r <==> (match ext_of_path(p@) {
            Some(e) => kind_of_ext(e) == Some(LayoutKind::Wtn),
            None => false,
        })),
{
    match path_extension(p) {
        Some(e) => match kind_for_extension(e.as_str()) {
            Some(LayoutKind::Wtn) => {
                assert(contains(p@, seq!['.'] + e@) && kind_of_ext(e@) == Some(LayoutKind::Wtn));
                true
            },
            _ => false,
        },
        None => false,
    }
}

impl LayoutKind {
    /// The kind named by the extension of `p`.
    pub fn from_extension(p: &str) -> (r: Option<LayoutKind>)
        ensures
            r is Some ==> has_char(p@, '.'),
            plain_path(p@) ==> r == match ext_of_path(p@) {
                Some(e) => kind_of_ext(e),
                None => None,
            },
    {
        match path_extension(p) {
            Some(e) => {
                let k = kind_for_extension(e.as_str());
                proof {
                    if k is Some {
                        let w = choose|i: int| crate::text::occurs_at(p@, seq!['.'] + e@, i);
                        assert(p@[w] == (seq!['.'] + e@)[0]);
                    }
                }
                k
            },
            None => None,
        }
    }

    /// The directory holding layouts of this kind.
    pub fn dir(self) -> (r: &'static str)
        ensures
            r@ == kind_dir(self),
    {
        match self {
            LayoutKind::Wtn => "wtn",
            LayoutKind::Xtn => "xtn",
        }
    }

    /// The file extension of this kind.
    pub fn ext(self) -> (r: &'static str)
        ensures
            r@ == kind_dir(self),
    {
        match self {
            LayoutKind::Wtn => "wtn",
            LayoutKind::Xtn => "xtn",
        }
    }
}

/// `s` holds a path separator of some platform.
pub open spec fn has_separator(s: Seq<char>) -> bool {
    has_char(s, '/') || has_char(s, '\\')
}

fn has_separator_exec(s: &[char]) -> (r: bool)
    ensures
        r == has_separator(s@),
{
    has_char_exec(s, '/') || has_char_exec(s, '\\')
}

/// Where a layout argument resolves to, given whether the platform calls it
/// absolute, the kind its extension names, and the platform separator.
pub open spec fn resolved(input: Seq<char>, absolute: bool, kind: Option<LayoutKind>, sep: char) -> Seq<char> {
    if absolute || has_separator(input) {
        input
    } else {
        match kind {
            Some(k) => kind_dir(k).push(sep) + input,
            None => input,
        }
    }
}

/// Resolve a layout argument from what the platform says of it: an
/// absolute path, or one with a separator, is kept; a bare name with a
/// layout extension goes to its kind's directory; anything else is kept.
pub fn resolve_with(input: &str, absolute: bool, kind: Option<LayoutKind>, sep: char) -> (r: String)
    ensures
        r@ == resolved(input@, absolute, kind, sep),
{
    let s = chars_of(input);
    if absolute || has_separator_exec(&s) {
        return string_of(&s);
    }
    match kind {
        Some(k) => {
            let mut out: Vec<char> = Vec::new();
            push_str(&mut out, k.dir());
            out.push(sep);
            push_str(&mut out, input);
            string_of(&out)
        },
        None => string_of(&s),
    }
}

/// Resolve a user-supplied layout argument: a path with a separator (or an
/// absolute one) is kept; `edo31.wtn` becomes `wtn/edo31.wtn` (with the
/// platform's separator); anything else is kept for the caller to report.
pub fn resolve_layout_path(input: &str) -> (r: String)
    ensures
        has_separator(input@) ==> r@ == input@,
        r@ == input@ || exists|k: LayoutKind, sep: char| r@ == #[trigger] kind_dir(k).push(sep) + input@,
        !has_separator(input@) && !has_char(input@, ':') ==> match kind_of_path(input@) {
            Some(k) => r@ == kind_dir(k).push('/') + input@ || r@ == kind_dir(k).push('\\') + input@,
            None => r@ == input@,
        },
{
    let absolute = path_is_absolute(input);
    let kind = LayoutKind::from_extension(input);
    let sep = main_separator();
    let r = resolve_with(input, absolute, kind, sep);
    proof {
        if !has_separator(input@) && !has_char(input@, ':') {
            assert(!(input@.len() >= 2 && input@[0] == '/' && input@[1] == '/'));
            assert(plain_path(input@));
            assert(!(input@.len() > 0 && input@[0] == '/'));
        }
        if let Some(k) = kind {
            if r@ != input@ {
                assert(r@ == kind_dir(k).push(sep) + input@);
            }
        }
    }
    r
}

/// Entry `j` of `names` is the file name `target`.
pub open spec fn named_at(names: Seq<Option<String>>, j: int, target: Seq<char>) -> bool {
    match names[j] {
        Some(m) => m@ == target,
        None => false,
    }
}

/// Index of the first entry whose file name (`None` for a path without one)
/// is `target`.
pub fn index_of_name(names: &[Option<String>], target: &str) -> (r: Option<usize>)
    ensures
        match r {
            Some(i) => i < names@.len() && named_at(names@, i as int, target@)
                && forall|j: int| 0 <= j < i ==> !named_at(names@, j, target@),
            None => forall|j: int| 0 <= j < names@.len() ==> !named_at(names@, j, target@),
        },
{
    let t = chars_of(target);
    let mut i: usize = 0;
    while i < names.len()
        invariant
            i <= names@.len(),
            t@ == target@,
            forall|j: int| 0 <= j < i ==> !named_at(names@, j, target@),
        decreases names@.len() - i,
    {
        match &names[i] {
            Some(n) => {
                let nc = chars_of(n.as_str());
                if chars_eq(&nc, &t) {
                    return Some(i);
                }
            },
            None => {},
        }
        i = i + 1;
    }
    None
}

/// Index of `current` in `list`, comparing file names only (so a bare
/// file name finds its path in the list). `None` when absent.
pub fn current_index(list: &[String], current: &str) -> (r: Option<usize>)
    ensures
        r matches Some(i) ==> i < list@.len(),
        plain_path(current@) && (forall|i: int| 0 <= i < list@.len() ==> plain_path(#[trigger] list@[i]@))
            ==> match file_name_of(current@) {
            None => r is None,
            Some(t) => match r {
                Some(i) => file_name_of(list@[i as int]@) == Some(t) && forall|j: int|
                    0 <= j < i ==> file_name_of(#[trigger] list@[j]@) != Some(t),
                None => forall|j: int| 0 <= j < list@.len() ==> file_name_of(#[trigger] list@[j]@) != Some(t),
            },
        },
{
    let target = match path_file_name(current) {
        Some(t) => t,
        None => {
            return None;
        },
    };
    let mut names: Vec<Option<String>> = Vec::new();
    let mut i: usize = 0;
    while i < list.len()
        invariant
            i <= list@.len(),
            names@.len() == i,
            forall|j: int| 0 <= j < i && plain_path(list@[j]@) ==> opt_chars(#[trigger] names@[j]) == file_name_of(list@[j]@),
        decreases list@.len() - i,
    {
        names.push(path_file_name(list[i].as_str()));
        i = i + 1;
    }
    let r = index_of_name(&names, target.as_str());
    proof {
        assert forall|j: int| 0 <= j < list@.len() && plain_path(list@[j]@) implies
            (named_at(names@, j, target@) <==> file_name_of(#[trigger] list@[j]@) == Some(target@)) by {
            assert(opt_chars(names@[j]) == file_name_of(list@[j]@));
        }
    }
    r
}

/// The position after `found` in a list of `len` entries, wrapping to the
/// start; the start when the current entry was not found.
pub fn next_index(len: usize, found: Option<usize>) -> (r: usize)
    requires
        len > 0,
        found matches Some(i) ==> i < len,
    ensures
        r < len,
        r == match found {
            Some(i) => (i + 1) % (len as int),
            None => 0,
        },
{
    match found {
        Some(i) => (i + 1) % len,
        None => 0,
    }
}

/// The entry after `current` in the layout listing `list`, wrapping at the
/// end, or the first entry when `current` is not listed; `None` when the
/// listing is empty.
pub fn next(list: &[String], current: &str) -> (r: Option<String>)
    ensures
        r is None <==> list@.len() == 0,
        r matches Some(p) ==> exists|i: int| 0 <= i < list@.len() && p@ == (#[trigger] list@[i])@,
        plain_path(current@) && (forall|i: int| 0 <= i < list@.len() ==> plain_path(#[trigger] list@[i]@))
            ==> match r {
            None => true,
            Some(p) => match file_name_of(current@) {
                Some(t) => {
                    &&& forall|i: int|
                        0 <= i < list@.len() && file_name_of(#[trigger] list@[i]@) == Some(t) && (forall|j: int|
                            0 <= j < i ==> file_name_of(#[trigger] list@[j]@) != Some(t)) ==> p@ == list@[(i + 1)
                            % (list@.len() as int)]@
                    &&& (forall|j: int| 0 <= j < list@.len() ==> file_name_of(#[trigger] list@[j]@) != Some(t))
                        ==> p@ == list@[0]@
                },
                None => p@ == list@[0]@,
            },
        },
{
    if list.len() == 0 {
        return None;
    }
    let found = current_index(list, current);
    let idx = next_index(list.len(), found);
    let p = list[idx].clone();
    assert(p@ == list@[idx as int]@);
    proof {
        if plain_path(current@) && (forall|i: int| 0 <= i < list@.len() ==> plain_path(#[trigger] list@[i]@)) {
            if let Some(t) = file_name_of(current@) {
                assert forall|i: int|
                    0 <= i < list@.len() && file_name_of(#[trigger] list@[i]@) == Some(t) && (forall|j: int|
                        0 <= j < i ==> file_name_of(#[trigger] list@[j]@) != Some(t)) implies p@ == list@[(i + 1)
                        % (list@.len() as int)]@ by {
                    match found {
                        Some(f) => {
                            if (f as int) < i {
                                assert(file_name_of(list@[f as int]@) != Some(t));
                            }
                            if i < (f as int) {
                                assert(file_name_of(list@[i]@) != Some(t));
                            }
                        },
                        None => {
                            assert(file_name_of(list@[i]@) != Some(t));
                        },
                    }
                }
            }
        }
    }
    Some(p)
}

/// A directory entry as the listing sees it: its path, whether it is a
/// file, and its extension and file name where they are text.
pub struct LayoutEntry {
    pub path: String,
    pub is_file: bool,
    pub ext: Option<String>,
    pub name: Option<String>,
}

/// A file with the wanted extension (in any case) and a file name.
pub open spec fn listed(e: LayoutEntry, ext: Seq<char>) -> bool {
    &&& e.is_file
    &&& e.ext matches Some(x) && ascii_lower(x@) == ascii_lower(ext)
    &&& e.name is Some
}

/// The `(file name, path)` pairs of the listed entries, in directory order,
/// each file name kept once (its first entry).
pub open spec fn kept(es: Seq<LayoutEntry>, ext: Seq<char>) -> Seq<(Seq<char>, Seq<char>)>
    decreases es.len(),
{
    if es.len() == 0 {
        Seq::empty()
    } else {
        let k = kept(es.drop_last(), ext);
        let e = es.last();
        if listed(e, ext) && !k.map_values(|p: (Seq<char>, Seq<char>)| p.0).contains(e.name.unwrap()@) {
            k.push((e.name.unwrap()@, e.path@))
        } else {
            k
        }
    }
}

/// Strictly ascending by file name.
pub open spec fn by_name(o: Seq<(Seq<char>, Seq<char>)>) -> bool {
    forall|i: int, j: int| 0 <= i < j < o.len() ==> str_lt(#[trigger] o[i].0, #[trigger] o[j].0)
}

pub open spec fn pair_views(v: Seq<(Vec<char>, String)>) -> Seq<(Seq<char>, Seq<char>)> {
    v.map_values(|p: (Vec<char>, String)| (p.0@, p.1@))
}

proof fn lemma_kept_names_unique(es: Seq<LayoutEntry>, ext: Seq<char>)
    ensures
        forall|i: int, j: int|
            0 <= i < j < kept(es, ext).len() ==> (#[trigger] kept(es, ext)[i]).0 != (#[trigger] kept(es, ext)[j]).0,
    decreases es.len(),
{
    if es.len() > 0 {
        lemma_kept_names_unique(es.drop_last(), ext);
        let k = kept(es.drop_last(), ext);
        let names = k.map_values(|p: (Seq<char>, Seq<char>)| p.0);
        let e = es.last();
        if listed(e, ext) && !names.contains(e.name.unwrap()@) {
            let kk = k.push((e.name.unwrap()@, e.path@));
            assert(kept(es, ext) == kk);
            assert forall|i: int, j: int| 0 <= i < j < kk.len() implies (#[trigger] kk[i]).0 != (#[trigger] kk[j]).0 by {
                if j == kk.len() - 1 {
                    assert(names[i] == k[i].0);
                }
            }
        } else {
            assert(kept(es, ext) == k);
        }
    }
}

fn insert_by_name(sorted: &mut Vec<(Vec<char>, String)>, item: (Vec<char>, String))
    requires
        by_name(pair_views(old(sorted)@)),
        !pair_views(old(sorted)@).map_values(|p: (Seq<char>, Seq<char>)| p.0).contains(item.0@),
    ensures
        by_name(pair_views(final(sorted)@)),
        pair_views(final(sorted)@).to_set() == pair_views(old(sorted)@).to_set().insert((item.0@, item.1@)),
        final(sorted)@.len() == old(sorted)@.len() + 1,
{
    let ghost s = pair_views(sorted@);
    let ghost x = (item.0@, item.1@);
    let mut j: usize = 0;
    loop
        invariant
            j <= sorted@.len(),
            s == pair_views(sorted@),
            forall|k: int| 0 <= k < j ==> str_lt(#[trigger] s[k].0, x.0),
            by_name(s),
            !s.map_values(|p: (Seq<char>, Seq<char>)| p.0).contains(x.0),
            x == (item.0@, item.1@),
        ensures
            j <= sorted@.len(),
            forall|k: int| 0 <= k < j ==> str_lt(#[trigger] s[k].0, x.0),
            j < sorted@.len() ==> str_lt(x.0, s[j as int].0),
        decreases sorted@.len() - j,
    {
        if j >= sorted.len() {
            break;
        }
        assert(s[j as int].0 == sorted@[j as int].0@);
        if str_lt_exec(&item.0, &sorted[j].0) {
            break;
        }
        proof {
            let names = s.map_values(|p: (Seq<char>, Seq<char>)| p.0);
            assert(names[j as int] == s[j as int].0);
            lemma_str_lt_total(s[j as int].0, x.0);
        }
        j = j + 1;
    }
    sorted.insert(j, item);
    proof {
        let t = pair_views(sorted@);
        assert(t =~= s.insert(j as int, x));
        assert forall|a: int, b: int| 0 <= a < b < t.len() implies str_lt(#[trigger] t[a].0, #[trigger] t[b].0) by {
            if b == j {
            } else if a == j {
                if b > j + 1 {
                    lemma_str_lt_trans(x.0, s[j as int].0, s[b - 1].0);
                }
            } else if a < j && b > j {
                if b > j + 1 {
                    lemma_str_lt_trans(x.0, s[j as int].0, s[b - 1].0);
                }
                lemma_str_lt_trans(s[a].0, x.0, s[b - 1].0);
            }
        }
        assert(t.to_set() =~= s.to_set().insert(x)) by {
            assert forall|p| t.to_set().contains(p) <==> s.to_set().insert(x).contains(p) by {
                if t.contains(p) {
                    let w = choose|w: int| 0 <= w < t.len() && t[w] == p;
                    if w < j {
                        assert(s[w] == p);
                    } else if w > j {
                        assert(s[w - 1] == p);
                    }
                }
                if s.contains(p) {
                    let w = choose|w: int| 0 <= w < s.len() && s[w] == p;
                    if w < j {
                        assert(t[w] == p);
                    } else {
                        assert(t[w + 1] == p);
                    }
                }
                if p == x {
                    assert(t[j as int] == x);
                }
            }
        }
    }
}

/// The layout files of a directory listing: files whose extension is
/// `target_ext` (in any case), each file name once (its first entry), in
/// ascending order of file name.
pub fn sort_layout_files(entries: &[LayoutEntry], target_ext: &str) -> (r: Vec<String>)
    ensures
        exists|o: Seq<(Seq<char>, Seq<char>)>|
            #[trigger] by_name(o) && o.len() == kept(entries@, target_ext@).len()
                && o.to_set() == kept(entries@, target_ext@).to_set()
                && r@.map_values(|p: String| p@) == o.map_values(|q: (Seq<char>, Seq<char>)| q.1),
{
    let want = chars_of(target_ext);
    let want_lower = lower_chars(&want);
    let mut items: Vec<(Vec<char>, String)> = Vec::new();
    let mut i: usize = 0;
    while i < entries.len()
        invariant
            i <= entries@.len(),
            want_lower@ == ascii_lower(target_ext@),
            pair_views(items@) == kept(entries@.take(i as int), target_ext@),
        decreases entries@.len() - i,
    {
        let e = &entries[i];
        proof {
            assert(entries@.take(i + 1).drop_last() =~= entries@.take(i as int));
            assert(entries@.take(i + 1).last() == entries@[i as int]);
        }
        let ghost before = pair_views(items@);
        if e.is_file {
            match (&e.ext, &e.name) {
                (Some(x), Some(n)) => {
                    let xc = chars_of(x.as_str());
                    let xl = lower_chars(&xc);
                    if chars_eq(&xl, &want_lower) {
                        let nc = chars_of(n.as_str());
                        let mut seen = false;
                        let mut k: usize = 0;
                        while k < items.len()
                            invariant
                                k <= items@.len(),
                                before == pair_views(items@),
                                seen == exists|m: int| 0 <= m < k && (#[trigger] items@[m]).0@ == nc@,
                            decreases items@.len() - k,
                        {
                            if chars_eq(&items[k].0, &nc) {
                                seen = true;
                            }
                            k = k + 1;
                        }
                        proof {
                            let names = before.map_values(|p: (Seq<char>, Seq<char>)| p.0);
                            if seen {
                                let m = choose|m: int| 0 <= m < items@.len() && (#[trigger] items@[m]).0@ == nc@;
                                assert(names[m] == nc@);
                            } else {
                                assert forall|m: int| 0 <= m < names.len() implies names[m] != nc@ by {
                                    assert(items@[m].0@ == names[m]);
                                }
                            }
                        }
                        if !seen {
                            let pc = chars_of(e.path.as_str());
                            items.push((nc, string_of(&pc)));
                            proof {
                                assert(pair_views(items@) =~= before.push((n@, e.path@)));
                            }
                        }
                    }
                },
                _ => {},
            }
        }
        i = i + 1;
    }
    assert(entries@.take(entries@.len() as int) =~= entries@);
    let ghost all = pair_views(items@);
    proof {
        lemma_kept_names_unique(entries@, target_ext@);
    }
    let mut sorted: Vec<(Vec<char>, String)> = Vec::new();
    let mut rest = items;
    let ghost mut j: int = 0;
    assert(all.skip(0) =~= all);
    while rest.len() > 0
        invariant
            0 <= j <= all.len(),
            pair_views(rest@) == all.skip(j),
            all == kept(entries@, target_ext@),
            forall|a: int, b: int| 0 <= a < b < all.len() ==> (#[trigger] all[a]).0 != (#[trigger] all[b]).0,
            by_name(pair_views(sorted@)),
            pair_views(sorted@).to_set() == all.take(j).to_set(),
            sorted@.len() == j,
        decreases rest@.len(),
    {
        let ghost before = pair_views(rest@);
        assert(before.len() > 0);
        let item = rest.remove(0);
        proof {
            assert(before[0] == (item.0@, item.1@));
            assert(all.skip(j)[0] == all[j]);
            assert(pair_views(rest@) =~= before.drop_first());
            assert(all.skip(j + 1) =~= all.skip(j).drop_first());
            let sv = pair_views(sorted@);
            let names = sv.map_values(|p: (Seq<char>, Seq<char>)| p.0);
            assert((item.0@, item.1@) == all[j]);
            if names.contains(item.0@) {
                let m = choose|m: int| 0 <= m < names.len() && names[m] == item.0@;
                assert(sv.to_set().contains(sv[m]));
                assert(all.take(j).to_set().contains(sv[m]));
                let w = choose|w: int| 0 <= w < all.take(j).len() && all.take(j)[w] == sv[m];
                assert(all[w].0 == all[j].0);
            }
            assert(all.take(j + 1) =~= all.take(j).push(all[j]));
            all.take(j).lemma_push_to_set_commute(all[j]);
        }
        insert_by_name(&mut sorted, item);
        proof {
            j = j + 1;
        }
    }
    assert(all.take(all.len() as int) =~= all);
    let mut out: Vec<String> = Vec::new();
    let mut m: usize = 0;
    while m < sorted.len()
        invariant
            m <= sorted@.len(),
            out@.len() == m,
            out@.map_values(|p: String| p@) == pair_views(sorted@).take(m as int).map_values(|q: (Seq<char>, Seq<char>)| q.1),
        decreases sorted@.len() - m,
    {
        let pc = chars_of(sorted[m].1.as_str());
        let ghost prev = out@;
        let str = string_of(&pc);
        out.push(str);
        assert(out@ == prev.push(str));
        assert(str@ == pair_views(sorted@)[m as int].1);
        proof {
            assert(pair_views(sorted@).take(m + 1) =~= pair_views(sorted@).take(m as int).push(pair_views(sorted@)[m as int]));
        }
        proof {
            let pv = pair_views(sorted@);
            let lhs = out@.map_values(|p: String| p@);
            let rhs = pv.take(m + 1).map_values(|q: (Seq<char>, Seq<char>)| q.1);
            assert forall|i: int| 0 <= i < m + 1 implies lhs[i] == rhs[i] by {
                if i < m {
                    assert(prev.map_values(|p: String| p@)[i] == pv.take(m as int).map_values(|q: (Seq<char>, Seq<char>)| q.1)[i]);
                    assert(out@[i] == prev[i]);
                    assert(lhs[i] == out@[i]@);
                    assert(rhs[i] == pv[i].1);
                } else {
                    assert(out@[i] == str);
                    assert(lhs[i] == out@[i]@);
                    assert(rhs[i] == pv[i].1);
                }
            }
            assert(lhs =~= rhs);
        }
        m = m + 1;
    }
    proof {
        let o = pair_views(sorted@);
        assert(o.take(o.len() as int) =~= o);
        assert(by_name(o));
    }
    out
}

} // verus!
