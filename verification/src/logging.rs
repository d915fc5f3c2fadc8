//! The session log's file name.
use vstd::prelude::*;

verus! {

/// `c` with the characters a file name cannot hold (`:`, `/`, `\`) made `-`.
pub open spec fn safe_char(c: char) -> char {
    if c == ':' || c == '/' || c == '\\' { '-' } else { c }
}

/// A time stamp made usable as a file name: `:`, `/` and `\` become `-`.
pub fn sanitize_filename(value: &str) -> (r: String)
    ensures
        r@ == value@.map_values(|c: char| safe_char(c)),
{
    let v = crate::text::chars_of(value);
    let mut out: Vec<char> = Vec::new();
    let mut i: usize = 0;
    while i < v.len()
        invariant
            i <= v@.len(),
            v@ == value@,
            out@ == v@.take(i as int).map_values(|c: char| safe_char(c)),
        decreases v@.len() - i,
    {
        let c = v[i];
        out.push(if c == ':' || c == '/' || c == '\\' { '-' } else { c });
        i = i + 1;
        assert(out@ =~= v@.take(i as int).map_values(|c: char| safe_char(c)));
    }
    assert(v@.take(v@.len() as int) =~= v@);
    crate::text::string_of(&out)
}

} // verus!
