//! The status line shown after the HUD address was copied and opened.
use vstd::prelude::*;

use crate::text::{push_str, string_of};

verus! {

/// The status line for opening `url` in a browser and copying it to the
/// clipboard, given how each went (`Err` holding its reason).
pub open spec fn copy_and_open_spec(
    url: Seq<char>,
    opened: Result<(), Seq<char>>,
    copied: Result<(), Seq<char>>,
) -> Seq<char> {
    match (opened, copied) {
        (Ok(()), Ok(())) => "HUD: opened "@ + url + " in browser; URL copied"@,
        (Ok(()), Err(e)) => "HUD: opened "@ + url + " in browser (clipboard error: "@ + e + ")"@,
        (Err(e), Ok(())) => "HUD: URL copied to clipboard (open failed: "@ + e + "). URL: "@ + url,
        (Err(o), Err(c)) => "HUD: open failed: "@ + o + "; clipboard error: "@ + c + ". URL: "@ + url,
    }
}

/// The one-line status after trying to open `url` in the browser
/// (`opened`) and to copy it to the clipboard (`copied`).
pub fn copy_and_open(url: &str, opened: &Result<(), String>, copied: &Result<(), String>) -> (r: String)
    ensures
        r@ == copy_and_open_spec(
            url@,
            match opened { Ok(()) => Ok(()), Err(e) => Err(e@) },
            match copied { Ok(()) => Ok(()), Err(e) => Err(e@) },
        ),
{
    let mut v: Vec<char> = Vec::new();
    match (opened, copied) {
        (Ok(()), Ok(())) => {
            push_str(&mut v, "HUD: opened ");
            push_str(&mut v, url);
            push_str(&mut v, " in browser; URL copied");
        },
        (Ok(()), Err(e)) => {
            push_str(&mut v, "HUD: opened ");
            push_str(&mut v, url);
            push_str(&mut v, " in browser (clipboard error: ");
            push_str(&mut v, e.as_str());
            push_str(&mut v, ")");
        },
        (Err(e), Ok(())) => {
            push_str(&mut v, "HUD: URL copied to clipboard (open failed: ");
            push_str(&mut v, e.as_str());
            push_str(&mut v, "). URL: ");
            push_str(&mut v, url);
        },
        (Err(o), Err(c)) => {
            push_str(&mut v, "HUD: open failed: ");
            push_str(&mut v, o.as_str());
            push_str(&mut v, "; clipboard error: ");
            push_str(&mut v, c.as_str());
            push_str(&mut v, ". URL: ");
            push_str(&mut v, url);
        },
    }
    string_of(&v)
}

} // verus!
