//! The live HUD: what the browser view is sent, the OSC side channel, and
//! the chord names.
use vstd::prelude::*;

use crate::layouts::path_file_stem;
use crate::text::contains;

pub mod chordnam;
pub mod osc;
pub mod server;
pub mod state;
pub mod tui_url;
pub mod xenharm;

verus! {

/// The HUD id of a layout file: its file stem (`edo31` for
/// `xtn/edo31.xtn`), or the whole path when it has none.
pub fn layout_id_from_path(p: &str) -> (r: String)
    ensures
        r@ == p@ || (r@.len() > 0 && contains(p@, r@)),
        crate::layouts::plain_path(p@) ==> r@ == match crate::layouts::file_name_of(p@) {
            Some(f) => crate::layouts::stem_of_name(f),
            None => p@,
        },
{
    match path_file_stem(p) {
        Some(s) => s,
        None => p.to_string(),
    }
}

} // verus!
