//! What the serve view's Controls panel shows.
use vstd::prelude::*;

use std::collections::HashMap;

use crate::config::{sort_by_text, text_order};
use crate::exquis::mpe::{encoder_value, ControlStateTracker};
use crate::exquis::proto::{control_display_name, control_display_name_spec};
use crate::num::{dec_digits, dec_plus, push_dec, push_dec_plus};
use crate::text::{join_sep, push_all, push_joined, push_str, string_of};

use vstd::std_specs::hash::spec_keys_iter;
use vstd::std_specs::iter::IteratorSpec;

verus! {

broadcast use vstd::std_specs::hash::group_hash_axioms;

/// What the serve view shows besides the controls: the tuning's short name
/// and each board's octave shift by device number.
#[derive(Debug, Clone, Default)]
pub struct ServeDisplay {
    pub tuning_name: String,
    pub shifts: HashMap<usize, i32>,
}

pub open spec fn increasing_devices(s: Seq<usize>) -> bool {
    forall|i: int, j: int| 0 <= i < j < s.len() ==> s[i] < s[j]
}

fn insert_device(v: &mut Vec<usize>, x: usize)
    requires
        increasing_devices(old(v)@),
    ensures
        increasing_devices(final(v)@),
        forall|y: usize| final(v)@.contains(y) <==> (old(v)@.contains(y) || y == x),
{
    let mut pos: usize = 0;
    while pos < v.len() && v[pos] < x
        invariant
            pos <= v@.len(),
            forall|k: int| 0 <= k < pos ==> v@[k] < x,
        decreases v@.len() - pos,
    {
        pos = pos + 1;
    }
    if pos < v.len() && v[pos] == x {
        assert(v@[pos as int] == x);
        assert(v@.contains(x));
        assert(forall|y: usize| v@.contains(y) <==> (old(v)@.contains(y) || y == x));
    } else {
        let ghost before = v@;
        v.insert(pos, x);
        assert forall|y: usize| v@.contains(y) <==> (before.contains(y) || y == x) by {
            if v@.contains(y) {
                let k = choose|k: int| 0 <= k < v@.len() && v@[k] == y;
                if k < pos {
                    assert(before[k] == y);
                } else if k > pos {
                    assert(before[k - 1] == y);
                }
            }
            if before.contains(y) {
                let k = choose|k: int| 0 <= k < before.len() && before[k] == y;
                if k < pos {
                    assert(v@[k] == y);
                } else {
                    assert(v@[k + 1] == y);
                }
            }
            if y == x {
                assert(v@[pos as int] == x);
            }
        }
        assert(before == old(v)@);
        assert forall|y: usize| v@.contains(y) <==> (old(v)@.contains(y) || y == x) by {
            assert(before.contains(y) == old(v)@.contains(y));
            assert(v@.contains(y) <==> (before.contains(y) || y == x));
        }
        assert(increasing_devices(v@)) by {
            assert forall|i: int, j: int| 0 <= i < j < v@.len() implies v@[i] < v@[j] by {
                if j < pos {
                    assert(v@[i] == before[i] && v@[j] == before[j]);
                } else if j == pos {
                    assert(v@[i] == before[i]);
                } else if i > pos {
                    assert(v@[i] == before[i - 1] && v@[j] == before[j - 1]);
                } else if i == pos {
                    assert(v@[j] == before[j - 1]);
                    assert(before[pos as int] >= x);
                } else {
                    assert(v@[i] == before[i] && v@[j] == before[j - 1]);
                }
            }
        }
    }
}

/// The device numbers that have a shift, in increasing order.
fn sorted_devices(shifts: &HashMap<usize, i32>) -> (r: Vec<usize>)
    ensures
        increasing_devices(r@),
        forall|k: usize| r@.contains(k) <==> shifts@.contains_key(k),
{
    let mut out: Vec<usize> = Vec::new();
    let ghost ks = spec_keys_iter(shifts).remaining();
    for k in it: shifts.keys()
        invariant
            increasing_devices(out@),
            it.seq() == ks,
            forall|x: usize| out@.contains(x) <==> (exists|j: int| 0 <= j < it.index() && #[trigger] ks[j] == &x),
    {
        insert_device(&mut out, *k);
    }
    assert(forall|x: usize| out@.contains(x) <==> (exists|j: int| 0 <= j < ks.len() && #[trigger] ks[j] == &x));
    assert forall|x: usize| out@.contains(x) <==> shifts@.contains_key(x) by {
        assert(ks.unref().to_set() == shifts@.dom());
        if shifts@.contains_key(x) {
            assert(ks.unref().to_set().contains(x));
            let j = choose|j: int| 0 <= j < ks.unref().len() && ks.unref()[j] == x;
            assert(ks[j] == &x);
        }
        if out@.contains(x) {
            let j = choose|j: int| 0 <= j < ks.len() && #[trigger] ks[j] == &x;
            assert(ks.unref()[j] == x);
            assert(ks.unref().to_set().contains(x));
        }
    }
    out
}

/// `dev<d>=<shift>` with the shift signed.
pub open spec fn shift_part(d: usize, shift: i32) -> Seq<char> {
    "dev"@ + dec_digits(d as nat) + seq!['='] + dec_plus(shift as int)
}

/// The octave line for the devices `devs` (in order) and their shifts.
pub open spec fn octave_line(devs: Seq<usize>, shifts: Map<usize, i32>) -> Seq<char> {
    if devs.len() == 0 {
        "Octave: -"@
    } else {
        "Octave: "@ + join_sep(devs.map_values(|d: usize| shift_part(d, shifts[d])), seq![' '])
    }
}

/// The lines of the display part: the tuning (when named), then the
/// octave shifts.
pub open spec fn display_lines(tuning: Seq<char>, devs: Seq<usize>, shifts: Map<usize, i32>) -> Seq<Seq<char>> {
    if tuning.len() > 0 {
        seq!["Tuning: "@ + tuning, octave_line(devs, shifts)]
    } else {
        seq![octave_line(devs, shifts)]
    }
}

/// `E<i>:<value>` for encoder `i` (1..=4, controller `109 + i`).
pub open spec fn encoder_part(enc: Map<u8, i64>, i: int) -> Seq<char> {
    seq!['E'] + dec_digits(i as nat) + seq![':'] + dec_plus(encoder_value(enc, (109 + i) as u8))
}

pub open spec fn encoder_line(enc: Map<u8, i64>) -> Seq<char> {
    "Enc: "@ + join_sep(seq![encoder_part(enc, 1), encoder_part(enc, 2), encoder_part(enc, 3), encoder_part(enc, 4)], seq![' '])
}

/// The slider line: the touched portion (counted from 1) and the position.
pub open spec fn slider_line(portion: Option<u8>, position: Option<u8>) -> Seq<char> {
    match (portion, position) {
        (Some(p), Some(pos)) => "Sld: part"@ + dec_digits((p + 1) as nat) + " @"@ + dec_digits(pos as nat),
        (None, Some(pos)) => "Sld: @"@ + dec_digits(pos as nat),
        (Some(p), None) => "Sld: part"@ + dec_digits((p + 1) as nat),
        (None, None) => "Sld: -"@,
    }
}

/// The display name of control `id`, or `#<id>`.
pub open spec fn button_label(id: u8) -> Seq<char> {
    match control_display_name_spec(id) {
        Some(n) => n,
        None => seq!['#'] + dec_digits(id as nat),
    }
}

/// The labels of the pressed buttons among the ids below `n`, by id.
pub open spec fn pressed_labels(buttons: Map<u8, bool>, n: nat) -> Seq<Seq<char>>
    decreases n,
{
    if n == 0 {
        Seq::empty()
    } else {
        let rest = pressed_labels(buttons, (n - 1) as nat);
        let id = (n - 1) as u8;
        if buttons.contains_key(id) && buttons[id] {
            rest.push(button_label(id))
        } else {
            rest
        }
    }
}

/// The button line: the pressed buttons' labels in text order.
pub open spec fn button_line(buttons: Map<u8, bool>) -> Seq<char> {
    let labels = pressed_labels(buttons, 256);
    if labels.len() == 0 {
        "Btn: -"@
    } else {
        "Btn: "@ + join_sep(
            text_order(labels, Seq::new(labels.len(), |i: int| i)).map_values(|i: int| labels[i]),
            ", "@,
        )
    }
}

/// The lines about the controls: encoders, slider, buttons.
pub open spec fn control_lines(c: ControlStateTracker) -> Seq<Seq<char>> {
    seq![encoder_line(c.encoders@), slider_line(c.slider_portion, c.slider_position), button_line(c.buttons@)]
}

fn encoder_text(controls: &ControlStateTracker) -> (r: Vec<char>)
    ensures
        r@ == encoder_line(controls.encoders@),
{
    let mut parts: Vec<char> = Vec::new();
    let ghost mut ps: Seq<Seq<char>> = Seq::empty();
    let mut id: u8 = 110;
    while id <= 113
        invariant
            110 <= id <= 114,
            ps.len() == id - 110,
            forall|k: int| 0 <= k < ps.len() ==> #[trigger] ps[k] == encoder_part(controls.encoders@, k + 1),
            parts@ == join_sep(ps, seq![' ']),
        decreases 114 - id,
    {
        let v: i64 = match controls.encoders.get(&id) {
            Some(x) => *x,
            None => 0,
        };
        let mut part: Vec<char> = Vec::new();
        part.push('E');
        push_dec(&mut part, (id - 109) as u64);
        part.push(':');
        push_dec_plus(&mut part, v);
        assert(part@ =~= encoder_part(controls.encoders@, (id - 109) as int));
        proof {
            reveal_strlit(" ");
            assert(" "@ =~= seq![' ']);
        }
        push_joined(&mut parts, &part, " ", id == 110, Ghost(ps));
        proof {
            ps = ps.push(part@);
        }
        id = id + 1;
    }
    let mut out: Vec<char> = Vec::new();
    push_str(&mut out, "Enc: ");
    push_all(&mut out, &parts);
    assert(ps =~= seq![encoder_part(controls.encoders@, 1), encoder_part(controls.encoders@, 2),
        encoder_part(controls.encoders@, 3), encoder_part(controls.encoders@, 4)]);
    out
}

fn slider_text(portion: Option<u8>, position: Option<u8>) -> (r: Vec<char>)
    requires
        portion != Some(255u8),
    ensures
        r@ == slider_line(portion, position),
{
    let mut out: Vec<char> = Vec::new();
    match (portion, position) {
        (Some(p), Some(pos)) => {
            push_str(&mut out, "Sld: part");
            push_dec(&mut out, (p + 1) as u64);
            push_str(&mut out, " @");
            push_dec(&mut out, pos as u64);
        },
        (None, Some(pos)) => {
            push_str(&mut out, "Sld: @");
            push_dec(&mut out, pos as u64);
        },
        (Some(p), None) => {
            push_str(&mut out, "Sld: part");
            push_dec(&mut out, (p + 1) as u64);
        },
        (None, None) => {
            push_str(&mut out, "Sld: -");
        },
    }
    out
}

fn button_text(buttons: &std::collections::BTreeMap<u8, bool>) -> (r: Vec<char>)
    ensures
        r@ == button_line(buttons@),
{
    let mut labels: Vec<Vec<char>> = Vec::new();
    let mut n: u16 = 0;
    while n < 256
        invariant
            n <= 256,
            labels@.map_values(|v: Vec<char>| v@) == pressed_labels(buttons@, n as nat),
        decreases 256 - n,
    {
        let id = n as u8;
        let pressed = match buttons.get(&id) {
            Some(b) => *b,
            None => false,
        };
        let ghost before = labels@.map_values(|v: Vec<char>| v@);
        if pressed {
            let label: Vec<char> = match control_display_name(id) {
                Some(s) => crate::text::chars_of(s.as_str()),
                None => {
                    let mut v: Vec<char> = Vec::new();
                    v.push('#');
                    push_dec(&mut v, id as u64);
                    v
                },
            };
            assert(label@ =~= button_label(id));
            labels.push(label);
            assert(labels@.map_values(|v: Vec<char>| v@) =~= before.push(button_label(id)));
        }
        n = n + 1;
    }
    let ghost ls = labels@.map_values(|v: Vec<char>| v@);
    let mut out: Vec<char> = Vec::new();
    if labels.len() == 0 {
        push_str(&mut out, "Btn: -");
        return out;
    }
    let mut idx: Vec<usize> = Vec::new();
    let mut i: usize = 0;
    while i < labels.len()
        invariant
            i <= labels@.len(),
            idx@.len() == i,
            forall|j: int| 0 <= j < i ==> #[trigger] idx@[j] == j,
        decreases labels@.len() - i,
    {
        idx.push(i);
        i = i + 1;
    }
    assert(idx@.map_values(|x: usize| x as int) =~= Seq::new(ls.len(), |j: int| j));
    let order = sort_by_text(&labels, &idx);
    let ghost sorted = text_order(ls, Seq::new(ls.len(), |j: int| j)).map_values(|j: int| ls[j]);
    push_str(&mut out, "Btn: ");
    let mut joined: Vec<char> = Vec::new();
    let ghost mut ps: Seq<Seq<char>> = Seq::empty();
    let mut k: usize = 0;
    while k < order.len()
        invariant
            k <= order@.len(),
            order@.len() == labels@.len(),
            ls == labels@.map_values(|v: Vec<char>| v@),
            forall|j: int| 0 <= j < order@.len() ==> #[trigger] order@[j] < labels@.len(),
            order@.map_values(|x: usize| x as int) == text_order(ls, Seq::new(ls.len(), |j: int| j)),
            sorted == text_order(ls, Seq::new(ls.len(), |j: int| j)).map_values(|j: int| ls[j]),
            ps == sorted.take(k as int),
            joined@ == join_sep(ps, ", "@),
        decreases order@.len() - k,
    {
        let lab = &labels[order[k]];
        assert(lab@ == sorted[k as int]) by {
            assert(order@.map_values(|x: usize| x as int)[k as int] == order@[k as int] as int);
        }
        push_joined(&mut joined, lab, ", ", k == 0, Ghost(ps));
        proof {
            ps = ps.push(lab@);
            assert(ps =~= sorted.take(k + 1));
        }
        k = k + 1;
    }
    assert(ps =~= sorted);
    push_all(&mut out, &joined);
    out
}

fn octave_text(shifts: &HashMap<usize, i32>) -> (r: Vec<char>)
    ensures
        exists|devs: Seq<usize>| {
            &&& increasing_devices(devs)
            &&& forall|k: usize| devs.contains(k) <==> shifts@.contains_key(k)
            &&& r@ == octave_line(devs, shifts@)
        },
{
    let devs = sorted_devices(shifts);
    let mut out: Vec<char> = Vec::new();
    if devs.len() == 0 {
        push_str(&mut out, "Octave: -");
        return out;
    }
    let ghost parts = devs@.map_values(|d: usize| shift_part(d, shifts@[d]));
    let mut joined: Vec<char> = Vec::new();
    let ghost mut ps: Seq<Seq<char>> = Seq::empty();
    let mut k: usize = 0;
    while k < devs.len()
        invariant
            k <= devs@.len(),
            parts == devs@.map_values(|d: usize| shift_part(d, shifts@[d])),
            forall|x: usize| devs@.contains(x) <==> shifts@.contains_key(x),
            ps == parts.take(k as int),
            joined@ == join_sep(ps, " "@),
        decreases devs@.len() - k,
    {
        let d = devs[k];
        assert(devs@.contains(d));
        let shift: i32 = match shifts.get(&d) {
            Some(v) => *v,
            None => 0,
        };
        let mut part: Vec<char> = Vec::new();
        push_str(&mut part, "dev");
        push_dec(&mut part, d as u64);
        part.push('=');
        push_dec_plus(&mut part, shift as i64);
        assert(part@ =~= shift_part(d, shifts@[d]));
        push_joined(&mut joined, &part, " ", k == 0, Ghost(ps));
        proof {
            ps = ps.push(part@);
            assert(ps =~= parts.take(k + 1));
        }
        k = k + 1;
    }
    assert(ps =~= parts);
    proof {
        reveal_strlit(" ");
        assert(" "@ =~= seq![' ']);
    }
    push_str(&mut out, "Octave: ");
    push_all(&mut out, &joined);
    out
}

/// The Controls panel's text: with a display, the tuning name (when set)
/// and each device's octave shift by device number, then the four
/// encoders' totals, the slider, and the pressed buttons by name, one per
/// line.
pub fn controls_text(controls: &ControlStateTracker, display: Option<&ServeDisplay>) -> (r: String)
    requires
        controls.slider_portion != Some(255u8),
    ensures
        match display {
            None => r@ == join_sep(control_lines(*controls), seq!['\n']),
            Some(d) => exists|devs: Seq<usize>| {
                &&& increasing_devices(devs)
                &&& forall|k: usize| devs.contains(k) <==> d.shifts@.contains_key(k)
                &&& r@ == join_sep(display_lines(d.tuning_name@, devs, d.shifts@) + control_lines(*controls), seq!['\n'])
            },
        },
{
    let mut out: Vec<char> = Vec::new();
    let ghost mut ls: Seq<Seq<char>> = Seq::empty();
    let ghost mut devs: Seq<usize> = Seq::empty();
    proof {
        reveal_strlit("\n");
        assert("\n"@ =~= seq!['\n']);
    }
    match display {
        Some(d) => {
            let name = crate::text::chars_of(d.tuning_name.as_str());
            if name.len() > 0 {
                let mut t: Vec<char> = Vec::new();
                push_str(&mut t, "Tuning: ");
                push_all(&mut t, &name);
                push_joined(&mut out, &t, "\n", true, Ghost(ls));
                proof {
                    ls = ls.push(t@);
                }
            }
            let o = octave_text(&d.shifts);
            proof {
                devs = choose|devs: Seq<usize>| {
                    &&& increasing_devices(devs)
                    &&& forall|k: usize| devs.contains(k) <==> d.shifts@.contains_key(k)
                    &&& o@ == octave_line(devs, d.shifts@)
                };
            }
            push_joined(&mut out, &o, "\n", name.len() == 0, Ghost(ls));
            proof {
                ls = ls.push(o@);
                assert(ls =~= display_lines(d.tuning_name@, devs, d.shifts@));
            }
        },
        None => {},
    }
    let ghost first = ls;
    let e = encoder_text(controls);
    push_joined(&mut out, &e, "\n", display.is_none(), Ghost(ls));
    proof { ls = ls.push(e@); }
    let sl = slider_text(controls.slider_portion, controls.slider_position);
    push_joined(&mut out, &sl, "\n", false, Ghost(ls));
    proof { ls = ls.push(sl@); }
    let b = button_text(&controls.buttons);
    push_joined(&mut out, &b, "\n", false, Ghost(ls));
    proof {
        ls = ls.push(b@);
        assert(ls =~= first + control_lines(*controls));
    }
    string_of(&out)
}

} // verus!
