//! The OSC side channel: which addresses are understood, and the ring of
//! recent event lines.
//!
//! `/xentool/param/<group>/<name>` sets a sticky parameter and
//! `/xentool/event` adds an event line; every other address is ignored.
use vstd::prelude::*;

use crate::text::{
    chars_of, eq_str, push_str, slice_of, split_once, split_once_chars, starts_with, starts_with_str,
    string_of,
};

verus! {

/// The newest event lines kept, newest first.
pub const EVENT_RING_CAP: usize = 32;

/// One event line and when it arrived (ms since the UNIX epoch).
#[derive(Debug, Clone)]
pub struct OscEvent {
    pub text: String,
    pub ts_ms: u64,
}

/// What an OSC address asks for.
#[derive(Debug, Clone, PartialEq, Eq)]
pub enum OscRoute {
    /// Set parameter `name` of `group`.
    Param { group: String, name: String },
    /// Add an event line.
    Event,
    /// Not an address of this tool.
    Ignore,
}

/// The meaning of an [`OscRoute`] over plain texts.
pub enum OscRouteModel {
    Param(Seq<char>, Seq<char>),
    Event,
    Ignore,
}

pub open spec fn param_prefix() -> Seq<char> {
    "/xentool/param/"@
}

pub open spec fn event_address() -> Seq<char> {
    "/xentool/event"@
}

/// The route of `addr`: a parameter address needs a non-empty group and a
/// non-empty name after it, split at the first `/`.
pub open spec fn route_spec(addr: Seq<char>) -> OscRouteModel {
    if starts_with(addr, param_prefix()) {
        match split_once(addr.skip(param_prefix().len() as int), '/') {
            Some((g, n)) => if g.len() > 0 && n.len() > 0 {
                OscRouteModel::Param(g, n)
            } else {
                OscRouteModel::Ignore
            },
            None => OscRouteModel::Ignore,
        }
    } else if addr == event_address() {
        OscRouteModel::Event
    } else {
        OscRouteModel::Ignore
    }
}

pub open spec fn route_model(r: OscRoute) -> OscRouteModel {
    match r {
        OscRoute::Param { group, name } => OscRouteModel::Param(group@, name@),
        OscRoute::Event => OscRouteModel::Event,
        OscRoute::Ignore => OscRouteModel::Ignore,
    }
}

/// What the OSC address `addr` asks for.
pub fn route_address(addr: &str) -> (r: OscRoute)
    ensures
        route_model(r) == route_spec(addr@),
{
    let a = chars_of(addr);
    if starts_with_str(&a, "/xentool/param/") {
        let plen = chars_of("/xentool/param/").len();
        assert(plen == param_prefix().len());
        let rest = slice_of(&a, plen, a.len());
        assert(rest@ =~= addr@.skip(param_prefix().len() as int));
        match split_once_chars(&rest, '/') {
            Some((g, n)) => {
                if g.len() > 0 && n.len() > 0 {
                    OscRoute::Param { group: string_of(&g), name: string_of(&n) }
                } else {
                    OscRoute::Ignore
                }
            },
            None => OscRoute::Ignore,
        }
    } else if eq_str(&a, "/xentool/event") {
        OscRoute::Event
    } else {
        OscRoute::Ignore
    }
}

/// The key a parameter is stored under: `<group>/<name>`.
pub fn param_key(group: &str, name: &str) -> (r: String)
    ensures
        r@ == group@ + seq!['/'] + name@,
{
    let mut v: Vec<char> = Vec::new();
    push_str(&mut v, group);
    v.push('/');
    push_str(&mut v, name);
    string_of(&v)
}

/// The ring after a new event line: it comes first, and only the newest
/// [`EVENT_RING_CAP`] stay.
pub open spec fn pushed_events(events: Seq<(Seq<char>, u64)>, ev: (Seq<char>, u64)) -> Seq<(Seq<char>, u64)> {
    let all = seq![ev] + events;
    if all.len() > EVENT_RING_CAP { all.take(EVENT_RING_CAP as int) } else { all }
}

pub open spec fn events_model(events: Seq<OscEvent>) -> Seq<(Seq<char>, u64)> {
    events.map_values(|e: OscEvent| (e.text@, e.ts_ms))
}

/// Puts `ev` at the front of the ring, dropping the oldest lines beyond
/// its capacity.
pub fn push_event(events: &mut Vec<OscEvent>, ev: OscEvent)
    ensures
        events_model(final(events)@) == pushed_events(events_model(old(events)@), (ev.text@, ev.ts_ms)),
{
    let ghost m = (ev.text@, ev.ts_ms);
    events.insert(0, ev);
    assert(events_model(events@) =~= seq![m] + events_model(old(events)@));
    if events.len() > EVENT_RING_CAP {
        events.truncate(EVENT_RING_CAP);
        assert(events_model(events@) =~= (seq![m] + events_model(old(events)@)).take(EVENT_RING_CAP as int));
    }
}

/// An event at `ts_ms` is kept at `now_ms` while it is at most
/// `max_age_ms` old (a time stamp after `now_ms` counts as age 0).
pub open spec fn event_fresh(ts_ms: u64, now_ms: u64, max_age_ms: u64) -> bool {
    (if now_ms >= ts_ms { now_ms - ts_ms } else { 0 }) <= max_age_ms
}

/// The events kept at `now_ms`, in their order.
pub open spec fn fresh_events(events: Seq<(Seq<char>, u64)>, now_ms: u64, max_age_ms: u64) -> Seq<(Seq<char>, u64)>
    decreases events.len(),
{
    if events.len() == 0 {
        Seq::empty()
    } else {
        let rest = fresh_events(events.drop_last(), now_ms, max_age_ms);
        if event_fresh(events.last().1, now_ms, max_age_ms) {
            rest.push(events.last())
        } else {
            rest
        }
    }
}

/// Drops the events older than `max_age_ms` at `now_ms`, keeping the order
/// of the others.
pub fn purge_old_events(events: &mut Vec<OscEvent>, now_ms: u64, max_age_ms: u64)
    ensures
        events_model(final(events)@) == fresh_events(events_model(old(events)@), now_ms, max_age_ms),
{
    let ghost all = events_model(events@);
    let mut kept: Vec<OscEvent> = Vec::new();
    let mut i: usize = 0;
    while i < events.len()
        invariant
            i <= events@.len(),
            all == events_model(events@),
            events_model(kept@) == fresh_events(all.take(i as int), now_ms, max_age_ms),
        decreases events@.len() - i,
    {
        let ev = &events[i];
        let age = now_ms.saturating_sub(ev.ts_ms);
        assert(all.take(i + 1).drop_last() =~= all.take(i as int));
        if age <= max_age_ms {
            let ghost before = events_model(kept@);
            kept.push(OscEvent { text: ev.text.clone(), ts_ms: ev.ts_ms });
            assert(events_model(kept@) =~= before.push(all[i as int]));
        }
        i = i + 1;
    }
    assert(all.take(events@.len() as int) =~= all);
    *events = kept;
}

} // verus!
