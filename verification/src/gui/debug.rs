//! Debug notes drawn over the view.
use vstd::prelude::*;

verus! {

/// Whether debug notes are collected, and the notes collected since they were last drawn.
pub struct DebugInfos {
    pub enabled: bool,
    pub infos: Vec<String>,
}

impl DebugInfos {
    /// Collection off, no notes.
    pub fn new() -> (r: Self)
        ensures
            !r.enabled,
            r.infos@.len() == 0,
    {
        DebugInfos { enabled: false, infos: Vec::new() }
    }
}

/// Adds a note to draw, while collection is on.
pub fn info(state: &mut DebugInfos, msg: String)
    ensures
        final(state).enabled == old(state).enabled,
        final(state).infos@ == if old(state).enabled {
            old(state).infos@.push(msg)
        } else {
            old(state).infos@
        },
{
    if state.enabled {
        state.infos.push(msg);
    }
}

/// Takes the notes to draw (none while collection is off), leaving none behind.
pub fn take_infos(state: &mut DebugInfos) -> (r: Vec<String>)
    ensures
        final(state).enabled == old(state).enabled,
        r@ == if old(state).enabled {
            old(state).infos@
        } else {
            Seq::empty()
        },
        old(state).enabled ==> final(state).infos@.len() == 0,
        !old(state).enabled ==> final(state).infos@ == old(state).infos@,
{
    if state.enabled {
        let mut taken: Vec<String> = Vec::new();
        std::mem::swap(&mut taken, &mut state.infos);
        taken
    } else {
        Vec::new()
    }
}

/// Switches collection on or off.
pub fn toggle(state: &mut DebugInfos)
    ensures
        final(state).enabled == !old(state).enabled,
        final(state).infos == old(state).infos,
{
    state.enabled = !state.enabled;
}

} // verus!
