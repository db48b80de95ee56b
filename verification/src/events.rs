//! The log of notable simulation events that the host reads and clears.

use vstd::prelude::*;

verus! {

/// Event kind: a population collapse was answered with fresh spores.
pub const EVENT_SPORES: u32 = 1;
/// Event kind: a creature of a milestone generation was born.
pub const EVENT_GENERATION: u32 = 2;
/// Event kind: a creature reached a milestone number of kills.
pub const EVENT_KILLS: u32 = 3;
/// Most events the log holds before the host clears it.
pub const EVENT_CAPACITY: usize = 1024;
/// Kills per kill-milestone event.
pub const KILL_MILESTONE: u32 = 8;
/// Generations per generation-milestone.
pub const GENERATION_MILESTONE: u32 = 12;

/// One logged event. For generation events `p1` is the generation and `p2`
/// the lineage root; for kill events `p1` is the root and `p2` the kills.
#[derive(Clone, Copy, Debug, PartialEq, Eq, Structural)]
pub struct SimEvent {
    pub tick: u32,
    pub event_type: u32,
    pub p1: u32,
    pub p2: u32,
}

/// Appends `ev` unless the log is full; says whether it was appended.
pub fn push_event(events: &mut Vec<SimEvent>, ev: SimEvent) -> (pushed: bool)
    ensures
        pushed == (old(events).len() < EVENT_CAPACITY),
        pushed ==> final(events)@ == old(events)@.push(ev),
        !pushed ==> final(events)@ == old(events)@,
{
    if events.len() < EVENT_CAPACITY {
        events.push(ev);
        true
    } else {
        false
    }
}

/// The event that a creature's kill count earns: one at every multiple of
/// the kill milestone.
pub fn kill_event(tick: u32, root: u32, kills: u32) -> (ev: Option<SimEvent>)
    ensures
        ev == if kills % KILL_MILESTONE == 0 {
            Some(SimEvent { tick, event_type: EVENT_KILLS, p1: root, p2: kills })
        } else {
            None::<SimEvent>
        },
{
    if kills % KILL_MILESTONE == 0 {
        Some(SimEvent { tick, event_type: EVENT_KILLS, p1: root, p2: kills })
    } else {
        None
    }
}

/// Whether a newborn of generation `gen` is a candidate for a generation
/// event: a positive multiple of the generation milestone.
pub fn is_generation_milestone(gen: u32) -> (b: bool)
    ensures
        b == (gen > 0 && gen % GENERATION_MILESTONE == 0),
{
    gen > 0 && gen % GENERATION_MILESTONE == 0
}

/// The event logged when a newborn of a milestone generation is reported.
pub fn generation_event(tick: u32, gen: u32, root: u32) -> (ev: SimEvent)
    ensures
        ev == (SimEvent { tick, event_type: EVENT_GENERATION, p1: gen, p2: root }),
{
    SimEvent { tick, event_type: EVENT_GENERATION, p1: gen, p2: root }
}

/// The event logged when spores replenish a collapsed population.
pub fn spores_event(tick: u32) -> (ev: SimEvent)
    ensures
        ev == (SimEvent { tick, event_type: EVENT_SPORES, p1: 0, p2: 0 }),
{
    SimEvent { tick, event_type: EVENT_SPORES, p1: 0, p2: 0 }
}

/// Pushing never lets the log grow past its capacity.
pub proof fn lemma_log_bounded(before: Seq<SimEvent>, after: Seq<SimEvent>, ev: SimEvent, pushed: bool)
    requires
        before.len() <= EVENT_CAPACITY,
        pushed == (before.len() < EVENT_CAPACITY),
        pushed ==> after == before.push(ev),
        !pushed ==> after == before,
    ensures
        after.len() <= EVENT_CAPACITY,
{
}

} // verus!
