//! The decisions of the path integrator.
//!
//! A path starts at the camera and is traced through the scene one event at a
//! time: the ray escapes the scene, the surface it hits absorbs it, or the
//! surface scatters it into a new ray. The caller traces the rays and works
//! out the colours; the integrator decides after each event whether the path
//! goes on and, when it ends, whether it ends in the sky, which lights it with
//! the environment, or dark, contributing no light.
use vstd::prelude::*;

verus! {

/// The most scattering events a path may take; the next one ends it dark.
pub const MAX_BOUNCES: u32 = 50;

/// What the scene did with the current ray of a path.
#[derive(Clone, Copy, Debug, PartialEq, Eq, Structural)]
pub enum Event {
    /// The ray hit nothing.
    Missed,
    /// The ray hit a surface that absorbed it.
    Absorbed,
    /// The ray hit a surface that scattered it into a new ray.
    Scattered,
}

/// How a path ends.
#[derive(Clone, Copy, Debug, PartialEq, Eq, Structural)]
pub enum PathEnd {
    /// The last ray escaped: the path carries the environment's light.
    Sky,
    /// The path was absorbed or ran over the bounce cap: it contributes black.
    Dark,
}

/// What the integrator does after an event.
#[derive(Clone, Copy, Debug, PartialEq, Eq, Structural)]
pub enum Step {
    /// Trace the new ray; the path has now taken this many bounces.
    Continue(u32),
    /// The path is over.
    End(PathEnd),
}

/// The step after event `ev` on a path that has taken `bounces` bounces,
/// under a cap of `cap` bounces.
pub open spec fn step_of(bounces: nat, cap: nat, ev: Event) -> Step {
    match ev {
        Event::Missed => Step::End(PathEnd::Sky),
        Event::Absorbed => Step::End(PathEnd::Dark),
        Event::Scattered => if bounces + 1 > cap {
            Step::End(PathEnd::Dark)
        } else {
            Step::Continue((bounces + 1) as u32)
        },
    }
}

/// Decides the step after event `ev` on a path that has taken `bounces`
/// bounces: an escape ends in the sky, an absorption ends dark, and a scatter
/// goes on with one more bounce unless that would exceed `cap`, which ends the
/// path dark.
pub fn next_step(bounces: u32, cap: u32, ev: Event) -> (r: Step)
    requires
        bounces <= cap,
    ensures
        r == step_of(bounces as nat, cap as nat, ev),
{
    match ev {
        Event::Missed => Step::End(PathEnd::Sky),
        Event::Absorbed => Step::End(PathEnd::Dark),
        Event::Scattered => {
            if bounces >= cap {
                Step::End(PathEnd::Dark)
            } else {
                Step::Continue(bounces + 1)
            }
        },
    }
}

/// How a path that has taken `bounces` bounces ends after the events
/// `events`, under a cap of `cap` bounces; `None` while it is still going.
pub open spec fn path_end(events: Seq<Event>, cap: nat, bounces: nat) -> Option<PathEnd>
    decreases events.len(),
{
    if events.len() == 0 {
        None
    } else {
        match step_of(bounces, cap, events[0]) {
            Step::End(e) => Some(e),
            Step::Continue(_) => path_end(events.drop_first(), cap, bounces + 1),
        }
    }
}

/// How a path ends after the events `events` when no cap applies; `None`
/// while it is still going.
pub open spec fn path_end_uncapped(events: Seq<Event>) -> Option<PathEnd>
    decreases events.len(),
{
    if events.len() == 0 {
        None
    } else {
        match events[0] {
            Event::Missed => Some(PathEnd::Sky),
            Event::Absorbed => Some(PathEnd::Dark),
            Event::Scattered => path_end_uncapped(events.drop_first()),
        }
    }
}

/// `events[i]` ends the path and every event before it is a scatter: the
/// path ends at its `i`-th event, after `i` bounces.
pub open spec fn ends_at(events: Seq<Event>, i: int) -> bool {
    &&& 0 <= i < events.len()
    &&& events[i] != Event::Scattered
    &&& forall|j: int| 0 <= j < i ==> #[trigger] events[j] == Event::Scattered
}

/// The cap bounds the work of a path: whatever the events, a path that
/// starts under the cap has ended once it has met more events than the cap
/// leaves bounces.
pub proof fn lemma_cap_ends_every_path(events: Seq<Event>, cap: nat, bounces: nat)
    requires
        bounces <= cap,
        events.len() > cap - bounces,
    ensures
        path_end(events, cap, bounces) is Some,
    decreases events.len(),
{
    if events[0] == Event::Scattered && bounces + 1 <= cap {
        lemma_cap_ends_every_path(events.drop_first(), cap, bounces + 1);
    }
}

/// Removing the cap changes nothing for a path that ends within the cap: if
/// the path ends at its `i`-th event, with `i` bounces behind it and `i` no
/// more than the bounces that the cap leaves, it ends the same way with or
/// without the cap.
pub proof fn lemma_cap_irrelevant_within_cap(events: Seq<Event>, cap: nat, bounces: nat, i: int)
    requires
        ends_at(events, i),
        bounces + i <= cap,
    ensures
        path_end(events, cap, bounces) == path_end_uncapped(events),
        path_end(events, cap, bounces) is Some,
    decreases events.len(),
{
    if i > 0 {
        assert(events[0] == Event::Scattered);
        let rest = events.drop_first();
        assert forall|j: int| 0 <= j < i - 1 implies #[trigger] rest[j] == Event::Scattered by {
            assert(events[j + 1] == Event::Scattered);
        }
        lemma_cap_irrelevant_within_cap(rest, cap, bounces + 1, i - 1);
    }
}

} // verus!
