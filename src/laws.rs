use crate::processor::{
    events_at_or_before, frame_open, frame_output, lemma_cursor_at_or_before,
    lemma_events_at_or_before_run, lemma_segment_governed, segment_end, segment_start,
    state_after, ControlEvent, Gate, GateMode,
};
use crate::midi::MidiEvent;
use vstd::prelude::*;

verus! {

/// With no note held and a `Gate` open only on held notes, at every step of
/// the cycle, every output frame is silence, whatever the input.
pub proof fn lemma_silent_without_notes<T>(
    g: Gate,
    events: Seq<ControlEvent>,
    input: Seq<T>,
    silence: T,
)
    requires
        forall|k: nat|
            k <= events.len() ==> (#[trigger] state_after(g, events, k)).n_active_notes == 0
                && state_after(g, events, k).mode == GateMode::PassThroughWhenNotesActive,
    ensures
        forall|i: int|
            0 <= i < input.len() ==> frame_output(g, events, input, silence, i) == silence,
{
    assert forall|i: int| 0 <= i < input.len() implies frame_output(
        g,
        events,
        input,
        silence,
        i,
    ) == silence by {
        lemma_events_at_or_before_run(events, i);
        let k = events_at_or_before(events, i);
        assert(state_after(g, events, k).n_active_notes == 0);
    }
}

/// With a note held, a `Gate` open on held notes and no event in the cycle,
/// the output is the input, frame for frame.
pub proof fn lemma_transparent_while_notes_held<T>(
    g: Gate,
    events: Seq<ControlEvent>,
    input: Seq<T>,
    silence: T,
)
    requires
        events.len() == 0,
        g.n_active_notes > 0,
        g.mode == GateMode::PassThroughWhenNotesActive,
    ensures
        forall|i: int|
            0 <= i < input.len() ==> frame_output(g, events, input, silence, i) == input[i],
{
}

/// Two gates with the same held-note count, one in each mode, that receive
/// the same events with no program change to 0 or 1, are in the same count
/// and the same modes after every prefix of them.
proof fn lemma_same_notes_after(g1: Gate, g2: Gate, events: Seq<ControlEvent>, k: nat)
    requires
        k <= events.len(),
        g1.n_active_notes == g2.n_active_notes,
        g1.mode == GateMode::PassThroughWhenNotesActive,
        g2.mode == GateMode::PassThroughWhenNoOverNotesActive,
        forall|m: int|
            0 <= m < events.len() ==> events[m].payload != MidiEvent::ProgramChange(0)
                && events[m].payload != MidiEvent::ProgramChange(1),
    ensures
        state_after(g1, events, k).n_active_notes == state_after(g2, events, k).n_active_notes,
        state_after(g1, events, k).mode == GateMode::PassThroughWhenNotesActive,
        state_after(g2, events, k).mode == GateMode::PassThroughWhenNoOverNotesActive,
    decreases k,
{
    if k > 0 {
        lemma_same_notes_after(g1, g2, events, (k - 1) as nat);
        let e = events[k - 1].payload;
        assert(e != MidiEvent::ProgramChange(0) && e != MidiEvent::ProgramChange(1));
    }
}

/// For the same held-note count and the same events, none of them a program
/// change to 0 or 1, a `Gate` that is open while no note is held is open at
/// exactly the frames where one that is open while notes are held is
/// closed.
pub proof fn lemma_modes_complement(g1: Gate, g2: Gate, events: Seq<ControlEvent>, frame: int)
    requires
        g1.n_active_notes == g2.n_active_notes,
        g1.mode == GateMode::PassThroughWhenNotesActive,
        g2.mode == GateMode::PassThroughWhenNoOverNotesActive,
        forall|m: int|
            0 <= m < events.len() ==> events[m].payload != MidiEvent::ProgramChange(0)
                && events[m].payload != MidiEvent::ProgramChange(1),
    ensures
        frame_open(g2, events, frame) == !frame_open(g1, events, frame),
{
    lemma_events_at_or_before_run(events, frame);
    lemma_same_notes_after(g1, g2, events, events_at_or_before(events, frame));
}

/// The segments of a cycle, one before each event and the tail after the
/// last, cover the block: each frame lies in exactly one of them, the one
/// whose state governs it.
pub proof fn lemma_segments_cover_block(events: Seq<ControlEvent>, len: nat, frame: int)
    requires
        0 <= frame < len,
    ensures
        events_at_or_before(events, frame) <= events.len(),
        segment_start(events, len, events_at_or_before(events, frame)) <= frame < segment_end(
            events,
            len,
            events_at_or_before(events, frame),
        ),
        forall|j: nat|
            j <= events.len() && segment_start(events, len, j) <= frame < #[trigger] segment_end(
                events,
                len,
                j,
            ) ==> j == events_at_or_before(events, frame),
{
    lemma_events_at_or_before_run(events, frame);
    let k = events_at_or_before(events, frame);
    lemma_cursor_at_or_before(events, len, k, frame);
    assert forall|j: nat|
        j <= events.len() && segment_start(events, len, j) <= frame < #[trigger] segment_end(
            events,
            len,
            j,
        ) implies j == k by {
        lemma_segment_governed(events, len, j, frame);
    }
}

} // verus!
