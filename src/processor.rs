use crate::midi::MidiEvent;
use vstd::prelude::*;

verus! {

/// When a `Gate` lets the input through.
#[derive(PartialEq, Eq, Structural, Clone, Copy, Debug)]
pub enum GateMode {
    /// Open while at least one note is held (program 0).
    PassThroughWhenNotesActive,
    /// Open while no note is held (program 1).
    PassThroughWhenNoOverNotesActive,
}

/// A `Gate`'s state, kept from one processing cycle to the next.
///
/// Only a count of held notes is kept, not which notes they are.
#[derive(PartialEq, Eq, Structural, Clone, Copy, Debug)]
pub struct Gate {
    pub n_active_notes: u64,
    pub mode: GateMode,
}

/// A MIDI event, timed by its frame offset in the current block.
#[derive(PartialEq, Eq, Structural, Clone, Copy, Debug)]
pub struct ControlEvent {
    pub frame_offset: usize,
    pub payload: MidiEvent,
}

/// The held-note count after a note-on: it stops at the largest `u64`.
pub open spec fn count_after_note_on(n: u64) -> u64 {
    if n == u64::MAX {
        n
    } else {
        (n + 1) as u64
    }
}

/// The held-note count after a note-off: a note-off with no held note
/// leaves the count at zero.
pub open spec fn count_after_note_off(n: u64) -> u64 {
    if n == 0 {
        0
    } else {
        (n - 1) as u64
    }
}

/// One frame of output: the input frame when open, else silence.
pub open spec fn gated<T>(open: bool, frame: T, silence: T) -> T {
    if open {
        frame
    } else {
        silence
    }
}

impl Gate {
    /// Whether the input passes: in the first mode while a note is held,
    /// in the second while none is.
    pub open spec fn open(self) -> bool {
        match self.mode {
            GateMode::PassThroughWhenNotesActive => self.n_active_notes > 0,
            GateMode::PassThroughWhenNoOverNotesActive => self.n_active_notes == 0,
        }
    }

    /// The state after one MIDI event. Program changes other than 0 and 1,
    /// and every other message, leave the state as it is.
    pub open spec fn after(self, event: MidiEvent) -> Gate {
        match event {
            MidiEvent::NoteOn => Gate { n_active_notes: count_after_note_on(self.n_active_notes), ..self },
            MidiEvent::NoteOff => Gate { n_active_notes: count_after_note_off(self.n_active_notes), ..self },
            MidiEvent::ProgramChange(p) => if p == 0 {
                Gate { mode: GateMode::PassThroughWhenNotesActive, ..self }
            } else if p == 1 {
                Gate { mode: GateMode::PassThroughWhenNoOverNotesActive, ..self }
            } else {
                self
            },
            MidiEvent::Other => self,
        }
    }
}

/// The state after the first `k` events, starting from `g`.
pub open spec fn state_after(g: Gate, events: Seq<ControlEvent>, k: nat) -> Gate
    recommends
        k <= events.len(),
    decreases k,
{
    if k == 0 {
        g
    } else {
        state_after(g, events, (k - 1) as nat).after(events[k - 1].payload)
    }
}

/// How many events, from the first on, have an offset at or before `frame`:
/// the state after that many events is the one that governs `frame`.
pub open spec fn events_at_or_before(events: Seq<ControlEvent>, frame: int) -> nat
    decreases events.len(),
{
    if events.len() == 0 || events[0].frame_offset > frame {
        0
    } else {
        1 + events_at_or_before(events.drop_first(), frame)
    }
}

/// Whether a `Gate` is open at `frame` of a block, for a cycle that starts
/// in state `g` and receives `events`.
pub open spec fn frame_open(g: Gate, events: Seq<ControlEvent>, frame: int) -> bool {
    state_after(g, events, events_at_or_before(events, frame)).open()
}

/// The output frame at `frame` for that cycle.
pub open spec fn frame_output<T>(
    g: Gate,
    events: Seq<ControlEvent>,
    input: Seq<T>,
    silence: T,
    frame: int,
) -> T {
    gated(frame_open(g, events, frame), input[frame], silence)
}

/// An event's offset, clamped to the block length.
pub open spec fn clamped_offset(events: Seq<ControlEvent>, len: nat, j: int) -> nat {
    if events[j].frame_offset < len {
        events[j].frame_offset as nat
    } else {
        len
    }
}

/// Where the segment after the first `j` events starts: the furthest clamped
/// offset among them (0 for none). An event at or before the cursor ends an
/// empty segment.
pub open spec fn segment_start(events: Seq<ControlEvent>, len: nat, j: nat) -> nat
    decreases j,
{
    if j == 0 {
        0
    } else {
        let c = segment_start(events, len, (j - 1) as nat);
        let o = clamped_offset(events, len, j - 1);
        if o > c {
            o
        } else {
            c
        }
    }
}

/// Where that segment ends: at the next event's cursor, or at the block's
/// end for the tail after the last event.
pub open spec fn segment_end(events: Seq<ControlEvent>, len: nat, j: nat) -> nat {
    if j < events.len() {
        segment_start(events, len, j + 1)
    } else {
        len
    }
}

/// The cursor never moves back and never passes the block's end.
pub proof fn lemma_segment_start_monotone(events: Seq<ControlEvent>, len: nat, a: nat, b: nat)
    requires
        a <= b <= events.len(),
    ensures
        segment_start(events, len, a) <= segment_start(events, len, b) <= len,
    decreases b,
{
    if b > 0 {
        let p = (b - 1) as nat;
        if a < b {
            lemma_segment_start_monotone(events, len, a, p);
        } else {
            lemma_segment_start_monotone(events, len, p, p);
        }
    }
}

/// Every event among the first `j` lies at or before a frame of the block
/// that the cursor has reached.
pub proof fn lemma_before_cursor(events: Seq<ControlEvent>, len: nat, j: nat, frame: int)
    requires
        j <= events.len(),
        segment_start(events, len, j) <= frame < len,
    ensures
        forall|m: int| 0 <= m < j ==> events[m].frame_offset <= frame,
{
    assert forall|m: int| 0 <= m < j implies events[m].frame_offset <= frame by {
        lemma_segment_start_monotone(events, len, (m + 1) as nat, j);
    }
}

/// `events_at_or_before` is the first index whose event lies after `frame`.
pub proof fn lemma_events_at_or_before(events: Seq<ControlEvent>, frame: int, j: nat)
    requires
        j <= events.len(),
        forall|m: int| 0 <= m < j ==> events[m].frame_offset <= frame,
        j < events.len() ==> events[j as int].frame_offset > frame,
    ensures
        events_at_or_before(events, frame) == j,
    decreases j,
{
    if j > 0 {
        let rest = events.drop_first();
        assert forall|m: int| 0 <= m < j - 1 implies rest[m].frame_offset <= frame by {
            assert(rest[m] == events[m + 1]);
        }
        if j < events.len() {
            assert(rest[j - 1] == events[j as int]);
        }
        lemma_events_at_or_before(rest, frame, (j - 1) as nat);
    }
}

/// `events_at_or_before` counts a run of events from the first on, each at
/// or before `frame`, and stops at the first one after it.
pub proof fn lemma_events_at_or_before_run(events: Seq<ControlEvent>, frame: int)
    ensures
        events_at_or_before(events, frame) <= events.len(),
        forall|m: int|
            0 <= m < events_at_or_before(events, frame) ==> events[m].frame_offset <= frame,
        events_at_or_before(events, frame) < events.len() ==> events[events_at_or_before(
            events,
            frame,
        ) as int].frame_offset > frame,
    decreases events.len(),
{
    if events.len() > 0 && events[0].frame_offset <= frame {
        let rest = events.drop_first();
        lemma_events_at_or_before_run(rest, frame);
        assert forall|m: int|
            0 <= m < events_at_or_before(events, frame) implies events[m].frame_offset <= frame by {
            if m > 0 {
                assert(events[m] == rest[m - 1]);
            }
        }
    }
}

/// The cursor stays at or before a frame of the block that all of the first
/// `j` events lie at or before.
pub proof fn lemma_cursor_at_or_before(events: Seq<ControlEvent>, len: nat, j: nat, frame: int)
    requires
        j <= events.len(),
        0 <= frame < len,
        forall|m: int| 0 <= m < j ==> events[m].frame_offset <= frame,
    ensures
        segment_start(events, len, j) <= frame,
    decreases j,
{
    if j > 0 {
        lemma_cursor_at_or_before(events, len, (j - 1) as nat, frame);
    }
}

/// The frames of segment `j` are governed by the state after `j` events.
pub proof fn lemma_segment_governed(events: Seq<ControlEvent>, len: nat, j: nat, frame: int)
    requires
        j <= events.len(),
        segment_start(events, len, j) <= frame < segment_end(events, len, j),
    ensures
        events_at_or_before(events, frame) == j,
{
    lemma_segment_start_monotone(events, len, j, events.len());
    if j < events.len() {
        lemma_segment_start_monotone(events, len, j + 1, events.len());
    }
    lemma_before_cursor(events, len, j, frame);
    lemma_events_at_or_before(events, frame, j);
}

impl Gate {
    /// A gate in its reset state: no held notes, open while notes are held.
    pub fn new() -> (r: Gate)
        ensures
            r.n_active_notes == 0,
            r.mode == GateMode::PassThroughWhenNotesActive,
    {
        Gate { n_active_notes: 0, mode: GateMode::PassThroughWhenNotesActive }
    }

    /// Resets the state, as on plugin activation or a transport restart.
    pub fn activate(&mut self)
        ensures
            final(self).n_active_notes == 0,
            final(self).mode == GateMode::PassThroughWhenNotesActive,
    {
        self.n_active_notes = 0;
        self.mode = GateMode::PassThroughWhenNotesActive;
    }

    /// The number of notes held.
    pub fn active_note_count(&self) -> (r: u64)
        ensures
            r == self.n_active_notes,
    {
        self.n_active_notes
    }

    /// The current mode.
    pub fn mode(&self) -> (r: GateMode)
        ensures
            r == self.mode,
    {
        self.mode
    }

    /// Whether a `Gate` lets the input through in the current state.
    pub fn is_open(&self) -> (r: bool)
        ensures
            r == self.open(),
    {
        match self.mode {
            GateMode::PassThroughWhenNotesActive => self.n_active_notes > 0,
            GateMode::PassThroughWhenNoOverNotesActive => self.n_active_notes == 0,
        }
    }

    /// Applies one MIDI event to the state.
    pub fn apply_event(&mut self, event: MidiEvent)
        ensures
            *final(self) == old(self).after(event),
    {
        match event {
            MidiEvent::NoteOn => {
                if self.n_active_notes < u64::MAX {
                    self.n_active_notes = self.n_active_notes + 1;
                }
            },
            MidiEvent::NoteOff => {
                if self.n_active_notes > 0 {
                    self.n_active_notes = self.n_active_notes - 1;
                }
            },
            MidiEvent::ProgramChange(p) => {
                if p == 0 {
                    self.mode = GateMode::PassThroughWhenNotesActive;
                } else if p == 1 {
                    self.mode = GateMode::PassThroughWhenNoOverNotesActive;
                }
            },
            MidiEvent::Other => {},
        }
    }

    /// Fills `len` frames of `output` from `offset` on under the current
    /// state: a copy of `input` where it is open, silence where it is
    /// closed. A range that runs past the block is cut at its end; one that
    /// starts past it writes nothing. Every other frame keeps its value.
    pub fn write_output<T: Copy>(&self, input: &[T], output: &mut [T], silence: T, offset: usize, len: usize)
        requires
            input@.len() == old(output)@.len(),
        ensures
            final(output)@.len() == old(output)@.len(),
            forall|i: int|
                0 <= i < input@.len() ==> final(output)@[i] == if offset <= i < offset + len {
                    gated(self.open(), input@[i], silence)
                } else {
                    old(output)@[i]
                },
    {
        let block = input.len();
        if offset >= block {
            return ;
        }
        let mut len = len;
        if len > block - offset {
            len = block - offset;
        }
        let open = self.is_open();
        let end = offset + len;
        let mut i: usize = offset;
        while i < end
            invariant
                offset <= i <= end <= block,
                block == input@.len(),
                output@.len() == block,
                old(output)@.len() == block,
                open == self.open(),
                forall|k: int|
                    0 <= k < block ==> output@[k] == if offset <= k < i {
                        gated(self.open(), input@[k], silence)
                    } else {
                        old(output)@[k]
                    },
            decreases end - i,
        {
            if open {
                output[i] = input[i];
            } else {
                output[i] = silence;
            }
            i = i + 1;
        }
    }

    /// Runs one processing cycle: fills `output`, a block of the same length
    /// as `input`, while applying `events` in their order.
    ///
    /// The frames up to each event's offset are filled under the state that
    /// held before it; the frames after the last event, under the final
    /// state. Offsets past the block count as its end, and an event at or
    /// before an earlier one's offset ends an empty segment: each frame is
    /// written once, under the state after the events that come, in order,
    /// at or before it.
    pub fn run<T: Copy>(&mut self, input: &[T], output: &mut [T], silence: T, events: &[ControlEvent])
        requires
            input@.len() == old(output)@.len(),
        ensures
            final(output)@.len() == input@.len(),
            forall|i: int|
                0 <= i < input@.len() ==> final(output)@[i] == frame_output(
                    *old(self),
                    events@,
                    input@,
                    silence,
                    i,
                ),
            *final(self) == state_after(*old(self), events@, events@.len()),
    {
        let ghost g0 = *self;
        let ghost len = input@.len();
        let block = input.len();
        let mut cursor: usize = 0;
        let mut j: usize = 0;
        while j < events.len()
            invariant
                block == len == input@.len() == output@.len(),
                j <= events@.len(),
                cursor == segment_start(events@, len, j as nat),
                *self == state_after(g0, events@, j as nat),
                forall|i: int|
                    0 <= i < cursor ==> output@[i] == frame_output(g0, events@, input@, silence, i),
            decreases events.len() - j,
        {
            proof {
                lemma_segment_start_monotone(events@, len, j as nat, j as nat);
            }
            let event = events[j];
            let offset = if event.frame_offset < block {
                event.frame_offset
            } else {
                block
            };
            if offset > cursor {
                self.write_output(input, output, silence, cursor, offset - cursor);
                proof {
                    assert forall|i: int| cursor <= i < offset implies output@[i] == frame_output(
                        g0,
                        events@,
                        input@,
                        silence,
                        i,
                    ) by {
                        lemma_segment_governed(events@, len, j as nat, i);
                    }
                }
                cursor = offset;
            }
            self.apply_event(event.payload);
            j = j + 1;
        }
        proof {
            lemma_segment_start_monotone(events@, len, j as nat, j as nat);
        }
        self.write_output(input, output, silence, cursor, block - cursor);
        proof {
            assert forall|i: int| cursor <= i < len implies output@[i] == frame_output(
                g0,
                events@,
                input@,
                silence,
                i,
            ) by {
                lemma_segment_governed(events@, len, j as nat, i);
            }
        }
    }
}

} // verus!
