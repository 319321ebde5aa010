use vstd::prelude::*;

verus! {

/// The MIDI messages that move a `Gate`; every other message is `Other`.
#[derive(PartialEq, Eq, Structural, Clone, Copy, Debug)]
pub enum MidiEvent {
    NoteOn,
    NoteOff,
    /// A program change, with its program number (0 to 127).
    ProgramChange(u8),
    Other,
}

/// A byte below 0x80 carries data; one at or above it starts a message.
pub open spec fn is_data_byte(b: u8) -> bool {
    b < 0x80
}

/// What a message that starts with a status byte means to a `Gate`.
///
/// Note-off is 0x8n, note-on 0x9n, each with two data bytes; program change is
/// 0xCn with one data byte (n is the channel). A message that lacks its data
/// bytes, or has a status byte where one is due, is `Other`.
pub open spec fn status_event(b: Seq<u8>) -> MidiEvent
    recommends
        b.len() > 0,
{
    let status = b[0];
    if 0x80 <= status < 0x90 && b.len() >= 3 && is_data_byte(b[1]) && is_data_byte(b[2]) {
        MidiEvent::NoteOff
    } else if 0x90 <= status < 0xA0 && b.len() >= 3 && is_data_byte(b[1]) && is_data_byte(
        b[2],
    ) {
        MidiEvent::NoteOn
    } else if 0xC0 <= status < 0xD0 && b.len() >= 2 && is_data_byte(b[1]) {
        MidiEvent::ProgramChange(b[1])
    } else {
        MidiEvent::Other
    }
}

/// What a whole MIDI message means to a `Gate`: an empty message, or one that
/// does not start with a status byte, is `Other`.
pub open spec fn wire_event(b: Seq<u8>) -> MidiEvent {
    if b.len() == 0 || is_data_byte(b[0]) {
        MidiEvent::Other
    } else {
        status_event(b)
    }
}

/// Relies on `wmidi::MidiMessage::try_from(&[u8])` (wmidi 3.1): the status
/// byte's high nibble picks the message, 0x80 note-off and 0x90 note-on with
/// two data bytes, 0xC0 program change with one, and a missing or non-data
/// byte where data is due gives an error. It panics on a first byte below
/// 0x80, which `requires` leaves out.
#[verifier::external_body]
fn decode_status_message(bytes: &[u8]) -> (r: MidiEvent)
    requires
        bytes@.len() > 0,
        !is_data_byte(bytes@[0]),
    ensures
        r == status_event(bytes@),
{
    match wmidi::MidiMessage::try_from(bytes) {
        Ok(wmidi::MidiMessage::NoteOff(..)) => MidiEvent::NoteOff,
        Ok(wmidi::MidiMessage::NoteOn(..)) => MidiEvent::NoteOn,
        Ok(wmidi::MidiMessage::ProgramChange(_, program)) => MidiEvent::ProgramChange(
            u8::from(program),
        ),
        _ => MidiEvent::Other,
    }
}

impl MidiEvent {
    /// Decodes one MIDI message from its wire bytes.
    ///
    /// Messages that are empty, malformed or of another kind come back as
    /// `Other`, which a `Gate` ignores.
    pub fn from_bytes(bytes: &[u8]) -> (r: MidiEvent)
        ensures
            r == wire_event(bytes@),
    {
        if bytes.len() == 0 || bytes[0] < 0x80 {
            MidiEvent::Other
        } else {
            decode_status_message(bytes)
        }
    }
}

} // verus!
