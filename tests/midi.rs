use gate::{ControlEvent, Gate, MidiEvent};

#[test]
fn decodes_note_on() {
    assert_eq!(MidiEvent::from_bytes(&[0x90, 0x3C, 0x64]), MidiEvent::NoteOn);
    assert_eq!(MidiEvent::from_bytes(&[0x9F, 0x00, 0x00]), MidiEvent::NoteOn);
}

#[test]
fn decodes_note_off() {
    assert_eq!(MidiEvent::from_bytes(&[0x80, 0x3C, 0x40]), MidiEvent::NoteOff);
    assert_eq!(MidiEvent::from_bytes(&[0x83, 0x7F, 0x7F]), MidiEvent::NoteOff);
}

#[test]
fn decodes_program_change() {
    assert_eq!(MidiEvent::from_bytes(&[0xC0, 0x01]), MidiEvent::ProgramChange(1));
    assert_eq!(MidiEvent::from_bytes(&[0xC5, 0x7F]), MidiEvent::ProgramChange(127));
}

#[test]
fn other_messages_are_other() {
    assert_eq!(MidiEvent::from_bytes(&[0xB0, 0x07, 0x64]), MidiEvent::Other);
    assert_eq!(MidiEvent::from_bytes(&[0xE0, 0x00, 0x40]), MidiEvent::Other);
    assert_eq!(MidiEvent::from_bytes(&[0xF8]), MidiEvent::Other);
    assert_eq!(MidiEvent::from_bytes(&[0xF0, 0x01, 0xF7]), MidiEvent::Other);
}

#[test]
fn malformed_messages_are_other() {
    assert_eq!(MidiEvent::from_bytes(&[]), MidiEvent::Other);
    assert_eq!(MidiEvent::from_bytes(&[0x3C, 0x64]), MidiEvent::Other);
    assert_eq!(MidiEvent::from_bytes(&[0x90, 0x3C]), MidiEvent::Other);
    assert_eq!(MidiEvent::from_bytes(&[0x90, 0x3C, 0x80]), MidiEvent::Other);
    assert_eq!(MidiEvent::from_bytes(&[0xC0]), MidiEvent::Other);
    assert_eq!(MidiEvent::from_bytes(&[0xC0, 0x90]), MidiEvent::Other);
    assert_eq!(MidiEvent::from_bytes(&[0xF0]), MidiEvent::Other);
}

#[test]
fn decoded_bytes_drive_the_gate() {
    let mut gate = Gate::new();
    let input = [1.0f32; 6];
    let mut output = [5.0f32; 6];
    let events = [
        ControlEvent { frame_offset: 1, payload: MidiEvent::from_bytes(&[0x90, 0x40, 0x7F]) },
        ControlEvent { frame_offset: 4, payload: MidiEvent::from_bytes(&[0x80, 0x40, 0x00]) },
    ];
    gate.run(&input, &mut output, 0.0, &events);
    assert_eq!(output, [0.0, 1.0, 1.0, 1.0, 0.0, 0.0]);
}
