use whstlrs::midi::{encode_message, normalize_message, receive_live, MidiMessage};

#[test]
fn parses_note_on_bytes() {
    let r = receive_live(&[0x90, 60, 100]);
    assert_eq!(r, Some((0, MidiMessage::NoteOn { key: 60, vel: 100 })));
}

#[test]
fn parses_note_off_bytes() {
    let r = receive_live(&[0x83, 72, 10]);
    assert_eq!(r, Some((3, MidiMessage::NoteOff { key: 72, vel: 10 })));
}

#[test]
fn channel_comes_from_the_low_nibble() {
    // Would fail if the parser ignored its input: channel 5, not 0.
    let r = receive_live(&[0x95, 62, 33]);
    assert_eq!(r, Some((5, MidiMessage::NoteOn { key: 62, vel: 33 })));
}

#[test]
fn velocity_zero_note_on_is_a_note_off() {
    // A note-on with velocity 0 on channel 2 is the note-off of the same
    // key on channel 2.
    let r = receive_live(&[0x92, 60, 0]);
    assert_eq!(r, Some((2, MidiMessage::NoteOff { key: 60, vel: 0 })));
}

#[test]
fn drops_non_note_messages() {
    assert_eq!(receive_live(&[]), None);
    assert_eq!(receive_live(&[0x90]), None);
    assert_eq!(receive_live(&[0x90, 60]), None);
    assert_eq!(receive_live(&[0xB0, 7, 100]), None); // controller
    assert_eq!(receive_live(&[0xF8]), None); // realtime
    assert_eq!(receive_live(&[0x90, 200, 100]), None); // bad data byte
}

#[test]
fn normalization_only_touches_silent_note_ons() {
    let on = MidiMessage::NoteOn { key: 70, vel: 90 };
    assert_eq!(normalize_message(on), on);
    let silent = MidiMessage::NoteOn { key: 70, vel: 0 };
    assert_eq!(normalize_message(silent), MidiMessage::NoteOff { key: 70, vel: 0 });
    let off = MidiMessage::NoteOff { key: 70, vel: 64 };
    assert_eq!(normalize_message(off), off);
}

#[test]
fn encodes_raw_synth_bytes() {
    assert_eq!(encode_message(MidiMessage::NoteOn { key: 62, vel: 127 }), [0x90, 62, 127]);
    assert_eq!(encode_message(MidiMessage::NoteOff { key: 62, vel: 0 }), [0x80, 62, 0]);
}
