use whstlrs::midi::MidiMessage;
use whstlrs::song::{PlaybackState, Song, SongError, SongFile};

fn load(text: &str) -> SongFile {
    SongFile::from_str(text, String::from("test-song")).unwrap()
}

#[test]
fn parses_single_note_record() {
    let f = load("0.0\tnote\t62\t1\t0.5\tn-1");
    assert_eq!(f.name, "test-song");
    assert_eq!(f.notes.len(), 1);
    let n = &f.notes[0];
    assert_eq!(n.timestamp_us, 0);
    assert_eq!(n.midi_key, 62);
    assert_eq!(n.duration, 1);
    assert_eq!(n.duration_us, 500_000);
    assert_eq!(n.notehead_id, "n-1");
}

#[test]
fn derives_on_and_off_events() {
    let f = load("0.0\tnote\t62\t1\t0.5\tn-1");
    assert_eq!(f.events.len(), 2);
    assert_eq!(f.events[0].timestamp_us, 0);
    assert_eq!(f.events[0].message, MidiMessage::NoteOn { key: 62, vel: 127 });
    assert_eq!(f.events[0].channel, 0);
    assert_eq!(f.events[1].timestamp_us, 500_000);
    assert_eq!(f.events[1].message, MidiMessage::NoteOff { key: 62, vel: 0 });
    assert_eq!(f.events[1].notehead_id, "n-1");
}

#[test]
fn ignores_unknown_kinds_and_blank_lines() {
    let f = load("0.0\tbar\t1\n\n0.5\tnote\t64\t1\t0.25\tn-2\n0.7\ttempo\t120\n");
    assert_eq!(f.notes.len(), 1);
    assert_eq!(f.notes[0].midi_key, 64);
    assert_eq!(f.notes[0].timestamp_us, 500_000);
    assert_eq!(f.notes[0].duration_us, 250_000);
}

#[test]
fn strips_carriage_returns() {
    let f = load("0.0\tnote\t62\t1\t0.5\tn-1\r\n1.0\tnote\t64\t1\t0.5\tn-2\r\n");
    assert_eq!(f.notes.len(), 2);
    assert_eq!(f.notes[1].notehead_id, "n-2");
}

#[test]
fn bad_timestamp_is_fatal_with_line() {
    let r = SongFile::from_str("0.0\tnote\t62\t1\t0.5\tn-1\nx.y\tnote\t62\t1\t0.5\tn-2", String::from("s"));
    assert_eq!(r.unwrap_err(), SongError::BadNotes { line: 1 });
}

#[test]
fn bad_midi_key_is_fatal() {
    let r = SongFile::from_str("0.0\tnote\t300\t1\t0.5\tn-1", String::from("s"));
    assert_eq!(r.unwrap_err(), SongError::BadNotes { line: 0 });
}

#[test]
fn short_note_record_is_fatal() {
    let r = SongFile::from_str("0.0\tnote\t62", String::from("s"));
    assert_eq!(r.unwrap_err(), SongError::BadNotes { line: 0 });
}

#[test]
fn fractional_seconds_parse_to_micros() {
    assert_eq!(whstlrs::song::parse_seconds_us("1.25"), Some(1_250_000));
    assert_eq!(whstlrs::song::parse_seconds_us("0.000001"), Some(1));
    assert_eq!(whstlrs::song::parse_seconds_us("3"), Some(3_000_000));
    assert_eq!(whstlrs::song::parse_seconds_us("0.1234567"), Some(123_456));
    assert_eq!(whstlrs::song::parse_seconds_us(""), None);
    assert_eq!(whstlrs::song::parse_seconds_us("1."), None);
    assert_eq!(whstlrs::song::parse_seconds_us(".5"), None);
    assert_eq!(whstlrs::song::parse_seconds_us("1.2.3"), None);
    assert_eq!(whstlrs::song::parse_seconds_us("-1"), None);
}

#[test]
fn events_are_sorted_with_on_before_off() {
    // Notes arrive out of order; the event list comes back sorted by
    // timestamp. At the shared timestamp 0.5 the sort is stable: b's
    // note-on was derived before a's note-off, so it stays first, and
    // each note's own on still precedes its off.
    let f = load("0.5\tnote\t64\t1\t0.5\tb\n0.0\tnote\t62\t1\t0.5\ta");
    let ts: Vec<u64> = f.events.iter().map(|e| e.timestamp_us).collect();
    assert_eq!(ts, vec![0, 500_000, 500_000, 1_000_000]);
    assert_eq!(f.events[0].notehead_id, "a");
    assert!(matches!(f.events[0].message, MidiMessage::NoteOn { .. }));
    assert_eq!(f.events[1].notehead_id, "b");
    assert!(matches!(f.events[1].message, MidiMessage::NoteOn { .. }));
    assert_eq!(f.events[2].notehead_id, "a");
    assert!(matches!(f.events[2].message, MidiMessage::NoteOff { .. }));
    assert_eq!(f.events[3].notehead_id, "b");
    assert!(matches!(f.events[3].message, MidiMessage::NoteOff { .. }));
}

#[test]
fn zero_length_note_keeps_on_before_off() {
    let f = load("1.0\tnote\t62\t1\t0\ta");
    assert_eq!(f.events.len(), 2);
    assert_eq!(f.events[0].timestamp_us, 1_000_000);
    assert_eq!(f.events[1].timestamp_us, 1_000_000);
    assert!(matches!(f.events[0].message, MidiMessage::NoteOn { .. }));
    assert!(matches!(f.events[1].message, MidiMessage::NoteOff { .. }));
}

#[test]
fn clock_advances_and_releases_events_once() {
    // Scenario: one note at 0.0 lasting 0.5 s. An advance that reaches a
    // timestamp releases its event; later advances never repeat it.
    let f = load("0.0\tnote\t62\t1\t0.5\tn-1");
    let mut p = PlaybackState::new(Song::new(f));
    let first = p.update(0);
    assert_eq!(first.len(), 1);
    assert!(matches!(first[0].message, MidiMessage::NoteOn { key: 62, .. }));
    assert_eq!(first[0].notehead_id, "n-1");
    let second = p.update(1_000);
    assert_eq!(second.len(), 0);
    let third = p.update(500_000);
    assert_eq!(third.len(), 1);
    assert!(matches!(third[0].message, MidiMessage::NoteOff { key: 62, .. }));
    let fourth = p.update(10_000_000);
    assert_eq!(fourth.len(), 0);
}

#[test]
fn clock_releases_two_notes_in_order() {
    // Two notes at 0.0 and 0.5, each 0.5 s long: one whole-second advance
    // returns exactly on-a, off-a, on-b, off-b in that order.
    let f = load("0.0\tnote\t62\t1\t0.5\ta\n0.5\tnote\t64\t1\t0.5\tb");
    let mut p = PlaybackState::new(Song::new(f));
    let evs = p.update(1_000_000);
    assert_eq!(evs.len(), 4);
    assert!(matches!(evs[0].message, MidiMessage::NoteOn { key: 62, .. }));
    assert_eq!(evs[0].notehead_id, "a");
    assert!(matches!(evs[1].message, MidiMessage::NoteOff { key: 62, .. }));
    assert_eq!(evs[1].notehead_id, "a");
    assert!(matches!(evs[2].message, MidiMessage::NoteOn { key: 64, .. }));
    assert_eq!(evs[2].notehead_id, "b");
    assert!(matches!(evs[3].message, MidiMessage::NoteOff { key: 64, .. }));
    assert_eq!(evs[3].notehead_id, "b");
    let rest = p.update(1_000_000);
    assert_eq!(rest.len(), 0);
}

#[test]
fn reset_seeks_back_to_zero() {
    let f = load("0.0\tnote\t62\t1\t0.5\tn-1");
    let mut p = PlaybackState::new(Song::new(f));
    assert_eq!(p.update(1_000_000).len(), 2);
    assert_eq!(p.update(1_000_000).len(), 0);
    p.reset();
    let replay = p.update(0);
    assert_eq!(replay.len(), 1);
}
