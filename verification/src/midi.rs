//! Live MIDI messages: the note messages the practice tool consumes and
//! produces, parsing of raw bytes from the keyboard (through `midly`), the
//! velocity-zero convention, and the raw encoding sent to the synthesizer.

use vstd::prelude::*;

verus! {

/// A channel note message from the live keyboard or the song's event list.
///
/// Only note messages drive the tool; every other MIDI message is dropped at
/// the edges.
#[derive(Clone, Copy, PartialEq, Eq, Structural, Debug)]
pub enum MidiMessage {
    /// A key was pressed. `key` and `vel` are 7-bit values.
    NoteOn { key: u8, vel: u8 },
    /// A key was released. `key` and `vel` are 7-bit values.
    NoteOff { key: u8, vel: u8 },
}

/// User events posted to the host's main loop.
pub enum WhstlrsEvent {
    /// Request to leave the main loop.
    Exit,
    /// A live note message arrived from the keyboard's background thread.
    MidiInput { channel: u8, message: MidiMessage },
}

/// Whether `raw` encodes a complete note-on or note-off channel message:
/// a status byte `0x8c` or `0x9c`, then a 7-bit key and a 7-bit velocity.
pub open spec fn is_note_bytes(raw: Seq<u8>) -> bool {
    raw.len() >= 3 && (raw[0] >> 4 == 0x8 || raw[0] >> 4 == 0x9) && raw[1] < 0x80 && raw[2] < 0x80
}

/// The note message encoded by `raw`, assuming `is_note_bytes(raw)`.
pub open spec fn note_of_bytes(raw: Seq<u8>) -> (u8, MidiMessage) {
    (
        (raw[0] & 0x0f) as u8,
        if raw[0] >> 4 == 0x9 {
            MidiMessage::NoteOn { key: raw[1], vel: raw[2] }
        } else {
            MidiMessage::NoteOff { key: raw[1], vel: raw[2] }
        },
    )
}

/// Relies on `midly::live::LiveEvent::parse`: for a status byte in
/// `0x80..=0x9F` followed by at least two data bytes below `0x80`, it returns
/// `LiveEvent::Midi` holding the channel from the status byte's low nibble and
/// a `NoteOff` / `NoteOn` with the two data bytes; for every other input it
/// returns another variant or an error, which this wrapper maps to `None`.
#[verifier::external_body]
fn parse_live_bytes(raw: &[u8]) -> (r: Option<(u8, MidiMessage)>)
    ensures
        is_note_bytes(raw@) ==> r == Some(note_of_bytes(raw@)),
        !is_note_bytes(raw@) ==> r is None,
{
    match midly::live::LiveEvent::parse(raw) {
        Ok(midly::live::LiveEvent::Midi { channel, message }) => match message {
            midly::MidiMessage::NoteOn { key, vel } => {
                Some((channel.as_int(), MidiMessage::NoteOn { key: key.as_int(), vel: vel.as_int() }))
            }
            midly::MidiMessage::NoteOff { key, vel } => {
                Some((channel.as_int(), MidiMessage::NoteOff { key: key.as_int(), vel: vel.as_int() }))
            }
            _ => None,
        },
        _ => None,
    }
}

/// A note-on with velocity zero means note-off: some keyboards never send
/// note-off messages.
pub open spec fn normalize_spec(m: MidiMessage) -> MidiMessage {
    match m {
        MidiMessage::NoteOn { key, vel } => if vel == 0 {
            MidiMessage::NoteOff { key, vel }
        } else {
            m
        },
        MidiMessage::NoteOff { .. } => m,
    }
}

/// Replace a velocity-zero note-on by the note-off it stands for.
pub fn normalize_message(m: MidiMessage) -> (r: MidiMessage)
    ensures
        r == normalize_spec(m),
{
    match m {
        MidiMessage::NoteOn { key, vel } => if vel == 0 {
            MidiMessage::NoteOff { key, vel }
        } else {
            m
        },
        MidiMessage::NoteOff { .. } => m,
    }
}

/// Parse raw bytes from the live keyboard into a channel and a normalized
/// note message; everything but a complete note message is dropped.
pub fn receive_live(raw: &[u8]) -> (r: Option<(u8, MidiMessage)>)
    ensures
        is_note_bytes(raw@) ==> r == Some(
            (note_of_bytes(raw@).0, normalize_spec(note_of_bytes(raw@).1)),
        ),
        !is_note_bytes(raw@) ==> r is None,
{
    match parse_live_bytes(raw) {
        Some((channel, message)) => Some((channel, normalize_message(message))),
        None => None,
    }
}

/// The raw bytes sent to the synthesizer for a note message:
/// status `0x90` for note-on, `0x80` for note-off, then key and velocity.
pub open spec fn encode_spec(m: MidiMessage) -> Seq<u8> {
    match m {
        MidiMessage::NoteOn { key, vel } => seq![0x90u8, key, vel],
        MidiMessage::NoteOff { key, vel } => seq![0x80u8, key, vel],
    }
}

/// Encode a note message as the raw bytes the synthesizer connection sends.
pub fn encode_message(m: MidiMessage) -> (r: [u8; 3])
    ensures
        r@ == encode_spec(m),
{
    let bytes: [u8; 3] = match m {
        MidiMessage::NoteOn { key, vel } => [0x90, key, vel],
        MidiMessage::NoteOff { key, vel } => [0x80, key, vel],
    };
    proof {
        assert(bytes@ =~= encode_spec(m));
    }
    bytes
}

} // verus!
