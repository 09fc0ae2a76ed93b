//! The sheet: the glyph state store over the planned score, the fingering
//! tables, live-input handling, the colour flush into the primitive list,
//! and click-to-preview hit testing.

use vstd::prelude::*;

use crate::midi::MidiMessage;
use crate::pipeline::{find_group, GlyphGroupV, GpuPrimitive, Mesh, ScorePlan};
use crate::song::{EventV, SongEvent, SongNote};
use crate::text::str_eq;

verus! {

broadcast use vstd::string::group_string_axioms;

/// The note name a MIDI key maps to on the tin whistle in D; keys outside
/// the playable set map to `?`.
pub open spec fn midi2note_spec(midi_key: u8) -> Seq<char> {
    if midi_key == 62 {
        "D"@
    } else if midi_key == 64 {
        "E"@
    } else if midi_key == 65 {
        "F"@
    } else if midi_key == 66 {
        "F#"@
    } else if midi_key == 67 {
        "G"@
    } else if midi_key == 68 {
        "G#"@
    } else if midi_key == 69 {
        "A"@
    } else if midi_key == 70 {
        "A#"@
    } else if midi_key == 71 {
        "B"@
    } else if midi_key == 72 {
        "C"@
    } else if midi_key == 73 {
        "C#"@
    } else if midi_key == 74 {
        "D'"@
    } else if midi_key == 76 {
        "E'"@
    } else if midi_key == 77 {
        "F'"@
    } else if midi_key == 78 {
        "F#'"@
    } else if midi_key == 79 {
        "G'"@
    } else if midi_key == 80 {
        "G#'"@
    } else if midi_key == 81 {
        "A'"@
    } else if midi_key == 82 {
        "A#'"@
    } else if midi_key == 83 {
        "B'"@
    } else if midi_key == 84 {
        "C'"@
    } else if midi_key == 85 {
        "C#'"@
    } else if midi_key == 86 {
        "D''"@
    } else {
        "?"@
    }
}

/// The fingering bitmask of a note name: the low six bits select the
/// covered holes (bit k set means `fingerhole-(6-k)` covered), the seventh
/// bit the upper octave. Unknown names give 0.
pub open spec fn note2holes_spec(note: Seq<char>) -> u16 {
    if note == "D"@ {
        0b0111111
    } else if note == "E"@ {
        0b0111110
    } else if note == "F"@ {
        0b0111101
    } else if note == "F#"@ {
        0b0111100
    } else if note == "G"@ {
        0b0111000
    } else if note == "G#"@ {
        0b0110111
    } else if note == "A"@ {
        0b0110000
    } else if note == "A#"@ {
        0b0101111
    } else if note == "B"@ {
        0b0100000
    } else if note == "C"@ {
        0b0011000
    } else if note == "C#"@ {
        0b0000000
    } else if note == "D'"@ {
        0b1011111
    } else if note == "E'"@ {
        0b1111110
    } else if note == "F'"@ {
        0b1111101
    } else if note == "F#'"@ {
        0b1111100
    } else if note == "G'"@ {
        0b1111000
    } else if note == "G#'"@ {
        0b1110111
    } else if note == "A'"@ {
        0b1110000
    } else if note == "A#'"@ {
        0b1101111
    } else if note == "B'"@ {
        0b1100000
    } else if note == "C'"@ {
        0b1011100
    } else if note == "C#'"@ {
        0b1000000
    } else if note == "D''"@ {
        0b1011111
    } else {
        0
    }
}

/// The fingering each MIDI key is owed, keyed directly: what composing
/// the two tables must produce.
pub open spec fn fingering_table_spec(midi_key: u8) -> u16 {
    if midi_key == 62 {
        0b0111111
    } else if midi_key == 64 {
        0b0111110
    } else if midi_key == 65 {
        0b0111101
    } else if midi_key == 66 {
        0b0111100
    } else if midi_key == 67 {
        0b0111000
    } else if midi_key == 68 {
        0b0110111
    } else if midi_key == 69 {
        0b0110000
    } else if midi_key == 70 {
        0b0101111
    } else if midi_key == 71 {
        0b0100000
    } else if midi_key == 72 {
        0b0011000
    } else if midi_key == 73 {
        0b0000000
    } else if midi_key == 74 {
        0b1011111
    } else if midi_key == 76 {
        0b1111110
    } else if midi_key == 77 {
        0b1111101
    } else if midi_key == 78 {
        0b1111100
    } else if midi_key == 79 {
        0b1111000
    } else if midi_key == 80 {
        0b1110111
    } else if midi_key == 81 {
        0b1110000
    } else if midi_key == 82 {
        0b1101111
    } else if midi_key == 83 {
        0b1100000
    } else if midi_key == 84 {
        0b1011100
    } else if midi_key == 85 {
        0b1000000
    } else if midi_key == 86 {
        0b1011111
    } else {
        0
    }
}

/// Fingering table law: looking a key's note name up in the fingering
/// table agrees with the direct key-to-fingering table, and every key
/// outside the enumerated set fingers nothing.
#[verifier::rlimit(50)]
pub proof fn lemma_fingering_table(midi_key: u8)
    ensures
        note2holes_spec(midi2note_spec(midi_key)) == fingering_table_spec(midi_key),
{
    reveal_strlit("D");
    reveal_strlit("E");
    reveal_strlit("F");
    reveal_strlit("F#");
    reveal_strlit("G");
    reveal_strlit("G#");
    reveal_strlit("A");
    reveal_strlit("A#");
    reveal_strlit("B");
    reveal_strlit("C");
    reveal_strlit("C#");
    reveal_strlit("D'");
    reveal_strlit("E'");
    reveal_strlit("F'");
    reveal_strlit("F#'");
    reveal_strlit("G'");
    reveal_strlit("G#'");
    reveal_strlit("A'");
    reveal_strlit("A#'");
    reveal_strlit("B'");
    reveal_strlit("C'");
    reveal_strlit("C#'");
    reveal_strlit("D''");
    reveal_strlit("?");
    assert("D"@.len() == 1);
    assert("D"@[0] == 'D');
    assert("E"@.len() == 1);
    assert("E"@[0] == 'E');
    assert("F"@.len() == 1);
    assert("F"@[0] == 'F');
    assert("F#"@.len() == 2);
    assert("F#"@[0] == 'F');
    assert("F#"@[1] == '#');
    assert("G"@.len() == 1);
    assert("G"@[0] == 'G');
    assert("G#"@.len() == 2);
    assert("G#"@[0] == 'G');
    assert("G#"@[1] == '#');
    assert("A"@.len() == 1);
    assert("A"@[0] == 'A');
    assert("A#"@.len() == 2);
    assert("A#"@[0] == 'A');
    assert("A#"@[1] == '#');
    assert("B"@.len() == 1);
    assert("B"@[0] == 'B');
    assert("C"@.len() == 1);
    assert("C"@[0] == 'C');
    assert("C#"@.len() == 2);
    assert("C#"@[0] == 'C');
    assert("C#"@[1] == '#');
    assert("D'"@.len() == 2);
    assert("D'"@[0] == 'D');
    assert("D'"@[1] == '\'');
    assert("E'"@.len() == 2);
    assert("E'"@[0] == 'E');
    assert("E'"@[1] == '\'');
    assert("F'"@.len() == 2);
    assert("F'"@[0] == 'F');
    assert("F'"@[1] == '\'');
    assert("F#'"@.len() == 3);
    assert("F#'"@[0] == 'F');
    assert("F#'"@[1] == '#');
    assert("F#'"@[2] == '\'');
    assert("G'"@.len() == 2);
    assert("G'"@[0] == 'G');
    assert("G'"@[1] == '\'');
    assert("G#'"@.len() == 3);
    assert("G#'"@[0] == 'G');
    assert("G#'"@[1] == '#');
    assert("G#'"@[2] == '\'');
    assert("A'"@.len() == 2);
    assert("A'"@[0] == 'A');
    assert("A'"@[1] == '\'');
    assert("A#'"@.len() == 3);
    assert("A#'"@[0] == 'A');
    assert("A#'"@[1] == '#');
    assert("A#'"@[2] == '\'');
    assert("B'"@.len() == 2);
    assert("B'"@[0] == 'B');
    assert("B'"@[1] == '\'');
    assert("C'"@.len() == 2);
    assert("C'"@[0] == 'C');
    assert("C'"@[1] == '\'');
    assert("C#'"@.len() == 3);
    assert("C#'"@[0] == 'C');
    assert("C#'"@[1] == '#');
    assert("C#'"@[2] == '\'');
    assert("D''"@.len() == 3);
    assert("D''"@[0] == 'D');
    assert("D''"@[1] == '\'');
    assert("D''"@[2] == '\'');
    assert("?"@.len() == 1);
    assert("?"@[0] == '?');
}

impl SheetRenderer {
    /// The note name a MIDI key maps to; keys off the whistle give `?`.
    pub fn midi2note(midi_key: u8) -> (r: String)
        ensures
            r@ == midi2note_spec(midi_key),
    {
        let s: &str = match midi_key {
            62 => "D",
            64 => "E",
            65 => "F",
            66 => "F#",
            67 => "G",
            68 => "G#",
            69 => "A",
            70 => "A#",
            71 => "B",
            72 => "C",
            73 => "C#",
            74 => "D'",
            76 => "E'",
            77 => "F'",
            78 => "F#'",
            79 => "G'",
            80 => "G#'",
            81 => "A'",
            82 => "A#'",
            83 => "B'",
            84 => "C'",
            85 => "C#'",
            86 => "D''",
            _ => "?",
        };
        String::from_str(s)
    }

    /// The fingering bitmask of a note name; unknown names finger nothing.
    pub fn note2holes(note: &str) -> (r: u16)
        ensures
            r == note2holes_spec(note@),
    {
        if str_eq(note, "D") {
            0b0111111
        } else if str_eq(note, "E") {
            0b0111110
        } else if str_eq(note, "F") {
            0b0111101
        } else if str_eq(note, "F#") {
            0b0111100
        } else if str_eq(note, "G") {
            0b0111000
        } else if str_eq(note, "G#") {
            0b0110111
        } else if str_eq(note, "A") {
            0b0110000
        } else if str_eq(note, "A#") {
            0b0101111
        } else if str_eq(note, "B") {
            0b0100000
        } else if str_eq(note, "C") {
            0b0011000
        } else if str_eq(note, "C#") {
            0b0000000
        } else if str_eq(note, "D'") {
            0b1011111
        } else if str_eq(note, "E'") {
            0b1111110
        } else if str_eq(note, "F'") {
            0b1111101
        } else if str_eq(note, "F#'") {
            0b1111100
        } else if str_eq(note, "G'") {
            0b1111000
        } else if str_eq(note, "G#'") {
            0b1110111
        } else if str_eq(note, "A'") {
            0b1110000
        } else if str_eq(note, "A#'") {
            0b1101111
        } else if str_eq(note, "B'") {
            0b1100000
        } else if str_eq(note, "C'") {
            0b1011100
        } else if str_eq(note, "C#'") {
            0b1000000
        } else if str_eq(note, "D''") {
            0b1011111
        } else {
            0
        }
    }
}

/// One glyph's mutable colour state.
#[derive(Clone, Copy, PartialEq, Eq, Structural, Debug)]
pub struct GlyphState {
    pub active: bool,
    pub active_color: u32,
    pub inactive_color: u32,
}

/// The colour a glyph state shows.
pub open spec fn glyph_color(s: GlyphState) -> u32 {
    if s.active {
        s.active_color
    } else {
        s.inactive_color
    }
}

/// `states` after setting the glyph named `id` active or inactive: the
/// state of the first group with that name changes, nothing else does.
pub open spec fn set_id_spec(
    groups: Seq<GlyphGroupV>,
    states: Seq<GlyphState>,
    id: Seq<char>,
    active: bool,
) -> Seq<GlyphState> {
    let gi = find_group(groups, id);
    if 0 <= gi < states.len() {
        states.update(
            gi,
            GlyphState {
                active,
                active_color: states[gi].active_color,
                inactive_color: states[gi].inactive_color,
            },
        )
    } else {
        states
    }
}

/// The fixed name of finger hole `k`.
pub open spec fn hole_id_spec(k: int) -> Seq<char> {
    if k == 1 {
        "fingerhole-1"@
    } else if k == 2 {
        "fingerhole-2"@
    } else if k == 3 {
        "fingerhole-3"@
    } else if k == 4 {
        "fingerhole-4"@
    } else if k == 5 {
        "fingerhole-5"@
    } else {
        "fingerhole-6"@
    }
}

/// Whether the bitmask covers finger hole `k` (bit `6 - k`).
pub open spec fn hole_covered(holes: u16, k: int) -> bool {
    holes & (1u16 << ((6 - k) as usize)) != 0
}

/// The glyph states after posing finger holes `1..=k` for `holes`.
pub open spec fn apply_holes_spec(
    groups: Seq<GlyphGroupV>,
    states: Seq<GlyphState>,
    holes: u16,
    k: int,
) -> Seq<GlyphState>
    decreases k,
{
    if k <= 0 {
        states
    } else {
        set_id_spec(
            groups,
            apply_holes_spec(groups, states, holes, k - 1),
            hole_id_spec(k),
            hole_covered(holes, k),
        )
    }
}

/// The glyph states after applying a list of play events: each note-on
/// lights its notehead, each note-off unlights it.
pub open spec fn apply_events_spec(
    groups: Seq<GlyphGroupV>,
    states: Seq<GlyphState>,
    events: Seq<EventV>,
) -> Seq<GlyphState>
    decreases events.len(),
{
    if events.len() == 0 {
        states
    } else {
        set_id_spec(
            groups,
            apply_events_spec(groups, states, events.drop_last()),
            events.last().notehead_id,
            events.last().message is NoteOn,
        )
    }
}

/// `prims` after writing colour `c` into every slot `idxs` names (slots
/// out of range are ignored).
pub open spec fn write_group_spec(prims: Seq<GpuPrimitive>, idxs: Seq<usize>, c: u32) -> Seq<
    GpuPrimitive,
>
    decreases idxs.len(),
{
    if idxs.len() == 0 {
        prims
    } else {
        let p = write_group_spec(prims, idxs.drop_last(), c);
        if idxs.last() < p.len() {
            p.update(
                idxs.last() as int,
                GpuPrimitive {
                    transform: p[idxs.last() as int].transform,
                    color: c,
                    pad0: p[idxs.last() as int].pad0,
                    pad1: p[idxs.last() as int].pad1,
                },
            )
        } else {
            p
        }
    }
}

/// `prims` after flushing every glyph state: group by group, each glyph's
/// colour is written into the slots its group names.
pub open spec fn flush_spec(
    prims: Seq<GpuPrimitive>,
    groups: Seq<GlyphGroupV>,
    states: Seq<GlyphState>,
) -> Seq<GpuPrimitive>
    decreases groups.len(),
{
    if groups.len() == 0 {
        prims
    } else {
        let prev = flush_spec(prims, groups.drop_last(), states);
        if groups.len() - 1 < states.len() {
            write_group_spec(prev, groups.last().prims, glyph_color(states[groups.len() - 1]))
        } else {
            prev
        }
    }
}

/// Setting a glyph's state is idempotent: doing it twice is doing it
/// once.
pub proof fn lemma_set_glyph_idempotent(
    groups: Seq<GlyphGroupV>,
    states: Seq<GlyphState>,
    id: Seq<char>,
    active: bool,
)
    ensures
        set_id_spec(groups, set_id_spec(groups, states, id, active), id, active) =~= set_id_spec(
            groups,
            states,
            id,
            active,
        ),
{
    let gi = find_group(groups, id);
    if 0 <= gi < states.len() {
        let once = set_id_spec(groups, states, id, active);
        assert(once[gi].active_color == states[gi].active_color);
        assert(set_id_spec(groups, once, id, active) =~= once);
    }
}

/// The sheet being practised: the planned score, its mesh, and one
/// mutable colour state per glyph group.
pub struct SheetRenderer {
    pub plan: ScorePlan,
    pub mesh: Mesh,
    pub states: Vec<GlyphState>,
}

impl SheetRenderer {
    /// Wrap a planned and tessellated score; every glyph starts inactive.
    pub fn new(plan: ScorePlan, mesh: Mesh, active_color: u32, inactive_color: u32) -> (r:
        SheetRenderer)
        ensures
            r.plan == plan,
            r.mesh == mesh,
            r.states@.len() == plan.groups@.len(),
            forall|g: int|
                0 <= g < r.states@.len() ==> r.states@[g] == (GlyphState {
                    active: false,
                    active_color,
                    inactive_color,
                }),
    {
        let mut states: Vec<GlyphState> = Vec::new();
        let mut g: usize = 0;
        while g < plan.groups.len()
            invariant
                g <= plan.groups@.len(),
                states@.len() == g,
                forall|t: int|
                    0 <= t < g ==> states@[t] == (GlyphState {
                        active: false,
                        active_color,
                        inactive_color,
                    }),
            decreases plan.groups@.len() - g,
        {
            states.push(GlyphState { active: false, active_color, inactive_color });
            g += 1;
        }
        SheetRenderer { plan, mesh, states }
    }

    /// Set the glyph named `id` active or inactive; no other state, and
    /// nothing else of the sheet, changes. Idempotent.
    pub fn set_glyph_active(&mut self, id: &str, active: bool)
        ensures
            final(self).states@ == set_id_spec(
                old(self).plan@.groups,
                old(self).states@,
                id@,
                active,
            ),
            final(self).plan == old(self).plan,
            final(self).mesh == old(self).mesh,
    {
        let ghost groupsv = self.plan@.groups;
        proof {
            crate::pipeline::lemma_find_group(groupsv, id@);
        }
        let mut gi: usize = 0;
        while gi < self.plan.groups.len()
            invariant
                gi <= self.plan.groups@.len(),
                groupsv == self.plan@.groups,
                *self == *old(self),
                forall|k: int| 0 <= k < gi ==> groupsv[k].id != id@,
            decreases self.plan.groups@.len() - gi,
        {
            if str_eq(self.plan.groups[gi].id.as_str(), id) {
                proof {
                    assert(groupsv[gi as int] == self.plan.groups@[gi as int]@);
                    crate::pipeline::lemma_find_group(groupsv, id@);
                    let f = find_group(groupsv, id@);
                    if f < 0 {
                        assert(groupsv[gi as int].id != id@);
                    } else if f < gi as int {
                        assert(groupsv[f].id == id@);
                    } else if f > gi as int {
                        assert(groupsv[gi as int].id != id@);
                    }
                    assert(f == gi as int);
                }
                if gi < self.states.len() {
                    let old_state = self.states[gi];
                    self.states.set(
                        gi,
                        GlyphState {
                            active,
                            active_color: old_state.active_color,
                            inactive_color: old_state.inactive_color,
                        },
                    );
                }
                return ;
            }
            gi += 1;
        }
        proof {
            crate::pipeline::lemma_find_group(groupsv, id@);
            assert(find_group(groupsv, id@) < 0);
        }
    }

    /// React to a live note message: a note-on poses the fingering of its
    /// key on the six finger-hole glyphs; a note-off changes nothing (the
    /// last posed fingering stays visible).
    pub fn user_midi_event(&mut self, message: &MidiMessage)
        ensures
            final(self).plan == old(self).plan,
            final(self).mesh == old(self).mesh,
            match *message {
                MidiMessage::NoteOn { key, .. } => final(self).states@ == apply_holes_spec(
                    old(self).plan@.groups,
                    old(self).states@,
                    note2holes_spec(midi2note_spec(key)),
                    6,
                ),
                MidiMessage::NoteOff { .. } => final(self).states@ == old(self).states@,
            },
    {
        let key: u8 = match *message {
            MidiMessage::NoteOn { key, .. } => key,
            MidiMessage::NoteOff { .. } => {
                return ;
            },
        };
        let note = SheetRenderer::midi2note(key);
        let holes = SheetRenderer::note2holes(note.as_str());
        let mut k: usize = 1;
        while k <= 6
            invariant
                1 <= k <= 7,
                holes == note2holes_spec(midi2note_spec(key)),
                self.plan == old(self).plan,
                self.mesh == old(self).mesh,
                self.states@ == apply_holes_spec(
                    old(self).plan@.groups,
                    old(self).states@,
                    holes,
                    k - 1,
                ),
            decreases 7 - k,
        {
            let hole: &str = match k {
                1 => "fingerhole-1",
                2 => "fingerhole-2",
                3 => "fingerhole-3",
                4 => "fingerhole-4",
                5 => "fingerhole-5",
                _ => "fingerhole-6",
            };
            proof {
                assert(hole@ == hole_id_spec(k as int));
            }
            let shift: u16 = 6 - (k as u16);
            let active = holes & (1u16 << shift) != 0;
            proof {
                assert(active == hole_covered(holes, k as int));
            }
            self.set_glyph_active(hole, active);
            k += 1;
        }
    }

    /// Apply the play events the clock has released: each note-on lights
    /// its notehead glyph, each note-off unlights it.
    pub fn song_events(&mut self, events: &Vec<SongEvent>)
        ensures
            final(self).plan == old(self).plan,
            final(self).mesh == old(self).mesh,
            final(self).states@ == apply_events_spec(
                old(self).plan@.groups,
                old(self).states@,
                crate::song::events_view(events@),
            ),
    {
        let ghost evs = crate::song::events_view(events@);
        let mut i: usize = 0;
        proof {
            assert(evs.take(0) =~= Seq::<EventV>::empty());
        }
        while i < events.len()
            invariant
                i <= events@.len(),
                evs == crate::song::events_view(events@),
                self.plan == old(self).plan,
                self.mesh == old(self).mesh,
                self.states@ == apply_events_spec(
                    old(self).plan@.groups,
                    old(self).states@,
                    evs.take(i as int),
                ),
            decreases events@.len() - i,
        {
            proof {
                assert(evs.take(i as int + 1).drop_last() =~= evs.take(i as int));
                assert(evs.take(i as int + 1).last() == evs[i as int]);
            }
            let active = match events[i].message {
                MidiMessage::NoteOn { .. } => true,
                MidiMessage::NoteOff { .. } => false,
            };
            let id = events[i].notehead_id.clone();
            self.set_glyph_active(id.as_str(), active);
            i += 1;
        }
        proof {
            assert(evs.take(events@.len() as int) =~= evs);
        }
    }

    /// Write every glyph's current colour into the primitive slots its
    /// group names; transforms and everything else stay untouched. The
    /// caller uploads the primitive list to the GPU afterwards.
    pub fn flush_glyph_states(&mut self)
        ensures
            final(self).plan.primitives@ == flush_spec(
                old(self).plan.primitives@,
                old(self).plan@.groups,
                old(self).states@,
            ),
            final(self).plan.transforms == old(self).plan.transforms,
            final(self).plan.groups == old(self).plan.groups,
            final(self).plan.jobs == old(self).plan.jobs,
            final(self).mesh == old(self).mesh,
            final(self).states == old(self).states,
    {
        let ghost groupsv = self.plan@.groups;
        let ghost states0 = self.states@;
        let ghost prims0 = self.plan.primitives@;
        let mut g: usize = 0;
        while g < self.plan.groups.len()
            invariant
                g <= self.plan.groups@.len(),
                groupsv == self.plan@.groups,
                states0 == self.states@,
                self.plan.transforms == old(self).plan.transforms,
                self.plan.groups == old(self).plan.groups,
                self.plan.jobs == old(self).plan.jobs,
                self.mesh == old(self).mesh,
                self.states == old(self).states,
                prims0 == old(self).plan.primitives@,
                self.plan.primitives@ == flush_spec(prims0, groupsv.take(g as int), states0),
            decreases self.plan.groups@.len() - g,
        {
            proof {
                assert(groupsv.take(g as int + 1).drop_last() =~= groupsv.take(g as int));
                assert(groupsv.take(g as int + 1).last() == groupsv[g as int]);
            }
            if g < self.states.len() {
                let color = if self.states[g].active {
                    self.states[g].active_color
                } else {
                    self.states[g].inactive_color
                };
                let ghost before = self.plan.primitives@;
                let ghost idxs = groupsv[g as int].prims;
                let mut k: usize = 0;
                proof {
                    assert(idxs.take(0) =~= Seq::<usize>::empty());
                }
                while k < self.plan.groups[g].prims.len()
                    invariant
                        g < self.plan.groups@.len(),
                        k <= self.plan.groups@[g as int].prims@.len(),
                        groupsv == self.plan@.groups,
                        idxs == groupsv[g as int].prims,
                        self.plan.transforms == old(self).plan.transforms,
                        self.plan.groups == old(self).plan.groups,
                        self.plan.jobs == old(self).plan.jobs,
                        self.mesh == old(self).mesh,
                        self.states == old(self).states,
                        self.plan.primitives@ == write_group_spec(before, idxs.take(k as int), color),
                    decreases self.plan.groups@[g as int].prims@.len() - k,
                {
                    proof {
                        assert(idxs.take(k as int + 1).drop_last() =~= idxs.take(k as int));
                        assert(idxs.take(k as int + 1).last() == idxs[k as int]);
                    }
                    let idx = self.plan.groups[g].prims[k];
                    if idx < self.plan.primitives.len() {
                        let p = self.plan.primitives[idx];
                        self.plan.primitives.set(
                            idx,
                            GpuPrimitive {
                                transform: p.transform,
                                color,
                                pad0: p.pad0,
                                pad1: p.pad1,
                            },
                        );
                    }
                    k += 1;
                }
                proof {
                    assert(idxs.take(idxs.len() as int) =~= idxs);
                    assert(color == glyph_color(states0[g as int]));
                }
            }
            g += 1;
        }
        proof {
            assert(groupsv.take(self.plan.groups@.len() as int) =~= groupsv);
        }
    }
}

/// The axis-aligned box of one notehead glyph, in the logical-pixel
/// frame the cursor lives in.
pub struct NoteheadBox {
    pub id: String,
    pub min_x: i64,
    pub min_y: i64,
    pub max_x: i64,
    pub max_y: i64,
}

/// Specification view of a notehead box.
pub ghost struct BoxV {
    pub id: Seq<char>,
    pub min_x: i64,
    pub min_y: i64,
    pub max_x: i64,
    pub max_y: i64,
}

impl View for NoteheadBox {
    type V = BoxV;

    open spec fn view(&self) -> BoxV {
        BoxV {
            id: self.id@,
            min_x: self.min_x,
            min_y: self.min_y,
            max_x: self.max_x,
            max_y: self.max_y,
        }
    }
}

/// Whether the cursor lies inside the box, borders included.
pub open spec fn box_contains(b: BoxV, x: i64, y: i64) -> bool {
    b.min_x <= x && x <= b.max_x && b.min_y <= y && y <= b.max_y
}

/// The hit of a cursor: the id of the last box in document order that
/// contains it, or nothing.
pub open spec fn match_spec(boxes: Seq<BoxV>, x: i64, y: i64) -> Option<Seq<char>>
    decreases boxes.len(),
{
    if boxes.len() == 0 {
        Option::None
    } else if box_contains(boxes.last(), x, y) {
        Option::Some(boxes.last().id)
    } else {
        match_spec(boxes.drop_last(), x, y)
    }
}

/// The views of a box list.
pub open spec fn boxes_view(v: Seq<NoteheadBox>) -> Seq<BoxV> {
    v.map_values(|b: NoteheadBox| b@)
}

/// The notehead under the cursor, ties resolved in favour of the glyph
/// last in document order (topmost).
pub fn notehead_match(boxes: &Vec<NoteheadBox>, x: i64, y: i64) -> (r: Option<String>)
    ensures
        match r {
            Some(id) => match_spec(boxes_view(boxes@), x, y) == Option::Some(id@),
            None => match_spec(boxes_view(boxes@), x, y) is None,
        },
{
    let ghost bv = boxes_view(boxes@);
    let mut j: usize = boxes.len();
    proof {
        assert(bv.take(boxes@.len() as int) =~= bv);
    }
    while j > 0
        invariant
            j <= boxes@.len(),
            bv == boxes_view(boxes@),
            match_spec(bv, x, y) == match_spec(bv.take(j as int), x, y),
        decreases j,
    {
        let b = &boxes[j - 1];
        proof {
            assert(bv.take(j as int).last() == bv[j as int - 1]);
            assert(bv.take(j as int).drop_last() =~= bv.take(j as int - 1));
        }
        if b.min_x <= x && x <= b.max_x && b.min_y <= y && y <= b.max_y {
            return Some(b.id.clone());
        }
        j -= 1;
    }
    proof {
        assert(bv.take(0) =~= Seq::<BoxV>::empty());
    }
    None
}

/// The fixed finger-hole names, which never name noteheads.
pub open spec fn is_fingerhole_id(id: Seq<char>) -> bool {
    ||| id == "fingerhole-1"@
    ||| id == "fingerhole-2"@
    ||| id == "fingerhole-3"@
    ||| id == "fingerhole-4"@
    ||| id == "fingerhole-5"@
    ||| id == "fingerhole-6"@
}

/// Whether a mesh vertex belongs to a glyph group: its primitive is one
/// of the group's.
pub open spec fn vertex_in_group(v: crate::pipeline::GpuVertex, g: GlyphGroupV) -> bool {
    exists|k: int| 0 <= k < g.prims.len() && g.prims[k] == v.prim_id as usize
}

/// The bounding box of a group's vertices, over the first `n` vertices,
/// as (min x, min y, max x, max y); `None` when the group owns none of
/// them. `pos` carries each vertex's logical-pixel position.
pub open spec fn group_bbox(
    verts: Seq<crate::pipeline::GpuVertex>,
    pos: Seq<(i64, i64)>,
    g: GlyphGroupV,
    n: int,
) -> Option<(i64, i64, i64, i64)>
    decreases n,
{
    if n <= 0 {
        Option::None
    } else {
        let prev = group_bbox(verts, pos, g, n - 1);
        if vertex_in_group(verts[n - 1], g) {
            let x = pos[n - 1].0;
            let y = pos[n - 1].1;
            match prev {
                Option::None => Option::Some((x, y, x, y)),
                Option::Some(b) => Option::Some(
                    (
                        if x < b.0 {
                            x
                        } else {
                            b.0
                        },
                        if y < b.1 {
                            y
                        } else {
                            b.1
                        },
                        if x > b.2 {
                            x
                        } else {
                            b.2
                        },
                        if y > b.3 {
                            y
                        } else {
                            b.3
                        },
                    ),
                ),
            }
        } else {
            prev
        }
    }
}

/// The hit boxes of the noteheads: one per glyph group that is not a
/// finger hole and owns at least one vertex, in document order.
pub open spec fn boxes_spec(
    groups: Seq<GlyphGroupV>,
    verts: Seq<crate::pipeline::GpuVertex>,
    pos: Seq<(i64, i64)>,
) -> Seq<BoxV>
    decreases groups.len(),
{
    if groups.len() == 0 {
        Seq::empty()
    } else {
        let prev = boxes_spec(groups.drop_last(), verts, pos);
        let g = groups.last();
        if !is_fingerhole_id(g.id) {
            match group_bbox(verts, pos, g, verts.len() as int) {
                Option::Some(b) => prev.push(
                    BoxV { id: g.id, min_x: b.0, min_y: b.1, max_x: b.2, max_y: b.3 },
                ),
                Option::None => prev,
            }
        } else {
            prev
        }
    }
}

/// Whether a primitive index is one of `prims`.
fn prim_index_in(prims: &Vec<usize>, p: u32) -> (r: bool)
    ensures
        r == exists|k: int| 0 <= k < prims@.len() && prims@[k] == p as usize,
{
    let mut k: usize = 0;
    while k < prims.len()
        invariant
            k <= prims@.len(),
            forall|t: int| 0 <= t < k ==> prims@[t] != p as usize,
        decreases prims@.len() - k,
    {
        if prims[k] == p as usize {
            return true;
        }
        k += 1;
    }
    false
}

impl SheetRenderer {
    /// Compute the noteheads' hit boxes from each mesh vertex's position
    /// in the logical-pixel frame (`positions` runs parallel to the mesh's
    /// vertex list).
    pub fn compute_hit_boxes(&self, positions: &Vec<(i64, i64)>) -> (r: Vec<NoteheadBox>)
        requires
            positions@.len() == self.mesh.vertices@.len(),
        ensures
            boxes_view(r@) =~~= boxes_spec(self.plan@.groups, self.mesh.vertices@, positions@),
    {
        let ghost groupsv = self.plan@.groups;
        let mut out: Vec<NoteheadBox> = Vec::new();
        let mut g: usize = 0;
        proof {
            assert(groupsv.take(0) =~= Seq::<GlyphGroupV>::empty());
            assert(boxes_view(out@) =~= Seq::<BoxV>::empty());
        }
        while g < self.plan.groups.len()
            invariant
                g <= self.plan.groups@.len(),
                groupsv == self.plan@.groups,
                positions@.len() == self.mesh.vertices@.len(),
                boxes_view(out@) =~~= boxes_spec(
                    groupsv.take(g as int),
                    self.mesh.vertices@,
                    positions@,
                ),
            decreases self.plan.groups@.len() - g,
        {
            proof {
                assert(groupsv.take(g as int + 1).drop_last() =~= groupsv.take(g as int));
                assert(groupsv.take(g as int + 1).last() == groupsv[g as int]);
            }
            let group = &self.plan.groups[g];
            let fingerhole = str_eq(group.id.as_str(), "fingerhole-1") || str_eq(
                group.id.as_str(),
                "fingerhole-2",
            ) || str_eq(group.id.as_str(), "fingerhole-3") || str_eq(
                group.id.as_str(),
                "fingerhole-4",
            ) || str_eq(group.id.as_str(), "fingerhole-5") || str_eq(
                group.id.as_str(),
                "fingerhole-6",
            );
            if !fingerhole {
                let mut have = false;
                let mut min_x: i64 = 0;
                let mut min_y: i64 = 0;
                let mut max_x: i64 = 0;
                let mut max_y: i64 = 0;
                let mut v: usize = 0;
                while v < self.mesh.vertices.len()
                    invariant
                        v <= self.mesh.vertices@.len(),
                        positions@.len() == self.mesh.vertices@.len(),
                        g < self.plan.groups@.len(),
                        groupsv == self.plan@.groups,
                        group == &self.plan.groups@[g as int],
                        group@ == groupsv[g as int],
                        ({
                            let bb = group_bbox(
                                self.mesh.vertices@,
                                positions@,
                                groupsv[g as int],
                                v as int,
                            );
                            if have {
                                bb == Option::Some((min_x, min_y, max_x, max_y))
                            } else {
                                bb is None
                            }
                        }),
                    decreases self.mesh.vertices@.len() - v,
                {
                    let ghost bb_pre = group_bbox(
                        self.mesh.vertices@,
                        positions@,
                        groupsv[g as int],
                        v as int,
                    );
                    let inb = prim_index_in(&group.prims, self.mesh.vertices[v].prim_id);
                    proof {
                        assert(group@.prims == groupsv[g as int].prims);
                        assert(inb == vertex_in_group(
                            self.mesh.vertices@[v as int],
                            groupsv[g as int],
                        ));
                    }
                    if inb {
                        let x = positions[v].0;
                        let y = positions[v].1;
                        if !have {
                            have = true;
                            min_x = x;
                            min_y = y;
                            max_x = x;
                            max_y = y;
                        } else {
                            if x < min_x {
                                min_x = x;
                            }
                            if y < min_y {
                                min_y = y;
                            }
                            if x > max_x {
                                max_x = x;
                            }
                            if y > max_y {
                                max_y = y;
                            }
                        }
                    }
                    proof {
                        let bb_post = group_bbox(
                            self.mesh.vertices@,
                            positions@,
                            groupsv[g as int],
                            v as int + 1,
                        );
                        if inb {
                            if bb_pre is None {
                                assert(bb_post == Option::Some((min_x, min_y, max_x, max_y)));
                            } else {
                                assert(bb_post == Option::Some((min_x, min_y, max_x, max_y)));
                            }
                        } else {
                            assert(bb_post == bb_pre);
                        }
                    }
                    v += 1;
                }
                if have {
                    let ghost pre_out = out@;
                    out.push(
                        NoteheadBox { id: group.id.clone(), min_x, min_y, max_x, max_y },
                    );
                    proof {
                        assert(boxes_view(out@).drop_last() =~= boxes_view(pre_out));
                        assert(boxes_view(out@).last() == BoxV {
                            id: groupsv[g as int].id,
                            min_x,
                            min_y,
                            max_x,
                            max_y,
                        });
                        assert(boxes_view(out@) =~~= boxes_view(pre_out).push(
                            BoxV { id: groupsv[g as int].id, min_x, min_y, max_x, max_y },
                        ));
                    }
                }
            }
            g += 1;
        }
        proof {
            assert(groupsv.take(self.plan.groups@.len() as int) =~= groupsv);
        }
        out
    }

    /// Click-to-preview: if the cursor hits a notehead whose id names a
    /// note of the song, pose that note's fingering and report success;
    /// otherwise change nothing and report failure.
    pub fn handle_mouse_click(
        &mut self,
        notes: &Vec<SongNote>,
        boxes: &Vec<NoteheadBox>,
        x: i64,
        y: i64,
    ) -> (r: bool)
        ensures
            final(self).plan == old(self).plan,
            final(self).mesh == old(self).mesh,
            match match_spec(boxes_view(boxes@), x, y) {
                Option::Some(id) => {
                    let ni = find_note(crate::song::notes_view(notes@), id);
                    if ni >= 0 {
                        &&& r
                        &&& final(self).states@ == apply_holes_spec(
                            old(self).plan@.groups,
                            old(self).states@,
                            note2holes_spec(
                                midi2note_spec(crate::song::notes_view(notes@)[ni].midi_key),
                            ),
                            6,
                        )
                    } else {
                        !r && final(self).states@ == old(self).states@
                    }
                },
                Option::None => !r && final(self).states@ == old(self).states@,
            },
    {
        let hit = notehead_match(boxes, x, y);
        let id = match hit {
            Some(id) => id,
            None => {
                return false;
            },
        };
        let ghost notesv = crate::song::notes_view(notes@);
        proof {
            lemma_find_note(notesv, id@);
        }
        let mut ni: usize = 0;
        while ni < notes.len()
            invariant
                ni <= notes@.len(),
                notesv == crate::song::notes_view(notes@),
                *self == *old(self),
                match_spec(boxes_view(boxes@), x, y) is Some,
                id@ == match_spec(boxes_view(boxes@), x, y)->0,
                forall|t: int| 0 <= t < ni ==> notesv[t].notehead_id != id@,
            decreases notes@.len() - ni,
        {
            if str_eq(notes[ni].notehead_id.as_str(), id.as_str()) {
                proof {
                    assert(notesv[ni as int] == notes@[ni as int]@);
                    lemma_find_note(notesv, id@);
                    let f = find_note(notesv, id@);
                    if f < 0 {
                        assert(notesv[ni as int].notehead_id != id@);
                    } else if f < ni as int {
                        assert(notesv[f].notehead_id == id@);
                    } else if f > ni as int {
                        assert(notesv[ni as int].notehead_id != id@);
                    }
                    assert(f == ni as int);
                }
                let key = notes[ni].midi_key;
                self.user_midi_event(&MidiMessage::NoteOn { key, vel: 127 });
                return true;
            }
            ni += 1;
        }
        proof {
            lemma_find_note(notesv, id@);
            assert(find_note(notesv, id@) < 0);
        }
        false
    }
}

/// The first note whose notehead id is `id`, or -1.
pub open spec fn find_note(notes: Seq<crate::song::NoteV>, id: Seq<char>) -> int
    decreases notes.len(),
{
    if notes.len() == 0 {
        -1
    } else if notes.first().notehead_id == id {
        0
    } else {
        let r = find_note(notes.drop_first(), id);
        if r < 0 {
            -1
        } else {
            r + 1
        }
    }
}

pub proof fn lemma_find_note(notes: Seq<crate::song::NoteV>, id: Seq<char>)
    ensures
        find_note(notes, id) < 0 ==> forall|k: int|
            0 <= k < notes.len() ==> notes[k].notehead_id != id,
        find_note(notes, id) >= 0 ==> {
            &&& find_note(notes, id) < notes.len()
            &&& notes[find_note(notes, id)].notehead_id == id
            &&& forall|k: int| 0 <= k < find_note(notes, id) ==> notes[k].notehead_id != id
        },
    decreases notes.len(),
{
    if notes.len() > 0 && notes.first().notehead_id != id {
        lemma_find_note(notes.drop_first(), id);
        let r = find_note(notes.drop_first(), id);
        if r < 0 {
            assert forall|k: int| 0 <= k < notes.len() implies notes[k].notehead_id != id by {
                if k > 0 {
                    assert(notes.drop_first()[k - 1] == notes[k]);
                }
            }
        } else {
            assert(notes.drop_first()[r] == notes[r + 1]);
            assert forall|k: int| 0 <= k < find_note(notes, id) implies notes[k].notehead_id
                != id by {
                if k > 0 {
                    assert(notes.drop_first()[k - 1] == notes[k]);
                }
            }
        }
    }
}

/// The centre of a box, horizontally and vertically.
pub open spec fn centroid_x(b: BoxV) -> int {
    (b.min_x + b.max_x) / 2
}

pub open spec fn centroid_y(b: BoxV) -> int {
    (b.min_y + b.max_y) / 2
}

/// Hit-test exactness, hitting half: a cursor at the centroid of a
/// nonempty notehead box returns that notehead's id, provided no box
/// later in document order covers the same point.
pub proof fn lemma_hit_centroid(boxes: Seq<BoxV>, i: int, x: i64, y: i64)
    requires
        0 <= i < boxes.len(),
        boxes[i].min_x <= boxes[i].max_x,
        boxes[i].min_y <= boxes[i].max_y,
        x == centroid_x(boxes[i]),
        y == centroid_y(boxes[i]),
        forall|j: int| i < j < boxes.len() ==> !box_contains(#[trigger] boxes[j], x, y),
    ensures
        match_spec(boxes, x, y) == Option::Some(boxes[i].id),
    decreases boxes.len(),
{
    assert(boxes[i].min_x <= x && x <= boxes[i].max_x) by (nonlinear_arith)
        requires
            boxes[i].min_x <= boxes[i].max_x,
            x == (boxes[i].min_x + boxes[i].max_x) / 2,
    ;
    assert(boxes[i].min_y <= y && y <= boxes[i].max_y) by (nonlinear_arith)
        requires
            boxes[i].min_y <= boxes[i].max_y,
            y == (boxes[i].min_y + boxes[i].max_y) / 2,
    ;
    lemma_match_last_containing(boxes, i, x, y);
}

/// The hit is the last containing box.
pub proof fn lemma_match_last_containing(boxes: Seq<BoxV>, i: int, x: i64, y: i64)
    requires
        0 <= i < boxes.len(),
        box_contains(boxes[i], x, y),
        forall|j: int| i < j < boxes.len() ==> !box_contains(#[trigger] boxes[j], x, y),
    ensures
        match_spec(boxes, x, y) == Option::Some(boxes[i].id),
    decreases boxes.len(),
{
    if i == boxes.len() - 1 {
    } else {
        assert(!box_contains(boxes.last(), x, y));
        assert(boxes.drop_last()[i] == boxes[i]);
        assert(forall|j: int|
            i < j < boxes.len() - 1 ==> boxes.drop_last()[j] == #[trigger] boxes[j]);
        lemma_match_last_containing(boxes.drop_last(), i, x, y);
    }
}

/// Hit-test exactness, missing half: a cursor contained in no box - for
/// one a whole logical pixel outside every box - returns nothing.
pub proof fn lemma_hit_none(boxes: Seq<BoxV>, x: i64, y: i64)
    requires
        forall|j: int| 0 <= j < boxes.len() ==> !box_contains(#[trigger] boxes[j], x, y),
    ensures
        match_spec(boxes, x, y) is None,
    decreases boxes.len(),
{
    if boxes.len() > 0 {
        assert(forall|j: int|
            0 <= j < boxes.len() - 1 ==> boxes.drop_last()[j] == #[trigger] boxes[j]);
        lemma_hit_none(boxes.drop_last(), x, y);
    }
}

/// Whether some glyph group owns primitive slot `p`.
pub open spec fn slot_owned(groups: Seq<GlyphGroupV>, p: int) -> bool {
    exists|g: int, k: int|
        0 <= g < groups.len() && 0 <= k < groups[g].prims.len() && groups[g].prims[k] == p
}

/// What writing one group does, slot by slot.
pub proof fn lemma_write_group_props(prims: Seq<GpuPrimitive>, idxs: Seq<usize>, c: u32)
    ensures
        write_group_spec(prims, idxs, c).len() == prims.len(),
        forall|p: int|
            0 <= p < prims.len() ==> (#[trigger] write_group_spec(prims, idxs, c)[p]).transform
                == prims[p].transform && write_group_spec(prims, idxs, c)[p].pad0 == prims[p].pad0
                && write_group_spec(prims, idxs, c)[p].pad1 == prims[p].pad1,
        forall|k: int|
            0 <= k < idxs.len() && idxs[k] < prims.len() ==> write_group_spec(prims, idxs, c)[
                idxs[k] as int
            ].color == c,
        forall|p: int|
            0 <= p < prims.len() && (forall|k: int| 0 <= k < idxs.len() ==> idxs[k] != p)
                ==> write_group_spec(prims, idxs, c)[p] == prims[p],
    decreases idxs.len(),
{
    if idxs.len() > 0 {
        lemma_write_group_props(prims, idxs.drop_last(), c);
        assert(forall|k: int| 0 <= k < idxs.len() - 1 ==> idxs.drop_last()[k] == idxs[k]);
    }
}

/// The flush contract, slot by slot: a primitive owned by glyph group `g`
/// shows that glyph's colour, a primitive owned by no group keeps its
/// colour, and no transform changes. Well defined because no slot belongs
/// to two groups.
pub proof fn lemma_flush_colors(
    prims: Seq<GpuPrimitive>,
    groups: Seq<GlyphGroupV>,
    states: Seq<GlyphState>,
)
    requires
        crate::pipeline::groups_prims_distinct(groups),
        states.len() >= groups.len(),
    ensures
        flush_spec(prims, groups, states).len() == prims.len(),
        forall|p: int|
            0 <= p < prims.len() ==> (#[trigger] flush_spec(prims, groups, states)[p]).transform
                == prims[p].transform,
        forall|g: int, k: int|
            0 <= g < groups.len() && 0 <= k < groups[g].prims.len() && groups[g].prims[k]
                < prims.len() ==> flush_spec(prims, groups, states)[groups[g].prims[k] as int].color
                == glyph_color(states[g]),
        forall|p: int|
            0 <= p < prims.len() && !slot_owned(groups, p) ==> flush_spec(prims, groups, states)[p]
                == prims[p],
    decreases groups.len(),
{
    if groups.len() > 0 {
        let n = groups.len() as int;
        assert(crate::pipeline::groups_prims_distinct(groups.drop_last())) by {
            assert(forall|g: int|
                0 <= g < n - 1 ==> groups.drop_last()[g] == #[trigger] groups[g]);
        }
        lemma_flush_colors(prims, groups.drop_last(), states);
        let prev = flush_spec(prims, groups.drop_last(), states);
        let c = glyph_color(states[n - 1]);
        lemma_write_group_props(prev, groups.last().prims, c);
        let cur = flush_spec(prims, groups, states);
        assert(forall|g: int| 0 <= g < n - 1 ==> groups.drop_last()[g] == #[trigger] groups[g]);
        assert forall|g: int, k: int|
            0 <= g < n && 0 <= k < groups[g].prims.len() && groups[g].prims[k]
                < prims.len() implies cur[groups[g].prims[k] as int].color == glyph_color(
            states[g],
        ) by {
            if g < n - 1 {
                // Later groups never touch this slot: the groups are
                // disjoint.
                assert(prev[groups[g].prims[k] as int].color == glyph_color(states[g]));
                assert forall|t: int|
                    0 <= t < groups.last().prims.len() implies groups.last().prims[t] != groups[
                    g
                ].prims[k] by {
                    assert(groups[n - 1].prims[t] == groups.last().prims[t]);
                }
            } else {
                assert(groups.last().prims[k] == groups[g].prims[k]);
            }
        }
        assert forall|p: int|
            0 <= p < prims.len() && !slot_owned(groups, p) implies cur[p] == prims[p] by {
            assert(!slot_owned(groups.drop_last(), p));
            assert(prev[p] == prims[p]);
            assert forall|t: int|
                0 <= t < groups.last().prims.len() implies groups.last().prims[t] != p by {
                assert(groups[n - 1].prims[t] == groups.last().prims[t]);
            }
        }
    }
}

} // verus!
