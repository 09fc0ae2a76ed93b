//! The song: the tab-separated note list, the notes and play events derived
//! from it, and the playback clock that drains events as time advances.
//!
//! Times are whole microseconds. The note list writes them as decimal
//! seconds with an optional fraction; fractional digits beyond the sixth are
//! truncated.

use vstd::prelude::*;

use crate::text::{
    all_digits, check_all_digits, dec_val, find_next, lemma_dec_val_bound, lemma_split_by_concat,
    lemma_split_by_whole, parse_u64, pow10, split_by, split_str, str_eq, strip_cr, strip_cr_spec,
};

verus! {

/// Largest accepted time value, in microseconds (one thousand million
/// seconds). Keeping timestamps and durations under this bound keeps their
/// sums well inside `u64`.
pub const MAX_TIME_US: u64 = 1_000_000_000_000_000;

/// The microseconds contributed by a fractional-seconds digit string.
pub open spec fn frac_us_spec(f: Seq<char>) -> nat {
    if f.len() >= 6 {
        dec_val(f.take(6))
    } else {
        dec_val(f) * pow10((6 - f.len()) as nat)
    }
}

/// Whether `s` is a well-formed seconds value within range: digits, with an
/// optional decimal point followed by at least one digit.
pub open spec fn seconds_valid(s: Seq<char>) -> bool {
    let parts = split_by(s, '.');
    if parts.len() == 1 {
        s.len() > 0 && all_digits(s) && dec_val(s) * 1000000 <= MAX_TIME_US
    } else if parts.len() == 2 {
        parts[0].len() > 0 && all_digits(parts[0]) && parts[1].len() > 0 && all_digits(parts[1])
            && dec_val(parts[0]) * 1000000 + frac_us_spec(parts[1]) <= MAX_TIME_US
    } else {
        false
    }
}

/// The microseconds a well-formed seconds value denotes.
pub open spec fn seconds_us_spec(s: Seq<char>) -> nat {
    let parts = split_by(s, '.');
    if parts.len() == 1 {
        dec_val(s) * 1000000
    } else {
        dec_val(parts[0]) * 1000000 + frac_us_spec(parts[1])
    }
}

/// The first few powers of ten, spelled out.
pub proof fn lemma_pow10_table()
    ensures
        pow10(0) == 1,
        pow10(1) == 10,
        pow10(2) == 100,
        pow10(3) == 1000,
        pow10(4) == 10000,
        pow10(5) == 100000,
        pow10(6) == 1000000,
{
    assert(pow10(0) == 1);
    assert(pow10(1) == 10);
    assert(pow10(2) == 100);
    assert(pow10(3) == 1000);
    assert(pow10(4) == 10000);
    assert(pow10(5) == 100000);
    assert(pow10(6) == 1000000);
}

/// Powers of ten grow with the exponent.
pub proof fn lemma_pow10_le(a: nat, b: nat)
    requires
        a <= b,
    ensures
        pow10(a) <= pow10(b),
    decreases b,
{
    if a < b {
        lemma_pow10_le(a, (b - 1) as nat);
        assert(pow10(b) == 10 * pow10((b - 1) as nat));
    }
}

/// Parse a decimal seconds value into microseconds.
///
/// Returns `Some` exactly for the values `seconds_valid` accepts.
pub fn parse_seconds_us(s: &str) -> (r: Option<u64>)
    ensures
        r is Some <==> seconds_valid(s@),
        r is Some ==> r->0 == seconds_us_spec(s@),
{
    let n = s.unicode_len();
    let j = find_next(s, '.', 0);
    if j == n {
        proof {
            lemma_split_by_whole(s@, '.');
        }
        match parse_u64(s) {
            None => None,
            Some(v) => {
                if v <= MAX_TIME_US / 1000000 {
                    Some(v * 1000000)
                } else {
                    None
                }
            },
        }
    } else {
        // A decimal point at `j`: integer part before it, fraction after it.
        let ghost ip = s@.subrange(0, j as int);
        let ghost fp = s@.skip(j as int + 1);
        proof {
            assert(s@ =~= ip + seq!['.'] + fp);
            lemma_split_by_whole(ip, '.');
        }
        let j2 = find_next(s, '.', j + 1);
        if j2 < n {
            proof {
                let ghost fp1 = s@.subrange(j as int + 1, j2 as int);
                let ghost fp2 = s@.skip(j2 as int + 1);
                assert(fp =~= fp1 + seq!['.'] + fp2);
                lemma_split_by_concat(fp1, fp2, '.');
                lemma_split_by_whole(fp1, '.');
                lemma_split_by_concat(ip, fp, '.');
                crate::text::lemma_split_by_len(fp2, '.');
            }
            return None;
        }
        proof {
            lemma_split_by_whole(fp, '.');
            lemma_split_by_concat(ip, fp, '.');
        }
        let int_part = s.substring_char(0, j);
        let frac_part = s.substring_char(j + 1, n);
        if frac_part.unicode_len() == 0 {
            return None;
        }
        if !check_all_digits(frac_part) {
            return None;
        }
        let iv = match parse_u64(int_part) {
            None => {
                proof {
                    if all_digits(ip) && ip.len() > 0 {
                        // The integer part alone overflows `u64`, so the
                        // whole value is far beyond the accepted range.
                        assert(dec_val(ip) * 1000000 >= dec_val(ip)) by (nonlinear_arith);
                    }
                }
                return None;
            },
            Some(iv) => iv,
        };
        if iv > MAX_TIME_US / 1000000 {
            return None;
        }
        let fl = frac_part.unicode_len();
        let k: usize = if fl >= 6 {
            6
        } else {
            fl
        };
        let f6 = frac_part.substring_char(0, k);
        proof {
            assert(f6@ =~= fp.take(k as int));
            assert(all_digits(f6@));
            lemma_dec_val_bound(f6@);
            lemma_pow10_table();
            if k < 6 {
                assert(fp.take(k as int) =~= fp);
            }
        }
        let fv = match parse_u64(f6) {
            None => {
                proof {
                    assert(dec_val(f6@) < 1000000);
                }
                // Unreachable: at most six digits always fit.
                return None;
            },
            Some(fv) => fv,
        };
        let mult: u64 = match 6 - k {
            0 => 1,
            1 => 10,
            2 => 100,
            3 => 1000,
            4 => 10000,
            5 => 100000,
            _ => 1000000,
        };
        proof {
            lemma_pow10_table();
            lemma_pow10_le(k as nat, 6);
            assert(mult == pow10((6 - k) as nat));
            assert(fv * mult == frac_us_spec(fp));
            assert(fv < 1000000);
            assert(fv * mult < 1000000000000) by (nonlinear_arith)
                requires
                    fv < 1000000,
                    mult <= 1000000,
            ;
        }
        let total = iv * 1000000 + fv * mult;
        if total <= MAX_TIME_US {
            Some(total)
        } else {
            None
        }
    }
}

/// Specification view of one note of the song.
pub ghost struct NoteV {
    pub timestamp_us: u64,
    pub midi_key: u8,
    pub duration: u32,
    pub duration_us: u64,
    pub notehead_id: Seq<char>,
}

/// One note of the song: when it starts, its pitch, its notated duration,
/// how long it sounds, and the engraved notehead it belongs to.
#[derive(Debug)]
pub struct SongNote {
    pub timestamp_us: u64,
    pub midi_key: u8,
    pub duration: u32,
    pub duration_us: u64,
    pub notehead_id: String,
}

impl View for SongNote {
    type V = NoteV;

    open spec fn view(&self) -> NoteV {
        NoteV {
            timestamp_us: self.timestamp_us,
            midi_key: self.midi_key,
            duration: self.duration,
            duration_us: self.duration_us,
            notehead_id: self.notehead_id@,
        }
    }
}

impl Clone for SongNote {
    fn clone(&self) -> (r: Self)
        ensures
            r == *self,
    {
        SongNote {
            timestamp_us: self.timestamp_us,
            midi_key: self.midi_key,
            duration: self.duration,
            duration_us: self.duration_us,
            notehead_id: self.notehead_id.clone(),
        }
    }
}

/// Specification view of one play event.
pub ghost struct EventV {
    pub channel: u8,
    pub timestamp_us: u64,
    pub midi_key: u8,
    pub duration_us: u64,
    pub notehead_id: Seq<char>,
    pub message: crate::midi::MidiMessage,
}

/// One play event: a note message owed at a point in song time.
#[derive(Debug)]
pub struct SongEvent {
    pub channel: u8,
    pub timestamp_us: u64,
    pub midi_key: u8,
    pub duration_us: u64,
    pub notehead_id: String,
    pub message: crate::midi::MidiMessage,
}

impl View for SongEvent {
    type V = EventV;

    open spec fn view(&self) -> EventV {
        EventV {
            channel: self.channel,
            timestamp_us: self.timestamp_us,
            midi_key: self.midi_key,
            duration_us: self.duration_us,
            notehead_id: self.notehead_id@,
            message: self.message,
        }
    }
}

impl Clone for SongEvent {
    fn clone(&self) -> (r: Self)
        ensures
            r == *self,
    {
        SongEvent {
            channel: self.channel,
            timestamp_us: self.timestamp_us,
            midi_key: self.midi_key,
            duration_us: self.duration_us,
            notehead_id: self.notehead_id.clone(),
            message: self.message,
        }
    }
}

/// The fields of one line of the note list, after dropping a carriage
/// return: tab-separated columns.
pub open spec fn fields_of_line(line: Seq<char>) -> Seq<Seq<char>> {
    split_by(strip_cr_spec(line), '\t')
}

/// A record of kind `note`: the second column says so.
pub open spec fn is_note_record(fs: Seq<Seq<char>>) -> bool {
    fs.len() >= 2 && fs[1] == "note"@
}

/// Whether a digit string is a value of the given unsigned width.
pub open spec fn uint_valid(s: Seq<char>, max: nat) -> bool {
    s.len() > 0 && all_digits(s) && dec_val(s) <= max
}

/// A `note` record with all six columns present and well formed.
pub open spec fn note_record_valid(fs: Seq<Seq<char>>) -> bool {
    fs.len() >= 6 && seconds_valid(fs[0]) && uint_valid(fs[2], u8::MAX as nat) && uint_valid(
        fs[3],
        u32::MAX as nat,
    ) && seconds_valid(fs[4])
}

/// The note a well-formed `note` record describes.
pub open spec fn note_of_record(fs: Seq<Seq<char>>) -> NoteV {
    NoteV {
        timestamp_us: seconds_us_spec(fs[0]) as u64,
        midi_key: dec_val(fs[2]) as u8,
        duration: dec_val(fs[3]) as u32,
        duration_us: seconds_us_spec(fs[4]) as u64,
        notehead_id: fs[5],
    }
}

/// The notes of a list of lines: `note` records in order; other kinds are
/// ignored; the first malformed `note` record is an error with its line
/// index.
pub open spec fn parse_notes_spec(lines: Seq<Seq<char>>) -> Result<Seq<NoteV>, int>
    decreases lines.len(),
{
    if lines.len() == 0 {
        Ok(Seq::empty())
    } else {
        match parse_notes_spec(lines.drop_last()) {
            Err(e) => Err(e),
            Ok(ns) => {
                let fs = fields_of_line(lines.last());
                if is_note_record(fs) {
                    if note_record_valid(fs) {
                        Ok(ns.push(note_of_record(fs)))
                    } else {
                        Err(lines.len() - 1)
                    }
                } else {
                    Ok(ns)
                }
            },
        }
    }
}

/// The lines of the note-list text.
pub open spec fn song_lines(text: Seq<char>) -> Seq<Seq<char>> {
    split_by(text, '\n')
}

/// The note-on event a note owes at its start.
pub open spec fn on_event_spec(n: NoteV) -> EventV {
    EventV {
        channel: 0,
        timestamp_us: n.timestamp_us,
        midi_key: n.midi_key,
        duration_us: n.duration_us,
        notehead_id: n.notehead_id,
        message: crate::midi::MidiMessage::NoteOn { key: n.midi_key, vel: 127 },
    }
}

/// The note-off event a note owes when its duration has passed.
pub open spec fn off_event_spec(n: NoteV) -> EventV {
    EventV {
        channel: 0,
        timestamp_us: (n.timestamp_us + n.duration_us) as u64,
        midi_key: n.midi_key,
        duration_us: n.duration_us,
        notehead_id: n.notehead_id,
        message: crate::midi::MidiMessage::NoteOff { key: n.midi_key, vel: 0 },
    }
}

/// Per note, a note-on then a note-off, in note order, not yet sorted.
pub open spec fn raw_events_spec(ns: Seq<NoteV>) -> Seq<EventV>
    decreases ns.len(),
{
    if ns.len() == 0 {
        Seq::empty()
    } else {
        raw_events_spec(ns.drop_last()) + seq![
            on_event_spec(ns.last()),
            off_event_spec(ns.last()),
        ]
    }
}

/// Where a stable insertion places `e` in `s`: after every element whose
/// timestamp is not later than `e`'s.
pub open spec fn insert_pos(e: EventV, s: Seq<EventV>) -> int
    decreases s.len(),
{
    if s.len() == 0 {
        0
    } else if s.last().timestamp_us <= e.timestamp_us {
        s.len() as int
    } else {
        insert_pos(e, s.drop_last())
    }
}

pub proof fn lemma_insert_pos_char(e: EventV, s: Seq<EventV>)
    ensures
        0 <= insert_pos(e, s) <= s.len(),
        forall|k: int|
            insert_pos(e, s) <= k < s.len() ==> #[trigger] s[k].timestamp_us > e.timestamp_us,
        insert_pos(e, s) > 0 ==> s[insert_pos(e, s) - 1].timestamp_us <= e.timestamp_us,
    decreases s.len(),
{
    if s.len() > 0 && s.last().timestamp_us > e.timestamp_us {
        lemma_insert_pos_char(e, s.drop_last());
        assert(forall|k: int| 0 <= k < s.len() - 1 ==> s.drop_last()[k] == s[k]);
    }
}

/// Stable sort of the event list by timestamp: each event, in input order,
/// is inserted after every earlier-or-equal event already placed.
pub open spec fn sort_events_spec(s: Seq<EventV>) -> Seq<EventV>
    decreases s.len(),
{
    if s.len() == 0 {
        Seq::empty()
    } else {
        let sorted = sort_events_spec(s.drop_last());
        sorted.insert(insert_pos(s.last(), sorted), s.last())
    }
}

/// Timestamps never decrease along the list.
pub open spec fn events_sorted(s: Seq<EventV>) -> bool {
    forall|i: int, j: int| 0 <= i < j < s.len() ==> s[i].timestamp_us <= s[j].timestamp_us
}

/// The event list a list of notes gives rise to.
pub open spec fn song_events_spec(ns: Seq<NoteV>) -> Seq<EventV> {
    sort_events_spec(raw_events_spec(ns))
}

/// Inserting at the stable position keeps the list sorted.
pub proof fn lemma_insert_sorted(e: EventV, s: Seq<EventV>)
    requires
        events_sorted(s),
    ensures
        events_sorted(s.insert(insert_pos(e, s), e)),
{
    lemma_insert_pos_char(e, s);
    let p = insert_pos(e, s);
    s.insert_ensures(p, e);
    let t = s.insert(p, e);
    assert forall|i: int, j: int| 0 <= i < j < t.len() implies t[i].timestamp_us
        <= t[j].timestamp_us by {
        if i < p && j > p {
            assert(t[i] == s[i] && t[j] == s[j - 1]);
        } else if i == p && j > p {
            assert(t[j] == s[j - 1]);
        } else if i < p && j == p {
            assert(t[i] == s[i]);
            assert(s[p - 1].timestamp_us <= e.timestamp_us);
        }
    }
}

/// The sorted event list is sorted.
pub proof fn lemma_sort_events_sorted(s: Seq<EventV>)
    ensures
        events_sorted(sort_events_spec(s)),
    decreases s.len(),
{
    if s.len() > 0 {
        lemma_sort_events_sorted(s.drop_last());
        lemma_insert_sorted(s.last(), sort_events_spec(s.drop_last()));
    }
}

/// The sorted list keeps the input's length.
pub proof fn lemma_sort_events_len(s: Seq<EventV>)
    ensures
        sort_events_spec(s).len() == s.len(),
    decreases s.len(),
{
    if s.len() > 0 {
        lemma_sort_events_len(s.drop_last());
        let sorted = sort_events_spec(s.drop_last());
        lemma_insert_pos_char(s.last(), sorted);
        sorted.insert_ensures(insert_pos(s.last(), sorted), s.last());
    }
}

/// Where input element `i` ends up in the sorted list.
pub open spec fn out_pos(s: Seq<EventV>, i: int) -> int
    recommends
        0 <= i < s.len(),
    decreases s.len(),
{
    if s.len() == 0 {
        0
    } else if i == s.len() - 1 {
        insert_pos(s.last(), sort_events_spec(s.drop_last()))
    } else {
        let p = out_pos(s.drop_last(), i);
        if p >= insert_pos(s.last(), sort_events_spec(s.drop_last())) {
            p + 1
        } else {
            p
        }
    }
}

/// `out_pos` names a valid position holding the input element.
pub proof fn lemma_out_pos(s: Seq<EventV>, i: int)
    requires
        0 <= i < s.len(),
    ensures
        0 <= out_pos(s, i) < sort_events_spec(s).len(),
        sort_events_spec(s)[out_pos(s, i)] == s[i],
    decreases s.len(),
{
    let sorted = sort_events_spec(s.drop_last());
    let ip = insert_pos(s.last(), sorted);
    lemma_sort_events_len(s.drop_last());
    lemma_sort_events_len(s);
    lemma_insert_pos_char(s.last(), sorted);
    sorted.insert_ensures(ip, s.last());
    if i < s.len() - 1 {
        lemma_out_pos(s.drop_last(), i);
        assert(s.drop_last()[i] == s[i]);
    }
}

/// Stability: an element never overtakes a later one whose timestamp is not
/// earlier.
pub proof fn lemma_out_pos_stable(s: Seq<EventV>, i: int, j: int)
    requires
        0 <= i < j < s.len(),
        s[i].timestamp_us <= s[j].timestamp_us,
    ensures
        out_pos(s, i) < out_pos(s, j),
    decreases s.len(),
{
    let sorted = sort_events_spec(s.drop_last());
    let ip = insert_pos(s.last(), sorted);
    lemma_sort_events_len(s.drop_last());
    lemma_insert_pos_char(s.last(), sorted);
    if j == s.len() - 1 {
        lemma_out_pos(s.drop_last(), i);
        assert(s.drop_last()[i] == s[i]);
        let p = out_pos(s.drop_last(), i);
        if p >= ip {
            assert(sorted[p].timestamp_us > s.last().timestamp_us);
        }
    } else {
        lemma_out_pos_stable(s.drop_last(), i, j);
    }
}

/// The raw event list holds each note's pair at consecutive positions.
pub proof fn lemma_raw_events_len(ns: Seq<NoteV>)
    ensures
        raw_events_spec(ns).len() == 2 * ns.len(),
    decreases ns.len(),
{
    if ns.len() > 0 {
        lemma_raw_events_len(ns.drop_last());
    }
}

pub proof fn lemma_raw_events_index(ns: Seq<NoteV>, i: int)
    requires
        0 <= i < ns.len(),
    ensures
        raw_events_spec(ns)[2 * i] == on_event_spec(ns[i]),
        raw_events_spec(ns)[2 * i + 1] == off_event_spec(ns[i]),
    decreases ns.len(),
{
    lemma_raw_events_len(ns.drop_last());
    if i < ns.len() - 1 {
        lemma_raw_events_index(ns.drop_last(), i);
        assert(ns.drop_last()[i] == ns[i]);
    }
}

/// Event ordering: the song's event list is sorted by timestamp, and each
/// note's note-on stands before its note-off, in particular when the two
/// share a timestamp.
pub proof fn lemma_event_ordering(ns: Seq<NoteV>, k: int)
    requires
        0 <= k < ns.len(),
        ns[k].timestamp_us + ns[k].duration_us <= u64::MAX,
    ensures
        events_sorted(song_events_spec(ns)),
        exists|p: int, q: int|
            0 <= p < q < song_events_spec(ns).len() && song_events_spec(ns)[p] == on_event_spec(
                ns[k],
            ) && song_events_spec(ns)[q] == off_event_spec(ns[k]),
{
    let raw = raw_events_spec(ns);
    lemma_sort_events_sorted(raw);
    lemma_raw_events_len(ns);
    lemma_raw_events_index(ns, k);
    lemma_out_pos(raw, 2 * k);
    lemma_out_pos(raw, 2 * k + 1);
    lemma_out_pos_stable(raw, 2 * k, 2 * k + 1);
    let p = out_pos(raw, 2 * k);
    let q = out_pos(raw, 2 * k + 1);
    assert(0 <= p < q < song_events_spec(ns).len() && song_events_spec(ns)[p] == on_event_spec(
        ns[k],
    ) && song_events_spec(ns)[q] == off_event_spec(ns[k]));
}

/// The views of a list of notes.
pub open spec fn notes_view(v: Seq<SongNote>) -> Seq<NoteV> {
    v.map_values(|n: SongNote| n@)
}

/// The views of a list of events.
pub open spec fn events_view(v: Seq<SongEvent>) -> Seq<EventV> {
    v.map_values(|e: SongEvent| e@)
}

/// Derive the two play events each note owes, in note order.
fn derive_events(notes: &Vec<SongNote>) -> (r: Vec<SongEvent>)
    requires
        forall|i: int|
            0 <= i < notes@.len() ==> notes@[i].timestamp_us + notes@[i].duration_us <= u64::MAX,
    ensures
        events_view(r@) =~~= raw_events_spec(notes_view(notes@)),
{
    let mut out: Vec<SongEvent> = Vec::new();
    let mut i: usize = 0;
    proof {
        assert(notes_view(notes@.take(0)) =~= Seq::<NoteV>::empty());
    }
    while i < notes.len()
        invariant
            i <= notes@.len(),
            forall|k: int|
                0 <= k < notes@.len() ==> notes@[k].timestamp_us + notes@[k].duration_us
                    <= u64::MAX,
            events_view(out@) =~~= raw_events_spec(notes_view(notes@.take(i as int))),
        decreases notes@.len() - i,
    {
        let n = &notes[i];
        out.push(
            SongEvent {
                channel: 0,
                timestamp_us: n.timestamp_us,
                midi_key: n.midi_key,
                duration_us: n.duration_us,
                notehead_id: n.notehead_id.clone(),
                message: crate::midi::MidiMessage::NoteOn { key: n.midi_key, vel: 127 },
            },
        );
        out.push(
            SongEvent {
                channel: 0,
                timestamp_us: n.timestamp_us + n.duration_us,
                midi_key: n.midi_key,
                duration_us: n.duration_us,
                notehead_id: n.notehead_id.clone(),
                message: crate::midi::MidiMessage::NoteOff { key: n.midi_key, vel: 0 },
            },
        );
        proof {
            let nv = notes_view(notes@.take(i as int + 1));
            assert(nv.drop_last() =~= notes_view(notes@.take(i as int)));
            assert(nv.last() == notes@[i as int]@);
            assert(events_view(out@) =~~= raw_events_spec(nv));
        }
        i += 1;
    }
    proof {
        assert(notes@.take(notes@.len() as int) =~= notes@);
    }
    out
}

/// Stable-sort the event list by timestamp, as `sort_events_spec` describes.
fn sort_events(events: Vec<SongEvent>) -> (r: Vec<SongEvent>)
    ensures
        events_view(r@) =~~= sort_events_spec(events_view(events@)),
{
    let mut out: Vec<SongEvent> = Vec::new();
    let mut i: usize = 0;
    proof {
        assert(events_view(events@.take(0)) =~= Seq::<EventV>::empty());
    }
    while i < events.len()
        invariant
            i <= events@.len(),
            events_view(out@) =~~= sort_events_spec(events_view(events@.take(i as int))),
        decreases events@.len() - i,
    {
        let e = events[i].clone();
        let mut j: usize = out.len();
        while j > 0 && out[j - 1].timestamp_us > e.timestamp_us
            invariant
                j <= out@.len(),
                forall|k: int|
                    j <= k < out@.len() ==> #[trigger] out@[k].timestamp_us > e.timestamp_us,
            decreases j,
        {
            j -= 1;
        }
        proof {
            let sorted = events_view(out@);
            lemma_insert_pos_char(e@, sorted);
            let p = insert_pos(e@, sorted);
            // The scan stopped exactly at the stable insertion position.
            assert(forall|k: int| j <= k < sorted.len() ==> #[trigger] sorted[k].timestamp_us
                > e@.timestamp_us);
            if j < p {
                assert(sorted[p - 1].timestamp_us <= e@.timestamp_us);
            }
            if p < j {
                assert(sorted[j - 1].timestamp_us > e@.timestamp_us);
            }
            assert(j == p);
        }
        out.insert(j, e);
        proof {
            let prev = events_view(events@.take(i as int));
            let cur = events_view(events@.take(i as int + 1));
            assert(cur.drop_last() =~= prev);
            assert(cur.last() == events@[i as int]@);
            assert(events_view(out@) =~~= sort_events_spec(prev).insert(
                insert_pos(e@, sort_events_spec(prev)),
                e@,
            ));
        }
        i += 1;
    }
    proof {
        assert(events@.take(events@.len() as int) =~= events@);
    }
    out
}

/// Once a prefix of the lines is in error, the whole list is, with the
/// same line.
pub proof fn lemma_parse_notes_err_prefix(lines: Seq<Seq<char>>, m: int)
    requires
        0 <= m <= lines.len(),
        parse_notes_spec(lines.take(m)) is Err,
    ensures
        parse_notes_spec(lines) == parse_notes_spec(lines.take(m)),
    decreases lines.len() - m,
{
    if m < lines.len() {
        assert(lines.take(m + 1).drop_last() =~= lines.take(m));
        assert(parse_notes_spec(lines.take(m + 1)) == parse_notes_spec(lines.take(m)));
        lemma_parse_notes_err_prefix(lines, m + 1);
    } else {
        assert(lines.take(m) =~= lines);
    }
}

/// A structured load error: the note list is malformed at the given
/// zero-based line.
#[derive(Clone, Copy, PartialEq, Eq, Structural, Debug)]
pub enum SongError {
    BadNotes { line: usize },
}

/// The parsed note list: its name, its notes, and the time-ordered play
/// events they give rise to.
#[derive(Debug)]
pub struct SongFile {
    pub name: String,
    pub notes: Vec<SongNote>,
    pub events: Vec<SongEvent>,
}

impl SongFile {
    /// Parse a tab-separated note list.
    ///
    /// Records whose second column is not `note` are ignored. A `note`
    /// record with fewer than six columns or a malformed numeric column is
    /// the error `BadNotes`, naming the first such line.
    pub fn from_str(text: &str, name: String) -> (r: Result<SongFile, SongError>)
        ensures
            match r {
                Ok(f) => {
                    &&& parse_notes_spec(song_lines(text@)) matches Ok(ns)
                        && notes_view(f.notes@) == ns
                    &&& f.name@ == name@
                    &&& events_view(f.events@) == song_events_spec(notes_view(f.notes@))
                },
                Err(e) => {
                    &&& parse_notes_spec(song_lines(text@)) matches Err(l)
                        && e matches SongError::BadNotes { line } && line == l
                },
            },
    {
        let lines = split_str(text, '\n');
        let mut notes: Vec<SongNote> = Vec::new();
        let mut li: usize = 0;
        let ghost linesv = lines@.map_values(|t: String| t@);
        proof {
            assert(notes_view(notes@) =~= Seq::<NoteV>::empty());
            assert(linesv.take(0) =~= Seq::<Seq<char>>::empty());
        }
        while li < lines.len()
            invariant
                li <= lines@.len(),
                linesv == lines@.map_values(|t: String| t@),
                linesv == song_lines(text@),
                parse_notes_spec(linesv.take(li as int)) == Ok::<_, int>(notes_view(notes@)),
                forall|k: int|
                    0 <= k < notes@.len() ==> #[trigger] notes@[k].timestamp_us
                        <= MAX_TIME_US && notes@[k].duration_us <= MAX_TIME_US,
            decreases lines@.len() - li,
        {
            let line = strip_cr(lines[li].as_str());
            let fields = split_str(line, '\t');
            let ghost fsv = fields@.map_values(|t: String| t@);
            proof {
                assert(fsv == fields_of_line(linesv[li as int]));
                assert(linesv.take(li as int + 1).drop_last() =~= linesv.take(li as int));
                assert(linesv.take(li as int + 1).last() == linesv[li as int]);
                assert(forall|k: int| 0 <= k < fields@.len() ==> fsv[k] == #[trigger] fields@[k]@);
            }
            if fields.len() >= 2 && str_eq(fields[1].as_str(), "note") {
                let mut good = false;
                if fields.len() >= 6 {
                    let ts_o = parse_seconds_us(fields[0].as_str());
                    let key_o = parse_u64(fields[2].as_str());
                    let dur_o = parse_u64(fields[3].as_str());
                    let dus_o = parse_seconds_us(fields[4].as_str());
                    if ts_o.is_some() && key_o.is_some() && dur_o.is_some() && dus_o.is_some() {
                        let key64 = key_o.unwrap();
                        let dur64 = dur_o.unwrap();
                        if key64 <= u8::MAX as u64 && dur64 <= u32::MAX as u64 {
                            good = true;
                            let ghost pre_notes = notes@;
                            notes.push(
                                SongNote {
                                    timestamp_us: ts_o.unwrap(),
                                    midi_key: key64 as u8,
                                    duration: dur64 as u32,
                                    duration_us: dus_o.unwrap(),
                                    notehead_id: fields[5].clone(),
                                },
                            );
                            proof {
                                assert(note_record_valid(fsv));
                                assert(notes@.drop_last() =~= pre_notes);
                                assert(seconds_us_spec(fsv[0]) <= MAX_TIME_US);
                                assert(seconds_us_spec(fsv[4]) <= MAX_TIME_US);
                                assert(forall|k: int|
                                    0 <= k < notes@.len() - 1 ==> notes@[k] == pre_notes[k]);
                                assert(notes@.last().timestamp_us <= MAX_TIME_US);
                                assert(notes@.last().duration_us <= MAX_TIME_US);
                                assert(notes_view(notes@).drop_last() =~= notes_view(
                                    notes@.drop_last(),
                                ));
                                assert(notes_view(notes@).last() == note_of_record(fsv));
                                assert(notes_view(notes@) =~= notes_view(
                                    notes@.drop_last(),
                                ).push(note_of_record(fsv)));
                            }
                        }
                    }
                }
                if !good {
                    proof {
                        assert(!note_record_valid(fsv));
                        assert(parse_notes_spec(linesv.take(li as int + 1)) == Err::<
                            Seq<NoteV>,
                            int,
                        >(li as int));
                        lemma_parse_notes_err_prefix(linesv, li as int + 1);
                    }
                    return Err(SongError::BadNotes { line: li });
                }
            }
            proof {
                assert(parse_notes_spec(linesv.take(li as int + 1)) == Ok::<_, int>(
                    notes_view(notes@),
                ));
            }
            li += 1;
        }
        proof {
            assert(linesv.take(lines@.len() as int) =~= linesv);
        }
        let events = sort_events(derive_events(&notes));
        proof {
            lemma_sort_events_sorted(raw_events_spec(notes_view(notes@)));
        }
        Ok(SongFile { name, notes, events })
    }
}

/// The loaded song.
#[derive(Debug)]
pub struct Song {
    pub file: SongFile,
}

impl Song {
    pub fn new(file: SongFile) -> (r: Song)
        ensures
            r.file == file,
    {
        Song { file }
    }
}

/// The playback clock: how far song time has run, and how many events have
/// already been handed out.
#[derive(Debug)]
pub struct PlaybackState {
    pub song: Song,
    pub seen_events: usize,
    pub running_us: u64,
}

impl PlaybackState {
    /// The cursor never points past the end of the event list.
    pub open spec fn wf(&self) -> bool {
        self.seen_events <= self.song.file.events@.len()
    }

    pub fn new(song: Song) -> (r: PlaybackState)
        ensures
            r.song == song,
            r.seen_events == 0,
            r.running_us == 0,
            r.wf(),
    {
        PlaybackState { song, seen_events: 0, running_us: 0 }
    }

    /// Seek back to the song's start: no time has run, no event has been
    /// handed out.
    pub fn reset(&mut self)
        ensures
            final(self).song == old(self).song,
            final(self).seen_events == 0,
            final(self).running_us == 0,
            final(self).wf(),
    {
        self.seen_events = 0;
        self.running_us = 0;
    }

    /// Advance song time by `delta_us` and return every event owed by now,
    /// in list order: the contiguous run of not-yet-seen events whose
    /// timestamp has been reached.
    pub fn update(&mut self, delta_us: u64) -> (r: Vec<SongEvent>)
        requires
            old(self).wf(),
            old(self).running_us + delta_us <= u64::MAX,
        ensures
            final(self).wf(),
            final(self).song == old(self).song,
            final(self).running_us == old(self).running_us + delta_us,
            old(self).seen_events <= final(self).seen_events,
            r@ =~= old(self).song.file.events@.subrange(
                old(self).seen_events as int,
                final(self).seen_events as int,
            ),
            forall|k: int|
                old(self).seen_events <= k < final(self).seen_events
                    ==> #[trigger] old(self).song.file.events@[k].timestamp_us
                    <= final(self).running_us,
            final(self).seen_events < old(self).song.file.events@.len()
                ==> old(self).song.file.events@[final(self).seen_events as int].timestamp_us
                > final(self).running_us,
    {
        self.running_us = self.running_us + delta_us;
        let mut out: Vec<SongEvent> = Vec::new();
        while self.seen_events < self.song.file.events.len() && self.song.file.events[
            self.seen_events
        ].timestamp_us <= self.running_us
            invariant
                self.wf(),
                self.song == old(self).song,
                self.running_us == old(self).running_us + delta_us,
                old(self).seen_events <= self.seen_events,
                out@ =~= self.song.file.events@.subrange(
                    old(self).seen_events as int,
                    self.seen_events as int,
                ),
                forall|k: int|
                    old(self).seen_events <= k < self.seen_events
                        ==> #[trigger] self.song.file.events@[k].timestamp_us <= self.running_us,
            decreases self.song.file.events@.len() - self.seen_events,
        {
            out.push(self.song.file.events[self.seen_events].clone());
            self.seen_events = self.seen_events + 1;
        }
        out
    }
}

/// Clock monotonicity, two calls: successive `update` calls return
/// adjacent slices of the event list.
pub proof fn lemma_update_no_replay(events: Seq<SongEvent>, c0: int, c1: int, c2: int)
    requires
        0 <= c0 <= c1 <= c2 <= events.len(),
    ensures
        events.subrange(c0, c1) + events.subrange(c1, c2) =~= events.subrange(c0, c2),
{
}

/// What a sequence of `update` calls returns, concatenated: `cursors`
/// holds the clock's cursor before the first call and after each call.
pub open spec fn concat_updates(events: Seq<SongEvent>, cursors: Seq<int>) -> Seq<SongEvent>
    decreases cursors.len(),
{
    if cursors.len() <= 1 {
        Seq::empty()
    } else {
        events.subrange(cursors[0], cursors[1]) + concat_updates(events, cursors.drop_first())
    }
}

/// Clock monotonicity: across any sequence of `update` calls - whose
/// cursors never decrease, as `update` ensures - the concatenated output
/// is one contiguous run of the event list: each event of that run
/// appears exactly once, in list order, and never again once returned.
#[verifier::rlimit(50)]
pub proof fn lemma_clock_monotonic(events: Seq<SongEvent>, cursors: Seq<int>)
    requires
        cursors.len() >= 1,
        forall|i: int| 0 <= i < cursors.len() - 1 ==> #[trigger] cursors[i] <= cursors[i + 1],
        0 <= cursors[0],
        cursors[cursors.len() - 1] <= events.len(),
    ensures
        concat_updates(events, cursors) =~= events.subrange(
            cursors[0],
            cursors[cursors.len() - 1],
        ),
    decreases cursors.len(),
{
    assert forall|i: int| 0 <= i < cursors.len() implies 0 <= #[trigger] cursors[i]
        <= events.len() by {
        lemma_cursor_mono(cursors, 0, i);
        lemma_cursor_mono(cursors, i, cursors.len() - 1);
    }
    if cursors.len() == 1 {
        assert(events.subrange(cursors[0], cursors[0]) =~= Seq::<SongEvent>::empty());
    } else {
        let rest = cursors.drop_first();
        assert(forall|i: int|
            0 <= i < rest.len() - 1 ==> #[trigger] rest[i] <= rest[i + 1]) by {
            assert(forall|i: int| 0 <= i < rest.len() ==> rest[i] == cursors[i + 1]);
        }
        lemma_clock_monotonic(events, rest);
        assert(rest[0] == cursors[1] && rest[rest.len() - 1] == cursors[cursors.len() - 1]);
        assert(concat_updates(events, cursors) == events.subrange(cursors[0], cursors[1])
            + concat_updates(events, rest));
        assert(concat_updates(events, rest) =~= events.subrange(
            cursors[1],
            cursors[cursors.len() - 1],
        ));
        lemma_cursor_mono(cursors, 0, 1);
        lemma_cursor_mono(cursors, 1, cursors.len() - 1);
        lemma_update_no_replay(events, cursors[0], cursors[1], cursors[cursors.len() - 1]);
    }
}

/// A stepwise-monotone cursor run is monotone between any two positions.
proof fn lemma_cursor_mono(cursors: Seq<int>, i: int, j: int)
    requires
        forall|k: int| 0 <= k < cursors.len() - 1 ==> #[trigger] cursors[k] <= cursors[k + 1],
        0 <= i <= j < cursors.len(),
    ensures
        cursors[i] <= cursors[j],
    decreases j - i,
{
    if i < j {
        lemma_cursor_mono(cursors, i, j - 1);
    }
}

} // verus!
