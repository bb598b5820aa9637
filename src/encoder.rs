//! The piecewise formula of a song: one branch per interval between changes,
//! listing the notes that sound in it, split into sections of bounded length,
//! followed by the soundfont table.

use vstd::prelude::*;
use crate::text::{fixed3, int_text, nat_text, push_fixed3, push_int, push_nat, push_short_seconds, push_weight, short_seconds, weight_text};
use crate::types::{
    events_view, MidiNote, NoteEventModel, NoteInterval, ProcessedSong, RelativeNote,
    SoundFontMap, Weight,
};

verus! {

/// Longest a section of the piecewise formula may grow, in characters, before
/// a new one is started.
pub const MAX_FORMULA_LENGTH: usize = 20000;

/// The MIDI note of A4 (440 Hz), from which notes are counted.
pub const ROOT_NOTE: i32 = 69;

/// Semitones from A4 to a MIDI note.
pub open spec fn relative(note: u8) -> int {
    note as int - ROOT_NOTE
}

/// Converts a MIDI note number to semitones relative to A4 (note 69).
pub fn midi_note_to_relative(note: MidiNote) -> (r: RelativeNote)
    ensures
        r == relative(note),
{
    (note as i32) - ROOT_NOTE
}

// ---------------------------------------------------------------------------
// Times of change

/// Position of `t` in an ascending sequence: after every smaller time.
pub open spec fn time_slot(sorted: Seq<u64>, t: u64) -> int
    decreases sorted.len(),
{
    if sorted.len() == 0 {
        0
    } else if sorted.last() < t {
        sorted.len() as int
    } else {
        time_slot(sorted.drop_last(), t)
    }
}

/// An ascending sequence of distinct times with `t` added, unless present.
pub open spec fn insert_time(sorted: Seq<u64>, t: u64) -> Seq<u64> {
    let p = time_slot(sorted, t);
    if p < sorted.len() && sorted[p] == t {
        sorted
    } else {
        sorted.insert(p, t)
    }
}

/// Times with the end times of the notes added.
pub open spec fn insert_ends(sorted: Seq<u64>, notes: Seq<NoteInterval>) -> Seq<u64>
    decreases notes.len(),
{
    if notes.len() == 0 {
        sorted
    } else {
        insert_time(insert_ends(sorted, notes.drop_last()), notes.last().end_time)
    }
}

/// The distinct times, ascending, at which a note starts or ends.
pub open spec fn change_times(events: Seq<NoteEventModel>) -> Seq<u64>
    decreases events.len(),
{
    if events.len() == 0 {
        seq![]
    } else {
        let e = events.last();
        insert_ends(insert_time(change_times(events.drop_last()), e.timestamp), e.notes)
    }
}

proof fn lemma_time_slot(sorted: Seq<u64>, t: u64)
    requires
        forall|i: int, j: int| 0 <= i < j < sorted.len() ==> #[trigger] sorted[i] < #[trigger] sorted[j],
    ensures
        0 <= time_slot(sorted, t) <= sorted.len(),
        forall|i: int| 0 <= i < time_slot(sorted, t) ==> #[trigger] sorted[i] < t,
        forall|i: int| time_slot(sorted, t) <= i < sorted.len() ==> #[trigger] sorted[i] >= t,
    decreases sorted.len(),
{
    if sorted.len() > 0 {
        let d = sorted.drop_last();
        lemma_time_slot(d, t);
        if sorted.last() >= t {
            assert forall|i: int| time_slot(sorted, t) <= i < sorted.len() implies #[trigger] sorted[i] >= t by {
                if i < sorted.len() - 1 {
                    assert(d[i] == sorted[i]);
                }
            }
            assert forall|i: int| 0 <= i < time_slot(sorted, t) implies #[trigger] sorted[i] < t by {
                assert(d[i] == sorted[i]);
            }
        } else {
            assert forall|i: int| 0 <= i < time_slot(sorted, t) implies #[trigger] sorted[i] < t by {
                if i < sorted.len() - 1 {
                    assert(sorted[i] < sorted[sorted.len() - 1]);
                }
            }
        }
    }
}

/// Strictly ascending.
pub open spec fn ascending(s: Seq<u64>) -> bool {
    forall|i: int, j: int| 0 <= i < j < s.len() ==> #[trigger] s[i] < #[trigger] s[j]
}

proof fn lemma_insert_time(sorted: Seq<u64>, t: u64)
    requires
        ascending(sorted),
    ensures
        ascending(insert_time(sorted, t)),
        insert_time(sorted, t).len() >= 1,
        insert_time(sorted, t).len() >= sorted.len(),
{
    lemma_time_slot(sorted, t);
    let p = time_slot(sorted, t);
    let r = insert_time(sorted, t);
    if !(p < sorted.len() && sorted[p] == t) {
        assert forall|i: int, j: int| 0 <= i < j < r.len() implies #[trigger] r[i] < #[trigger] r[j] by {
            if i < p && j > p {
                assert(sorted[i] < sorted[j - 1]);
            } else if i > p {
                assert(sorted[i - 1] < sorted[j - 1]);
            }
        }
    }
}

proof fn lemma_insert_ends(sorted: Seq<u64>, notes: Seq<NoteInterval>)
    requires
        ascending(sorted),
    ensures
        ascending(insert_ends(sorted, notes)),
        insert_ends(sorted, notes).len() >= sorted.len(),
    decreases notes.len(),
{
    if notes.len() > 0 {
        lemma_insert_ends(sorted, notes.drop_last());
        lemma_insert_time(insert_ends(sorted, notes.drop_last()), notes.last().end_time);
    }
}

/// The times of change are strictly ascending, and there is one at least as
/// soon as there is an event.
pub proof fn lemma_change_times(events: Seq<NoteEventModel>)
    ensures
        ascending(change_times(events)),
        events.len() > 0 ==> change_times(events).len() >= 1,
    decreases events.len(),
{
    if events.len() > 0 {
        let e = events.last();
        lemma_change_times(events.drop_last());
        lemma_insert_time(change_times(events.drop_last()), e.timestamp);
        lemma_insert_ends(insert_time(change_times(events.drop_last()), e.timestamp), e.notes);
    }
}

/// The end times of notes.
pub open spec fn end_set(notes: Seq<NoteInterval>) -> Set<u64>
    decreases notes.len(),
{
    if notes.len() == 0 {
        Set::empty()
    } else {
        end_set(notes.drop_last()).insert(notes.last().end_time)
    }
}

/// Every time at which a note starts or ends.
pub open spec fn time_set(events: Seq<NoteEventModel>) -> Set<u64>
    decreases events.len(),
{
    if events.len() == 0 {
        Set::empty()
    } else {
        time_set(events.drop_last()).insert(events.last().timestamp).union(end_set(events.last().notes))
    }
}

proof fn lemma_insert_time_contains(s: Seq<u64>, t: u64)
    requires
        ascending(s),
    ensures
        forall|x: u64| #[trigger] insert_time(s, t).contains(x) <==> (s.contains(x) || x == t),
{
    lemma_time_slot(s, t);
    let p = time_slot(s, t);
    let r = insert_time(s, t);
    if p < s.len() && s[p] == t {
        assert(s.contains(t));
    } else {
        assert forall|x: u64| #[trigger] r.contains(x) <==> (s.contains(x) || x == t) by {
            if r.contains(x) {
                let i = choose|i: int| 0 <= i < r.len() && r[i] == x;
                if i < p {
                    assert(s[i] == x);
                } else if i > p {
                    assert(s[i - 1] == x);
                }
            }
            if s.contains(x) {
                let j = choose|j: int| 0 <= j < s.len() && s[j] == x;
                if j < p {
                    assert(r[j] == x);
                } else {
                    assert(r[j + 1] == x);
                }
            }
            if x == t {
                assert(r[p] == x);
            }
        }
    }
}

proof fn lemma_insert_ends_contains(s: Seq<u64>, notes: Seq<NoteInterval>)
    requires
        ascending(s),
    ensures
        ascending(insert_ends(s, notes)),
        forall|x: u64| #[trigger] insert_ends(s, notes).contains(x) <==> (s.contains(x) || end_set(notes).contains(x)),
    decreases notes.len(),
{
    if notes.len() > 0 {
        lemma_insert_ends_contains(s, notes.drop_last());
        lemma_insert_ends(s, notes.drop_last());
        lemma_insert_time_contains(insert_ends(s, notes.drop_last()), notes.last().end_time);
        lemma_insert_time(insert_ends(s, notes.drop_last()), notes.last().end_time);
    }
}

/// The times of change are exactly the start and end times of the notes,
/// each once, in ascending order.
pub proof fn lemma_change_times_are_note_times(events: Seq<NoteEventModel>)
    ensures
        ascending(change_times(events)),
        forall|x: u64| #[trigger] change_times(events).contains(x) <==> time_set(events).contains(x),
    decreases events.len(),
{
    lemma_change_times(events);
    if events.len() > 0 {
        let e = events.last();
        let prev = change_times(events.drop_last());
        lemma_change_times_are_note_times(events.drop_last());
        lemma_insert_time_contains(prev, e.timestamp);
        lemma_insert_time(prev, e.timestamp);
        lemma_insert_ends_contains(insert_time(prev, e.timestamp), e.notes);
    }
}

/// Adds a time to an ascending sequence of distinct times, unless present.
fn insert_time_exec(v: &mut Vec<u64>, t: u64)
    ensures
        final(v)@ == insert_time(old(v)@, t),
{
    let ghost before = v@;
    proof {
        assert(before.subrange(0, before.len() as int) =~= before);
    }
    let mut p: usize = v.len();
    while p > 0 && v[p - 1] >= t
        invariant
            v@ == before,
            0 <= p <= before.len(),
            time_slot(before, t) == time_slot(before.subrange(0, p as int), t),
        decreases p,
    {
        proof {
            assert(before.subrange(0, p as int).drop_last() =~= before.subrange(0, p as int - 1));
        }
        p = p - 1;
    }
    proof {
        if p > 0 {
            assert(before.subrange(0, p as int).last() == before[p - 1]);
        }
    }
    if !(p < v.len() && v[p] == t) {
        v.insert(p, t);
    }
}

// ---------------------------------------------------------------------------
// Notes sounding at a time

/// The notes of a group still sounding at `t`: those ending after it.
pub open spec fn sounding(notes: Seq<NoteInterval>, t: u64) -> Seq<NoteInterval>
    decreases notes.len(),
{
    if notes.len() == 0 {
        seq![]
    } else {
        let prev = sounding(notes.drop_last(), t);
        if notes.last().end_time > t {
            prev.push(notes.last())
        } else {
            prev
        }
    }
}

/// The notes sounding at `t`: started at or before it and ending after it,
/// group after group.
pub open spec fn active_at(events: Seq<NoteEventModel>, t: u64) -> Seq<NoteInterval>
    decreases events.len(),
{
    if events.len() == 0 {
        seq![]
    } else {
        let e = events.last();
        active_at(events.drop_last(), t) + if e.timestamp <= t {
            sounding(e.notes, t)
        } else {
            seq![]
        }
    }
}

/// The notes with note number `k`, in order.
pub open spec fn with_note(s: Seq<NoteInterval>, k: int) -> Seq<NoteInterval>
    decreases s.len(),
{
    if s.len() == 0 {
        seq![]
    } else {
        let prev = with_note(s.drop_last(), k);
        if s.last().note == k {
            prev.push(s.last())
        } else {
            prev
        }
    }
}

/// The notes with a note number below `k`, by ascending note number; notes
/// with the same number keep their order.
pub open spec fn by_note(s: Seq<NoteInterval>, k: int) -> Seq<NoteInterval>
    decreases k,
{
    if k <= 0 {
        seq![]
    } else {
        by_note(s, k - 1) + with_note(s, k - 1)
    }
}

/// The notes sounding at `t`, by ascending note number.
pub open spec fn sorted_active(events: Seq<NoteEventModel>, t: u64) -> Seq<NoteInterval> {
    by_note(active_at(events, t), 256)
}

// ---------------------------------------------------------------------------
// Text of the branches

/// A note as the triple relative note, velocity, soundfont index.
pub open spec fn triple_text(iv: NoteInterval) -> Seq<char> {
    int_text(relative(iv.note)) + ","@ + nat_text(iv.velocity as nat) + ","@ + nat_text(
        iv.soundfont as nat,
    )
}

/// The triples of the notes, separated by commas.
pub open spec fn triples_text(s: Seq<NoteInterval>) -> Seq<char>
    decreases s.len(),
{
    if s.len() == 0 {
        seq![]
    } else if s.len() == 1 {
        triple_text(s[0])
    } else {
        triples_text(s.drop_last()) + ","@ + triple_text(s.last())
    }
}

/// The array of the notes' triples.
pub open spec fn array_text(s: Seq<NoteInterval>) -> Seq<char> {
    "\\left["@ + triples_text(s) + "\\right]"@
}

/// The branch of window `i`: until the next time of change, the notes
/// sounding from time `i`.
pub open spec fn piece_text(events: Seq<NoteEventModel>, times: Seq<u64>, i: int) -> Seq<char> {
    "t<"@ + fixed3(times[i + 1] as nat) + ":"@ + array_text(sorted_active(events, times[i]))
}

/// The branch of silence that ends a song whose last change is at `last`:
/// until a tenth of a second later.
pub open spec fn end_piece(last: nat) -> Seq<char> {
    "t<"@ + short_seconds(last + 100) + ":\\left[\\right]"@
}

// ---------------------------------------------------------------------------
// Sections

/// A finished section: its branches, joined, and the time its last one ends.
pub ghost struct SectionModel {
    pub text: Seq<char>,
    pub end: nat,
}

/// The sections so far and the one being filled: its text, number of
/// branches, total length of its branches and the time its last one ends.
pub ghost struct SplitModel {
    pub closed: Seq<SectionModel>,
    pub text: Seq<char>,
    pub count: nat,
    pub len: nat,
    pub end: nat,
}

/// No sections yet.
pub open spec fn empty_split() -> SplitModel {
    SplitModel { closed: seq![], text: seq![], count: 0, len: 0, end: 0 }
}

/// A branch added to the current section; the section is closed first when
/// the branch would take its length past the maximum and it is not empty.
pub open spec fn add_piece(st: SplitModel, p: Seq<char>, end: nat) -> SplitModel {
    let st1 = if st.len + p.len() > MAX_FORMULA_LENGTH && st.count > 0 {
        SplitModel {
            closed: st.closed.push(SectionModel { text: st.text, end: st.end }),
            text: seq![],
            count: 0,
            len: 0,
            end: 0,
        }
    } else {
        st
    };
    SplitModel {
        closed: st1.closed,
        text: if st1.count == 0 {
            p
        } else {
            st1.text + ","@ + p
        },
        count: st1.count + 1,
        len: st1.len + p.len(),
        end,
    }
}

/// The sections after the branches of the first `n` windows.
pub open spec fn split_windows(events: Seq<NoteEventModel>, times: Seq<u64>, n: int) -> SplitModel
    decreases n,
{
    if n <= 0 {
        empty_split()
    } else {
        add_piece(
            split_windows(events, times, n - 1),
            piece_text(events, times, n - 1),
            times[n] as nat,
        )
    }
}

/// All sections of a song with notes: the branches of every window, then the
/// closing branch of silence in the last section, whatever its length.
pub open spec fn sections_of(events: Seq<NoteEventModel>) -> Seq<SectionModel> {
    let times = change_times(events);
    let st = split_windows(events, times, times.len() - 1);
    let p = end_piece(times.last() as nat);
    st.closed.push(
        SectionModel {
            text: if st.count == 0 {
                p
            } else {
                st.text + ","@ + p
            },
            end: times.last() as nat + 100,
        },
    )
}

/// Name of the `i`-th section.
pub open spec fn section_name(i: nat) -> Seq<char> {
    "A_{"@ + nat_text(i) + "}"@
}

/// A piecewise definition.
pub open spec fn definition(name: Seq<char>, body: Seq<char>) -> Seq<char> {
    name + "=\\left\\{"@ + body + "\\right\\}"@
}

/// Branch of the selector that hands the times of section `i` to it.
pub open spec fn selector_piece(secs: Seq<SectionModel>, i: int) -> Seq<char> {
    "t<"@ + fixed3(secs[i].end) + ":"@ + section_name((i + 1) as nat)
}

/// The selector's branches for the first `n` sections.
pub open spec fn selector_body(secs: Seq<SectionModel>, n: int) -> Seq<char>
    decreases n,
{
    if n <= 0 {
        seq![]
    } else if n == 1 {
        selector_piece(secs, 0)
    } else {
        selector_body(secs, n - 1) + ","@ + selector_piece(secs, n - 1)
    }
}

/// The definitions of the first `n` sections, one per line.
pub open spec fn section_defs(secs: Seq<SectionModel>, n: int) -> Seq<char>
    decreases n,
{
    if n <= 0 {
        seq![]
    } else if n == 1 {
        definition(section_name(1), secs[0].text)
    } else {
        section_defs(secs, n - 1) + "\n"@ + definition(section_name(n as nat), secs[n - 1].text)
    }
}

/// The piecewise part: a single section is `A` itself; several are named
/// sections under a selector `A`.
pub open spec fn piecewise_text(secs: Seq<SectionModel>) -> Seq<char> {
    if secs.len() == 1 {
        definition("A"@, secs[0].text)
    } else {
        definition("A"@, selector_body(secs, secs.len() as int)) + "\n"@ + section_defs(
            secs,
            secs.len() as int,
        )
    }
}

// ---------------------------------------------------------------------------
// Soundfont table

/// The rows of a table, concatenated.
pub open spec fn flat_weights(fonts: Seq<Vec<Weight>>) -> Seq<Weight>
    decreases fonts.len(),
{
    if fonts.len() == 0 {
        seq![]
    } else {
        flat_weights(fonts.drop_last()) + fonts.last()@
    }
}

/// Weights separated by commas.
pub open spec fn weights_join(ws: Seq<Weight>) -> Seq<char>
    decreases ws.len(),
{
    if ws.len() == 0 {
        seq![]
    } else if ws.len() == 1 {
        weight_text(ws[0])
    } else {
        weights_join(ws.drop_last()) + ","@ + weight_text(ws.last())
    }
}

/// The table `B`, flattened, and the row length `C`.
pub open spec fn soundfont_text(t: SoundFontMap) -> Seq<char> {
    "B=\\left["@ + weights_join(flat_weights(t.fonts@)) + "\\right]"@ + "\n"@ + "C="@ + nat_text(
        t.max_size as nat,
    )
}

/// The formula of a song.
pub open spec fn formula_text(song: ProcessedSong) -> Seq<char> {
    if song.note_changes@.len() == 0 {
        "A=\\left\\{t<0:\\left[\\right]\\right\\}\nB=\\left[\\right]\nC=0"@
    } else {
        piecewise_text(sections_of(events_view(song.note_changes@))) + "\n"@ + soundfont_text(
            song.soundfonts,
        )
    }
}


/// Encoding is a function of the song's contents: songs with the same note
/// events and the same soundfont table encode to the same text, so encoding a
/// song twice gives the same text twice.
pub proof fn lemma_encoding_deterministic(a: ProcessedSong, b: ProcessedSong)
    requires
        events_view(a.note_changes@) == events_view(b.note_changes@),
        a.soundfonts == b.soundfonts,
    ensures
        formula_text(a) == formula_text(b),
{
    assert(a.note_changes@.len() == events_view(a.note_changes@).len());
    assert(b.note_changes@.len() == events_view(b.note_changes@).len());
}

// ---------------------------------------------------------------------------
// Encoding

/// A finished section of the piecewise formula.
struct Section {
    text: String,
    end: u128,
}

/// Views of finished sections.
spec fn sections_view(v: Seq<Section>) -> Seq<SectionModel> {
    v.map_values(|s: Section| SectionModel { text: s.text@, end: s.end as nat })
}

/// Appends a literal text.
fn push_str(s: &mut String, t: &str)
    ensures
        final(s)@ == old(s)@ + t@,
{
    s.append(t);
}

/// Appends the triple of a note.
fn push_triple(s: &mut String, iv: NoteInterval)
    ensures
        final(s)@ == old(s)@ + triple_text(iv),
{
    push_int(s, midi_note_to_relative(iv.note) as i64);
    push_str(s, ",");
    push_nat(s, iv.velocity as u128);
    push_str(s, ",");
    push_nat(s, iv.soundfont as u128);
    assert(final(s)@ =~= old(s)@ + triple_text(iv));
}

/// Formats notes as an array of (relative note, velocity, soundfont index)
/// triples.
fn format_note_array_simple(notes: &Vec<NoteInterval>) -> (r: String)
    ensures
        r@ == array_text(notes@),
{
    let mut s = String::new();
    push_str(&mut s, "\\left[");
    let mut j: usize = 0;
    while j < notes.len()
        invariant
            0 <= j <= notes@.len(),
            s@ == "\\left["@ + triples_text(notes@.subrange(0, j as int)),
        decreases notes@.len() - j,
    {
        proof {
            assert(notes@.subrange(0, j as int + 1).drop_last() =~= notes@.subrange(0, j as int));
        }
        if j > 0 {
            push_str(&mut s, ",");
        }
        push_triple(&mut s, notes[j]);
        proof {
            if j == 0 {
                assert(triples_text(notes@.subrange(0, 0)) =~= seq![]);
                assert(notes@.subrange(0, 1)[0] == notes@[0]);
            }
            assert(s@ =~= "\\left["@ + triples_text(notes@.subrange(0, j as int + 1)));
        }
        j = j + 1;
    }
    push_str(&mut s, "\\right]");
    proof {
        assert(notes@.subrange(0, notes@.len() as int) =~= notes@);
    }
    s
}

/// Appends the name of the `i`-th section.
fn push_section_name(s: &mut String, i: usize)
    ensures
        final(s)@ == old(s)@ + section_name(i as nat),
{
    push_str(s, "A_{");
    push_nat(s, i as u128);
    push_str(s, "}");
    assert(final(s)@ =~= old(s)@ + section_name(i as nat));
}

impl ProcessedSong {
    /// Collects the distinct times, ascending, at which a note starts or ends.
    fn collect_all_timestamps(&self) -> (r: Vec<u64>)
        ensures
            r@ == change_times(events_view(self.note_changes@)),
    {
        let ghost evs = events_view(self.note_changes@);
        let mut ts: Vec<u64> = Vec::new();
        let mut i: usize = 0;
        while i < self.note_changes.len()
            invariant
                evs == events_view(self.note_changes@),
                0 <= i <= evs.len(),
                ts@ == change_times(evs.subrange(0, i as int)),
            decreases evs.len() - i,
        {
            let e = &self.note_changes[i];
            assert(e@ == evs[i as int]);
            insert_time_exec(&mut ts, e.timestamp);
            let ghost base = ts@;
            let mut j: usize = 0;
            while j < e.notes.len()
                invariant
                    0 <= j <= e.notes@.len(),
                    ts@ == insert_ends(base, e.notes@.subrange(0, j as int)),
                decreases e.notes@.len() - j,
            {
                proof {
                    assert(e.notes@.subrange(0, j as int + 1).drop_last() =~= e.notes@.subrange(0, j as int));
                }
                insert_time_exec(&mut ts, e.notes[j].end_time);
                j = j + 1;
            }
            proof {
                assert(e.notes@.subrange(0, e.notes@.len() as int) =~= e.notes@);
                assert(evs.subrange(0, i as int + 1).drop_last() =~= evs.subrange(0, i as int));
            }
            i = i + 1;
        }
        proof {
            assert(evs.subrange(0, evs.len() as int) =~= evs);
        }
        ts
    }

    /// Collects the notes sounding at `current_time`, by ascending note number.
    fn collect_active_notes(&self, current_time: u64) -> (r: Vec<NoteInterval>)
        ensures
            r@ == sorted_active(events_view(self.note_changes@), current_time),
    {
        let ghost evs = events_view(self.note_changes@);
        let mut active: Vec<NoteInterval> = Vec::new();
        let mut i: usize = 0;
        while i < self.note_changes.len()
            invariant
                evs == events_view(self.note_changes@),
                0 <= i <= evs.len(),
                active@ == active_at(evs.subrange(0, i as int), current_time),
            decreases evs.len() - i,
        {
            let e = &self.note_changes[i];
            assert(e@ == evs[i as int]);
            let ghost base = active@;
            if e.timestamp <= current_time {
                let mut j: usize = 0;
                proof {
                    assert(base + sounding(e.notes@.subrange(0, 0), current_time) =~= base);
                }
                while j < e.notes.len()
                    invariant
                        0 <= j <= e.notes@.len(),
                        active@ == base + sounding(e.notes@.subrange(0, j as int), current_time),
                    decreases e.notes@.len() - j,
                {
                    proof {
                        assert(e.notes@.subrange(0, j as int + 1).drop_last() =~= e.notes@.subrange(0, j as int));
                    }
                    let n = e.notes[j];
                    if n.end_time > current_time {
                        active.push(n);
                    }
                    proof {
                        assert(active@ =~= base + sounding(e.notes@.subrange(0, j as int + 1), current_time));
                    }
                    j = j + 1;
                }
                proof {
                    assert(e.notes@.subrange(0, e.notes@.len() as int) =~= e.notes@);
                }
            }
            proof {
                assert(evs.subrange(0, i as int + 1).drop_last() =~= evs.subrange(0, i as int));
                assert(active@ =~= active_at(evs.subrange(0, i as int + 1), current_time));
            }
            i = i + 1;
        }
        proof {
            assert(evs.subrange(0, evs.len() as int) =~= evs);
        }
        let mut out: Vec<NoteInterval> = Vec::new();
        let mut k: usize = 0;
        while k < 256
            invariant
                0 <= k <= 256,
                out@ == by_note(active@, k as int),
            decreases 256 - k,
        {
            let ghost base = out@;
            let mut j: usize = 0;
            proof {
                assert(base + with_note(active@.subrange(0, 0), k as int) =~= base);
            }
            while j < active.len()
                invariant
                    0 <= j <= active@.len(),
                    0 <= k < 256,
                    out@ == base + with_note(active@.subrange(0, j as int), k as int),
                decreases active@.len() - j,
            {
                proof {
                    assert(active@.subrange(0, j as int + 1).drop_last() =~= active@.subrange(0, j as int));
                }
                let n = active[j];
                if n.note as usize == k {
                    out.push(n);
                }
                proof {
                    assert(out@ =~= base + with_note(active@.subrange(0, j as int + 1), k as int));
                }
                j = j + 1;
            }
            proof {
                assert(active@.subrange(0, active@.len() as int) =~= active@);
            }
            k = k + 1;
        }
        out
    }

    /// Builds the branch of each window between consecutive times of change
    /// and gathers them into sections of bounded length.
    fn process_timestamps(&self, timestamps: &Vec<u64>) -> (r: (Vec<Section>, String, usize, u128))
        requires
            timestamps@.len() >= 1,
        ensures
            ({
                let st = split_windows(
                    events_view(self.note_changes@),
                    timestamps@,
                    timestamps@.len() - 1,
                );
                sections_view(r.0@) == st.closed && r.1@ == st.text && r.2 == st.count && r.3 == st.end
            }),
    {
        let ghost evs = events_view(self.note_changes@);
        let ghost times = timestamps@;
        let n = timestamps.len() - 1;
        let mut closed: Vec<Section> = Vec::new();
        let mut text = String::new();
        let mut count: usize = 0;
        let mut len: usize = 0;
        let mut end: u128 = 0;
        let mut i: usize = 0;
        proof {
            assert(sections_view(closed@) =~= seq![]);
        }
        while i < n
            invariant
                evs == events_view(self.note_changes@),
                times == timestamps@,
                n + 1 == times.len(),
                0 <= i <= n,
                count <= i,
                count == 0 ==> len == 0,
                ({
                    let st = split_windows(evs, times, i as int);
                    sections_view(closed@) == st.closed && text@ == st.text && count == st.count
                        && len == st.len && end == st.end
                }),
            decreases n - i,
        {
            let mut piece = String::new();
            push_str(&mut piece, "t<");
            push_fixed3(&mut piece, timestamps[i + 1] as u128);
            push_str(&mut piece, ":");
            let active = self.collect_active_notes(timestamps[i]);
            let arr = format_note_array_simple(&active);
            push_str(&mut piece, arr.as_str());
            assert(piece@ =~= piece_text(evs, times, i as int));
            let plen = piece.as_str().unicode_len();
            let ghost st0 = split_windows(evs, times, i as int);
            if (plen > MAX_FORMULA_LENGTH || len > MAX_FORMULA_LENGTH - plen) && count > 0 {
                let done = Section { text, end };
                closed.push(done);
                proof {
                    assert(sections_view(closed@) =~= st0.closed.push(SectionModel { text: st0.text, end: st0.end }));
                }
                text = String::new();
                count = 0;
                len = 0;
            }
            if count == 0 {
                text = piece;
            } else {
                push_str(&mut text, ",");
                push_str(&mut text, piece.as_str());
            }
            count = count + 1;
            len = len + plen;
            end = timestamps[i + 1] as u128;
            proof {
                let st1 = split_windows(evs, times, i as int + 1);
                assert(st1 == add_piece(st0, piece_text(evs, times, i as int), times[i + 1] as nat));
                assert(text@ =~= st1.text);
            }
            i = i + 1;
        }
        (closed, text, count, end)
    }

    /// Encodes the song as newline-separated definitions: the piecewise
    /// function `A` of the notes sounding between changes (split into
    /// sections `A_{1}`, `A_{2}`, ... under a selector when long), the
    /// flattened soundfont table `B` and its row length `C`.
    pub fn to_piecewise_function(&self) -> (r: String)
        ensures
            r@ == formula_text(*self),
    {
        if self.note_changes.len() == 0 {
            return String::from_str("A=\\left\\{t<0:\\left[\\right]\\right\\}\nB=\\left[\\right]\nC=0");
        }
        let ghost evs = events_view(self.note_changes@);
        let timestamps = self.collect_all_timestamps();
        proof {
            lemma_change_times(evs);
        }
        let (mut closed, mut text, count, _end) = self.process_timestamps(&timestamps);
        let last = timestamps[timestamps.len() - 1];
        let mut p = String::new();
        push_str(&mut p, "t<");
        push_short_seconds(&mut p, last as u128 + 100);
        push_str(&mut p, ":\\left[\\right]");
        assert(p@ =~= end_piece(last as nat));
        if count == 0 {
            text = p;
        } else {
            push_str(&mut text, ",");
            push_str(&mut text, p.as_str());
        }
        closed.push(Section { text, end: last as u128 + 100 });
        let ghost secs = sections_of(evs);
        assert(sections_view(closed@) =~= secs);
        let mut out = String::new();
        if closed.len() == 1 {
            push_str(&mut out, "A");
            push_str(&mut out, "=\\left\\{");
            push_str(&mut out, closed[0].text.as_str());
            push_str(&mut out, "\\right\\}");
            assert(closed[0].text@ == secs[0].text);
            assert(out@ =~= piecewise_text(secs));
        } else {
            push_str(&mut out, "A");
            push_str(&mut out, "=\\left\\{");
            let ghost head = out@;
            let mut i: usize = 0;
            while i < closed.len()
                invariant
                    sections_view(closed@) == secs,
                    secs.len() > 1,
                    0 <= i <= closed@.len(),
                    out@ == head + selector_body(secs, i as int),
                decreases closed@.len() - i,
            {
                if i > 0 {
                    push_str(&mut out, ",");
                }
                push_str(&mut out, "t<");
                push_fixed3(&mut out, closed[i].end);
                push_str(&mut out, ":");
                push_section_name(&mut out, i + 1);
                proof {
                    assert(closed@[i as int].end as nat == secs[i as int].end);
                    if i == 0 {
                        assert(out@ =~= head + selector_body(secs, 1));
                    } else {
                        assert(out@ =~= head + selector_body(secs, i as int + 1));
                    }
                }
                i = i + 1;
            }
            push_str(&mut out, "\\right\\}");
            push_str(&mut out, "\n");
            let ghost head2 = out@;
            assert(head2 =~= definition("A"@, selector_body(secs, secs.len() as int)) + "\n"@);
            let mut k: usize = 0;
            while k < closed.len()
                invariant
                    sections_view(closed@) == secs,
                    0 <= k <= closed@.len(),
                    out@ == head2 + section_defs(secs, k as int),
                decreases closed@.len() - k,
            {
                if k > 0 {
                    push_str(&mut out, "\n");
                }
                push_section_name(&mut out, k + 1);
                push_str(&mut out, "=\\left\\{");
                push_str(&mut out, closed[k].text.as_str());
                push_str(&mut out, "\\right\\}");
                proof {
                    assert(closed@[k as int].text@ == secs[k as int].text);
                    if k == 0 {
                        assert(out@ =~= head2 + section_defs(secs, 1));
                    } else {
                        assert(out@ =~= head2 + section_defs(secs, k as int + 1));
                    }
                }
                k = k + 1;
            }
            assert(out@ =~= piecewise_text(secs));
        }
        push_str(&mut out, "\n");
        self.push_soundfonts(&mut out);
        assert(out@ =~= formula_text(*self));
        out
    }

    /// Appends the flattened soundfont table `B` and its row length `C`.
    fn push_soundfonts(&self, out: &mut String)
        ensures
            final(out)@ == old(out)@ + soundfont_text(self.soundfonts),
    {
        let fonts = &self.soundfonts.fonts;
        push_str(out, "B=\\left[");
        let ghost head = out@;
        let mut r: usize = 0;
        let mut first = true;
        while r < fonts.len()
            invariant
                0 <= r <= fonts@.len(),
                out@ == head + weights_join(flat_weights(fonts@.subrange(0, r as int))),
                first <==> flat_weights(fonts@.subrange(0, r as int)).len() == 0,
            decreases fonts@.len() - r,
        {
            let row = &fonts[r];
            let ghost flat0 = flat_weights(fonts@.subrange(0, r as int));
            let mut j: usize = 0;
            while j < row.len()
                invariant
                    0 <= r < fonts@.len(),
                    row@ == fonts@[r as int]@,
                    0 <= j <= row@.len(),
                    out@ == head + weights_join(flat0 + row@.subrange(0, j as int)),
                    first <==> (flat0 + row@.subrange(0, j as int)).len() == 0,
                decreases row@.len() - j,
            {
                let ghost ws = flat0 + row@.subrange(0, j as int);
                let w = row[j];
                if !first {
                    push_str(out, ",");
                }
                push_weight(out, w);
                first = false;
                proof {
                    let ws1 = flat0 + row@.subrange(0, j as int + 1);
                    assert(ws1.drop_last() =~= ws);
                    assert(ws1.last() == w);
                    assert(out@ =~= head + weights_join(ws1));
                }
                j = j + 1;
            }
            proof {
                assert(row@.subrange(0, row@.len() as int) =~= row@);
                assert(fonts@.subrange(0, r as int + 1).drop_last() =~= fonts@.subrange(0, r as int));
                assert(fonts@.subrange(0, r as int + 1).last() == fonts@[r as int]);
            }
            r = r + 1;
        }
        proof {
            assert(fonts@.subrange(0, fonts@.len() as int) =~= fonts@);
        }
        push_str(out, "\\right]");
        push_str(out, "\n");
        push_str(out, "C=");
        push_nat(out, self.soundfonts.max_size as u128);
        assert(final(out)@ =~= old(out)@ + soundfont_text(self.soundfonts));
    }
}

} // verus!
