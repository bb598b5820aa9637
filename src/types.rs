//! The data model of a converted song: channels, note intervals grouped by
//! start time, soundfont weights and the errors of the conversion.

use vstd::prelude::*;

verus! {

/// Timestamp in milliseconds.
pub type Timestamp = u64;

/// MIDI note number (0-127).
pub type MidiNote = u8;

/// Note velocity (0-127).
pub type Velocity = u8;

/// Number of semitones relative to A4 (440 Hz).
pub type RelativeNote = i32;

/// The MIDI channel that General MIDI reserves for drums (channel 10).
pub const DRUM_CHANNEL: u8 = 9;

/// Number of MIDI channels.
pub const CHANNEL_COUNT: usize = 16;

/// A MIDI channel seen in a file, with the last instrument chosen for it.
#[derive(Debug, Clone, Copy, PartialEq, Eq, Structural)]
pub struct Channel {
    /// Channel number (0-15).
    pub id: u8,
    /// General MIDI program number (0-127).
    pub instrument: u8,
    /// Whether this is the drum channel.
    pub is_drum: bool,
}

/// One sounding note: from the start time of its group to `end_time`.
#[derive(Debug, Clone, Copy, PartialEq, Eq, Structural)]
pub struct NoteInterval {
    pub note: MidiNote,
    pub velocity: Velocity,
    /// Index into the soundfont table (the raw channel before binding).
    pub soundfont: usize,
    /// Time in milliseconds at which the note stops.
    pub end_time: Timestamp,
}

/// The notes that start at one timestamp.
#[derive(Debug, Clone)]
pub struct NoteEvent {
    /// Time in milliseconds at which the notes start.
    pub timestamp: Timestamp,
    pub notes: Vec<NoteInterval>,
}

/// A ghost view of a note event.
pub ghost struct NoteEventModel {
    pub timestamp: Timestamp,
    pub notes: Seq<NoteInterval>,
}

impl View for NoteEvent {
    type V = NoteEventModel;

    open spec fn view(&self) -> NoteEventModel {
        NoteEventModel { timestamp: self.timestamp, notes: self.notes@ }
    }
}

/// Views of a sequence of note events.
pub open spec fn events_view(v: Seq<NoteEvent>) -> Seq<NoteEventModel> {
    v.map_values(|e: NoteEvent| e@)
}

/// A harmonic weight as an exact decimal: `digits / 10^scale`, negated when
/// `negative` holds.
#[derive(Debug, Clone, Copy, PartialEq, Eq, Structural)]
pub struct Weight {
    pub negative: bool,
    pub digits: u64,
    pub scale: u8,
}

impl Weight {
    /// The weight zero, used for padding.
    pub fn zero() -> (r: Weight)
        ensures
            r == (Weight { negative: false, digits: 0, scale: 0 }),
    {
        Weight { negative: false, digits: 0, scale: 0 }
    }
}

/// The padded length of a soundfont table: the length of its longest row.
pub open spec fn max_len(fonts: Seq<Vec<Weight>>) -> nat
    decreases fonts.len(),
{
    if fonts.len() == 0 {
        0
    } else {
        let rest = max_len(fonts.drop_last());
        if fonts.last()@.len() > rest {
            fonts.last()@.len()
        } else {
            rest
        }
    }
}

/// A row padded with zero weights to length `n`.
pub open spec fn padded(row: Seq<Weight>, n: nat) -> Seq<Weight> {
    row + Seq::new((n - row.len()) as nat, |i: int| Weight { negative: false, digits: 0, scale: 0 })
}

/// A soundfont table: every row padded to the length of the longest one.
#[derive(Debug, Clone)]
pub struct SoundFontMap {
    /// Rows of harmonic weights, each `max_size` long.
    pub fonts: Vec<Vec<Weight>>,
    /// Length of the longest row.
    pub max_size: usize,
}

impl SoundFontMap {
    /// Every row is `max_size` long.
    pub open spec fn wf(&self) -> bool {
        forall|i: int| 0 <= i < self.fonts@.len() ==> #[trigger] self.fonts@[i]@.len() == self.max_size
    }

    /// Builds a table, padding every row with zero weights to the length of
    /// the longest row.
    pub fn new(fonts: Vec<Vec<Weight>>) -> (r: Self)
        ensures
            r.wf(),
            r.max_size == max_len(fonts@),
            r.fonts@.len() == fonts@.len(),
            forall|i: int|
                0 <= i < fonts@.len() ==> #[trigger] r.fonts@[i]@ == padded(
                    fonts@[i]@,
                    max_len(fonts@),
                ),
    {
        let mut max_size: usize = 0;
        let mut i: usize = 0;
        while i < fonts.len()
            invariant
                0 <= i <= fonts@.len(),
                max_size == max_len(fonts@.subrange(0, i as int)),
            decreases fonts@.len() - i,
        {
            proof {
                assert(fonts@.subrange(0, i as int + 1).drop_last() == fonts@.subrange(0, i as int));
            }
            if fonts[i].len() > max_size {
                max_size = fonts[i].len();
            }
            i = i + 1;
        }
        proof {
            assert(fonts@.subrange(0, fonts@.len() as int) == fonts@);
            lemma_max_len_bounds(fonts@);
        }
        let mut out: Vec<Vec<Weight>> = Vec::new();
        let mut j: usize = 0;
        while j < fonts.len()
            invariant
                0 <= j <= fonts@.len(),
                max_size == max_len(fonts@),
                forall|k: int| 0 <= k < fonts@.len() ==> #[trigger] fonts@[k]@.len() <= max_len(fonts@),
                out@.len() == j,
                forall|k: int| 0 <= k < j ==> #[trigger] out@[k]@ == padded(fonts@[k]@, max_len(fonts@)),
            decreases fonts@.len() - j,
        {
            let mut row: Vec<Weight> = fonts[j].clone();
            assert(row@ == fonts@[j as int]@);
            while row.len() < max_size
                invariant
                    max_size == max_len(fonts@),
                    fonts@[j as int]@.len() <= max_size,
                    fonts@[j as int]@.len() <= row@.len() <= max_size,
                    row@ == padded(fonts@[j as int]@, row@.len()),
                decreases max_size - row@.len(),
            {
                row.push(Weight::zero());
                assert(row@ =~= padded(fonts@[j as int]@, row@.len()));
            }
            out.push(row);
            j = j + 1;
        }
        SoundFontMap { fonts: out, max_size }
    }
}

proof fn lemma_max_len_bounds(fonts: Seq<Vec<Weight>>)
    ensures
        forall|k: int| 0 <= k < fonts.len() ==> #[trigger] fonts[k]@.len() <= max_len(fonts),
    decreases fonts.len(),
{
    if fonts.len() > 0 {
        lemma_max_len_bounds(fonts.drop_last());
        assert forall|k: int| 0 <= k < fonts.len() implies #[trigger] fonts[k]@.len() <= max_len(
            fonts,
        ) by {
            if k < fonts.len() - 1 {
                assert(fonts.drop_last()[k] == fonts[k]);
            }
        }
    }
}

/// Every row of a table is exactly `max_size` long, and what stands past the
/// end of the row it was built from is the weight zero.
pub proof fn lemma_soundfont_padding(fonts: Seq<Vec<Weight>>, table: SoundFontMap)
    requires
        table.wf(),
        table.max_size == max_len(fonts),
        table.fonts@.len() == fonts.len(),
        forall|i: int|
            0 <= i < fonts.len() ==> #[trigger] table.fonts@[i]@ == padded(fonts[i]@, max_len(fonts)),
    ensures
        forall|i: int| 0 <= i < table.fonts@.len() ==> #[trigger] table.fonts@[i]@.len() == table.max_size,
        forall|i: int, j: int|
            0 <= i < table.fonts@.len() && fonts[i]@.len() <= j < table.max_size
                ==> #[trigger] table.fonts@[i]@[j] == Weight::zero_spec(),
{
    lemma_max_len_bounds(fonts);
    assert forall|i: int, j: int|
        0 <= i < table.fonts@.len() && fonts[i]@.len() <= j < table.max_size
            implies #[trigger] table.fonts@[i]@[j] == Weight::zero_spec() by {
        assert(table.fonts@[i]@ == padded(fonts[i]@, max_len(fonts)));
    }
}

impl Weight {
    /// The weight zero.
    pub open spec fn zero_spec() -> Weight {
        Weight { negative: false, digits: 0, scale: 0 }
    }
}

/// A processed MIDI file, ready to be encoded as a formula.
#[derive(Debug, Clone)]
pub struct ProcessedSong {
    /// Note events in ascending order of start time.
    pub note_changes: Vec<NoteEvent>,
    /// Channels used in the song, by channel number.
    pub channels: Vec<Channel>,
    /// Soundfonts the note intervals refer to.
    pub soundfonts: SoundFontMap,
}

} // verus!
