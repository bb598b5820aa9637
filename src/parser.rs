//! From the bytes of a MIDI file to a processed song, and the binding of
//! soundfonts to its channels.

use vstd::prelude::*;
use crate::error::MidiError;
use crate::notes::{process_note_events, reduce_notes};
use crate::smf::{
    all_messages, channels_below, decoded_smf, extract_midi_metadata, extract_ticks_per_quarter,
    read_smf, tempo_changes_of, tracks_wf, SmfData, SmfModel, TimeDivision,
};
use crate::timing::TempoModel;
use crate::types::{
    events_view, Channel, NoteEvent, NoteEventModel, NoteInterval, ProcessedSong, SoundFontMap, Weight,
    CHANNEL_COUNT,
};

verus! {

/// Ticks per quarter note of a supported time division.
pub open spec fn metrical_division(t: TimeDivision) -> Option<u32> {
    match t {
        TimeDivision::Metrical(q) => if q > 0 {
            Some(q as u32)
        } else {
            None
        },
        TimeDivision::Timecode => None,
    }
}

/// The note events of a file with a supported time division.
pub open spec fn song_notes(smf: SmfModel, ticks_per_quarter: u32) -> Seq<NoteEventModel> {
    reduce_notes(
        all_messages(smf.tracks, smf.tracks.len() as int),
        TempoModel { changes: tempo_changes_of(smf), ticks_per_quarter },
    )
}

/// The channels of a file.
pub open spec fn song_channels(smf: SmfModel) -> Seq<Channel> {
    channels_below(all_messages(smf.tracks, smf.tracks.len() as int), CHANNEL_COUNT as int)
}

/// The weight one.
pub open spec fn one_weight() -> Weight {
    Weight { negative: false, digits: 1, scale: 0 }
}

/// What parsing a decoded file gives: the timing error for SMPTE or zero
/// division; else its channels, its note events (none when only the channels
/// are asked for) and a one-row table holding the weight one.
pub open spec fn parsed_as(smf: SmfModel, info_only: bool, r: Result<ProcessedSong, MidiError>) -> bool {
    match metrical_division(smf.timing) {
        None => r matches Err(MidiError::UnsupportedTimingFormat),
        Some(q) => r matches Ok(song) && song.channels@ == song_channels(smf) && events_view(
            song.note_changes@,
        ) == (if info_only {
            seq![]
        } else {
            song_notes(smf, q)
        }) && song.soundfonts.wf() && song.soundfonts.max_size == 1 && song.soundfonts.fonts@.len()
            == 1 && song.soundfonts.fonts@[0]@ == seq![one_weight()],
    }
}

/// The placeholder table of one soundfont holding the weight one.
fn placeholder_soundfonts() -> (r: SoundFontMap)
    ensures
        r.wf(),
        r.max_size == 1,
        r.fonts@.len() == 1,
        r.fonts@[0]@ == seq![one_weight()],
{
    let mut row: Vec<Weight> = Vec::new();
    row.push(Weight { negative: false, digits: 1, scale: 0 });
    let mut fonts: Vec<Vec<Weight>> = Vec::new();
    fonts.push(row);
    let r = SoundFontMap::new(fonts);
    proof {
        assert(crate::types::max_len(fonts@.drop_last()) == 0);
        assert(r.fonts@[0]@ =~= seq![one_weight()]);
    }
    r
}

/// Builds a song from a decoded file; with `info_only` the notes are not
/// reduced and only the channels are of use.
pub fn parse_smf(smf: &SmfData, info_only: bool) -> (r: Result<ProcessedSong, MidiError>)
    requires
        tracks_wf(smf@.tracks),
    ensures
        parsed_as(smf@, info_only, r),
{
    let ticks_per_quarter = match extract_ticks_per_quarter(smf) {
        Ok(t) => t,
        Err(e) => {
            return Err(e);
        },
    };
    let (tempo_map, channels, all_events) = extract_midi_metadata(smf, ticks_per_quarter);
    let soundfonts = placeholder_soundfonts();
    if info_only {
        let note_changes: Vec<NoteEvent> = Vec::new();
        proof {
            assert(events_view(note_changes@) =~= seq![]);
        }
        return Ok(ProcessedSong { note_changes, channels, soundfonts });
    }
    let note_changes = process_note_events(all_events, &tempo_map);
    Ok(ProcessedSong { note_changes, channels, soundfonts })
}

/// Parses the bytes of a MIDI file into a song.
pub fn parse_midi(midi_data: &[u8], info_only: bool) -> (r: Result<ProcessedSong, MidiError>)
    ensures
        match decoded_smf(midi_data@) {
            None => r matches Err(MidiError::MidiParse(_)),
            Some(smf) => parsed_as(smf, info_only, r),
        },
{
    match read_smf(midi_data) {
        Ok(smf) => parse_smf(&smf, info_only),
        Err(e) => Err(MidiError::MidiParse(e)),
    }
}

/// The soundfont index a raw channel maps to; channels past the map have none.
pub open spec fn mapped(map: Seq<Option<usize>>, channel: usize) -> Option<usize> {
    if channel < map.len() {
        map[channel as int]
    } else {
        None
    }
}

/// Notes whose channel maps to a soundfont, with that index in place of the
/// channel; the others are dropped.
pub open spec fn rebind_notes(notes: Seq<NoteInterval>, map: Seq<Option<usize>>) -> Seq<NoteInterval>
    decreases notes.len(),
{
    if notes.len() == 0 {
        seq![]
    } else {
        let prev = rebind_notes(notes.drop_last(), map);
        let n = notes.last();
        match mapped(map, n.soundfont) {
            Some(idx) => prev.push(NoteInterval { soundfont: idx, ..n }),
            None => prev,
        }
    }
}

/// Events with their notes rebound; events left without notes are dropped.
pub open spec fn rebind_events(events: Seq<NoteEventModel>, map: Seq<Option<usize>>) -> Seq<
    NoteEventModel,
>
    decreases events.len(),
{
    if events.len() == 0 {
        seq![]
    } else {
        let prev = rebind_events(events.drop_last(), map);
        let e = events.last();
        let notes = rebind_notes(e.notes, map);
        if notes.len() > 0 {
            prev.push(NoteEventModel { timestamp: e.timestamp, notes })
        } else {
            prev
        }
    }
}

/// Rewrites every note's channel to the soundfont index it maps to, drops
/// notes of channels without one and events left empty, and replaces the
/// soundfont table with the given rows, padded.
pub fn update_song_with_soundfonts(
    song: &mut ProcessedSong,
    soundfonts: Vec<Vec<Weight>>,
    channel_to_index: Vec<Option<usize>>,
)
    ensures
        final(song).channels == old(song).channels,
        events_view(final(song).note_changes@) == rebind_events(
            events_view(old(song).note_changes@),
            channel_to_index@,
        ),
        final(song).soundfonts.wf(),
        final(song).soundfonts.max_size == crate::types::max_len(soundfonts@),
        final(song).soundfonts.fonts@.len() == soundfonts@.len(),
        forall|i: int|
            0 <= i < soundfonts@.len() ==> #[trigger] final(song).soundfonts.fonts@[i]@
                == crate::types::padded(soundfonts@[i]@, crate::types::max_len(soundfonts@)),
{
    let ghost evs = events_view(song.note_changes@);
    let mut out: Vec<NoteEvent> = Vec::new();
    let mut i: usize = 0;
    while i < song.note_changes.len()
        invariant
            evs == events_view(song.note_changes@),
            0 <= i <= evs.len(),
            events_view(out@) == rebind_events(evs.subrange(0, i as int), channel_to_index@),
        decreases evs.len() - i,
    {
        let event = &song.note_changes[i];
        assert(event@ == evs[i as int]);
        let mut notes: Vec<NoteInterval> = Vec::new();
        let mut j: usize = 0;
        while j < event.notes.len()
            invariant
                0 <= j <= event.notes@.len(),
                notes@ == rebind_notes(event.notes@.subrange(0, j as int), channel_to_index@),
            decreases event.notes@.len() - j,
        {
            let n = event.notes[j];
            proof {
                assert(event.notes@.subrange(0, j as int + 1).drop_last() =~= event.notes@.subrange(0, j as int));
            }
            let target = if n.soundfont < channel_to_index.len() {
                channel_to_index[n.soundfont]
            } else {
                None
            };
            match target {
                Some(idx) => {
                    notes.push(NoteInterval { soundfont: idx, ..n });
                },
                None => {},
            }
            j = j + 1;
        }
        proof {
            assert(event.notes@.subrange(0, event.notes@.len() as int) =~= event.notes@);
            assert(evs.subrange(0, i as int + 1).drop_last() =~= evs.subrange(0, i as int));
        }
        let ghost out_before = events_view(out@);
        if notes.len() > 0 {
            out.push(NoteEvent { timestamp: event.timestamp, notes });
            proof {
                assert(events_view(out@) =~= out_before.push(
                    NoteEventModel { timestamp: evs[i as int].timestamp, notes: notes@ },
                ));
            }
        }
        i = i + 1;
    }
    proof {
        assert(evs.subrange(0, evs.len() as int) =~= evs);
    }
    song.note_changes = out;
    song.soundfonts = SoundFontMap::new(soundfonts);
}

/// Whether a number of soundfonts can be bound to a number of channels: one
/// for all of them, or one each.
pub open spec fn binding_accepted(channel_count: nat, font_count: nat) -> bool {
    font_count == 1 || font_count == channel_count
}

/// Checks that a number of soundfonts can be bound to a number of channels,
/// reporting both counts when it cannot.
pub fn check_soundfont_count(channel_count: usize, soundfont_count: usize) -> (r: Result<(), MidiError>)
    ensures
        r is Ok <==> binding_accepted(channel_count as nat, soundfont_count as nat),
        r is Err ==> (r matches Err(MidiError::SoundfontMismatch { expected, actual }) && expected
            == channel_count && actual == soundfont_count),
{
    if soundfont_count != 1 && soundfont_count != channel_count {
        Err(MidiError::SoundfontMismatch { expected: channel_count, actual: soundfont_count })
    } else {
        Ok(())
    }
}

/// Number of soundfonts given, before position `n`.
pub open spec fn present_before(fonts: Seq<Option<Vec<Weight>>>, n: int) -> nat
    decreases n,
{
    if n <= 0 {
        0
    } else {
        present_before(fonts, n - 1) + if fonts[n - 1] is Some {
            1nat
        } else {
            0nat
        }
    }
}

/// The soundfonts given, in order, leaving out the excluded ones.
pub open spec fn present_fonts(fonts: Seq<Option<Vec<Weight>>>) -> Seq<Vec<Weight>>
    decreases fonts.len(),
{
    if fonts.len() == 0 {
        seq![]
    } else {
        let prev = present_fonts(fonts.drop_last());
        match fonts.last() {
            Some(f) => prev.push(f),
            None => prev,
        }
    }
}

/// The soundfont index of the `i`-th channel: with a single soundfont every
/// channel shares index 0; with one per channel, the channel's own soundfont
/// counted among those given. An excluded soundfont gives none.
pub open spec fn channel_slot(fonts: Seq<Option<Vec<Weight>>>, i: int) -> Option<usize> {
    if fonts.len() == 1 {
        if fonts[0] is Some {
            Some(0usize)
        } else {
            None
        }
    } else if fonts[i] is Some {
        Some(present_before(fonts, i) as usize)
    } else {
        None
    }
}

/// The map from raw channel number to soundfont index after the first `n`
/// channels of the song.
pub open spec fn channel_map(channels: Seq<Channel>, fonts: Seq<Option<Vec<Weight>>>, n: int) -> Seq<
    Option<usize>,
>
    decreases n,
{
    if n <= 0 {
        Seq::new(CHANNEL_COUNT as nat, |i: int| None)
    } else {
        let prev = channel_map(channels, fonts, n - 1);
        let id = channels[n - 1].id as int;
        if id < CHANNEL_COUNT {
            prev.update(id, channel_slot(fonts, n - 1))
        } else {
            prev
        }
    }
}

proof fn lemma_present_before_bound(fonts: Seq<Option<Vec<Weight>>>, n: int)
    requires
        0 <= n <= fonts.len(),
    ensures
        present_before(fonts, n) <= n,
    decreases n,
{
    if n > 0 {
        lemma_present_before_bound(fonts, n - 1);
    }
}

/// Binds soundfonts to the channels of a song, in the order of its channels;
/// `None` excludes a channel. A single soundfont serves every channel; else
/// there must be one per channel, and the song is left as it was otherwise.
pub fn bind_soundfonts(song: &mut ProcessedSong, soundfonts: Vec<Option<Vec<Weight>>>) -> (r: Result<
    (),
    MidiError,
>)
    ensures
        r is Ok <==> binding_accepted(old(song).channels@.len(), soundfonts@.len()),
        r is Err ==> (r matches Err(MidiError::SoundfontMismatch { expected, actual }) && expected
            == old(song).channels@.len() && actual == soundfonts@.len() && *final(song) == *old(song)),
        r is Ok ==> ({
            let map = channel_map(old(song).channels@, soundfonts@, old(song).channels@.len() as int);
            let table = present_fonts(soundfonts@);
            &&& final(song).channels == old(song).channels
            &&& events_view(final(song).note_changes@) == rebind_events(
                events_view(old(song).note_changes@),
                map,
            )
            &&& final(song).soundfonts.wf()
            &&& final(song).soundfonts.max_size == crate::types::max_len(table)
            &&& final(song).soundfonts.fonts@.len() == table.len()
            &&& forall|i: int|
                0 <= i < table.len() ==> #[trigger] final(song).soundfonts.fonts@[i]@
                    == crate::types::padded(table[i]@, crate::types::max_len(table))
        }),
{
    let n = song.channels.len();
    let m = soundfonts.len();
    if let Err(e) = check_soundfont_count(n, m) {
        return Err(e);
    }
    let ghost fonts = soundfonts@;
    let mut channel_to_index: Vec<Option<usize>> = vec![None; CHANNEL_COUNT];
    proof {
        assert(channel_to_index@ =~= channel_map(song.channels@, fonts, 0));
    }
    let mut c: usize = 0;
    while c < n
        invariant
            fonts == soundfonts@,
            m == fonts.len(),
            n == song.channels@.len(),
            m == 1 || m == n,
            0 <= c <= n,
            channel_to_index@ == channel_map(song.channels@, fonts, c as int),
            channel_to_index@.len() == CHANNEL_COUNT,
        decreases n - c,
    {
        let id = song.channels[c].id as usize;
        let slot: Option<usize> = if m == 1 {
            if soundfonts[0].is_some() {
                Some(0)
            } else {
                None
            }
        } else if soundfonts[c].is_some() {
            let mut count: usize = 0;
            let mut k: usize = 0;
            while k < c
                invariant
                    0 <= k <= c,
                    c < fonts.len(),
                    fonts == soundfonts@,
                    count == present_before(fonts, k as int),
                decreases c - k,
            {
                proof {
                    lemma_present_before_bound(fonts, k as int);
                }
                if soundfonts[k].is_some() {
                    count = count + 1;
                }
                k = k + 1;
            }
            Some(count)
        } else {
            None
        };
        if id < CHANNEL_COUNT {
            channel_to_index.set(id, slot);
        }
        c = c + 1;
    }
    let mut sfs = soundfonts;
    let mut table: Vec<Vec<Weight>> = Vec::new();
    let mut i: usize = 0;
    while i < m
        invariant
            m == fonts.len(),
            sfs@.len() == m,
            forall|k: int| i <= k < m ==> #[trigger] sfs@[k] == fonts[k],
            0 <= i <= m,
            table@ == present_fonts(fonts.subrange(0, i as int)),
        decreases m - i,
    {
        proof {
            assert(fonts.subrange(0, i as int + 1).drop_last() =~= fonts.subrange(0, i as int));
        }
        let mut slot: Option<Vec<Weight>> = None;
        sfs.set_and_swap(i, &mut slot);
        assert(slot == fonts[i as int]);
        match slot {
            Some(f) => {
                table.push(f);
            },
            None => {},
        }
        proof {
            assert(table@ =~= present_fonts(fonts.subrange(0, i as int + 1)));
        }
        i = i + 1;
    }
    proof {
        assert(fonts.subrange(0, m as int) =~= fonts);
    }
    update_song_with_soundfonts(song, table, channel_to_index);
    Ok(())
}

/// Parses a MIDI file and binds soundfonts to its channels through a map from
/// raw channel number to soundfont index.
pub fn parse_midi_with_soundfonts(
    midi_data: &[u8],
    soundfonts: Vec<Vec<Weight>>,
    channel_to_index: Vec<Option<usize>>,
) -> (r: Result<ProcessedSong, MidiError>)
    ensures
        decoded_smf(midi_data@) is None ==> r matches Err(MidiError::MidiParse(_)),
        decoded_smf(midi_data@) matches Some(smf) ==> match metrical_division(smf.timing) {
            None => r matches Err(MidiError::UnsupportedTimingFormat),
            Some(q) => r matches Ok(song) && song.channels@ == song_channels(smf) && events_view(
                song.note_changes@,
            ) == rebind_events(song_notes(smf, q), channel_to_index@) && song.soundfonts.wf()
                && song.soundfonts.fonts@.len() == soundfonts@.len() && song.soundfonts.max_size
                == crate::types::max_len(soundfonts@) && (forall|i: int|
                0 <= i < soundfonts@.len() ==> #[trigger] song.soundfonts.fonts@[i]@
                    == crate::types::padded(soundfonts@[i]@, crate::types::max_len(soundfonts@))),
        },
{
    let mut song = match parse_midi(midi_data, false) {
        Ok(s) => s,
        Err(e) => {
            return Err(e);
        },
    };
    update_song_with_soundfonts(&mut song, soundfonts, channel_to_index);
    Ok(song)
}

/// With exactly one soundfont given, binding succeeds whatever the number of
/// channels, and every channel of the song maps to the same index, 0.
pub proof fn lemma_single_soundfont_shared(channels: Seq<Channel>, fonts: Seq<Option<Vec<Weight>>>)
    requires
        fonts.len() == 1,
        fonts[0] is Some,
        forall|i: int| 0 <= i < channels.len() ==> #[trigger] channels[i].id < CHANNEL_COUNT,
    ensures
        binding_accepted(channels.len(), fonts.len()),
        forall|i: int|
            0 <= i < channels.len() ==> #[trigger] channel_map(channels, fonts, channels.len() as int)[channels[i].id as int]
                == Some(0usize),
{
    lemma_channel_map_shared(channels, fonts, channels.len() as int);
}

proof fn lemma_channel_map_shared(channels: Seq<Channel>, fonts: Seq<Option<Vec<Weight>>>, n: int)
    requires
        fonts.len() == 1,
        fonts[0] is Some,
        0 <= n <= channels.len(),
        forall|i: int| 0 <= i < channels.len() ==> #[trigger] channels[i].id < CHANNEL_COUNT,
    ensures
        channel_map(channels, fonts, n).len() == CHANNEL_COUNT,
        forall|i: int| 0 <= i < n ==> #[trigger] channel_map(channels, fonts, n)[channels[i].id as int] == Some(0usize),
    decreases n,
{
    if n > 0 {
        lemma_channel_map_shared(channels, fonts, n - 1);
        assert(channels[n - 1].id < CHANNEL_COUNT);
        assert forall|i: int| 0 <= i < n implies #[trigger] channel_map(channels, fonts, n)[channels[i].id as int]
            == Some(0usize) by {
            if i < n - 1 {
                assert(channel_map(channels, fonts, n - 1)[channels[i].id as int] == Some(0usize));
            }
        }
    }
}

/// A number of soundfonts that is neither one nor the number of channels is
/// refused: binding fails with a count mismatch and changes nothing.
pub proof fn lemma_mismatch_rejected(channel_count: nat, font_count: nat)
    requires
        font_count != 1,
        font_count != channel_count,
    ensures
        !binding_accepted(channel_count, font_count),
{
}

} // verus!
