//! The conversion of a MIDI file with the soundfonts of its channels.

use vstd::prelude::*;
use crate::error::MidiError;
use crate::parser::{
    bind_soundfonts, binding_accepted, channel_map, parse_midi, parsed_as, present_fonts,
    rebind_events, song_channels, song_notes, metrical_division,
};
use crate::smf::decoded_smf;
use crate::soundfonts::{is_excluded, soundfont_path, soundfont_path_spec};
use crate::types::{events_view, max_len, padded, ProcessedSong, Weight};

verus! {

/// Converts MIDI files, finding soundfont files in a directory.
#[derive(Debug, Clone)]
pub struct MidiProcessor {
    /// Directory of the soundfont files; the default one when `None`.
    pub soundfont_dir: Option<String>,
}

/// View of the optional directory of a processor.
pub open spec fn processor_dir(p: MidiProcessor) -> Option<Seq<char>> {
    match p.soundfont_dir {
        Some(d) => Some(d@),
        None => None,
    }
}

impl MidiProcessor {
    /// A processor that uses the default soundfont directory.
    pub fn new() -> (r: Self)
        ensures
            r.soundfont_dir is None,
    {
        MidiProcessor { soundfont_dir: None }
    }

    /// A processor that finds soundfonts in the given directory.
    pub fn with_soundfont_dir(soundfont_dir: String) -> (r: Self)
        ensures
            r.soundfont_dir == Some(soundfont_dir),
    {
        MidiProcessor { soundfont_dir: Some(soundfont_dir) }
    }

    /// Path of the file of a soundfont, or `None` for the excluded name `-`.
    pub fn soundfont_file(&self, filename: &str) -> (r: Option<String>)
        ensures
            r matches Some(p) ==> soundfont_path_spec(filename@, processor_dir(*self)) == Some(p@),
            r is None <==> soundfont_path_spec(filename@, processor_dir(*self)) is None,
    {
        match &self.soundfont_dir {
            Some(d) => soundfont_path(filename, Some(d.as_str())),
            None => soundfont_path(filename, None),
        }
    }

    /// Reads the channels of a MIDI file, without its notes.
    pub fn process_info(&self, midi_data: &[u8]) -> (r: Result<ProcessedSong, MidiError>)
        ensures
            match decoded_smf(midi_data@) {
                None => r matches Err(MidiError::MidiParse(_)),
                Some(smf) => parsed_as(smf, true, r),
            },
    {
        parse_midi(midi_data, true)
    }

    /// Converts a MIDI file and binds soundfonts to its channels, in channel
    /// order: one soundfont for all channels, or one per channel, `None`
    /// leaving a channel out.
    pub fn process_with_soundfonts(
        &self,
        midi_data: &[u8],
        soundfonts: Vec<Option<Vec<Weight>>>,
    ) -> (r: Result<ProcessedSong, MidiError>)
        ensures
            decoded_smf(midi_data@) is None ==> r matches Err(MidiError::MidiParse(_)),
            decoded_smf(midi_data@) matches Some(smf) ==> match metrical_division(smf.timing) {
                None => r matches Err(MidiError::UnsupportedTimingFormat),
                Some(q) => if binding_accepted(song_channels(smf).len(), soundfonts@.len()) {
                    r matches Ok(song) && song.channels@ == song_channels(smf) && events_view(
                        song.note_changes@,
                    ) == rebind_events(
                        song_notes(smf, q),
                        channel_map(song_channels(smf), soundfonts@, song_channels(smf).len() as int),
                    ) && song.soundfonts.fonts@.len() == present_fonts(soundfonts@).len()
                        && song.soundfonts.wf() && song.soundfonts.max_size == max_len(
                        present_fonts(soundfonts@),
                    ) && (forall|i: int|
                        0 <= i < present_fonts(soundfonts@).len() ==> #[trigger] song.soundfonts.fonts@[i]@
                            == padded(present_fonts(soundfonts@)[i]@, max_len(present_fonts(soundfonts@))))
                } else {
                    r matches Err(MidiError::SoundfontMismatch { expected, actual }) && expected
                        == song_channels(smf).len() && actual == soundfonts@.len()
                },
            },
    {
        let mut song = match parse_midi(midi_data, false) {
            Ok(s) => s,
            Err(e) => {
                return Err(e);
            },
        };
        match bind_soundfonts(&mut song, soundfonts) {
            Ok(()) => Ok(song),
            Err(e) => Err(e),
        }
    }

    /// Checks that every named soundfont can be used: `on_disk[i]` tells
    /// whether the file of the `i`-th name exists. The first that cannot is
    /// reported.
    pub fn verify_soundfonts(&self, soundfont_files: &Vec<String>, on_disk: &Vec<bool>) -> (r: Result<
        (),
        MidiError,
    >)
        requires
            on_disk@.len() == soundfont_files@.len(),
        ensures
            r is Ok <==> forall|i: int|
                0 <= i < soundfont_files@.len() ==> is_excluded(#[trigger] soundfont_files@[i]@) || on_disk@[i],
            r is Err ==> exists|i: int|
                0 <= i < soundfont_files@.len() && !is_excluded(#[trigger] soundfont_files@[i]@) && !on_disk@[i]
                    && (forall|k: int| 0 <= k < i ==> is_excluded(#[trigger] soundfont_files@[k]@) || on_disk@[k])
                    && (r matches Err(MidiError::InvalidSoundfont(m)) && m@ == "Soundfont file not found: "@
                    + soundfont_files@[i]@),
    {
        let mut i: usize = 0;
        while i < soundfont_files.len()
            invariant
                on_disk@.len() == soundfont_files@.len(),
                0 <= i <= soundfont_files@.len(),
                forall|k: int| 0 <= k < i ==> is_excluded(#[trigger] soundfont_files@[k]@) || on_disk@[k],
            decreases soundfont_files@.len() - i,
        {
            let name = &soundfont_files[i];
            if !crate::soundfonts::soundfont_exists(name.as_str(), on_disk[i]) {
                let mut m = String::from_str("Soundfont file not found: ");
                m.append(name.as_str());
                let r = Err(MidiError::InvalidSoundfont(m));
                assert(!is_excluded(soundfont_files@[i as int]@) && !on_disk@[i as int]);
                return r;
            }
            i = i + 1;
        }
        Ok(())
    }
}

} // verus!
