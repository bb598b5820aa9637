//! Errors of the conversion and of audio analysis.

use vstd::prelude::*;

verus! {

/// Errors of reading a MIDI file and binding soundfonts to it.
#[derive(Debug)]
pub enum MidiError {
    /// A file could not be read; the message says which and why.
    Io(String),
    /// The bytes are not a MIDI file that midly accepts.
    MidiParse(midly::Error),
    /// A soundfont file is missing or unusable.
    InvalidSoundfont(String),
    /// The file times its events in SMPTE frames, or with zero ticks per
    /// quarter note.
    UnsupportedTimingFormat,
    /// The number of soundfonts matches neither one nor the number of channels.
    SoundfontMismatch { expected: usize, actual: usize },
    /// A soundfont value is not a decimal number; the offending text.
    Parse(String),
    /// The clipboard could not be used.
    ClipboardError(String),
    /// Any other failure.
    Other(String),
}

/// Errors of reading a WAV file and analysing its harmonics.
#[derive(Debug, Clone, PartialEq, Eq)]
pub enum AudioError {
    /// A file could not be read.
    Io(String),
    /// The bytes are not a WAV file in a supported format.
    WavParse(String),
    /// The analysis parameters do not fit the audio.
    InvalidParams(String),
    /// The analysis itself failed.
    ProcessingError(String),
}

} // verus!
