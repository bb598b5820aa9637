// MIDI processing: files with constant and changing tempo, several channels,
// channel information and error handling. The files are built byte by byte.

use desmos_midi::error::MidiError;
use desmos_midi::processor::MidiProcessor;
use desmos_midi::soundfonts::parse_soundfont_text;
use desmos_midi::types::{ProcessedSong, Weight};

const SINE_SOUNDFONT: &str = "1";
const SQUARE_SOUNDFONT: &str = "1,0,0.33333,0,0.2,0,0.14286,0,0.11111,0";

fn vlq(mut v: u32) -> Vec<u8> {
    let mut out = vec![(v & 0x7f) as u8];
    v >>= 7;
    while v > 0 {
        out.insert(0, ((v & 0x7f) as u8) | 0x80);
        v >>= 7;
    }
    out
}

fn smf(division: u16, tracks: &[Vec<(u32, Vec<u8>)>]) -> Vec<u8> {
    let mut out = b"MThd".to_vec();
    out.extend_from_slice(&6u32.to_be_bytes());
    let format: u16 = if tracks.len() == 1 { 0 } else { 1 };
    out.extend_from_slice(&format.to_be_bytes());
    out.extend_from_slice(&(tracks.len() as u16).to_be_bytes());
    out.extend_from_slice(&division.to_be_bytes());
    for t in tracks {
        let mut body = Vec::new();
        for (delta, ev) in t {
            body.extend(vlq(*delta));
            body.extend_from_slice(ev);
        }
        body.extend_from_slice(&[0x00, 0xFF, 0x2F, 0x00]);
        out.extend_from_slice(b"MTrk");
        out.extend_from_slice(&(body.len() as u32).to_be_bytes());
        out.extend(body);
    }
    out
}

fn tempo(us: u32) -> Vec<u8> {
    vec![0xFF, 0x51, 0x03, (us >> 16) as u8, (us >> 8) as u8, us as u8]
}

fn on(ch: u8, key: u8, vel: u8) -> Vec<u8> {
    vec![0x90 | ch, key, vel]
}

fn off(ch: u8, key: u8) -> Vec<u8> {
    vec![0x80 | ch, key, 0]
}

fn program(ch: u8, p: u8) -> Vec<u8> {
    vec![0xC0 | ch, p]
}

fn font(text: &str) -> Vec<Weight> {
    parse_soundfont_text(text).expect("valid soundfont")
}

/// A chromatic run up from C4, one note per beat at 60 BPM.
fn c4_chromatic_60bpm() -> Vec<u8> {
    let mut t = vec![(0, tempo(1_000_000)), (0, program(0, 0))];
    for k in 0..13u8 {
        t.push((0, on(0, 60 + k, 100)));
        t.push((480, off(0, 60 + k)));
    }
    smf(480, &[t])
}

/// The same run with the tempo doubling halfway.
fn c4_chromatic_dynamicbpm() -> Vec<u8> {
    let conductor = vec![(0, tempo(1_000_000)), (480 * 6, tempo(500_000))];
    let mut t = vec![(0, program(0, 0))];
    for k in 0..13u8 {
        t.push((0, on(0, 60 + k, 100)));
        t.push((480, off(0, 60 + k)));
    }
    smf(480, &[conductor, t])
}

/// Piano from C4 and saxophone from C5 together, the tempo doubling after
/// two beats.
fn c4c5_chromatic_piano_sax_dynamicbpm() -> Vec<u8> {
    let conductor = vec![(0, tempo(1_000_000)), (8, tempo(500_000))];
    let mut piano = vec![(0, program(0, 0))];
    let mut sax = vec![(0, program(1, 65))];
    for k in 0..11u8 {
        let len = if k == 10 { 2 } else { 4 };
        piano.push((0, on(0, 60 + k, 100)));
        piano.push((len, off(0, 60 + k)));
        sax.push((0, on(1, 72 + k, 100)));
        sax.push((len, off(1, 72 + k)));
    }
    smf(4, &[conductor, piano, sax])
}

fn note_start_times(song: &ProcessedSong) -> Vec<u64> {
    song.note_changes.iter().map(|e| e.timestamp).collect()
}

#[test]
fn test_midi_constant_bpm() {
    let processor = MidiProcessor::with_soundfont_dir(String::from("tests/samples"));
    let result = processor
        .process_with_soundfonts(&c4_chromatic_60bpm(), vec![Some(font(SINE_SOUNDFONT))])
        .expect("Failed to process MIDI file with soundfonts");
    assert!(!result.note_changes.is_empty());
    let expected_formula = "A=\\left\\{t<";
    let desmos_formula = result.to_piecewise_function();
    assert!(desmos_formula.contains(expected_formula));
}

#[test]
fn test_midi_dynamic_bpm() {
    let processor = MidiProcessor::with_soundfont_dir(String::from("tests/samples"));
    let result = processor
        .process_with_soundfonts(&c4_chromatic_dynamicbpm(), vec![Some(font(SINE_SOUNDFONT))])
        .expect("Failed to process MIDI file with soundfonts");
    let expected_formula = "A=\\left\\{t<";
    let desmos_formula = result.to_piecewise_function();
    assert!(desmos_formula.contains(expected_formula));
    let timestamps: Vec<f64> = note_start_times(&result).iter().map(|t| *t as f64 / 1000.0).collect();
    assert!(timestamps.len() > 2);
    let time_diffs: Vec<f64> = timestamps.windows(2).map(|w| w[1] - w[0]).collect();
    assert!(time_diffs.windows(2).any(|w| (w[1] - w[0]).abs() > 0.001));
}

#[test]
fn test_midi_multiple_channels() {
    let processor = MidiProcessor::with_soundfont_dir(String::from("tests/samples"));
    let result = processor
        .process_with_soundfonts(
            &c4c5_chromatic_piano_sax_dynamicbpm(),
            vec![Some(font(SINE_SOUNDFONT)), Some(font(SQUARE_SOUNDFONT))],
        )
        .expect("Failed to process MIDI file with soundfonts");
    let expected_formula = "A=\\left\\{t<";
    let desmos_formula = result.to_piecewise_function();
    assert!(desmos_formula.contains(expected_formula));
    assert!(result.channels.len() >= 2, "Should have at least 2 channels");
}

#[test]
fn test_midi_info_extraction() {
    let result = MidiProcessor::new()
        .process_info(&c4c5_chromatic_piano_sax_dynamicbpm())
        .expect("Failed to process MIDI file");
    assert!(result.channels.len() >= 2, "Should have at least 2 channels");
    let instruments: Vec<_> = result.channels.iter().map(|c| c.instrument).collect();
    assert!(instruments.contains(&0), "Should have piano instrument (0)");
    assert!(instruments.contains(&65));
    assert!(result.note_changes.is_empty());
}

#[test]
fn test_midi_processor() {
    let processor = MidiProcessor::with_soundfont_dir(String::from("tests/samples"));
    let info_result = processor
        .process_info(&c4_chromatic_60bpm())
        .expect("Failed to process MIDI info");
    assert!(!info_result.channels.is_empty());
    let result = processor
        .process_with_soundfonts(&c4_chromatic_60bpm(), vec![Some(font(SINE_SOUNDFONT))])
        .expect("Failed to process MIDI with soundfonts");
    assert!(!result.soundfonts.fonts.is_empty(), "Should include soundfont data");
}

#[test]
fn test_midi_error_cases() {
    let result = MidiProcessor::new().process_info(&[]);
    assert!(result.is_err(), "Should return error for non-existent file");
    assert!(matches!(result, Err(MidiError::MidiParse(_))));

    let soundfonts = vec![String::from("non_existent_soundfont.txt")];
    let processor = MidiProcessor::with_soundfont_dir(String::from("tests/samples"));
    let result = processor.verify_soundfonts(&soundfonts, &vec![false]);
    assert!(result.is_err(), "Should return error for non-existent soundfont");
}
