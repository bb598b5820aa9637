// The whole conversion, from the bytes of a MIDI file to the formula text.

use desmos_midi::processor::MidiProcessor;
use desmos_midi::soundfonts::parse_soundfont_text;
use desmos_midi::types::Weight;
use std::path::Path;

const SINE_SOUNDFONT: &str = "1";
const SQUARE_SOUNDFONT: &str = "1,0,0.33333,0,0.2,0,0.14286,0,0.11111,0";

fn vlq(mut v: u32) -> Vec<u8> {
    let mut out = vec![(v & 0x7f) as u8];
    v >>= 7;
    while v > 0 {
        out.insert(0, ((v & 0x7f) as u8) | 0x80);
        v >>= 7;
    }
    out
}

fn smf(division: u16, tracks: &[Vec<(u32, Vec<u8>)>]) -> Vec<u8> {
    let mut out = b"MThd".to_vec();
    out.extend_from_slice(&6u32.to_be_bytes());
    let format: u16 = if tracks.len() == 1 { 0 } else { 1 };
    out.extend_from_slice(&format.to_be_bytes());
    out.extend_from_slice(&(tracks.len() as u16).to_be_bytes());
    out.extend_from_slice(&division.to_be_bytes());
    for t in tracks {
        let mut body = Vec::new();
        for (delta, ev) in t {
            body.extend(vlq(*delta));
            body.extend_from_slice(ev);
        }
        body.extend_from_slice(&[0x00, 0xFF, 0x2F, 0x00]);
        out.extend_from_slice(b"MTrk");
        out.extend_from_slice(&(body.len() as u32).to_be_bytes());
        out.extend(body);
    }
    out
}

fn tempo(us: u32) -> Vec<u8> {
    vec![0xFF, 0x51, 0x03, (us >> 16) as u8, (us >> 8) as u8, us as u8]
}

fn on(ch: u8, key: u8, vel: u8) -> Vec<u8> {
    vec![0x90 | ch, key, vel]
}

fn off(ch: u8, key: u8) -> Vec<u8> {
    vec![0x80 | ch, key, 0]
}

fn program(ch: u8, p: u8) -> Vec<u8> {
    vec![0xC0 | ch, p]
}

fn font(text: &str) -> Vec<Weight> {
    parse_soundfont_text(text).expect("valid soundfont")
}

/// A chromatic run up from C4, one note per beat at 60 BPM.
fn c4_chromatic_60bpm() -> Vec<u8> {
    let mut t = vec![(0, tempo(1_000_000)), (0, program(0, 0))];
    for k in 0..13u8 {
        t.push((0, on(0, 60 + k, 100)));
        t.push((480, off(0, 60 + k)));
    }
    smf(480, &[t])
}

/// Piano from C4 and saxophone from C5 together, the tempo doubling after
/// two beats.
fn c4c5_chromatic_piano_sax_dynamicbpm() -> Vec<u8> {
    let conductor = vec![(0, tempo(1_000_000)), (8, tempo(500_000))];
    let mut piano = vec![(0, program(0, 0))];
    let mut sax = vec![(0, program(1, 65))];
    for k in 0..11u8 {
        let len = if k == 10 { 2 } else { 4 };
        piano.push((0, on(0, 60 + k, 100)));
        piano.push((len, off(0, 60 + k)));
        sax.push((0, on(1, 72 + k, 100)));
        sax.push((len, off(1, 72 + k)));
    }
    smf(4, &[conductor, piano, sax])
}

#[test]
fn test_midi_to_desmos_formula() {
    let processor = MidiProcessor::with_soundfont_dir(String::from("tests/samples"));
    let midi_result = processor
        .process_with_soundfonts(&c4_chromatic_60bpm(), vec![Some(font(SINE_SOUNDFONT))])
        .expect("Failed to process MIDI file");
    let formula_string = midi_result.to_piecewise_function();
    assert!(
        formula_string.contains("A=\\left\\{t<1.000:"),
        "Should contain A component with correct timestamps"
    );
    assert!(
        formula_string.contains("B=\\left[1\\right]"),
        "Should contain B component with correct harmonics"
    );
    assert!(formula_string.contains("C=1"), "Should contain C component with correct value");
}

#[test]
fn test_midi_with_soundfonts() {
    let processor = MidiProcessor::with_soundfont_dir(String::from("tests/samples"));
    let result = processor
        .process_with_soundfonts(&c4_chromatic_60bpm(), vec![Some(font(SINE_SOUNDFONT))])
        .expect("Failed to process MIDI with soundfonts");
    assert!(!result.soundfonts.fonts.is_empty(), "Should include soundfont data");
    let formula_string = result.to_piecewise_function();
    assert!(formula_string.contains("B=\\left[1\\right]"), "Should contain harmonic data");
}

#[test]
fn test_cli_parsing() {
    let cli_module_path = Path::new("src/cli.rs");
    assert!(cli_module_path.exists(), "CLI module should exist");
}

#[test]
fn test_end_to_end_pipeline() {
    let processor = MidiProcessor::with_soundfont_dir(String::from("tests/samples"));
    let result = processor
        .process_with_soundfonts(
            &c4c5_chromatic_piano_sax_dynamicbpm(),
            vec![Some(font(SINE_SOUNDFONT)), Some(font(SQUARE_SOUNDFONT))],
        )
        .expect("Failed to process MIDI file with soundfonts");
    let formula = result.to_piecewise_function();
    assert!(formula.contains("A=\\left\\{t<1.000:"), "Should contain notes array with correct start");
    assert!(
        formula.contains("B=\\left[1,0,0,0,0,0,0,0,0,0,1,0,0.33333"),
        "Should contain harmonic weights"
    );
    assert!(formula.contains("C=10"), "Should contain harmonic count");
    assert!(formula.contains("\\left[-9,100,0,3,100,1\\right]"), "Should contain first note data");
    assert!(formula.contains("t<6.35:\\left[\\right]"), "Should contain proper ending");
}
