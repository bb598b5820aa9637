// Laws and edge cases of the library, on concrete values.

use desmos_midi::cli::{default_soundfont_names, process_soundfont_name};
use desmos_midi::config::{get_soundfonts_dir, CommonConfig};
use desmos_midi::encoder::midi_note_to_relative;
use desmos_midi::error::MidiError;
use desmos_midi::parser::{bind_soundfonts, check_soundfont_count, parse_midi, parse_midi_with_soundfonts};
use desmos_midi::processor::MidiProcessor;
use desmos_midi::smf::{SmfData, SmfEvent, EventKind, TimeDivision, VoiceMessage};
use desmos_midi::soundfonts::{get_instrument_name, parse_soundfont_text, soundfont_exists, soundfont_path};
use desmos_midi::timing::{ticks_to_ms, TempoChange, TempoMap};
use desmos_midi::types::{Channel, NoteEvent, NoteInterval, ProcessedSong, SoundFontMap, Weight};

fn vlq(mut v: u32) -> Vec<u8> {
    let mut out = vec![(v & 0x7f) as u8];
    v >>= 7;
    while v > 0 {
        out.insert(0, ((v & 0x7f) as u8) | 0x80);
        v >>= 7;
    }
    out
}

fn smf(division: u16, tracks: &[Vec<(u32, Vec<u8>)>]) -> Vec<u8> {
    let mut out = b"MThd".to_vec();
    out.extend_from_slice(&6u32.to_be_bytes());
    let format: u16 = if tracks.len() == 1 { 0 } else { 1 };
    out.extend_from_slice(&format.to_be_bytes());
    out.extend_from_slice(&(tracks.len() as u16).to_be_bytes());
    out.extend_from_slice(&division.to_be_bytes());
    for t in tracks {
        let mut body = Vec::new();
        for (delta, ev) in t {
            body.extend(vlq(*delta));
            body.extend_from_slice(ev);
        }
        body.extend_from_slice(&[0x00, 0xFF, 0x2F, 0x00]);
        out.extend_from_slice(b"MTrk");
        out.extend_from_slice(&(body.len() as u32).to_be_bytes());
        out.extend(body);
    }
    out
}

fn tempo(us: u32) -> Vec<u8> {
    vec![0xFF, 0x51, 0x03, (us >> 16) as u8, (us >> 8) as u8, us as u8]
}

fn on(ch: u8, key: u8, vel: u8) -> Vec<u8> {
    vec![0x90 | ch, key, vel]
}

fn off(ch: u8, key: u8) -> Vec<u8> {
    vec![0x80 | ch, key, 0]
}

fn program(ch: u8, p: u8) -> Vec<u8> {
    vec![0xC0 | ch, p]
}

fn w(text: &str) -> Vec<Weight> {
    parse_soundfont_text(text).expect("valid soundfont")
}

fn one_note_song() -> Vec<u8> {
    smf(1, &[vec![(0, tempo(1_000_000)), (0, on(0, 60, 100)), (1, off(0, 60))]])
}

fn two_channel_song() -> Vec<u8> {
    smf(
        1,
        &[vec![(0, on(0, 60, 90)), (0, on(9, 36, 80)), (1, off(0, 60)), (0, off(9, 36))]],
    )
}

fn empty_song() -> ProcessedSong {
    ProcessedSong {
        note_changes: Vec::new(),
        channels: Vec::new(),
        soundfonts: SoundFontMap::new(vec![w("1")]),
    }
}

#[test]
fn ticks_to_ms_default_tempo() {
    let map = TempoMap::new(480);
    assert_eq!(ticks_to_ms(0, &map), 0);
    assert_eq!(ticks_to_ms(480, &map), 500);
    assert_eq!(ticks_to_ms(960, &map), 1000);
}

#[test]
fn ticks_to_ms_across_tempo_changes() {
    let mut map = TempoMap::new(480);
    map.changes.push(TempoChange { tick: 480, tempo: 1_000_000 });
    assert_eq!(ticks_to_ms(480, &map), 500);
    assert_eq!(ticks_to_ms(960, &map), 1500);
    assert_eq!(ticks_to_ms(720, &map), 1000);
}

#[test]
fn ticks_to_ms_rounds_once_at_the_end() {
    // Three segments of 1 tick at 1 499 us each: 4 497 us, rounded to 4 ms,
    // where rounding each segment would give 3.
    let map = TempoMap {
        changes: vec![
            TempoChange { tick: 0, tempo: 1499 },
            TempoChange { tick: 1, tempo: 1499 },
            TempoChange { tick: 2, tempo: 1499 },
        ],
        ticks_per_quarter: 1,
    };
    assert_eq!(ticks_to_ms(3, &map), 4);
}

#[test]
fn ticks_to_ms_monotone() {
    let mut map = TempoMap::new(96);
    map.changes.push(TempoChange { tick: 100, tempo: 250_000 });
    map.changes.push(TempoChange { tick: 300, tempo: 2_000_000 });
    let mut prev = 0;
    for t in 0..1000u64 {
        let ms = ticks_to_ms(t, &map);
        assert!(ms >= prev);
        prev = ms;
    }
}

#[test]
fn ticks_to_ms_constant_tempo_doubling() {
    let map = TempoMap::new(7);
    for t in [1u64, 2, 3, 10, 77, 1000, 123457] {
        let a = ticks_to_ms(t, &map);
        let b = ticks_to_ms(2 * t, &map);
        assert!(2 * a <= b && b <= 2 * a + 1);
    }
    assert_eq!(ticks_to_ms(1, &map), 71);
    assert_eq!(ticks_to_ms(2, &map), 142);
}

#[test]
fn ticks_to_ms_saturates() {
    let map = TempoMap { changes: vec![TempoChange { tick: 0, tempo: u32::MAX }], ticks_per_quarter: 1 };
    assert_eq!(ticks_to_ms(u64::MAX, &map), u64::MAX);
}

#[test]
fn soundfont_rows_are_padded_with_zeros() {
    let table = SoundFontMap::new(vec![w("1"), w("1,0,0.5"), Vec::new()]);
    assert_eq!(table.max_size, 3);
    for row in &table.fonts {
        assert_eq!(row.len(), 3);
    }
    assert_eq!(table.fonts[0][1], Weight::zero());
    assert_eq!(table.fonts[0][2], Weight::zero());
    assert_eq!(table.fonts[2], vec![Weight::zero(); 3]);
}

#[test]
fn single_soundfont_is_shared_by_all_channels() {
    let mut song = parse_midi(&two_channel_song(), false).expect("valid file");
    assert_eq!(song.channels.len(), 2);
    assert!(bind_soundfonts(&mut song, vec![Some(w("1,0.5"))]).is_ok());
    assert_eq!(song.soundfonts.fonts.len(), 1);
    for e in &song.note_changes {
        for n in &e.notes {
            assert_eq!(n.soundfont, 0);
        }
    }
    assert_eq!(song.note_changes[0].notes.len(), 2);
}

#[test]
fn soundfont_count_mismatch_is_rejected() {
    let mut song = parse_midi(&two_channel_song(), false).expect("valid file");
    let before = song.note_changes.clone();
    let r = bind_soundfonts(&mut song, vec![Some(w("1")), Some(w("1")), Some(w("1"))]);
    assert!(matches!(r, Err(MidiError::SoundfontMismatch { expected: 2, actual: 3 })));
    assert_eq!(song.note_changes.len(), before.len());
    let r = bind_soundfonts(&mut song, vec![]);
    assert!(matches!(r, Err(MidiError::SoundfontMismatch { expected: 2, actual: 0 })));
}

#[test]
fn excluded_channel_notes_are_dropped() {
    let mut song = parse_midi(&two_channel_song(), false).expect("valid file");
    assert!(song.channels[1].is_drum);
    assert!(bind_soundfonts(&mut song, vec![Some(w("1")), None]).is_ok());
    assert_eq!(song.note_changes.len(), 1);
    assert_eq!(song.note_changes[0].notes.len(), 1);
    assert_eq!(song.note_changes[0].notes[0].note, 60);
    assert_eq!(song.soundfonts.fonts.len(), 1);
}

#[test]
fn empty_song_formula() {
    assert_eq!(
        empty_song().to_piecewise_function(),
        "A=\\left\\{t<0:\\left[\\right]\\right\\}\nB=\\left[\\right]\nC=0"
    );
}

#[test]
fn no_note_events_file_formula() {
    let bytes = smf(480, &[vec![(0, tempo(500_000)), (0, program(0, 3))]]);
    let song = parse_midi_with_soundfonts(&bytes, vec![w("1")], vec![Some(0); 16]).expect("valid file");
    assert!(song.note_changes.is_empty());
    assert_eq!(
        song.to_piecewise_function(),
        "A=\\left\\{t<0:\\left[\\right]\\right\\}\nB=\\left[\\right]\nC=0"
    );
}

#[test]
fn single_quarter_note_formula() {
    let song = MidiProcessor::new()
        .process_with_soundfonts(&one_note_song(), vec![Some(w("1.0"))])
        .expect("valid file");
    let f = song.to_piecewise_function();
    assert!(f.contains("t<1.000:"));
    assert!(f.ends_with("B=\\left[1\\right]\nC=1"));
    assert_eq!(
        f,
        "A=\\left\\{t<1.000:\\left[-9,100,0\\right],t<1.1:\\left[\\right]\\right\\}\nB=\\left[1\\right]\nC=1"
    );
}

#[test]
fn encoding_twice_gives_the_same_text() {
    let song = MidiProcessor::new()
        .process_with_soundfonts(&two_channel_song(), vec![Some(w("1,0.25")), Some(w("0.5"))])
        .expect("valid file");
    assert_eq!(song.to_piecewise_function(), song.to_piecewise_function());
}

#[test]
fn active_notes_sorted_by_note() {
    let bytes = smf(1, &[vec![(0, on(0, 64, 10)), (0, on(0, 60, 20)), (2, off(0, 64)), (0, off(0, 60))]]);
    let song = parse_midi_with_soundfonts(&bytes, vec![w("1")], vec![Some(0); 16]).expect("valid file");
    let f = song.to_piecewise_function();
    assert!(f.starts_with("A=\\left\\{t<1.000:\\left[-9,20,0,-5,10,0\\right],t<1.1:"));
}

#[test]
fn long_songs_are_split_into_sections() {
    let mut t = Vec::new();
    for k in 0..3000u32 {
        let key = 40 + (k % 40) as u8;
        t.push((0, on(0, key, 100)));
        t.push((1, off(0, key)));
    }
    let bytes = smf(1, &[t]);
    let song = parse_midi_with_soundfonts(&bytes, vec![w("1")], vec![Some(0); 16]).expect("valid file");
    let f = song.to_piecewise_function();
    assert!(f.starts_with("A=\\left\\{t<"));
    assert!(f.contains("\nA_{1}=\\left\\{"));
    assert!(f.contains("\nA_{2}=\\left\\{"));
    assert!(f.contains(":A_{1},t<"));
    for line in f.lines() {
        if line.starts_with("A_{") {
            // Branches count toward the limit; the commas between them do not.
            assert!(line.len() - line.matches(",t<").count() <= 20000 + 100);
        }
    }
}

#[test]
fn restruck_note_replaces_the_sounding_one() {
    let bytes = smf(1, &[vec![(0, on(0, 60, 50)), (1, on(0, 60, 70)), (1, off(0, 60))]]);
    let song = parse_midi(&bytes, false).expect("valid file");
    assert_eq!(song.note_changes.len(), 1);
    assert_eq!(song.note_changes[0].timestamp, 500);
    assert_eq!(song.note_changes[0].notes[0].velocity, 70);
    assert_eq!(song.note_changes[0].notes[0].end_time, 1000);
}

#[test]
fn unclosed_notes_end_at_the_last_event() {
    let bytes = smf(1, &[vec![(0, on(0, 60, 50)), (3, on(0, 62, 60))]]);
    let song = parse_midi(&bytes, false).expect("valid file");
    assert_eq!(song.note_changes.len(), 2);
    assert_eq!(song.note_changes[0].notes[0].end_time, 1500);
    assert_eq!(song.note_changes[1].timestamp, 1500);
    assert_eq!(song.note_changes[1].notes[0].end_time, 1500);
}

#[test]
fn velocity_zero_note_on_closes_the_note() {
    let bytes = smf(2, &[vec![(0, on(3, 70, 40)), (2, on(3, 70, 0))]]);
    let song = parse_midi(&bytes, false).expect("valid file");
    assert_eq!(song.note_changes[0].notes[0], NoteInterval { note: 70, velocity: 40, soundfont: 3, end_time: 500 });
}

#[test]
fn later_tempo_at_same_tick_wins() {
    let bytes = smf(
        1,
        &[
            vec![(0, tempo(2_000_000)), (0, tempo(1_000_000)), (0, on(0, 60, 1)), (1, off(0, 60))],
        ],
    );
    let song = parse_midi(&bytes, false).expect("valid file");
    assert_eq!(song.note_changes[0].notes[0].end_time, 1000);
}

#[test]
fn channels_and_instruments() {
    let bytes = smf(1, &[vec![(0, on(2, 60, 1)), (0, program(2, 40)), (0, program(9, 5)), (1, off(2, 60))]]);
    let song = parse_midi(&bytes, true).expect("valid file");
    assert_eq!(
        song.channels,
        vec![
            Channel { id: 2, instrument: 40, is_drum: false },
            Channel { id: 9, instrument: 5, is_drum: true },
        ]
    );
    assert!(song.note_changes.is_empty());
    assert_eq!(song.soundfonts.fonts, vec![w("1")]);
}

#[test]
fn smpte_timing_is_unsupported() {
    let bytes = smf(0xE728, &[vec![(0, on(0, 60, 1))]]);
    assert!(matches!(parse_midi(&bytes, false), Err(MidiError::UnsupportedTimingFormat)));
    let data = SmfData { timing: TimeDivision::Metrical(0), tracks: vec![] };
    assert!(matches!(desmos_midi::parser::parse_smf(&data, false), Err(MidiError::UnsupportedTimingFormat)));
}

#[test]
fn garbage_is_a_parse_error() {
    assert!(matches!(parse_midi(b"not a midi file", false), Err(MidiError::MidiParse(_))));
}

#[test]
fn decoded_events_carry_their_fields() {
    let data = SmfData {
        timing: TimeDivision::Metrical(1),
        tracks: vec![vec![
            SmfEvent { delta: 0, kind: EventKind::Voice { channel: 4, message: VoiceMessage::NoteOn { key: 81, vel: 9 } } },
            SmfEvent { delta: 4, kind: EventKind::Voice { channel: 4, message: VoiceMessage::NoteOff { key: 81, vel: 0 } } },
        ]],
    };
    let song = desmos_midi::parser::parse_smf(&data, false).expect("valid");
    assert_eq!(song.note_changes[0].notes[0], NoteInterval { note: 81, velocity: 9, soundfont: 4, end_time: 2000 });
    let from_bytes = parse_midi(&smf(1, &[vec![(0, on(4, 81, 9)), (4, off(4, 81))]]), false).expect("valid");
    assert_eq!(from_bytes.note_changes[0].notes, song.note_changes[0].notes);
}

#[test]
fn soundfont_text_parsing() {
    let ws = w(" 1.0 , 0.5,-0.25,\t3\n");
    assert_eq!(
        ws,
        vec![
            Weight { negative: false, digits: 10, scale: 1 },
            Weight { negative: false, digits: 5, scale: 1 },
            Weight { negative: true, digits: 25, scale: 2 },
            Weight { negative: false, digits: 3, scale: 0 },
        ]
    );
    assert!(matches!(parse_soundfont_text("1,abc"), Err(MidiError::Parse(_))));
    assert!(matches!(parse_soundfont_text(""), Err(MidiError::Parse(_))));
    assert!(matches!(parse_soundfont_text("1,,2"), Err(MidiError::Parse(_))));
    assert!(matches!(parse_soundfont_text("1.2.3"), Err(MidiError::Parse(_))));
    assert_eq!(w(".5"), vec![Weight { negative: false, digits: 5, scale: 1 }]);
}

#[test]
fn weights_print_in_shortest_form() {
    let song = ProcessedSong {
        note_changes: vec![NoteEvent {
            timestamp: 0,
            notes: vec![NoteInterval { note: 69, velocity: 1, soundfont: 0, end_time: 250 }],
        }],
        channels: vec![],
        soundfonts: SoundFontMap::new(vec![w("1.0,0.33333,2.50,-0,0.000,-1.5")]),
    };
    let f = song.to_piecewise_function();
    assert!(f.ends_with("B=\\left[1,0.33333,2.5,0,0,-1.5\\right]\nC=6"));
    assert!(f.starts_with("A=\\left\\{t<0.250:\\left[0,1,0\\right],t<0.35:\\left[\\right]\\right\\}"));
}

#[test]
fn instrument_names() {
    assert_eq!(get_instrument_name(0, false), "Acoustic Grand Piano");
    assert_eq!(get_instrument_name(65, false), "Alto Sax");
    assert_eq!(get_instrument_name(127, false), "Gunshot");
    assert_eq!(get_instrument_name(128, false), "Unknown Instrument");
    assert_eq!(get_instrument_name(0, true), "Drum Kit");
}

#[test]
fn relative_notes() {
    assert_eq!(midi_note_to_relative(69), 0);
    assert_eq!(midi_note_to_relative(70), 1);
    assert_eq!(midi_note_to_relative(60), -9);
    assert_eq!(midi_note_to_relative(0), -69);
}

#[test]
fn soundfont_names_and_paths() {
    assert_eq!(process_soundfont_name("piano"), "piano.txt");
    assert_eq!(process_soundfont_name("piano.txt"), "piano.txt");
    assert_eq!(process_soundfont_name("-"), "-");
    assert_eq!(process_soundfont_name("txt"), "txt.txt");
    assert_eq!(soundfont_path("a.txt", Some("dir")), Some(String::from("dir/a.txt")));
    assert_eq!(soundfont_path("a.txt", None), Some(String::from("soundfonts/a.txt")));
    assert_eq!(soundfont_path("-", Some("dir")), None);
    assert!(soundfont_exists("-", false));
    assert!(!soundfont_exists("a.txt", false));
    assert!(soundfont_exists("a.txt", true));
    let p = MidiProcessor::with_soundfont_dir(String::from("fonts"));
    assert_eq!(p.soundfont_file("x.txt"), Some(String::from("fonts/x.txt")));
    assert_eq!(MidiProcessor::new().soundfont_file("x.txt"), Some(String::from("soundfonts/x.txt")));
}

#[test]
fn default_names_skip_drums() {
    let channels = vec![
        Channel { id: 0, instrument: 0, is_drum: false },
        Channel { id: 9, instrument: 0, is_drum: true },
    ];
    assert_eq!(default_soundfont_names(&channels), vec![String::from("default.txt"), String::from("-")]);
}

#[test]
fn soundfonts_dir_setting() {
    let c = CommonConfig { soundfonts_dir: String::from("mine") };
    assert_eq!(get_soundfonts_dir(Some(&c)), "mine");
    assert_eq!(get_soundfonts_dir(None), "soundfonts");
    assert_eq!(CommonConfig::default().soundfonts_dir, "soundfonts");
}

#[test]
fn missing_soundfont_is_reported() {
    let p = MidiProcessor::new();
    let files = vec![String::from("-"), String::from("a.txt"), String::from("b.txt")];
    assert!(p.verify_soundfonts(&files, &vec![false, true, true]).is_ok());
    match p.verify_soundfonts(&files, &vec![false, false, false]) {
        Err(MidiError::InvalidSoundfont(m)) => assert_eq!(m, "Soundfont file not found: a.txt"),
        _ => panic!("expected a missing soundfont"),
    }
}

#[test]
fn soundfont_exponents() {
    assert_eq!(w("1e3"), vec![Weight { negative: false, digits: 1000, scale: 0 }]);
    assert_eq!(w("1e-3"), vec![Weight { negative: false, digits: 1, scale: 3 }]);
    assert_eq!(w("2.5E+2"), vec![Weight { negative: false, digits: 250, scale: 0 }]);
    assert_eq!(w("-3.3333e-1"), vec![Weight { negative: true, digits: 33333, scale: 5 }]);
    assert_eq!(w("0e99"), vec![Weight { negative: false, digits: 0, scale: 0 }]);
    assert_eq!(w("5."), vec![Weight { negative: false, digits: 5, scale: 0 }]);
    assert_eq!(w("1e-300"), vec![Weight { negative: false, digits: 0, scale: 255 }]);
    for bad in ["1e", "e3", "1e+", "1.5e3.2", "inf", "nan", "1e2e3", "+-1", "1e30"] {
        assert!(matches!(parse_soundfont_text(bad), Err(MidiError::Parse(_))), "{}", bad);
    }
}

#[test]
fn soundfont_unicode_white_space() {
    assert_eq!(
        w("\u{a0}1\u{3000},\u{2009}0.5\u{85}"),
        vec![Weight { negative: false, digits: 1, scale: 0 }, Weight { negative: false, digits: 5, scale: 1 }]
    );
    assert!(matches!(parse_soundfont_text("1,\u{e9}"), Err(MidiError::Parse(_))));
}

#[test]
fn long_fractions_keep_their_places() {
    let song = ProcessedSong {
        note_changes: vec![NoteEvent {
            timestamp: 0,
            notes: vec![NoteInterval { note: 69, velocity: 1, soundfont: 0, end_time: 1000 }],
        }],
        channels: vec![],
        soundfonts: SoundFontMap::new(vec![w("0.0000000000000000000012345,1e-25,12345678901234567890")]),
    };
    let f = song.to_piecewise_function();
    assert!(f.ends_with("B=\\left[0.0000000000000000000012345,0.0000000000000000000000001,12345678901234567890\\right]\nC=3"));
    assert!(parse_soundfont_text("123456789012345678901234").is_err());
}

#[test]
fn soundfont_count_check() {
    assert!(check_soundfont_count(3, 1).is_ok());
    assert!(check_soundfont_count(3, 3).is_ok());
    assert!(check_soundfont_count(0, 1).is_ok());
    assert!(matches!(check_soundfont_count(3, 2), Err(MidiError::SoundfontMismatch { expected: 3, actual: 2 })));
    assert!(matches!(check_soundfont_count(1, 0), Err(MidiError::SoundfontMismatch { expected: 1, actual: 0 })));
}

#[test]
fn simultaneous_events_keep_track_order() {
    // Track 1 ends a note at tick 2; track 2 starts the same key on the same
    // channel at tick 2. Stable merging keeps the note-off first.
    let bytes = smf(1, &[vec![(0, on(0, 60, 10)), (2, off(0, 60))], vec![(2, on(0, 60, 20)), (2, off(0, 60))]]);
    let song = parse_midi(&bytes, false).expect("valid file");
    assert_eq!(song.note_changes.len(), 2);
    assert_eq!(song.note_changes[0].notes[0], NoteInterval { note: 60, velocity: 10, soundfont: 0, end_time: 1000 });
    assert_eq!(song.note_changes[1].notes[0], NoteInterval { note: 60, velocity: 20, soundfont: 0, end_time: 2000 });
}
