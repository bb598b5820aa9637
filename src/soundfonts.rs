//! General MIDI instruments and soundfont files: names, paths and the text
//! format of harmonic weights.

use vstd::prelude::*;
use crate::error::MidiError;
use vstd::std_specs::iter::IteratorSpec;
use crate::text::{lemma_pow10_mono, pow10};
use crate::types::Weight;

verus! {

/// Directory searched for soundfont files when none is configured.
pub const DEFAULT_SOUNDFONT_DIR: &'static str = "soundfonts";

/// The General MIDI name of a program; every program of the drum channel is
/// the drum kit.
pub open spec fn instrument_name(program: u8, is_drum: bool) -> Seq<char> {
    if is_drum {
        "Drum Kit"@
    } else {
        match program {
            0 => "Acoustic Grand Piano"@,
            1 => "Bright Acoustic Piano"@,
            2 => "Electric Grand Piano"@,
            3 => "Honky-tonk Piano"@,
            4 => "Electric Piano 1"@,
            5 => "Electric Piano 2"@,
            6 => "Harpsichord"@,
            7 => "Clavinet"@,
            8 => "Celesta"@,
            9 => "Glockenspiel"@,
            10 => "Music Box"@,
            11 => "Vibraphone"@,
            12 => "Marimba"@,
            13 => "Xylophone"@,
            14 => "Tubular Bells"@,
            15 => "Dulcimer"@,
            16 => "Drawbar Organ"@,
            17 => "Percussive Organ"@,
            18 => "Rock Organ"@,
            19 => "Church Organ"@,
            20 => "Reed Organ"@,
            21 => "Accordion"@,
            22 => "Harmonica"@,
            23 => "Tango Accordion"@,
            24 => "Acoustic Guitar (nylon)"@,
            25 => "Acoustic Guitar (steel)"@,
            26 => "Electric Guitar (jazz)"@,
            27 => "Electric Guitar (clean)"@,
            28 => "Electric Guitar (muted)"@,
            29 => "Overdriven Guitar"@,
            30 => "Distortion Guitar"@,
            31 => "Guitar Harmonics"@,
            32 => "Acoustic Bass"@,
            33 => "Electric Bass (finger)"@,
            34 => "Electric Bass (pick)"@,
            35 => "Fretless Bass"@,
            36 => "Slap Bass 1"@,
            37 => "Slap Bass 2"@,
            38 => "Synth Bass 1"@,
            39 => "Synth Bass 2"@,
            40 => "Violin"@,
            41 => "Viola"@,
            42 => "Cello"@,
            43 => "Contrabass"@,
            44 => "Tremolo Strings"@,
            45 => "Pizzicato Strings"@,
            46 => "Orchestral Harp"@,
            47 => "Timpani"@,
            48 => "String Ensemble 1"@,
            49 => "String Ensemble 2"@,
            50 => "Synth Strings 1"@,
            51 => "Synth Strings 2"@,
            52 => "Choir Aahs"@,
            53 => "Voice Oohs"@,
            54 => "Synth Voice"@,
            55 => "Orchestra Hit"@,
            56 => "Trumpet"@,
            57 => "Trombone"@,
            58 => "Tuba"@,
            59 => "Muted Trumpet"@,
            60 => "French Horn"@,
            61 => "Brass Section"@,
            62 => "Synth Brass 1"@,
            63 => "Synth Brass 2"@,
            64 => "Soprano Sax"@,
            65 => "Alto Sax"@,
            66 => "Tenor Sax"@,
            67 => "Baritone Sax"@,
            68 => "Oboe"@,
            69 => "English Horn"@,
            70 => "Bassoon"@,
            71 => "Clarinet"@,
            72 => "Piccolo"@,
            73 => "Flute"@,
            74 => "Recorder"@,
            75 => "Pan Flute"@,
            76 => "Blown Bottle"@,
            77 => "Shakuhachi"@,
            78 => "Whistle"@,
            79 => "Ocarina"@,
            80 => "Lead 1 (square)"@,
            81 => "Lead 2 (sawtooth)"@,
            82 => "Lead 3 (calliope)"@,
            83 => "Lead 4 (chiff)"@,
            84 => "Lead 5 (charang)"@,
            85 => "Lead 6 (voice)"@,
            86 => "Lead 7 (fifths)"@,
            87 => "Lead 8 (bass + lead)"@,
            88 => "Pad 1 (new age)"@,
            89 => "Pad 2 (warm)"@,
            90 => "Pad 3 (polysynth)"@,
            91 => "Pad 4 (choir)"@,
            92 => "Pad 5 (bowed)"@,
            93 => "Pad 6 (metallic)"@,
            94 => "Pad 7 (halo)"@,
            95 => "Pad 8 (sweep)"@,
            96 => "FX 1 (rain)"@,
            97 => "FX 2 (soundtrack)"@,
            98 => "FX 3 (crystal)"@,
            99 => "FX 4 (atmosphere)"@,
            100 => "FX 5 (brightness)"@,
            101 => "FX 6 (goblins)"@,
            102 => "FX 7 (echoes)"@,
            103 => "FX 8 (sci-fi)"@,
            104 => "Sitar"@,
            105 => "Banjo"@,
            106 => "Shamisen"@,
            107 => "Koto"@,
            108 => "Kalimba"@,
            109 => "Bagpipe"@,
            110 => "Fiddle"@,
            111 => "Shanai"@,
            112 => "Tinkle Bell"@,
            113 => "Agogo"@,
            114 => "Steel Drums"@,
            115 => "Woodblock"@,
            116 => "Taiko Drum"@,
            117 => "Melodic Tom"@,
            118 => "Synth Drum"@,
            119 => "Reverse Cymbal"@,
            120 => "Guitar Fret Noise"@,
            121 => "Breath Noise"@,
            122 => "Seashore"@,
            123 => "Bird Tweet"@,
            124 => "Telephone Ring"@,
            125 => "Helicopter"@,
            126 => "Applause"@,
            127 => "Gunshot"@,
            _ => "Unknown Instrument"@,
        }
    }
}

/// Returns the General MIDI instrument name of a program number.
pub fn get_instrument_name(program: u8, is_drum: bool) -> (r: &'static str)
    ensures
        r@ == instrument_name(program, is_drum),
{
    if is_drum {
        "Drum Kit"
    } else {
        match program {
            0 => "Acoustic Grand Piano",
            1 => "Bright Acoustic Piano",
            2 => "Electric Grand Piano",
            3 => "Honky-tonk Piano",
            4 => "Electric Piano 1",
            5 => "Electric Piano 2",
            6 => "Harpsichord",
            7 => "Clavinet",
            8 => "Celesta",
            9 => "Glockenspiel",
            10 => "Music Box",
            11 => "Vibraphone",
            12 => "Marimba",
            13 => "Xylophone",
            14 => "Tubular Bells",
            15 => "Dulcimer",
            16 => "Drawbar Organ",
            17 => "Percussive Organ",
            18 => "Rock Organ",
            19 => "Church Organ",
            20 => "Reed Organ",
            21 => "Accordion",
            22 => "Harmonica",
            23 => "Tango Accordion",
            24 => "Acoustic Guitar (nylon)",
            25 => "Acoustic Guitar (steel)",
            26 => "Electric Guitar (jazz)",
            27 => "Electric Guitar (clean)",
            28 => "Electric Guitar (muted)",
            29 => "Overdriven Guitar",
            30 => "Distortion Guitar",
            31 => "Guitar Harmonics",
            32 => "Acoustic Bass",
            33 => "Electric Bass (finger)",
            34 => "Electric Bass (pick)",
            35 => "Fretless Bass",
            36 => "Slap Bass 1",
            37 => "Slap Bass 2",
            38 => "Synth Bass 1",
            39 => "Synth Bass 2",
            40 => "Violin",
            41 => "Viola",
            42 => "Cello",
            43 => "Contrabass",
            44 => "Tremolo Strings",
            45 => "Pizzicato Strings",
            46 => "Orchestral Harp",
            47 => "Timpani",
            48 => "String Ensemble 1",
            49 => "String Ensemble 2",
            50 => "Synth Strings 1",
            51 => "Synth Strings 2",
            52 => "Choir Aahs",
            53 => "Voice Oohs",
            54 => "Synth Voice",
            55 => "Orchestra Hit",
            56 => "Trumpet",
            57 => "Trombone",
            58 => "Tuba",
            59 => "Muted Trumpet",
            60 => "French Horn",
            61 => "Brass Section",
            62 => "Synth Brass 1",
            63 => "Synth Brass 2",
            64 => "Soprano Sax",
            65 => "Alto Sax",
            66 => "Tenor Sax",
            67 => "Baritone Sax",
            68 => "Oboe",
            69 => "English Horn",
            70 => "Bassoon",
            71 => "Clarinet",
            72 => "Piccolo",
            73 => "Flute",
            74 => "Recorder",
            75 => "Pan Flute",
            76 => "Blown Bottle",
            77 => "Shakuhachi",
            78 => "Whistle",
            79 => "Ocarina",
            80 => "Lead 1 (square)",
            81 => "Lead 2 (sawtooth)",
            82 => "Lead 3 (calliope)",
            83 => "Lead 4 (chiff)",
            84 => "Lead 5 (charang)",
            85 => "Lead 6 (voice)",
            86 => "Lead 7 (fifths)",
            87 => "Lead 8 (bass + lead)",
            88 => "Pad 1 (new age)",
            89 => "Pad 2 (warm)",
            90 => "Pad 3 (polysynth)",
            91 => "Pad 4 (choir)",
            92 => "Pad 5 (bowed)",
            93 => "Pad 6 (metallic)",
            94 => "Pad 7 (halo)",
            95 => "Pad 8 (sweep)",
            96 => "FX 1 (rain)",
            97 => "FX 2 (soundtrack)",
            98 => "FX 3 (crystal)",
            99 => "FX 4 (atmosphere)",
            100 => "FX 5 (brightness)",
            101 => "FX 6 (goblins)",
            102 => "FX 7 (echoes)",
            103 => "FX 8 (sci-fi)",
            104 => "Sitar",
            105 => "Banjo",
            106 => "Shamisen",
            107 => "Koto",
            108 => "Kalimba",
            109 => "Bagpipe",
            110 => "Fiddle",
            111 => "Shanai",
            112 => "Tinkle Bell",
            113 => "Agogo",
            114 => "Steel Drums",
            115 => "Woodblock",
            116 => "Taiko Drum",
            117 => "Melodic Tom",
            118 => "Synth Drum",
            119 => "Reverse Cymbal",
            120 => "Guitar Fret Noise",
            121 => "Breath Noise",
            122 => "Seashore",
            123 => "Bird Tweet",
            124 => "Telephone Ring",
            125 => "Helicopter",
            126 => "Applause",
            127 => "Gunshot",
            _ => "Unknown Instrument",
        }
    }
}

/// The soundfont name that leaves a channel without a soundfont.
pub open spec fn is_excluded(name: Seq<char>) -> bool {
    name == "-"@
}

/// Whether a soundfont can be used: the excluded name always can, a file
/// name when the file is on disk.
pub fn soundfont_exists(filename: &str, on_disk: bool) -> (r: bool)
    ensures
        r == (is_excluded(filename@) || on_disk),
{
    is_dash(filename) || on_disk
}

/// Whether a name is the single character `-`.
fn is_dash(name: &str) -> (r: bool)
    ensures
        r == is_excluded(name@),
{
    proof {
        reveal_strlit("-");
    }
    if name.unicode_len() != 1 {
        return false;
    }
    name.get_char(0) == '-' && {
        assert(name@ =~= "-"@);
        true
    }
}

/// Path of a soundfont file in a directory (the default one when none is
/// given); none for the excluded name.
pub open spec fn soundfont_path_spec(filename: Seq<char>, soundfont_dir: Option<Seq<char>>) -> Option<Seq<char>> {
    if is_excluded(filename) {
        None
    } else {
        let dir = match soundfont_dir {
            Some(d) => d,
            None => DEFAULT_SOUNDFONT_DIR@,
        };
        Some(dir + "/"@ + filename)
    }
}

/// View of an optional directory.
pub open spec fn dir_view(d: Option<&str>) -> Option<Seq<char>> {
    match d {
        Some(x) => Some(x@),
        None => None,
    }
}

/// Path of the file that holds a soundfont, or `None` for the excluded name.
pub fn soundfont_path(filename: &str, soundfont_dir: Option<&str>) -> (r: Option<String>)
    ensures
        r matches Some(p) ==> soundfont_path_spec(filename@, dir_view(soundfont_dir)) == Some(p@),
        r is None <==> soundfont_path_spec(filename@, dir_view(soundfont_dir)) is None,
{
    if is_dash(filename) {
        return None;
    }
    let mut path = match soundfont_dir {
        Some(d) => String::from_str(d),
        None => String::from_str(DEFAULT_SOUNDFONT_DIR),
    };
    path.append("/");
    path.append(filename);
    Some(path)
}

/// White space as `char::is_whitespace` and `str::trim` know it: the
/// characters of Unicode's `White_Space` property.
pub open spec fn is_space(c: char) -> bool {
    c == ' ' || ('\t' <= c && c <= '\r') || c == '\u{85}' || c == '\u{a0}' || c == '\u{1680}' || (
    '\u{2000}' <= c && c <= '\u{200a}') || c == '\u{2028}' || c == '\u{2029}' || c == '\u{202f}'
        || c == '\u{205f}' || c == '\u{3000}'
}

/// Whether a character is white space.
fn is_space_char(c: char) -> (r: bool)
    ensures
        r == is_space(c),
{
    c == ' ' || ('\t' <= c && c <= '\r') || c == '\u{85}' || c == '\u{a0}' || c == '\u{1680}' || (
    '\u{2000}' <= c && c <= '\u{200a}') || c == '\u{2028}' || c == '\u{2029}' || c == '\u{202f}'
        || c == '\u{205f}' || c == '\u{3000}'
}

/// A text without its trailing white space.
pub open spec fn trim_end(s: Seq<char>) -> Seq<char>
    decreases s.len(),
{
    if s.len() > 0 && is_space(s.last()) {
        trim_end(s.drop_last())
    } else {
        s
    }
}

/// A text without its leading white space.
pub open spec fn trim_start(s: Seq<char>) -> Seq<char>
    decreases s.len(),
{
    if s.len() > 0 && is_space(s[0]) {
        trim_start(s.subrange(1, s.len() as int))
    } else {
        s
    }
}

/// The comma-separated fields of a text; there is always at least one.
pub open spec fn fields(s: Seq<char>) -> Seq<Seq<char>>
    decreases s.len(),
{
    if s.len() == 0 {
        seq![seq![]]
    } else {
        let f = fields(s.drop_last());
        if s.last() == ',' {
            f.push(seq![])
        } else {
            f.update(f.len() - 1, f.last().push(s.last()))
        }
    }
}

/// Bound on the decimal places and on the exponent a number is read with:
/// fraction digits past it are dropped, larger exponents are held at it, and
/// an integer part longer than it by more than `u64` holds fails.
pub const MAX_PLACES: u32 = 4096;

/// Largest scale of a weight.
pub const MAX_WEIGHT_SCALE: u8 = 255;

/// What has been read of a number: its sign; the leading digits that fit a
/// `u64`, as one integer; the power of ten they are divided by (negative when
/// integer digits were dropped); whether the point, a mantissa digit, a
/// dropped digit, the exponent mark, its sign and an exponent digit have been
/// seen; and the exponent so far.
pub ghost struct Scan {
    pub negative: bool,
    pub digits: nat,
    pub scale: int,
    pub point: bool,
    pub any: bool,
    pub full: bool,
    pub exp_mode: bool,
    pub after_e: bool,
    pub exp_neg: bool,
    pub exp: nat,
    pub exp_any: bool,
}

/// A decimal digit.
pub open spec fn is_digit(c: char) -> bool {
    '0' <= c && c <= '9'
}

/// The value of a decimal digit.
pub open spec fn digit_value(c: char) -> nat {
    ((c as u32) - 48) as nat
}

/// Reading one more character of a number, as `f32`'s parser reads finite
/// numbers: a sign first, digits with at most one point, then optionally `e`
/// or `E`, a sign and exponent digits. Mantissa digits past what a `u64`
/// holds are dropped, counting a power of ten for each dropped integer digit.
pub open spec fn scan_char(st: Scan, c: char, first: bool) -> Option<Scan> {
    if first && (c == '-' || c == '+') {
        Some(Scan { negative: c == '-', ..st })
    } else if st.after_e && (c == '-' || c == '+') {
        Some(Scan { exp_neg: c == '-', after_e: false, ..st })
    } else if c == '.' {
        if st.point || st.exp_mode {
            None
        } else {
            Some(Scan { point: true, ..st })
        }
    } else if c == 'e' || c == 'E' {
        if st.exp_mode || !st.any {
            None
        } else {
            Some(Scan { exp_mode: true, after_e: true, ..st })
        }
    } else if is_digit(c) {
        let d = digit_value(c);
        if st.exp_mode {
            let e = st.exp * 10 + d;
            Some(
                Scan {
                    exp: if e > MAX_PLACES {
                        MAX_PLACES as nat
                    } else {
                        e
                    },
                    exp_any: true,
                    after_e: false,
                    ..st
                },
            )
        } else {
            let v = st.digits * 10 + d;
            if !st.full && v <= u64::MAX && !(st.point && st.scale >= MAX_PLACES) {
                Some(
                    Scan {
                        digits: v,
                        scale: if st.point {
                            st.scale + 1
                        } else {
                            st.scale
                        },
                        any: true,
                        ..st
                    },
                )
            } else if st.point {
                Some(Scan { any: true, full: true, ..st })
            } else if st.scale <= -(MAX_PLACES as int) {
                None
            } else {
                Some(Scan { scale: st.scale - 1, any: true, full: true, ..st })
            }
        }
    } else {
        None
    }
}

/// Reading a whole field.
pub open spec fn scan(s: Seq<char>) -> Option<Scan>
    decreases s.len(),
{
    if s.len() == 0 {
        Some(
            Scan {
                negative: false,
                digits: 0,
                scale: 0,
                point: false,
                any: false,
                full: false,
                exp_mode: false,
                after_e: false,
                exp_neg: false,
                exp: 0,
                exp_any: false,
            },
        )
    } else {
        match scan(s.drop_last()) {
            None => None,
            Some(st) => scan_char(st, s.last(), s.len() == 1),
        }
    }
}

/// The weight of what was read: `digits * 10^(exponent - scale)`. Zero is
/// zero whatever its exponent; a whole number past `u64` fails; a fraction
/// with more than 255 places keeps its first 255.
pub open spec fn weight_of_scan(st: Scan) -> Option<Weight> {
    if !st.any || (st.exp_mode && !st.exp_any) {
        None
    } else {
        let e: int = if st.exp_neg {
            -st.exp
        } else {
            st.exp as int
        };
        let net = e - st.scale;
        if st.digits == 0 {
            Some(Weight { negative: st.negative, digits: 0, scale: 0 })
        } else if net >= 0 {
            if st.digits * pow10(net as nat) <= u64::MAX {
                Some(Weight { negative: st.negative, digits: (st.digits * pow10(net as nat)) as u64, scale: 0 })
            } else {
                None
            }
        } else if -net <= MAX_WEIGHT_SCALE {
            Some(Weight { negative: st.negative, digits: st.digits as u64, scale: (-net) as u8 })
        } else {
            Some(
                Weight {
                    negative: st.negative,
                    digits: (st.digits / pow10((-net - MAX_WEIGHT_SCALE) as nat)) as u64,
                    scale: MAX_WEIGHT_SCALE,
                },
            )
        }
    }
}

/// The weight a field denotes, if it is a finite number.
pub open spec fn decimal_of(s: Seq<char>) -> Option<Weight> {
    match scan(s) {
        Some(st) => weight_of_scan(st),
        None => None,
    }
}

/// The weights of all fields, each trimmed, or none if one is not a number.
pub open spec fn weights_of(fs: Seq<Seq<char>>) -> Option<Seq<Weight>>
    decreases fs.len(),
{
    if fs.len() == 0 {
        Some(seq![])
    } else {
        match weights_of(fs.drop_last()) {
            None => None,
            Some(ws) => match decimal_of(trim_start(trim_end(fs.last()))) {
                Some(w) => Some(ws.push(w)),
                None => None,
            },
        }
    }
}

/// The weights a soundfont file holds: comma-separated numbers with white
/// space around them.
pub open spec fn soundfont_of(s: Seq<char>) -> Option<Seq<Weight>> {
    weights_of(fields(s))
}

proof fn lemma_scan_fails_on(s: Seq<char>, k: int)
    requires
        0 <= k <= s.len(),
        scan(s.subrange(0, k)) is None,
    ensures
        scan(s) is None,
    decreases s.len() - k,
{
    if k < s.len() {
        assert(s.subrange(0, k + 1).drop_last() =~= s.subrange(0, k));
        lemma_scan_fails_on(s, k + 1);
    } else {
        assert(s.subrange(0, k) =~= s);
    }
}

/// `d * 10^k`, or `None` where that exceeds `u64`.
fn times_pow10(d: u64, k: u64) -> (r: Option<u64>)
    requires
        d > 0,
    ensures
        match r {
            Some(v) => v as nat == d as nat * pow10(k as nat),
            None => d as nat * pow10(k as nat) > u64::MAX,
        },
{
    let mut cur: u64 = d;
    let mut i: u64 = 0;
    proof {
        assert(pow10(0) == 1);
    }
    while i < k
        invariant
            0 <= i <= k,
            d > 0,
            cur as nat == d as nat * pow10(i as nat),
        decreases k - i,
    {
        if cur > u64::MAX / 10 {
            proof {
                lemma_pow10_mono((i + 1) as nat, k as nat);
                let a = pow10((i + 1) as nat);
                let b = pow10(k as nat);
                assert(a == 10 * pow10(i as nat));
                assert(d as nat * a <= d as nat * b) by (nonlinear_arith)
                    requires
                        a <= b,
                ;
                assert(d as nat * a == 10 * (cur as nat)) by (nonlinear_arith)
                    requires
                        a == 10 * pow10(i as nat),
                        cur as nat == d as nat * pow10(i as nat),
                ;
            }
            return None;
        }
        proof {
            assert(d as nat * pow10((i + 1) as nat) == 10 * (cur as nat)) by (nonlinear_arith)
                requires
                    pow10((i + 1) as nat) == 10 * pow10(i as nat),
                    cur as nat == d as nat * pow10(i as nat),
            ;
        }
        cur = cur * 10;
        i = i + 1;
    }
    Some(cur)
}

/// `d / 10^k`.
fn div_pow10(d: u64, k: u64) -> (r: u64)
    ensures
        r as nat == d as nat / pow10(k as nat),
{
    let mut cur: u64 = d;
    let mut i: u64 = 0;
    proof {
        assert(pow10(0) == 1);
    }
    while i < k
        invariant
            0 <= i <= k,
            cur as nat == d as nat / pow10(i as nat),
        decreases k - i,
    {
        proof {
            lemma_pow10_mono(0, i as nat);
            vstd::arithmetic::div_mod::lemma_div_denominator(d as int, pow10(i as nat) as int, 10);
            assert(pow10((i + 1) as nat) == pow10(i as nat) * 10);
        }
        cur = cur / 10;
        i = i + 1;
    }
    cur
}

/// Reads the number in `cs[from..to]`, white space around it allowed.
fn parse_decimal(cs: &Vec<char>, from: usize, to: usize) -> (r: Option<Weight>)
    requires
        from <= to <= cs@.len(),
    ensures
        r == decimal_of(trim_start(trim_end(cs@.subrange(from as int, to as int)))),
{
    let ghost s = cs@;
    let mut e: usize = to;
    while e > from && is_space_char(cs[e - 1])
        invariant
            from <= e <= to <= s.len(),
            s == cs@,
            trim_end(s.subrange(from as int, to as int)) == trim_end(s.subrange(from as int, e as int)),
        decreases e,
    {
        proof {
            assert(s.subrange(from as int, e as int).drop_last() =~= s.subrange(from as int, e as int - 1));
        }
        e = e - 1;
    }
    proof {
        if e > from {
            assert(s.subrange(from as int, e as int).last() == s[e - 1]);
        }
        assert(trim_end(s.subrange(from as int, e as int)) == s.subrange(from as int, e as int));
    }
    let mut a: usize = from;
    while a < e && is_space_char(cs[a])
        invariant
            from <= a <= e <= to <= s.len(),
            s == cs@,
            trim_start(s.subrange(from as int, e as int)) == trim_start(s.subrange(a as int, e as int)),
        decreases e - a,
    {
        proof {
            assert(s.subrange(a as int, e as int).subrange(1, (e - a) as int) =~= s.subrange(a as int + 1, e as int));
        }
        a = a + 1;
    }
    proof {
        if a < e {
            assert(s.subrange(a as int, e as int)[0] == s[a as int]);
        }
        assert(trim_start(s.subrange(a as int, e as int)) == s.subrange(a as int, e as int));
    }
    let ghost field = s.subrange(a as int, e as int);
    assert(field == trim_start(trim_end(s.subrange(from as int, to as int))));
    let mut negative = false;
    let mut digits: u64 = 0;
    let mut scale: i64 = 0;
    let mut point = false;
    let mut any = false;
    let mut full = false;
    let mut exp_mode = false;
    let mut after_e = false;
    let mut exp_neg = false;
    let mut exp: u64 = 0;
    let mut exp_any = false;
    let mut i: usize = a;
    proof {
        assert(field.subrange(0, 0) =~= seq![]);
    }
    while i < e
        invariant
            a <= i <= e <= s.len(),
            s == cs@,
            field == s.subrange(a as int, e as int),
            field == trim_start(trim_end(s.subrange(from as int, to as int))),
            scan(field.subrange(0, (i - a) as int)) == Some(
                Scan {
                    negative,
                    digits: digits as nat,
                    scale: scale as int,
                    point,
                    any,
                    full,
                    exp_mode,
                    after_e,
                    exp_neg,
                    exp: exp as nat,
                    exp_any,
                },
            ),
            -(MAX_PLACES as int) <= scale <= MAX_PLACES,
            exp <= MAX_PLACES,
        decreases e - i,
    {
        let c = cs[i];
        proof {
            assert(field.subrange(0, (i - a) as int + 1).drop_last() =~= field.subrange(0, (i - a) as int));
            assert(field.subrange(0, (i - a) as int + 1).last() == c);
        }
        if i == a && (c == '-' || c == '+') {
            negative = c == '-';
        } else if after_e && (c == '-' || c == '+') {
            exp_neg = c == '-';
            after_e = false;
        } else if c == '.' {
            if point || exp_mode {
                proof {
                    lemma_scan_fails_on(field, (i - a) as int + 1);
                }
                return None;
            }
            point = true;
        } else if c == 'e' || c == 'E' {
            if exp_mode || !any {
                proof {
                    lemma_scan_fails_on(field, (i - a) as int + 1);
                }
                return None;
            }
            exp_mode = true;
            after_e = true;
        } else if '0' <= c && c <= '9' {
            let d = ((c as u32) - 48) as u64;
            if exp_mode {
                let x = exp * 10 + d;
                exp = if x > MAX_PLACES as u64 {
                    MAX_PLACES as u64
                } else {
                    x
                };
                exp_any = true;
                after_e = false;
            } else {
                let fits = digits <= (u64::MAX - d) / 10;
                proof {
                    assert(fits <==> digits as nat * 10 + d as nat <= u64::MAX) by (nonlinear_arith)
                        requires
                            fits == (digits <= (u64::MAX - d) / 10),
                            d <= 9,
                    ;
                }
                if !full && fits && !(point && scale >= MAX_PLACES as i64) {
                    digits = digits * 10 + d;
                    if point {
                        scale = scale + 1;
                    }
                    any = true;
                } else if point {
                    any = true;
                    full = true;
                } else if scale <= -(MAX_PLACES as i64) {
                    proof {
                        lemma_scan_fails_on(field, (i - a) as int + 1);
                    }
                    return None;
                } else {
                    scale = scale - 1;
                    any = true;
                    full = true;
                }
            }
        } else {
            proof {
                lemma_scan_fails_on(field, (i - a) as int + 1);
            }
            return None;
        }
        i = i + 1;
    }
    proof {
        assert(field.subrange(0, (e - a) as int) =~= field);
    }
    if !any || (exp_mode && !exp_any) {
        return None;
    }
    let signed_exp: i64 = if exp_neg {
        -(exp as i64)
    } else {
        exp as i64
    };
    let net: i64 = signed_exp - scale;
    if digits == 0 {
        Some(Weight { negative, digits: 0, scale: 0 })
    } else if net >= 0 {
        match times_pow10(digits, net as u64) {
            Some(v) => Some(Weight { negative, digits: v, scale: 0 }),
            None => None,
        }
    } else if -net <= MAX_WEIGHT_SCALE as i64 {
        Some(Weight { negative, digits, scale: (-net) as u8 })
    } else {
        Some(
            Weight {
                negative,
                digits: div_pow10(digits, (-net - MAX_WEIGHT_SCALE as i64) as u64),
                scale: MAX_WEIGHT_SCALE,
            },
        )
    }
}

/// Reads the weights of a soundfont file: comma-separated numbers (with an
/// optional sign, point and exponent), each with optional white space around
/// it.
pub fn parse_soundfont_text(content: &str) -> (r: Result<Vec<Weight>, MidiError>)
    ensures
        r is Ok <==> soundfont_of(content@) is Some,
        r matches Ok(ws) ==> soundfont_of(content@) == Some(ws@),
        r is Err ==> r matches Err(MidiError::Parse(_)),
{
    let cs = chars_of(content);
    let ghost s = cs@;
    let n = cs.len();
    let mut weights: Vec<Weight> = Vec::new();
    let mut failed = false;
    let mut start: usize = 0;
    let mut i: usize = 0;
    proof {
        assert(s.subrange(0, 0) =~= seq![]);
        assert(fields(s.subrange(0, 0)).drop_last() =~= seq![]);
    }
    while i < n
        invariant
            s == cs@,
            n == s.len(),
            0 <= start <= i <= n,
            fields(s.subrange(0, i as int)).last() == s.subrange(start as int, i as int),
            fields(s.subrange(0, i as int)).len() >= 1,
            !failed ==> weights_of(fields(s.subrange(0, i as int)).drop_last()) == Some(weights@),
            failed ==> weights_of(fields(s.subrange(0, i as int)).drop_last()) is None,
        decreases n - i,
    {
        let ghost f0 = fields(s.subrange(0, i as int));
        proof {
            assert(s.subrange(0, i as int + 1).drop_last() =~= s.subrange(0, i as int));
            assert(s.subrange(0, i as int + 1).last() == s[i as int]);
        }
        if cs[i] == ',' {
            if !failed {
                match parse_decimal(&cs, start, i) {
                    Some(w) => weights.push(w),
                    None => failed = true,
                }
            }
            proof {
                let f1 = fields(s.subrange(0, i as int + 1));
                assert(f1 == f0.push(seq![]));
                assert(f1.drop_last() =~= f0);
                assert(f0.drop_last().push(f0.last()) =~= f0);
                assert(f1.last() =~= s.subrange(i as int + 1, i as int + 1));
            }
            start = i + 1;
        } else {
            proof {
                let f1 = fields(s.subrange(0, i as int + 1));
                assert(f1.drop_last() =~= f0.drop_last());
                assert(f1.last() =~= s.subrange(start as int, i as int + 1));
            }
        }
        i = i + 1;
    }
    proof {
        assert(s.subrange(0, n as int) =~= s);
    }
    if !failed {
        match parse_decimal(&cs, start, n) {
            Some(w) => weights.push(w),
            None => failed = true,
        }
    }
    proof {
        let f = fields(s);
        assert(f.drop_last().push(f.last()) =~= f);
    }
    if failed {
        Err(MidiError::Parse(String::from_str(content)))
    } else {
        Ok(weights)
    }
}

/// The characters of a text.
pub fn chars_of(s: &str) -> (r: Vec<char>)
    ensures
        r@ == s@,
{
    broadcast use vstd::string::group_string_axioms;

    let mut it = s.chars();
    let mut out: Vec<char> = Vec::new();
    loop
        invariant
            out@ + it.remaining() == s@,
            it.decrease() is Some,
        ensures
            out@ == s@,
        decreases it.decrease()->0,
    {
        match it.next() {
            Some(c) => {
                out.push(c);
            },
            None => {
                assert(out@ =~= s@);
                break;
            },
        }
    }
    out
}

} // verus!
