//! Soundfont names as given on the command line.

use vstd::prelude::*;
use crate::types::Channel;

verus! {

/// Soundfont file used for a melodic channel when none is named.
pub const DEFAULT_SOUNDFONT_FILE: &'static str = "default.txt";

/// Whether a name ends with the `.txt` extension.
pub open spec fn has_txt_extension(name: Seq<char>) -> bool {
    name.len() >= 4 && name.subrange(name.len() - 4, name.len() as int) == ".txt"@
}

/// A soundfont name with the `.txt` extension, added unless present; the
/// excluded name `-` stays as it is.
pub open spec fn soundfont_file_name(name: Seq<char>) -> Seq<char> {
    if name == "-"@ || has_txt_extension(name) {
        name
    } else {
        name + ".txt"@
    }
}

/// Gives a soundfont name the `.txt` extension unless it has it or is `-`.
pub fn process_soundfont_name(name: &str) -> (r: String)
    ensures
        r@ == soundfont_file_name(name@),
{
    proof {
        reveal_strlit("-");
        reveal_strlit(".txt");
    }
    let n = name.unicode_len();
    if n == 1 && name.get_char(0) == '-' {
        assert(name@ =~= "-"@);
        return String::from_str(name);
    }
    if n >= 4 && name.get_char(n - 4) == '.' && name.get_char(n - 3) == 't' && name.get_char(n - 2) == 'x'
        && name.get_char(n - 1) == 't' {
        assert(name@.subrange(n - 4, n as int) =~= ".txt"@);
        return String::from_str(name);
    }
    proof {
        if n >= 4 {
            let t = name@.subrange(n - 4, n as int);
            if t == ".txt"@ {
                assert(t[0] == name@[n - 4]);
                assert(t[1] == name@[n - 3]);
                assert(t[2] == name@[n - 2]);
                assert(t[3] == name@[n - 1]);
            }
        }
    }
    let mut r = String::from_str(name);
    r.append(".txt");
    r
}

/// The soundfont name of a channel when none is given: none for drums, the
/// default soundfont for every other channel.
pub open spec fn default_soundfont_name(c: Channel) -> Seq<char> {
    if c.is_drum {
        "-"@
    } else {
        DEFAULT_SOUNDFONT_FILE@
    }
}

/// Soundfont names for the channels of a song when none are given.
pub fn default_soundfont_names(channels: &Vec<Channel>) -> (r: Vec<String>)
    ensures
        r@.len() == channels@.len(),
        forall|i: int| 0 <= i < channels@.len() ==> #[trigger] r@[i]@ == default_soundfont_name(channels@[i]),
{
    let mut r: Vec<String> = Vec::new();
    let mut i: usize = 0;
    while i < channels.len()
        invariant
            0 <= i <= channels@.len(),
            r@.len() == i,
            forall|k: int| 0 <= k < i ==> #[trigger] r@[k]@ == default_soundfont_name(channels@[k]),
        decreases channels@.len() - i,
    {
        let name = if channels[i].is_drum {
            String::from_str("-")
        } else {
            String::from_str(DEFAULT_SOUNDFONT_FILE)
        };
        r.push(name);
        i = i + 1;
    }
    r
}

} // verus!
