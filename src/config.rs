//! Settings shared by every front end.

use vstd::prelude::*;
use crate::soundfonts::DEFAULT_SOUNDFONT_DIR;

verus! {

/// Settings common to the command line and the web front end.
#[derive(Debug, Clone)]
pub struct CommonConfig {
    /// Directory where soundfonts are stored.
    pub soundfonts_dir: String,
}

impl Default for CommonConfig {
    fn default() -> (r: Self)
        ensures
            r.soundfonts_dir@ == DEFAULT_SOUNDFONT_DIR@,
    {
        CommonConfig { soundfonts_dir: String::from_str(DEFAULT_SOUNDFONT_DIR) }
    }
}

/// The soundfont directory: the configured one, or the default when no
/// settings could be loaded.
pub fn get_soundfonts_dir(config: Option<&CommonConfig>) -> (r: String)
    ensures
        r@ == match config {
            Some(c) => c.soundfonts_dir@,
            None => DEFAULT_SOUNDFONT_DIR@,
        },
{
    match config {
        Some(c) => c.soundfonts_dir.clone(),
        None => String::from_str(DEFAULT_SOUNDFONT_DIR),
    }
}

} // verus!
