//! The render-time configuration bundle threaded through every render and
//! escape call.

use vstd::prelude::*;

verus! {

/// Options that the renderer consults while serializing a tree.
///
/// Malformed combinations are inert: requesting astral-to-surrogate
/// conversion while non-ASCII escaping is disabled simply leaves the astral
/// flag unread.
#[derive(Clone, Copy, Debug, Hash, Ord, PartialOrd, Eq, PartialEq, Structural)]
pub struct RegExpConfig {
    /// Emit every group as a capturing group `(`; otherwise `(?:`.
    pub is_capturing_group_enabled: bool,
    /// Wrap every structural and content token in ANSI styling.
    pub is_output_colorized: bool,
    /// Expand non-ASCII literal characters to `\u{..}` escape sequences.
    pub is_non_ascii_char_escaped: bool,
    /// When escaping non-ASCII characters, encode astral-plane code points
    /// as UTF-16 surrogate-pair escapes instead of a single escape.
    pub is_astral_code_point_converted_to_surrogate: bool,
}

impl RegExpConfig {
    /// A configuration with every toggle switched off.
    pub fn new() -> (config: Self)
        ensures
            !config.is_capturing_group_enabled,
            !config.is_output_colorized,
            !config.is_non_ascii_char_escaped,
            !config.is_astral_code_point_converted_to_surrogate,
    {
        Self {
            is_capturing_group_enabled: false,
            is_output_colorized: false,
            is_non_ascii_char_escaped: false,
            is_astral_code_point_converted_to_surrogate: false,
        }
    }
}

} // verus!
