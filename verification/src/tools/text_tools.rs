//! Command lines of the text tools: Text Fix, Text Ghoster, Text Highlight and Font Probe.
use vstd::prelude::*;
use crate::cli::Common;

verus! {

/// Text Fix: the kerning-removal stages to run and the justification to restore.
pub struct TextFixCli {
    pub common: Common,
    pub removemanualkerning: bool,
    pub mergesubsuper: bool,
    pub splitdistant: bool,
    pub mergenearby: bool,
    /// 1 = centre, 2 = left, 3 = right, 4 = unchanged.
    pub justification: u8,
}

/// Text Ghoster: the notebook page Inkscape reports is unused.
pub struct TextGhosterCli {
    pub common: Common,
    pub tab: String,
}

/// Text Highlight: what to outline (`char`, `charink`, `chunk`, `line`, `full`, `fullink`).
pub struct TextHighlightCli {
    pub common: Common,
    pub htype: String,
}

/// Font Probe takes only the arguments every tool takes.
pub struct FontProbeCli {
    pub common: Common,
}

} // verus!
