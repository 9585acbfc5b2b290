//! Diagnostics' command line.
use vstd::prelude::*;
use crate::cli::Common;

verus! {

/// Diagnostics takes only the arguments every tool takes.
pub struct AboutCli {
    pub common: Common,
}

} // verus!
