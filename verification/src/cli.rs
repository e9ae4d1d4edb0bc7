//! The plain command-line configuration record, as the surrounding program
//! hands it to the library.

use vstd::prelude::*;

verus! {

/// Options of one dump run, as parsed from the command line.
#[derive(Debug, Clone)]
pub struct Cli {
    /// Show more details.
    pub verbose: bool,
    /// Show additional logging meta data.
    pub meta: bool,
    /// Show the character representation column.
    pub chars: bool,
    /// Skip the first N bytes.
    pub skip: usize,
    /// Only interpret N bytes (end after N); 0 means unlimited.
    pub limit: usize,
    /// Show identical rows instead of collapsing them.
    pub show_identical: bool,
    /// The data sources, probably files; empty or `-` means standard input.
    pub data_source: Vec<String>,
}

} // verus!
