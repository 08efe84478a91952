//! The commands the tool offers, as plain data: the surrounding binary parses
//! the command line into these and dispatches on them.

use vstd::prelude::*;
use crate::config::Aggregate;
use crate::punch::Punch;

verus! {

/// Settings of the plot command: one chart description per string, each a
/// `+`-separated list of line names.
pub struct Plot {
    pub plot_string: Vec<String>,
}

/// Which command a run performs.
pub enum Commands {
    /// Load-test an endpoint.
    Punch(Punch),
    /// Aggregate a record stream into per-window summaries.
    Aggregate(Aggregate),
    /// Chart numeric series from a record stream.
    Plot(Plot),
}

} // verus!
