//! Types that the parts of the library share.

use vstd::prelude::*;

verus! {

/// The number by which a log pattern is known.
pub type PatternID = usize;

/// What a variable part of a log line looks like.
#[derive(Debug, Clone, Copy, PartialEq, Eq, Structural)]
pub enum VarType {
    Integer,
    Float,
    Duration,
    Timestamp,
    IPv4,
    IPv6,
    UUID,
    HexID,
    String,
}

/// The form of the output.
#[derive(Debug, Clone, Copy, PartialEq, Eq, Structural)]
pub enum OutputMode {
    Human,
    Llm,
    Json,
}

/// What the output shows, and how.
#[derive(Debug, Clone, Copy, PartialEq, Eq, Structural)]
pub struct FormatOptions {
    /// How many patterns to show.
    pub top: usize,
    /// How many example lines to show for each pattern.
    pub context: usize,
    pub no_color: bool,
    pub no_banner: bool,
    pub output_mode: OutputMode,
}

} // verus!
