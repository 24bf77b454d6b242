//! The arguments of the program, and the output that they ask for.

use crate::types::{FormatOptions, OutputMode};
use vstd::prelude::*;

verus! {

/// The arguments of the program.
#[derive(Debug)]
pub struct Args {
    /// Log file to process (standard input if omitted or "-").
    pub file: Option<String>,
    /// Output in human-readable format (default).
    pub human: bool,
    /// Output in LLM-optimized format (compact, token-efficient).
    pub llm: bool,
    /// Output in JSON format.
    pub json: bool,
    /// How many patterns to show.
    pub top: usize,
    /// How many example raw lines to show for each pattern.
    pub context: usize,
    /// Disable terminal colors.
    pub no_color: bool,
    /// Suppress the header/footer banners.
    pub no_banner: bool,
    /// Suppress progress output.
    pub quiet: bool,
}

impl Args {
    /// The form of output that was asked for: JSON before the LLM-optimized one,
    /// and that one before the one for humans.
    pub fn output_mode(&self) -> (mode: OutputMode)
        ensures
            mode == if self.json {
                OutputMode::Json
            } else if self.llm {
                OutputMode::Llm
            } else {
                OutputMode::Human
            },
    {
        if self.json {
            OutputMode::Json
        } else if self.llm {
            OutputMode::Llm
        } else {
            OutputMode::Human
        }
    }

    /// What the output is to show. The LLM-optimized form has two example lines
    /// for each pattern where no number was given.
    pub fn to_format_options(&self) -> (options: FormatOptions)
        ensures
            options.top == self.top,
            options.context == if self.llm && self.context == 0 {
                2
            } else {
                self.context
            },
            options.no_color == self.no_color,
            options.no_banner == self.no_banner,
            options.output_mode == if self.json {
                OutputMode::Json
            } else if self.llm {
                OutputMode::Llm
            } else {
                OutputMode::Human
            },
    {
        FormatOptions {
            top: self.top,
            context: if self.llm && self.context == 0 {
                2
            } else {
                self.context
            },
            no_color: self.no_color,
            no_banner: self.no_banner,
            output_mode: self.output_mode(),
        }
    }

    /// The file to read, or none for standard input.
    pub fn input_path(&self) -> (path: Option<&String>)
        ensures
            path is None <==> self.file is None || self.file->0@ == "-"@,
            path is Some ==> path->0@ == self.file->0@,
    {
        match &self.file {
            Some(path) => if *path == "-".to_string() {
                None
            } else {
                Some(path)
            },
            None => None,
        }
    }
}

} // verus!
