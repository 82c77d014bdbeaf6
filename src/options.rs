use vstd::prelude::*;

use crate::matchers::ConfigError;

verus! {

/// The settings of a session.
pub struct Opt {
    /// Programs to run, separated by `-/-`, instead of reading standard input.
    pub programs: Vec<String>,
    /// Patterns of region start lines.
    pub match_start: Vec<String>,
    /// Patterns of region end lines, paired with the start patterns by position.
    pub match_end: Vec<String>,
    /// A file of further pairs, a start line and an end line a pair.
    pub match_pairs_file: Option<String>,
    /// A file of shell command lines, one program a line; `-` reads them from standard input.
    pub programs_file: Option<String>,
    /// The shell that runs the lines of the programs file.
    pub shell: Option<String>,
    /// Whether the whole output is printed again at the end.
    pub replay: bool,
    /// Rows kept free below the last frame.
    pub final_shrink: usize,
    /// A pause after each line, in milliseconds.
    pub interline_delay: usize,
    /// Whether a trace of the content trees is printed instead of frames.
    pub debug: bool,
}

/// Where the lines come from.
#[derive(PartialEq, Eq, Structural, Clone, Copy, Debug)]
pub enum Input {
    /// The programs that were started.
    Programs,
    /// Standard input.
    Stdin,
}

/// Where the lines come from once `program_count` programs were started: standard input
/// when none was asked for, an error when a programs file named none.
pub fn resolve_input(program_count: usize, has_programs_file: bool) -> (r: Result<Input, ConfigError>)
    ensures
        program_count > 0 ==> r matches Ok(Input::Programs),
        program_count == 0 && !has_programs_file ==> r matches Ok(Input::Stdin),
        program_count == 0 && has_programs_file ==> r matches Err(ConfigError::NoPrograms),
{
    if program_count > 0 {
        Ok(Input::Programs)
    } else if !has_programs_file {
        Ok(Input::Stdin)
    } else {
        Err(ConfigError::NoPrograms)
    }
}

} // verus!
