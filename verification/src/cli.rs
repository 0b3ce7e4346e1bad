use vstd::prelude::*;

verus! {

/// What the command line asks of the interpreter.
pub struct CliArgs {
    /// Source file to execute.
    pub source_filename: Option<String>,
    /// Enable source code tracing.
    pub tracing: bool,
    /// Continue in interactive mode after executing source file.
    pub interactive: bool,
}

} // verus!
