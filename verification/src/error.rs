use vstd::prelude::*;
use vstd::string::StringExecFns;

verus! {

/// Everything that can end a profiling run early.
#[derive(Debug)]
pub enum Error {
    /// The editor identifier is neither `vim`, `nvim` nor `neovim`.
    InvalidCommand { cmd: String },
    /// A duration in the trace is malformed or too large to hold.
    NumericParse,
    /// The regex engine refused a trace pattern.
    Pattern,
    /// No plugin root could be inferred from the trace.
    PluginDirectory,
    /// The trace file could not be read.
    ReadLog,
    /// The trace file could not be removed.
    RemoveLog,
    /// The editor could not be started or did not exit cleanly.
    StartupTime,
}

impl Error {
    /// The text of the message for this error.
    pub open spec fn message_text(self) -> Seq<char> {
        match self {
            Error::InvalidCommand { cmd } => "Invalid command: "@ + cmd@,
            Error::NumericParse => "Unable to parse a duration in the `vim.log` file."@,
            Error::Pattern => "Unable to compile a pattern for the `vim.log` file."@,
            Error::PluginDirectory => "Unable to find a vim plugin directory."@,
            Error::ReadLog => "Unable to read the contents of the `vim.log` file."@,
            Error::RemoveLog => "Unable to remove `vim.log` file."@,
            Error::StartupTime => "Failed to execute vim startuptime."@,
        }
    }

    /// A human-readable description of the error.
    pub fn message(&self) -> (text: String)
        ensures
            text@ == self.message_text(),
    {
        match self {
            Error::InvalidCommand { cmd } => {
                String::from_str("Invalid command: ").concat(cmd.as_str())
            },
            Error::NumericParse => String::from_str(
                "Unable to parse a duration in the `vim.log` file.",
            ),
            Error::Pattern => String::from_str(
                "Unable to compile a pattern for the `vim.log` file.",
            ),
            Error::PluginDirectory => String::from_str("Unable to find a vim plugin directory."),
            Error::ReadLog => String::from_str(
                "Unable to read the contents of the `vim.log` file.",
            ),
            Error::RemoveLog => String::from_str("Unable to remove `vim.log` file."),
            Error::StartupTime => String::from_str("Failed to execute vim startuptime."),
        }
    }
}

} // verus!
