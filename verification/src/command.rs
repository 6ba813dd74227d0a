use vstd::prelude::*;
use vstd::string::StringExecFns;
use crate::error::Error;

verus! {

/// The editors whose start-up can be profiled.
#[derive(Debug)]
pub enum Command {
    Vim,
    Neovim,
}

impl Command {
    /// The editor that an identifier stands for, if any.
    pub open spec fn recognize(cmd: Seq<char>) -> Option<Command> {
        if cmd == "vim"@ {
            Some(Command::Vim)
        } else if cmd == "nvim"@ || cmd == "neovim"@ {
            Some(Command::Neovim)
        } else {
            None
        }
    }

    /// The name of the executable to launch.
    pub open spec fn program(self) -> Seq<char> {
        match self {
            Command::Vim => "vim"@,
            Command::Neovim => "nvim"@,
        }
    }

    /// Reads an editor identifier: `vim`, `nvim` or `neovim`.
    pub fn parse(cmd: &str) -> (r: Result<Command, Error>)
        ensures
            match r {
                Ok(c) => Self::recognize(cmd@) == Some(c),
                Err(e) => Self::recognize(cmd@) is None && e is InvalidCommand && e->cmd@ == cmd@,
            },
    {
        let given = cmd.to_owned();
        if given == String::from_str("vim") {
            Ok(Command::Vim)
        } else if given == String::from_str("nvim") || given == String::from_str("neovim") {
            Ok(Command::Neovim)
        } else {
            Err(Error::InvalidCommand { cmd: given })
        }
    }

    /// The name of the executable to launch.
    pub fn name(&self) -> (s: String)
        ensures
            s@ == self.program(),
    {
        match self {
            Command::Vim => String::from_str("vim"),
            Command::Neovim => String::from_str("nvim"),
        }
    }
}

} // verus!
