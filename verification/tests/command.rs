use vim_profiler::command::Command;
use vim_profiler::error::Error;

#[test]
fn the_editors_are_known_by_their_names() {
    assert!(matches!(Command::parse("vim"), Ok(Command::Vim)));
    assert!(matches!(Command::parse("nvim"), Ok(Command::Neovim)));
    assert!(matches!(Command::parse("neovim"), Ok(Command::Neovim)));
}

#[test]
fn another_editor_is_refused_by_name() {
    for cmd in ["emacs", "", "Vim", "vim ", "vi"] {
        match Command::parse(cmd) {
            Err(Error::InvalidCommand { cmd: given }) => assert_eq!(given, cmd),
            other => panic!("{:?} was taken for {:?}", cmd, other),
        }
    }
}

#[test]
fn each_editor_names_its_program() {
    assert_eq!(Command::Vim.name(), "vim");
    assert_eq!(Command::Neovim.name(), "nvim");
}

#[test]
fn each_error_has_its_message() {
    assert_eq!(
        Error::InvalidCommand { cmd: String::from("emacs") }.message(),
        "Invalid command: emacs"
    );
    assert_eq!(Error::PluginDirectory.message(), "Unable to find a vim plugin directory.");
    assert_eq!(
        Error::ReadLog.message(),
        "Unable to read the contents of the `vim.log` file."
    );
    assert_eq!(Error::RemoveLog.message(), "Unable to remove `vim.log` file.");
    assert_eq!(Error::StartupTime.message(), "Failed to execute vim startuptime.");
    assert_eq!(
        Error::NumericParse.message(),
        "Unable to parse a duration in the `vim.log` file."
    );
    assert_eq!(
        Error::Pattern.message(),
        "Unable to compile a pattern for the `vim.log` file."
    );
}
