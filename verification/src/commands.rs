use vstd::prelude::*;

verus! {

/// What a user can ask for by name.
#[derive(Debug, Clone, Copy, PartialEq, Eq)]
pub enum Command {
    Help,
    Version,
}

impl Command {
    /// What the command does, in words.
    pub fn description(&self) -> (s: String)
        ensures
            s@ == match self {
                Command::Help => "打印帮助"@,
                Command::Version => "版本信息"@,
            },
    {
        match self {
            Command::Help => "打印帮助".to_owned(),
            Command::Version => "版本信息".to_owned(),
        }
    }

    /// The name by which the command is called.
    pub fn name(&self) -> (s: String)
        ensures
            s@ == match self {
                Command::Help => "help"@,
                Command::Version => "version"@,
            },
    {
        match self {
            Command::Help => "help".to_owned(),
            Command::Version => "version".to_owned(),
        }
    }
}

} // verus!
