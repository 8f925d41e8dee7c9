//! The choices of the command line: what is asked for, and whether the
//! arguments given allow it.

use vstd::prelude::*;

verus! {

/// The arguments of one run.
#[derive(Debug)]
pub struct Cli {
    /// `read` to recover a payload, `write` to hide one.
    pub option: String,
    /// The path of the payload to hide; needed for `write`.
    pub file: Option<String>,
    /// The path of the carrier image.
    pub image: String,
    /// The path to write the result to: the payload for `read`, the image
    /// for `write`.
    pub output: String,
}

/// What a run is to do.
#[derive(Debug, PartialEq, Eq)]
pub enum Command {
    /// Recover the payload hidden in `image` and write it to `output`.
    Read { image: String, output: String },
    /// Hide the payload `file` in `image` and write the image to `output`.
    Write { image: String, file: String, output: String },
    /// `write` was asked for without a payload path.
    MissingFile,
    /// The option is neither `read` nor `write`.
    UnknownOption,
}

impl Cli {
    /// The command that these arguments ask for.
    pub open spec fn command_spec(self) -> Command {
        if self.option@ == "read"@ {
            Command::Read { image: self.image, output: self.output }
        } else if self.option@ == "write"@ {
            match self.file {
                Some(file) => Command::Write { image: self.image, file, output: self.output },
                None => Command::MissingFile,
            }
        } else {
            Command::UnknownOption
        }
    }

    /// Decides what to do: `read` recovers, `write` hides and needs a
    /// payload path, and any other option is unknown.
    pub fn command(self) -> (command: Command)
        ensures
            command == self.command_spec(),
    {
        let read = "read".to_owned();
        let write = "write".to_owned();
        if self.option == read {
            Command::Read { image: self.image, output: self.output }
        } else if self.option == write {
            match self.file {
                Some(file) => Command::Write { image: self.image, file, output: self.output },
                None => Command::MissingFile,
            }
        } else {
            Command::UnknownOption
        }
    }
}

} // verus!
