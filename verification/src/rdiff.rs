//! The differencing engine and the command surface around it.

use vstd::prelude::*;

use self::constants::{DELTA, SIGNATURE};
use self::error::messages::HELP_USAGE;
use self::error::RollingHashError;

pub mod chunk;
pub mod constants;
pub mod delta;
pub mod error;
pub mod hash;
pub mod replay;
pub mod signature;

verus! {

/// What a command line asks for.
#[derive(Debug, PartialEq)]
pub enum RdiffCommand {
    /// Build the signature of `file_name` and store it in `signature_file_name`.
    Signature { file_name: String, signature_file_name: String },
    /// Load the signature in `signature_file_name`, compute the delta of
    /// `file_name` against it, and store the delta in `delta_file_name`.
    Delta { signature_file_name: String, file_name: String, delta_file_name: String },
}

/// What an [`RdiffCommand`] stands for.
pub enum RdiffCommandView {
    Signature { file_name: Seq<char>, signature_file_name: Seq<char> },
    Delta { signature_file_name: Seq<char>, file_name: Seq<char>, delta_file_name: Seq<char> },
}

impl View for RdiffCommand {
    type V = RdiffCommandView;

    open spec fn view(&self) -> RdiffCommandView {
        match self {
            RdiffCommand::Signature { file_name, signature_file_name } => {
                RdiffCommandView::Signature {
                    file_name: file_name@,
                    signature_file_name: signature_file_name@,
                }
            },
            RdiffCommand::Delta { signature_file_name, file_name, delta_file_name } => {
                RdiffCommandView::Delta {
                    signature_file_name: signature_file_name@,
                    file_name: file_name@,
                    delta_file_name: delta_file_name@,
                }
            },
        }
    }
}

/// The result of reading a command line: the command, or the usage error.
pub type RdiffMainResult = Result<RdiffCommand, RollingHashError>;

/// The texts of the arguments of a command line.
pub open spec fn argument_texts(args: Seq<String>) -> Seq<Seq<char>> {
    Seq::new(args.len(), |i: int| args[i]@)
}

/// The signature command that `args` holds: the two words behind the command
/// word name the file and the signature file. Fewer or more such words are no
/// command.
pub open spec fn signature_command_of(args: Seq<Seq<char>>) -> Option<RdiffCommandView> {
    if args.len() == 4 {
        Some(RdiffCommandView::Signature { file_name: args[2], signature_file_name: args[3] })
    } else {
        None
    }
}

/// The delta command that `args` holds: the three words behind the command
/// word name the signature file, the new file and the delta file. Fewer or
/// more such words are no command.
pub open spec fn delta_command_of(args: Seq<Seq<char>>) -> Option<RdiffCommandView> {
    if args.len() == 5 {
        Some(
            RdiffCommandView::Delta {
                signature_file_name: args[2],
                file_name: args[3],
                delta_file_name: args[4],
            },
        )
    } else {
        None
    }
}

/// The command that a command line holds. The word behind the program's name
/// selects the command; a command line without that word, or with another
/// word in its place, holds none.
pub open spec fn command_of(args: Seq<Seq<char>>) -> Option<RdiffCommandView> {
    if args.len() > 1 {
        if args[1] == SIGNATURE@ {
            signature_command_of(args)
        } else if args[1] == DELTA@ {
            delta_command_of(args)
        } else {
            None
        }
    } else {
        None
    }
}

/// Whether `result` is the reading of `command`: the command itself, or the
/// usage error where there is none.
pub open spec fn is_reading_of(result: RdiffMainResult, command: Option<RdiffCommandView>) -> bool {
    match command {
        Some(view) => result matches Ok(read) && read@ == view,
        None => result matches Err(error) && error@ == HELP_USAGE@,
    }
}

/// The command line of the program.
pub struct Rdiff;

impl Rdiff {
    /// Reads a command line: the program's name, the command word and the
    /// file names. What the command asks for is left to the caller.
    pub fn main_rdiff(args: Vec<String>) -> (result: RdiffMainResult)
        ensures
            is_reading_of(result, command_of(argument_texts(args@))),
    {
        // Check for command
        if args.len() > 1 {
            if args[1] == SIGNATURE.to_owned() {
                Rdiff::rdiff_signature(args)
            } else if args[1] == DELTA.to_owned() {
                Rdiff::rdiff_delta(args)
            } else {
                Err(RollingHashError::new(HELP_USAGE))
            }
        } else {
            Err(RollingHashError::new(HELP_USAGE))
        }
    }

    /// Reads the file names of a signature command.
    pub fn rdiff_signature(args: Vec<String>) -> (result: RdiffMainResult)
        ensures
            is_reading_of(result, signature_command_of(argument_texts(args@))),
    {
        if args.len() == 4 {
            let file_name = args[2].clone();
            let signature_file_name = args[3].clone();
            Ok(RdiffCommand::Signature { file_name, signature_file_name })
        } else {
            Err(RollingHashError::new(HELP_USAGE))
        }
    }

    /// Reads the file names of a delta command.
    pub fn rdiff_delta(args: Vec<String>) -> (result: RdiffMainResult)
        ensures
            is_reading_of(result, delta_command_of(argument_texts(args@))),
    {
        if args.len() == 5 {
            let signature_file_name = args[2].clone();
            let file_name = args[3].clone();
            let delta_file_name = args[4].clone();
            Ok(RdiffCommand::Delta { signature_file_name, file_name, delta_file_name })
        } else {
            Err(RollingHashError::new(HELP_USAGE))
        }
    }
}

} // verus!
