//! The commands of the text protocol, the grammar of their lines and the
//! parser of one command line.

pub mod ascii;
pub mod grammar;
pub mod lines;

use vstd::prelude::*;

verus! {

/// A command from a client.
#[derive(Clone, Debug, PartialEq, Eq)]
pub enum Cmd {
    /// The header line of a set command; the value follows in the next
    /// frame.
    CmdSet {
        /// The key.
        key: Vec<u8>,
        /// The flag stored with the value.
        flag: u32,
        /// The time-to-live in seconds; zero means no expiry.
        ttl: u32,
        /// The number of bytes of the value that follows.
        len: u32,
        /// `Some(true)` when the client asks for no reply.
        noreply: Option<bool>,
    },
    /// A get command.
    CmdGet {
        /// The key.
        key: Vec<u8>,
    },
    /// A version command.
    CmdVersion,
}

/// What a command is, mathematically.
pub enum Command {
    /// See [`Cmd::CmdSet`].
    CmdSet { key: Seq<u8>, flag: u32, ttl: u32, len: u32, noreply: Option<bool> },
    /// See [`Cmd::CmdGet`].
    CmdGet { key: Seq<u8> },
    /// See [`Cmd::CmdVersion`].
    CmdVersion,
}

impl View for Cmd {
    type V = Command;

    open spec fn view(&self) -> Command {
        match *self {
            Cmd::CmdSet { key, flag, ttl, len, noreply } => Command::CmdSet {
                key: key@,
                flag,
                ttl,
                len,
                noreply,
            },
            Cmd::CmdGet { key } => Command::CmdGet { key: key@ },
            Cmd::CmdVersion => Command::CmdVersion,
        }
    }
}

/// Why a line is no command.
#[derive(Clone, Copy, Debug, PartialEq, Eq)]
pub enum ParseError {
    /// The line holds no bytes.
    Empty,
    /// The line starts with none of the command words.
    UnknownCommand,
    /// The line starts with a command word and does not go on as that
    /// command does.
    Malformed,
}

} // verus!
