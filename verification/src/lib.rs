use vstd::prelude::*;

pub mod args;
pub mod classify;
pub mod fsio;
pub mod gcroot;
pub mod laws;
pub mod parse;
pub mod strutil;

verus! {

use vstd::string::StringExecFns;

/// True when `c` is an ASCII decimal digit.
pub open spec fn is_digit(c: char) -> bool {
    48 <= c as u32 <= 57
}

/// Numeric value of an ASCII digit character.
pub open spec fn digit_val(c: char) -> int {
    c as u32 - 48
}

/// A fatal error: the listing command failed, a listing line had no
/// separator, or a profile symlink could not be read for an unexpected
/// reason.
#[derive(Debug)]
pub enum GcError {
    /// The external listing command exited with a failure status.
    ListingCommandFailed { status: String },
    /// A listing line does not contain the `" -> "` separator.
    MalformedLine { line: String },
    /// Reading a profile symlink failed although the path was readable.
    LinkRead { path: String, message: String },
}

/// The descriptive text of each error, naming what failed.
pub open spec fn message_spec(e: GcError) -> Seq<char> {
    match e {
        GcError::ListingCommandFailed { status } => "\"nix-store --gc --print-roots\" exited with code "@
            + status@,
        GcError::MalformedLine { line } => "listing line without \" -> \" separator: "@ + line@,
        GcError::LinkRead { path, message } => "reading the symlink at "@ + path@ + " failed: "@
            + message@,
    }
}

impl GcError {
    /// Human-readable description of the error.
    pub fn message(&self) -> (r: String)
        ensures
            r@ == message_spec(*self),
    {
        match self {
            GcError::ListingCommandFailed { status } => String::from_str(
                "\"nix-store --gc --print-roots\" exited with code ",
            ).concat(status.as_str()),
            GcError::MalformedLine { line } => String::from_str(
                "listing line without \" -> \" separator: ",
            ).concat(line.as_str()),
            GcError::LinkRead { path, message } => String::from_str("reading the symlink at ")
                .concat(path.as_str()).concat(" failed: ").concat(message.as_str()),
        }
    }
}

} // verus!
