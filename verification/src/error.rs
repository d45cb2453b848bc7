//! Typed errors for every fallible step of a scaffold run.
//!
//! Each variant keeps the data that caused the failure (a path, a command
//! line) instead of flattening it into a string, so callers can match on the
//! cause rather than parse a message.
use vstd::prelude::*;

use serde_json::Error as JsonError;
use std::io::Error as IoError;

use crate::text::{append_str, string_from};

verus! {

/// `std::io::Error`, carried as the source of an I/O failure.
#[verifier::external_type_specification]
#[verifier::external_body]
pub struct ExIoError(IoError);

/// `serde_json::Error`, carried as the source of a config parse failure.
#[verifier::external_type_specification]
#[verifier::external_body]
pub struct ExJsonError(JsonError);

/// Everything that can go wrong while scaffolding a project.
#[derive(Debug)]
#[non_exhaustive]
#[allow(inconsistent_fields)]
pub enum Error {
    /// The target directory already exists; refusing to touch it.
    RootExists(String),
    /// No package name was given and none could be derived from the path.
    UnnamedRoot(String),
    /// A path coming from the user config would escape the project root.
    UnsafePath(String),
    /// A directory could not be created.
    CreateDir { path: String, source: IoError },
    /// A file could not be written.
    WriteFile { path: String, source: IoError },
    /// The user config file exists but could not be read.
    ReadConfig { path: String, source: IoError },
    /// The user config file is not valid JSON, or has unexpected keys.
    ParseConfig { path: String, source: JsonError },
    /// An external program could not be started at all.
    CommandSpawn { command: String, source: IoError },
    /// An external program ran but exited with a non-zero status.
    CommandFailed { command: String, status: String, output: String },
    /// The dry-run plan could not be written to the output stream.
    Output(IoError),
}

/// Result of a fallible library call.
pub type Result<T, E = Error> = core::result::Result<T, E>;

/// `text` followed by `s` between backquotes and then `tail`.
pub open spec fn quoted(text: Seq<char>, s: Seq<char>, tail: Seq<char>) -> Seq<char> {
    text + "`"@ + s + "`"@ + tail
}

impl Error {
    /// The one-line description of the failure, without its source.
    pub open spec fn message_spec(&self) -> Seq<char> {
        match self {
            Error::RootExists(p) => quoted("directory "@, p@, " already exists"@),
            Error::UnnamedRoot(p) => quoted(
                "cannot derive a package name from "@,
                p@,
                "; pass --name"@,
            ),
            Error::UnsafePath(p) => quoted(
                "path "@,
                p@,
                " is not a plain relative path inside the project"@,
            ),
            Error::CreateDir { path, .. } => quoted("creating directory "@, path@, ""@),
            Error::WriteFile { path, .. } => quoted("writing file "@, path@, ""@),
            Error::ReadConfig { path, .. } => quoted("reading config "@, path@, ""@),
            Error::ParseConfig { path, .. } => quoted("parsing config "@, path@, ""@),
            Error::CommandSpawn { command, .. } => quoted(
                "running "@,
                command@,
                " (is it installed and on your PATH?)"@,
            ),
            Error::CommandFailed { command, status, output } => quoted(
                ""@,
                command@,
                " failed ("@ + status@ + ")\n"@ + output@,
            ),
            Error::Output(_) => "writing the dry-run plan"@,
        }
    }

    /// The one-line description of the failure, without its source.
    pub fn message(&self) -> (res: String)
        ensures
            res@ == self.message_spec(),
    {
        let mut v: Vec<char> = Vec::new();
        match self {
            Error::RootExists(p) => quote(&mut v, "directory ", p.as_str(), " already exists"),
            Error::UnnamedRoot(p) => quote(
                &mut v,
                "cannot derive a package name from ",
                p.as_str(),
                "; pass --name",
            ),
            Error::UnsafePath(p) => quote(
                &mut v,
                "path ",
                p.as_str(),
                " is not a plain relative path inside the project",
            ),
            Error::CreateDir { path, .. } => quote(&mut v, "creating directory ", path.as_str(), ""),
            Error::WriteFile { path, .. } => quote(&mut v, "writing file ", path.as_str(), ""),
            Error::ReadConfig { path, .. } => quote(&mut v, "reading config ", path.as_str(), ""),
            Error::ParseConfig { path, .. } => quote(&mut v, "parsing config ", path.as_str(), ""),
            Error::CommandSpawn { command, .. } => quote(
                &mut v,
                "running ",
                command.as_str(),
                " (is it installed and on your PATH?)",
            ),
            Error::CommandFailed { command, status, output } => {
                quote(&mut v, "", command.as_str(), " failed (");
                append_str(&mut v, status.as_str());
                append_str(&mut v, ")\n");
                append_str(&mut v, output.as_str());
                assert(v@ =~= quoted(""@, command@, " failed ("@ + status@ + ")\n"@ + output@));
            },
            Error::Output(_) => append_str(&mut v, "writing the dry-run plan"),
        }
        string_from(&v)
    }
}

/// Appends `text`, then `s` between backquotes, then `tail` to `v`.
fn quote(v: &mut Vec<char>, text: &str, s: &str, tail: &str)
    requires
        old(v)@.len() == 0,
    ensures
        final(v)@ == quoted(text@, s@, tail@),
{
    append_str(v, text);
    append_str(v, "`");
    append_str(v, s);
    append_str(v, "`");
    append_str(v, tail);
    assert(v@ =~= quoted(text@, s@, tail@));
}

} // verus!
