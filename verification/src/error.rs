use regex_lite::Error as RegexError;
use vstd::prelude::*;

verus! {

/// The error type of `regex_lite`, which a failed pattern compilation returns.
#[verifier::external_type_specification]
#[verifier::external_body]
pub struct ExRegexError(RegexError);

/// What can go wrong in the library's work.
#[derive(Debug)]
pub enum Error {
    /// A module places a symlink where the mount root must be a directory.
    MountRootSymlink { path: String },
    /// A module marks the mount root itself as replaced.
    DirDeclared { path: String },
    /// A module places a regular file where the mount root must be a directory.
    MountRootFile { path: String },
    /// The path is not a directory that could be created or used.
    RegularDirectory { path: String },
    /// A module id that does not have the shape `^[a-zA-Z][a-zA-Z0-9._-]+$`.
    InvalidModuleID { module_id: String },
    /// The `--payload` argument is missing.
    MissingArgment,
    /// A hex payload of odd length.
    PayloadContain,
    /// A decoded payload that is not UTF-8.
    PayloadNotUtf8,
    /// A two-byte chunk of a hex payload that is not UTF-8.
    HexNotUtf8,
    /// A two-byte chunk of a hex payload that is no hexadecimal byte.
    InvalidHexByte { hex: String },
    /// A directory listing that was needed but could not be had.
    NotADirectory { path: String },
    /// A regular expression that did not compile.
    Regex(RegexError),
}

} // verus!
