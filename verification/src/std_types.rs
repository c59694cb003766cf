//! Types of the standard library that values of this crate carry.
//!
//! The verifier sees none of their contents: a value of one of these types
//! is handed on unchanged, or given to one of the trusted functions that
//! read it.

use vstd::prelude::*;

verus! {

/// `std::path::Path`: the name of a file, of which only the extension is
/// ever looked at, and that by `mime_guess`.
#[verifier::external_type_specification]
#[verifier::external_body]
pub struct ExPath(std::path::Path);

/// `std::path::PathBuf`: the root as a caller names it, kept for the error
/// that reports it.
#[verifier::external_type_specification]
#[verifier::external_body]
pub struct ExPathBuf(std::path::PathBuf);

/// `std::io::Error`: what a failed lookup reported, kept for the error that
/// passes it on.
#[verifier::external_type_specification]
#[verifier::external_body]
pub struct ExIoError(std::io::Error);

/// `std::str::Utf8Error`: what reading bytes as UTF-8 reported, kept for the
/// error that passes it on.
#[verifier::external_type_specification]
#[verifier::external_body]
pub struct ExUtf8Error(std::str::Utf8Error);

/// `std::time::SystemTime`: a point in time.
#[verifier::external_type_specification]
#[verifier::external_body]
pub struct ExSystemTime(std::time::SystemTime);

} // verus!
