//! The errors of path resolution.

use std::path::PathBuf;
use std::str::Utf8Error;
use vstd::prelude::*;

verus! {

/// Why a URI is not the encoding of any text.
#[derive(Debug)]
pub enum Malformed {
    /// A `%` is not followed by two hexadecimal digits.
    Escape,
    /// The bytes that the escapes stand for are not UTF-8.
    Utf8(Utf8Error),
}

/// Every way in which resolving a URI under a root can fail.
///
/// None of them is worth retrying. `InvalidRoot` concerns the whole serving
/// session; the others concern one request.
#[derive(Debug)]
pub enum Error {
    /// The root directory could not be brought into canonical form.
    InvalidRoot {
        /// The root as the caller gave it.
        path: PathBuf,
        /// What the lookup of the root reported.
        source: std::io::Error,
    },
    /// The URI is not validly percent-encoded UTF-8.
    InvalidEncoding(Malformed),
    /// The decoded URI holds a null byte.
    NullByte,
    /// A symbolic link leads, or may lead, out of the root.
    SymlinkTraversal,
    /// A lookup made to check confinement failed for a reason other than
    /// the location not existing.
    SecurityIo(std::io::Error),
}

} // verus!
