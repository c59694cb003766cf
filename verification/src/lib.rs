//! Headless building blocks for a static file server.
//!
//! The heart of the crate is turning an untrusted URI path into a location
//! confined to a root directory: [`uri`] reads the URI, and [`path`] places
//! it under the root and checks it against symbolic links. Around them stand
//! three small, stateless helpers: [`range`] reads an HTTP `Range` header,
//! [`mime`] picks a media type and builds a weak ETag, and [`listing`]
//! orders the entries of a directory listing.
//!
//! Nothing in this crate opens, reads or serves a file. Where confinement
//! has to be checked against what is really on disk, [`path`] says which
//! location it needs looked up and the caller hands back what the lookup
//! found.

pub mod error;
pub mod listing;
pub mod mime;
pub mod path;
pub mod range;
pub mod std_types;
pub mod uri;

pub use error::Error;
