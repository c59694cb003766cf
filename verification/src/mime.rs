//! Choosing a media type for a file, and building its weak ETag.
//!
//! [`detect`] goes by the file's name first and by its content second. The
//! name is looked up in the table of the `mime_guess` crate and the content
//! is matched against the signatures of the `infer` crate; what this module
//! adds is the order in which the answers count. Neither the name nor the
//! content is looked for on disk.

use std::path::Path;
use std::str::Utf8Error;
use std::time::SystemTime;
use vstd::prelude::*;
use vstd::string::*;
use vstd::utf8::*;

verus! {

/// A media type as the table of file extensions gives it.
#[derive(Debug)]
pub struct MediaType {
    /// The top-level type, such as `text`.
    pub kind: String,
    /// The subtype, such as `html`.
    pub subtype: String,
    /// The media type written out, such as `text/html`.
    pub text: String,
}

impl View for MediaType {
    type V = (Seq<char>, Seq<char>, Seq<char>);

    open spec fn view(&self) -> (Seq<char>, Seq<char>, Seq<char>) {
        (self.kind@, self.subtype@, self.text@)
    }
}

/// The views of an optional value.
pub open spec fn seen<Item: View>(o: Option<Item>) -> Option<Item::V> {
    match o {
        Some(item) => Some(item@),
        None => None,
    }
}

/// The first media type that `mime_guess` has for the extension of `path`,
/// as top-level type, subtype and full text.
pub uninterp spec fn extension_guess(path: &Path) -> Option<(Seq<char>, Seq<char>, Seq<char>)>;

/// The media type of the first signature of `infer` that `content` matches.
pub uninterp spec fn sniffed(content: Seq<u8>) -> Option<Seq<char>>;

/// Looks the extension of `path` up in the table of `mime_guess`, by
/// `mime_guess::from_path` followed by `MimeGuess::first`.
///
/// Trusted: the result depends on `path` alone. The three texts are
/// `Mime::type_`, `Mime::subtype` and the `Mime` as it prints.
#[verifier::external_body]
fn guess_by_extension(path: &Path) -> (guess: Option<MediaType>)
    ensures
        seen(guess) == extension_guess(path),
{
    match mime_guess::from_path(path).first() {
        Some(m) => Some(
            MediaType {
                kind: m.type_().as_str().to_owned(),
                subtype: m.subtype().as_str().to_owned(),
                text: m.to_string(),
            },
        ),
        None => None,
    }
}

/// Matches `content` against the signatures of `infer`, by `infer::get`.
///
/// Trusted: the result depends on the bytes alone. It is the media type of
/// the first signature that matches, `Type::mime_type`.
#[verifier::external_body]
fn sniff(content: &[u8]) -> (kind: Option<String>)
    ensures
        seen(kind) == sniffed(content@),
{
    match infer::get(content) {
        Some(kind) => Some(kind.mime_type().to_owned()),
        None => None,
    }
}

/// `core::str::from_utf8` succeeds on exactly the well-formed UTF-8, and
/// then gives the text that the bytes encode.
pub assume_specification[ core::str::from_utf8 ](v: &[u8]) -> (r: Result<&str, Utf8Error>)
    ensures
        r is Ok <==> valid_utf8(v@),
        r matches Ok(s) ==> s.spec_bytes() == v@,
;

/// The media type that says nothing: arbitrary bytes.
pub open spec fn octet_stream() -> Seq<char> {
    "application/octet-stream"@
}

/// What a guess by extension settles: the guessed type, unless there is
/// none or it is the one that says nothing.
pub open spec fn settled(guess: Option<(Seq<char>, Seq<char>, Seq<char>)>) -> Option<Seq<char>> {
    match guess {
        Some((kind, subtype, text)) => if kind == "application"@ && subtype == "octet-stream"@ {
            None
        } else {
            Some(text)
        },
        None => None,
    }
}

/// The media type that content speaks for: the sniffed one; failing that,
/// plain text where the content is UTF-8; failing that, or where there is no
/// content, arbitrary bytes.
pub open spec fn content_type(content: Seq<u8>, sniffed: Option<Seq<char>>) -> Seq<char> {
    if content.len() == 0 {
        octet_stream()
    } else {
        match sniffed {
            Some(kind) => kind,
            None => if valid_utf8(content) {
                "text/plain"@
            } else {
                octet_stream()
            },
        }
    }
}

/// The media type of a file, given what its extension and its content were
/// found to be.
pub open spec fn detected(
    guess: Option<(Seq<char>, Seq<char>, Seq<char>)>,
    content: Seq<u8>,
    sniffed: Option<Seq<char>>,
) -> Seq<char> {
    match settled(guess) {
        Some(text) => text,
        None => content_type(content, sniffed),
    }
}

/// Says what a guess by extension settles.
pub fn by_extension(guess: Option<MediaType>) -> (r: Option<String>)
    ensures
        seen(r) == settled(seen(guess)),
{
    match guess {
        Some(m) => {
            let application = String::from_str("application");
            let octet = String::from_str("octet-stream");
            if m.kind == application && m.subtype == octet {
                None
            } else {
                Some(m.text)
            }
        },
        None => None,
    }
}

/// Says what media type the content speaks for, given what sniffing it
/// found.
pub fn by_content(content: &[u8], sniffed: Option<String>) -> (r: String)
    ensures
        r@ == content_type(content@, seen(sniffed)),
{
    if content.len() == 0 {
        return String::from_str("application/octet-stream");
    }
    match sniffed {
        Some(kind) => kind,
        None => {
            if std::str::from_utf8(content).is_ok() {
                String::from_str("text/plain")
            } else {
                String::from_str("application/octet-stream")
            }
        },
    }
}

/// Chooses the media type of a file from its name and its content.
///
/// The extension of `path` decides, unless it is unknown or only says
/// "arbitrary bytes". Then the content decides: by its signature, else as
/// plain text if it is UTF-8. Empty content says nothing. What is left is
/// `application/octet-stream`.
#[must_use]
pub fn detect(path: &Path, content: &[u8]) -> (r: String)
    ensures
        r@ == detected(extension_guess(path), content@, sniffed(content@)),
{
    match by_extension(guess_by_extension(path)) {
        Some(text) => text,
        None => {
            if content.len() == 0 {
                by_content(content, None)
            } else {
                by_content(content, sniff(content))
            }
        },
    }
}

/// The hexadecimal digits, in order of their value.
pub open spec fn hex_digits() -> Seq<char> {
    seq!['0', '1', '2', '3', '4', '5', '6', '7', '8', '9', 'a', 'b', 'c', 'd', 'e', 'f']
}

/// `n` in hexadecimal: lower case, no leading zero, `0` for zero.
pub open spec fn hex(n: nat) -> Seq<char>
    decreases n,
{
    if n < 16 {
        seq![hex_digits()[n as int]]
    } else {
        hex(n / 16).push(hex_digits()[(n % 16) as int])
    }
}

/// The weak ETag of a file last modified `nanos` nanoseconds after the
/// epoch and `size` bytes long: `W/"<nanos>-<size>"`, both in hexadecimal.
pub open spec fn etag_text(nanos: nat, size: nat) -> Seq<char> {
    seq!['W', '/', '"'] + hex(nanos) + seq!['-'] + hex(size) + seq!['"']
}

/// The nanoseconds from the Unix epoch to `t`, or `None` where `t` is
/// before the epoch.
pub uninterp spec fn nanos_since_epoch(t: SystemTime) -> Option<u128>;

/// The nanoseconds that count for a time: none for a time before the epoch.
pub open spec fn clamped(elapsed: Option<u128>) -> nat {
    match elapsed {
        Some(nanos) => nanos as nat,
        None => 0,
    }
}

/// Measures `t` from the Unix epoch, by `SystemTime::duration_since`.
///
/// Trusted: the result depends on `t` alone. It is the whole duration in
/// nanoseconds, and `None` where `duration_since` fails, which it does for
/// a time before the epoch.
#[verifier::external_body]
fn since_epoch(t: &SystemTime) -> (elapsed: Option<u128>)
    ensures
        elapsed == nanos_since_epoch(*t),
{
    match t.duration_since(std::time::UNIX_EPOCH) {
        Ok(elapsed) => Some(elapsed.as_nanos()),
        Err(_) => None,
    }
}

fn hex_digit_text(d: u8) -> (s: &'static str)
    requires
        d < 16,
    ensures
        s@ == seq![hex_digits()[d as int]],
{
    proof {
        reveal_strlit("0");
        reveal_strlit("1");
        reveal_strlit("2");
        reveal_strlit("3");
        reveal_strlit("4");
        reveal_strlit("5");
        reveal_strlit("6");
        reveal_strlit("7");
        reveal_strlit("8");
        reveal_strlit("9");
        reveal_strlit("a");
        reveal_strlit("b");
        reveal_strlit("c");
        reveal_strlit("d");
        reveal_strlit("e");
        reveal_strlit("f");
    }
    let s = match d {
        0 => "0",
        1 => "1",
        2 => "2",
        3 => "3",
        4 => "4",
        5 => "5",
        6 => "6",
        7 => "7",
        8 => "8",
        9 => "9",
        10 => "a",
        11 => "b",
        12 => "c",
        13 => "d",
        14 => "e",
        _ => "f",
    };
    assert(s@ =~= seq![hex_digits()[d as int]]);
    s
}

fn push_hex(out: &mut String, n: u128)
    ensures
        final(out)@ == old(out)@ + hex(n as nat),
    decreases n,
{
    if n >= 16 {
        push_hex(out, n / 16);
    }
    out.append(hex_digit_text((n % 16) as u8));
    assert(out@ =~= old(out)@ + hex(n as nat));
}

/// Builds the weak ETag of a file from the nanoseconds between the epoch
/// and its last modification, and its size.
pub fn etag_from(nanos: u128, size: u64) -> (tag: String)
    ensures
        tag@ == etag_text(nanos as nat, size as nat),
{
    proof {
        reveal_strlit("W/\"");
        reveal_strlit("-");
        reveal_strlit("\"");
    }
    let mut tag = String::from_str("W/\"");
    assert(tag@ =~= seq!['W', '/', '"']);
    push_hex(&mut tag, nanos);
    tag.append("-");
    push_hex(&mut tag, size as u128);
    tag.append("\"");
    assert(tag@ =~= etag_text(nanos as nat, size as nat));
    tag
}

/// Builds the weak ETag of a file from the time of its last modification
/// and its size. A time before the epoch counts as the epoch.
#[must_use]
pub fn etag(modified: SystemTime, size: u64) -> (tag: String)
    ensures
        tag@ == etag_text(clamped(nanos_since_epoch(modified)), size as nat),
{
    match since_epoch(&modified) {
        Some(nanos) => etag_from(nanos, size),
        None => etag_from(0, size),
    }
}

} // verus!
