//! Reading an untrusted URI path.
//!
//! A URI is read in three steps, none of which looks at the filesystem:
//! [`decode`] undoes the percent-encoding and rejects what is not text,
//! [`components`] splits the text at `/`, and [`normalize`] applies the
//! components one after the other, so that `..` can climb back to the root
//! but never above it. [`descent`] does all three.
//!
//! Paths are handled as bytes throughout. A name is whatever stands between
//! two slashes.

use crate::error::{Error, Malformed};
use std::str::Utf8Error;
use vstd::prelude::*;
use vstd::string::*;
use vstd::utf8::*;

verus! {

/// The byte `%`, which opens an escape.
pub const PERCENT: u8 = 0x25;

/// The byte `/`, which parts one component from the next.
pub const SLASH: u8 = 0x2f;

/// The byte `.`.
pub const DOT: u8 = 0x2e;

/// The value of a hexadecimal digit, in either case.
pub open spec fn hex_digit(b: u8) -> Option<u8> {
    if 0x30 <= b <= 0x39 {
        Some((b - 0x30) as u8)
    } else if 0x41 <= b <= 0x46 {
        Some((b - 0x41 + 10) as u8)
    } else if 0x61 <= b <= 0x66 {
        Some((b - 0x61 + 10) as u8)
    } else {
        None
    }
}

/// An escape stands at `i`: a `%` and two hexadecimal digits.
pub open spec fn escape_at(s: Seq<u8>, i: int) -> bool {
    &&& 0 <= i
    &&& i + 2 < s.len()
    &&& s[i] == PERCENT
    &&& hex_digit(s[i + 1]) is Some
    &&& hex_digit(s[i + 2]) is Some
}

/// Every `%` opens an escape.
pub open spec fn well_escaped(s: Seq<u8>) -> bool {
    forall|i: int| 0 <= i < s.len() && #[trigger] s[i] == PERCENT ==> escape_at(s, i)
}

/// The bytes that `s` stands for: each escape gives the byte it names, and
/// every other byte, a `%` that opens no escape too, stands for itself.
pub open spec fn unescape(s: Seq<u8>) -> Seq<u8>
    decreases s.len(),
{
    if s.len() == 0 {
        Seq::empty()
    } else if escape_at(s, 0) {
        seq![(16 * hex_digit(s[1])->0 + hex_digit(s[2])->0) as u8] + unescape(s.skip(3))
    } else {
        seq![s[0]] + unescape(s.skip(1))
    }
}

/// What is wrong with a URI, where something is.
pub enum Fault {
    /// Some `%` opens no escape.
    Escape,
    /// The unescaped bytes are not UTF-8.
    Utf8,
    /// The unescaped bytes hold a null byte.
    Nul,
}

/// The first thing wrong with the URI whose bytes are `uri`, if anything is.
pub open spec fn fault_of(uri: Seq<u8>) -> Option<Fault> {
    if !well_escaped(uri) {
        Some(Fault::Escape)
    } else if !valid_utf8(unescape(uri)) {
        Some(Fault::Utf8)
    } else if unescape(uri).contains(0u8) {
        Some(Fault::Nul)
    } else {
        None
    }
}

/// The error `err` is the one that stands for `fault`.
pub open spec fn reports(err: Error, fault: Fault) -> bool {
    match fault {
        Fault::Escape => err matches Error::InvalidEncoding(Malformed::Escape),
        Fault::Utf8 => err matches Error::InvalidEncoding(Malformed::Utf8(_)),
        Fault::Nul => err matches Error::NullByte,
    }
}

fn is_hex_digit(b: u8) -> (r: bool)
    ensures
        r == hex_digit(b) is Some,
{
    (0x30 <= b && b <= 0x39) || (0x41 <= b && b <= 0x46) || (0x61 <= b && b <= 0x66)
}

/// Whether every `%` in `bytes` opens an escape.
pub fn is_well_escaped(bytes: &[u8]) -> (r: bool)
    ensures
        r == well_escaped(bytes@),
{
    let n = bytes.len();
    let mut i: usize = 0;
    while i < n
        invariant
            n == bytes@.len(),
            i <= n,
            forall|j: int| 0 <= j < i && #[trigger] bytes@[j] == PERCENT ==> escape_at(bytes@, j),
        decreases n - i,
    {
        if bytes[i] == PERCENT {
            if n - i < 3 || !is_hex_digit(bytes[i + 1]) || !is_hex_digit(bytes[i + 2]) {
                assert(!escape_at(bytes@, i as int));
                return false;
            }
        }
        i += 1;
    }
    true
}

/// Percent-decodes `uri` and reads the result as UTF-8, by
/// `percent_encoding::percent_decode_str` followed by
/// `PercentDecode::decode_utf8`.
///
/// Trusted: the decoder replaces each `%` that two hexadecimal digits follow
/// by the byte they name and copies every other byte; `decode_utf8` then
/// succeeds exactly when those bytes are well-formed UTF-8, and gives the
/// text they encode.
#[verifier::external_body]
fn percent_decode_utf8(uri: &str) -> (r: Result<String, Utf8Error>)
    ensures
        r is Ok <==> valid_utf8(unescape(uri.spec_bytes())),
        r matches Ok(text) ==> text@ == decode_utf8(unescape(uri.spec_bytes())),
{
    match percent_encoding::percent_decode_str(uri).decode_utf8() {
        Ok(text) => Ok(text.into_owned()),
        Err(e) => Err(e),
    }
}

fn has_null(bytes: &[u8]) -> (r: bool)
    ensures
        r == bytes@.contains(0u8),
{
    let n = bytes.len();
    let mut i: usize = 0;
    while i < n
        invariant
            n == bytes@.len(),
            i <= n,
            forall|j: int| 0 <= j < i ==> bytes@[j] != 0u8,
        decreases n - i,
    {
        if bytes[i] == 0 {
            return true;
        }
        i += 1;
    }
    false
}

/// Undoes the percent-encoding of `uri` and checks that the result is text
/// without a null byte.
///
/// A query string or a fragment is not cut off: `?` and `#` are text like
/// any other.
pub fn decode(uri: &str) -> (r: Result<String, Error>)
    ensures
        r is Ok <==> fault_of(uri.spec_bytes()) is None,
        r matches Ok(text) ==> encode_utf8(text@) == unescape(uri.spec_bytes()),
        r matches Err(e) ==> reports(e, fault_of(uri.spec_bytes())->0),
{
    if !is_well_escaped(uri.as_bytes()) {
        return Err(Error::InvalidEncoding(Malformed::Escape));
    }
    let text = match percent_decode_utf8(uri) {
        Ok(text) => text,
        Err(e) => {
            return Err(Error::InvalidEncoding(Malformed::Utf8(e)));
        },
    };
    proof {
        decode_utf8_encode_utf8(unescape(uri.spec_bytes()));
    }
    if has_null(text.as_str().as_bytes()) {
        return Err(Error::NullByte);
    }
    Ok(text)
}

/// One component of a decoded URI path.
#[derive(Debug, PartialEq, Eq)]
pub enum Component {
    /// An ordinary name: descend into it.
    Normal(Vec<u8>),
    /// `..`: climb to the parent.
    ParentDir,
    /// `.`: stay.
    CurDir,
    /// The `/` at the very start of the path.
    RootMarker,
}

/// A [`Component`] as a mathematical value.
pub enum Part {
    Normal(Seq<u8>),
    ParentDir,
    CurDir,
    RootMarker,
}

impl View for Component {
    type V = Part;

    open spec fn view(&self) -> Part {
        match self {
            Component::Normal(name) => Part::Normal(name@),
            Component::ParentDir => Part::ParentDir,
            Component::CurDir => Part::CurDir,
            Component::RootMarker => Part::RootMarker,
        }
    }
}

/// The views of the components in `v`, in order.
pub open spec fn parts_of(v: Seq<Component>) -> Seq<Part> {
    v.map_values(|c: Component| c@)
}

/// The views of the byte strings in `v`, in order.
pub open spec fn names_of(v: Seq<Vec<u8>>) -> Seq<Seq<u8>> {
    v.map_values(|name: Vec<u8>| name@)
}

/// The stretches of `text` between its slashes, empty ones included: one
/// more than there are slashes.
pub open spec fn pieces(text: Seq<u8>) -> Seq<Seq<u8>>
    decreases text.len(),
{
    if text.len() == 0 {
        seq![Seq::empty()]
    } else {
        let before = pieces(text.drop_last());
        if text.last() == SLASH {
            before.push(Seq::empty())
        } else {
            before.drop_last().push(before.last().push(text.last()))
        }
    }
}

/// What a stretch between two slashes means, where it is not empty.
pub open spec fn classify(piece: Seq<u8>) -> Part {
    if piece =~= seq![DOT] {
        Part::CurDir
    } else if piece =~= seq![DOT, DOT] {
        Part::ParentDir
    } else {
        Part::Normal(piece)
    }
}

/// The meanings of the stretches in `ps`, the empty ones left out.
pub open spec fn classified(ps: Seq<Seq<u8>>) -> Seq<Part>
    decreases ps.len(),
{
    if ps.len() == 0 {
        Seq::empty()
    } else if ps.last().len() == 0 {
        classified(ps.drop_last())
    } else {
        classified(ps.drop_last()).push(classify(ps.last()))
    }
}

/// The components of the path `text`: a root marker where it begins with a
/// slash, then one component for each non-empty stretch between slashes.
pub open spec fn parts(text: Seq<u8>) -> Seq<Part> {
    if text.len() > 0 && text[0] == SLASH {
        seq![Part::RootMarker] + classified(pieces(text))
    } else {
        classified(pieces(text))
    }
}

/// Where one is after `part`, having been `below` the root by these names.
/// At the root, climbing changes nothing.
pub open spec fn follow(below: Seq<Seq<u8>>, part: Part) -> Seq<Seq<u8>> {
    match part {
        Part::Normal(name) => below.push(name),
        Part::ParentDir => if below.len() == 0 {
            below
        } else {
            below.drop_last()
        },
        Part::CurDir => below,
        Part::RootMarker => below,
    }
}

/// Where one is after all of `ps`, starting at the root: the names that lead
/// there from the root.
pub open spec fn normalized(ps: Seq<Part>) -> Seq<Seq<u8>>
    decreases ps.len(),
{
    if ps.len() == 0 {
        Seq::empty()
    } else {
        follow(normalized(ps.drop_last()), ps.last())
    }
}

/// A name that is safe to append to a path: it is not empty, is neither `.`
/// nor `..`, and holds no slash.
pub open spec fn plain_name(name: Seq<u8>) -> bool {
    &&& name.len() > 0
    &&& name != seq![DOT]
    &&& name != seq![DOT, DOT]
    &&& !name.contains(SLASH)
}

fn classify_piece(piece: Vec<u8>) -> (c: Component)
    requires
        piece@.len() > 0,
    ensures
        c@ == classify(piece@),
{
    if piece.len() == 1 && piece[0] == DOT {
        assert(piece@ =~= seq![DOT]);
        Component::CurDir
    } else if piece.len() == 2 && piece[0] == DOT && piece[1] == DOT {
        assert(piece@ =~= seq![DOT, DOT]);
        Component::ParentDir
    } else {
        Component::Normal(piece)
    }
}

/// Splits a decoded path into its components.
pub fn components(path: &str) -> (out: Vec<Component>)
    ensures
        parts_of(out@) == parts(path.spec_bytes()),
{
    let text = path.as_bytes();
    let n = text.len();
    let mut out: Vec<Component> = Vec::new();
    if n > 0 && text[0] == SLASH {
        out.push(Component::RootMarker);
    }
    let ghost lead = parts_of(out@);
    let mut piece: Vec<u8> = Vec::new();
    let mut i: usize = 0;
    while i < n
        invariant
            n == text@.len(),
            i <= n,
            pieces(text@.take(i as int)).last() == piece@,
            parts_of(out@) == lead + classified(pieces(text@.take(i as int)).drop_last()),
        decreases n - i,
    {
        proof {
            assert(text@.take(i + 1).drop_last() == text@.take(i as int));
            assert(text@.take(i + 1).last() == text@[i as int]);
        }
        let ghost before = pieces(text@.take(i as int));
        if text[i] == SLASH {
            proof {
                assert(before.push(Seq::<u8>::empty()).drop_last() == before);
                assert(before.drop_last().push(piece@) == before);
            }
            if piece.len() > 0 {
                let whole = piece;
                piece = Vec::new();
                let ghost old_out = out@;
                out.push(classify_piece(whole));
                assert(parts_of(out@) == parts_of(old_out).push(classify(whole@)));
            } else {
                piece = Vec::new();
            }
        } else {
            let ghost old_piece = piece@;
            piece.push(text[i]);
            assert(before.drop_last().push(old_piece.push(text@[i as int])).drop_last()
                == before.drop_last());
        }
        i += 1;
    }
    proof {
        assert(text@.take(n as int) == text@);
        let all = pieces(text@);
        assert(all.drop_last().push(piece@) == all);
    }
    if piece.len() > 0 {
        let ghost old_out = out@;
        out.push(classify_piece(piece));
        assert(parts_of(out@) == parts_of(old_out).push(classify(piece@)));
    }
    out
}

/// Applies the components one after the other, starting at the root, and
/// gives the names that lead from the root to where that ends.
pub fn normalize(components: Vec<Component>) -> (below: Vec<Vec<u8>>)
    ensures
        names_of(below@) == normalized(parts_of(components@)),
{
    let ghost all = parts_of(components@);
    let mut below: Vec<Vec<u8>> = Vec::new();
    for component in it: components
        invariant
            it.seq() == components@,
            all == parts_of(components@),
            names_of(below@) == normalized(all.take(it.index())),
    {
        proof {
            assert(all.take(it.index() + 1).drop_last() == all.take(it.index()));
            assert(all.take(it.index() + 1).last() == component@);
        }
        let ghost before = below@;
        match component {
            Component::Normal(name) => {
                below.push(name);
                assert(names_of(below@) == names_of(before).push(name@));
            },
            Component::ParentDir => {
                if below.len() > 0 {
                    below.pop();
                    assert(names_of(below@) == names_of(before).drop_last());
                }
            },
            Component::CurDir => {},
            Component::RootMarker => {},
        }
    }
    proof {
        assert(all.take(all.len() as int) == all);
    }
    below
}

/// The names that lead from the root to what the decoded path `text`
/// designates.
pub open spec fn trail(text: Seq<u8>) -> Seq<Seq<u8>> {
    normalized(parts(text))
}

/// The name `name` is cut out of `text` between two slashes: it holds no
/// slash, and no byte that `text` does not hold.
pub open spec fn cut_from(name: Seq<u8>, text: Seq<u8>) -> bool {
    &&& !name.contains(SLASH)
    &&& forall|j: int| 0 <= j < name.len() ==> text.contains(#[trigger] name[j])
}

/// There is always at least one stretch, and each is cut out of the text.
pub proof fn lemma_pieces_cut(text: Seq<u8>)
    ensures
        pieces(text).len() >= 1,
        forall|i: int| 0 <= i < pieces(text).len() ==> cut_from(#[trigger] pieces(text)[i], text),
    decreases text.len(),
{
    if text.len() > 0 {
        let shorter = text.drop_last();
        lemma_pieces_cut(shorter);
        let before = pieces(shorter);
        assert forall|b: u8| shorter.contains(b) implies text.contains(b) by {
            let k = choose|k: int| 0 <= k < shorter.len() && shorter[k] == b;
            assert(text[k] == b);
        }
        assert(text.contains(text.last())) by {
            assert(text[text.len() - 1] == text.last());
        }
        assert forall|i: int| 0 <= i < pieces(text).len() implies cut_from(
            #[trigger] pieces(text)[i],
            text,
        ) by {
            let piece = pieces(text)[i];
            if text.last() == SLASH {
                if i < before.len() {
                    assert(cut_from(before[i], shorter));
                }
            } else {
                if i < before.len() - 1 {
                    assert(cut_from(before[i], shorter));
                } else {
                    assert(cut_from(before.last(), shorter));
                    assert(piece == before.last().push(text.last()));
                }
            }
        }
    }
}

/// The stretches `ps` put together again, with a slash between each two.
pub open spec fn joined(ps: Seq<Seq<u8>>) -> Seq<u8>
    decreases ps.len(),
{
    if ps.len() == 0 {
        Seq::empty()
    } else if ps.len() == 1 {
        ps[0]
    } else {
        joined(ps.drop_last()).push(SLASH) + ps.last()
    }
}

/// Splitting loses nothing: the stretches of a text, joined by slashes, are
/// the text.
pub proof fn lemma_pieces_join(text: Seq<u8>)
    ensures
        joined(pieces(text)) == text,
    decreases text.len(),
{
    if text.len() == 0 {
        assert(joined(pieces(text)) =~= text);
    } else {
        let shorter = text.drop_last();
        lemma_pieces_join(shorter);
        lemma_pieces_cut(shorter);
        let before = pieces(shorter);
        let now = pieces(text);
        assert(text =~= shorter.push(text.last()));
        if text.last() == SLASH {
            assert(now.drop_last() == before);
            assert(joined(now) =~= shorter.push(SLASH));
        } else {
            let grown = before.last().push(text.last());
            if before.len() == 1 {
                assert(now =~= seq![grown]);
                assert(joined(now) =~= joined(before).push(text.last()));
            } else {
                assert(now.drop_last() == before.drop_last());
                assert(now.last() == grown);
                assert(joined(now) =~= joined(before).push(text.last()));
            }
        }
    }
}

/// Every ordinary name among the meanings of `ps` is one of the stretches,
/// and is neither empty nor `.` nor `..`.
pub proof fn lemma_classified_names(ps: Seq<Seq<u8>>)
    ensures
        forall|i: int|
            0 <= i < classified(ps).len() ==> (#[trigger] classified(ps)[i] matches Part::Normal(
                name,
            ) ==> ps.contains(name) && name.len() > 0 && name != seq![DOT] && name != seq![
                DOT,
                DOT,
            ]),
    decreases ps.len(),
{
    if ps.len() > 0 {
        let shorter = ps.drop_last();
        lemma_classified_names(shorter);
        assert forall|p: Seq<u8>| shorter.contains(p) implies ps.contains(p) by {
            let k = choose|k: int| 0 <= k < shorter.len() && shorter[k] == p;
            assert(ps[k] == p);
        }
        assert(ps.contains(ps.last())) by {
            assert(ps[ps.len() - 1] == ps.last());
        }
    }
}

/// Every name that is left after normalizing is an ordinary name among the
/// components.
pub proof fn lemma_normalized_names(ps: Seq<Part>)
    ensures
        forall|i: int|
            0 <= i < normalized(ps).len() ==> ps.contains(
                Part::Normal(#[trigger] normalized(ps)[i]),
            ),
    decreases ps.len(),
{
    if ps.len() > 0 {
        let shorter = ps.drop_last();
        lemma_normalized_names(shorter);
        assert forall|p: Part| shorter.contains(p) implies ps.contains(p) by {
            let k = choose|k: int| 0 <= k < shorter.len() && shorter[k] == p;
            assert(ps[k] == p);
        }
        assert(ps.contains(ps.last())) by {
            assert(ps[ps.len() - 1] == ps.last());
        }
        let before = normalized(shorter);
        assert forall|i: int| 0 <= i < normalized(ps).len() implies ps.contains(
            Part::Normal(#[trigger] normalized(ps)[i]),
        ) by {
            let name = normalized(ps)[i];
            if i < before.len() && before[i] == name {
                assert(shorter.contains(Part::Normal(before[i])));
            } else {
                assert(ps.last() == Part::Normal(name));
            }
        }
    }
}

/// Syntactic confinement: whatever the text, each name on the way down is a
/// plain name cut out of it. None is `..`, so the way stays below the root.
pub proof fn lemma_trail_plain(text: Seq<u8>)
    ensures
        forall|i: int|
            0 <= i < trail(text).len() ==> plain_name(#[trigger] trail(text)[i]) && cut_from(
                trail(text)[i],
                text,
            ),
{
    let ps = parts(text);
    let cs = classified(pieces(text));
    lemma_normalized_names(ps);
    lemma_classified_names(pieces(text));
    lemma_pieces_cut(text);
    assert forall|i: int| 0 <= i < trail(text).len() implies plain_name(#[trigger] trail(text)[i])
        && cut_from(trail(text)[i], text) by {
        let name = trail(text)[i];
        let k = choose|k: int| 0 <= k < ps.len() && ps[k] == Part::Normal(name);
        if ps.len() != cs.len() {
            assert(k > 0);
            assert(ps[k] == cs[k - 1]);
        } else {
            assert(ps[k] == cs[k]);
        }
        let m = choose|m: int| 0 <= m < pieces(text).len() && pieces(text)[m] == name;
        assert(cut_from(pieces(text)[m], text));
    }
}

/// An escaped byte is the byte: two URIs that stand for the same bytes are
/// refused alike, and lead the same way down where they are not. So `%2e%2e`
/// climbs as `..` does, and clamps as `..` does.
pub proof fn lemma_escaped_is_literal(a: Seq<u8>, b: Seq<u8>)
    requires
        well_escaped(a),
        well_escaped(b),
        unescape(a) == unescape(b),
    ensures
        fault_of(a) == fault_of(b),
        trail(unescape(a)) == trail(unescape(b)),
{
}

/// Climbing clamps at the root: components with no ordinary name among
/// them lead nowhere but to the root, however many `..` they hold.
pub proof fn lemma_climbing_clamps(ps: Seq<Part>)
    requires
        forall|i: int| 0 <= i < ps.len() ==> !(#[trigger] ps[i] is Normal),
    ensures
        normalized(ps).len() == 0,
    decreases ps.len(),
{
    if ps.len() > 0 {
        lemma_climbing_clamps(ps.drop_last());
    }
}

/// Reads a URI as a way down from the root: the names to descend through,
/// in order. No `..` is left in them, so the way never leaves the root.
pub fn descent(uri: &str) -> (r: Result<Vec<Vec<u8>>, Error>)
    ensures
        r is Ok <==> fault_of(uri.spec_bytes()) is None,
        r matches Ok(below) ==> names_of(below@) == trail(unescape(uri.spec_bytes())),
        r matches Ok(below) ==> forall|i: int|
            0 <= i < below@.len() ==> plain_name(#[trigger] below@[i]@) && !below@[i]@.contains(
                0u8,
            ),
        r matches Err(e) ==> reports(e, fault_of(uri.spec_bytes())->0),
{
    match decode(uri) {
        Ok(text) => {
            let below = normalize(components(text.as_str()));
            proof {
                let bytes = encode_utf8(text@);
                lemma_trail_plain(bytes);
                assert forall|i: int| 0 <= i < below@.len() implies plain_name(
                    #[trigger] below@[i]@,
                ) && !below@[i]@.contains(0u8) by {
                    let name = trail(bytes)[i];
                    assert(name == below@[i]@);
                    assert(cut_from(name, bytes));
                }
            }
            Ok(below)
        },
        Err(e) => Err(e),
    }
}

} // verus!
