//! Confining a URI path to a root directory.
//!
//! [`resolve`] reads the URI and places it under the root. That alone keeps
//! `..` from leaving the root, but not a symbolic link. Where links are not
//! allowed, the real location of the target has to be looked up, and where
//! the target does not exist, that of its nearest ancestor that does.
//!
//! This module does not look anything up itself. It says which location it
//! wants looked up ([`Walk::asked`]), takes what the lookup found
//! ([`Probe`]), and then either gives its result or asks about the next
//! ancestor ([`Walk::advance`]). Each question is about a shorter path than
//! the one before, so there are at most as many as the URI has names, and
//! none is about a path above the root.

use crate::error::Error;
use crate::uri::{descent, fault_of, names_of, reports, trail, unescape};
use std::path::PathBuf;
use vstd::prelude::*;
use vstd::slice::*;
use vstd::string::*;

verus! {

/// A location in the filesystem, as its components, outermost first.
///
/// Each component stands as the bytes that name it: for a path that the
/// platform gave, the bytes the platform holds it in; for a name out of a
/// URI, its UTF-8. The marker of the filesystem's root is a component like
/// any other. Two locations are the same when their components are, and one
/// lies below another when that other's components begin it.
#[derive(Debug, PartialEq, Eq)]
pub struct Location {
    /// The components, outermost first.
    pub parts: Vec<Vec<u8>>,
}

impl View for Location {
    type V = Seq<Seq<u8>>;

    open spec fn view(&self) -> Seq<Seq<u8>> {
        names_of(self.parts@)
    }
}

fn same_bytes(a: &[u8], b: &[u8]) -> (r: bool)
    ensures
        r == (a@ == b@),
{
    if a.len() != b.len() {
        return false;
    }
    let n = a.len();
    let mut i: usize = 0;
    while i < n
        invariant
            n == a@.len(),
            n == b@.len(),
            i <= n,
            forall|j: int| 0 <= j < i ==> a@[j] == b@[j],
        decreases n - i,
    {
        if a[i] != b[i] {
            return false;
        }
        i += 1;
    }
    assert(a@ =~= b@);
    true
}

impl Location {
    /// Whether this location is `base` or lies below it, component by
    /// component.
    pub fn starts_with(&self, base: &Location) -> (r: bool)
        ensures
            r == base@.is_prefix_of(self@),
    {
        let n = base.parts.len();
        if n > self.parts.len() {
            return false;
        }
        let mut i: usize = 0;
        while i < n
            invariant
                n == base.parts@.len(),
                n <= self.parts@.len(),
                i <= n,
                forall|j: int| 0 <= j < i ==> self@[j] == base@[j],
            decreases n - i,
        {
            if !same_bytes(self.parts[i].as_slice(), base.parts[i].as_slice()) {
                assert(self@.subrange(0, n as int)[i as int] != base@[i as int]);
                return false;
            }
            i += 1;
        }
        assert(base@ =~= self@.subrange(0, n as int));
        true
    }
}

/// What looking up the real location of a path found.
#[derive(Debug)]
pub enum Probe {
    /// The path exists. This is where it really is, every symbolic link
    /// followed.
    Found(Location),
    /// Nothing exists at the path.
    Missing,
    /// The lookup failed for another reason.
    Failed(std::io::Error),
}

/// A [`Probe`] as a mathematical value.
pub enum Seen {
    Found(Seq<Seq<u8>>),
    Missing,
    Failed(std::io::Error),
}

impl View for Probe {
    type V = Seen;

    open spec fn view(&self) -> Seen {
        match self {
            Probe::Found(place) => Seen::Found(place@),
            Probe::Missing => Seen::Missing,
            Probe::Failed(cause) => Seen::Failed(*cause),
        }
    }
}

/// What is known of the filesystem: for each path, what looking it up finds.
pub type Lookup = spec_fn(Seq<Seq<u8>>) -> Seen;

/// A [`Walk`] as a mathematical value.
pub struct Ascent {
    /// The root, in canonical form.
    pub root: Seq<Seq<u8>>,
    /// The names that lead from the root to the target.
    pub names: Seq<Seq<u8>>,
    /// How many of the names the path that is being asked about holds.
    pub depth: nat,
}

/// A [`Step`] as a mathematical value.
pub enum Move {
    Ask(Ascent),
    Done(Result<Seq<Seq<u8>>, Error>),
}

impl Ascent {
    /// The first question is about the target itself. Each later one is
    /// about an ancestor of it strictly between it and the root.
    pub open spec fn wf(self) -> bool {
        &&& self.depth <= self.names.len()
        &&& (self.depth >= 1 || self.names.len() == 0)
    }

    /// The target: the root, then all the names.
    pub open spec fn target(self) -> Seq<Seq<u8>> {
        self.root + self.names
    }

    /// The path that is being asked about.
    pub open spec fn asked(self) -> Seq<Seq<u8>> {
        self.root + self.names.take(self.depth as int)
    }

    /// What follows when the lookup of `self.asked()` has found `seen`.
    ///
    /// A real location outside the root is a traversal. One inside settles
    /// the matter: for the target itself the answer is that real location,
    /// for an ancestor it is the target as it stands, which does not exist.
    /// Where nothing exists the next ancestor is asked about, unless that
    /// would be the root, which is confined by what it is. Any other failure
    /// is final.
    pub open spec fn after(self, seen: Seen) -> Move {
        match seen {
            Seen::Found(place) => if !self.root.is_prefix_of(place) {
                Move::Done(Err(Error::SymlinkTraversal))
            } else if self.depth == self.names.len() {
                Move::Done(Ok(place))
            } else {
                Move::Done(Ok(self.target()))
            },
            Seen::Missing => if self.depth <= 1 {
                Move::Done(Ok(self.target()))
            } else {
                Move::Ask(Ascent { depth: (self.depth - 1) as nat, ..self })
            },
            Seen::Failed(cause) => Move::Done(Err(Error::SecurityIo(cause))),
        }
    }

    /// How many lookups the walk makes, this one included, when every
    /// question is answered from `fs`.
    pub open spec fn lookups(self, fs: Lookup) -> nat
        decreases self.depth,
    {
        match self.after(fs(self.asked())) {
            Move::Done(_) => 1,
            Move::Ask(next) => 1 + next.lookups(fs),
        }
    }

    /// The result that the walk comes to when every question is answered
    /// from `fs`.
    pub open spec fn outcome(self, fs: Lookup) -> Result<Seq<Seq<u8>>, Error>
        decreases self.depth,
    {
        match self.after(fs(self.asked())) {
            Move::Done(result) => result,
            Move::Ask(next) => next.outcome(fs),
        }
    }
}

/// How a resolution starts once the URI is read: with links allowed the
/// target is the answer as it stands, otherwise the target is asked about.
pub open spec fn entry(root: Seq<Seq<u8>>, names: Seq<Seq<u8>>, allow_symlinks: bool) -> Move {
    if allow_symlinks {
        Move::Done(Ok(root + names))
    } else {
        Move::Ask(Ascent { root, names, depth: names.len() })
    }
}

/// A confinement check under way: a question that is waiting for its
/// answer.
#[derive(Debug)]
pub struct Walk {
    root: Location,
    names: Vec<Vec<u8>>,
    depth: usize,
}

impl View for Walk {
    type V = Ascent;

    closed spec fn view(&self) -> Ascent {
        Ascent { root: self.root@, names: names_of(self.names@), depth: self.depth as nat }
    }
}

/// What a caller has to do next.
#[derive(Debug)]
pub enum Step {
    /// Look up `Walk::asked` and hand what was found to `Walk::advance`.
    Ask(Walk),
    /// Nothing: this is the result.
    Done(Result<Location, Error>),
}

impl View for Step {
    type V = Move;

    open spec fn view(&self) -> Move {
        match self {
            Step::Ask(walk) => Move::Ask(walk@),
            Step::Done(Ok(place)) => Move::Done(Ok(place@)),
            Step::Done(Err(e)) => Move::Done(Err(*e)),
        }
    }
}

fn copy_names(from: &Vec<Vec<u8>>, count: usize, to: &mut Vec<Vec<u8>>)
    requires
        count <= from@.len(),
    ensures
        names_of(final(to)@) == names_of(old(to)@) + names_of(from@).take(count as int),
{
    let ghost start = names_of(to@);
    let mut i: usize = 0;
    while i < count
        invariant
            count <= from@.len(),
            i <= count,
            names_of(to@) == start + names_of(from@).take(i as int),
        decreases count - i,
    {
        let ghost before = to@;
        let name = slice_to_vec(from[i].as_slice());
        to.push(name);
        assert(names_of(to@) == names_of(before).push(name@));
        assert(names_of(from@).take(i + 1) == names_of(from@).take(i as int).push(
            from@[i as int]@,
        ));
        i += 1;
    }
}

fn join(root: Location, names: Vec<Vec<u8>>) -> (place: Location)
    ensures
        place@ == root@ + names_of(names@),
{
    let mut parts = root.parts;
    let mut names = names;
    parts.append(&mut names);
    Location { parts }
}

impl Walk {
    #[verifier::type_invariant]
    spec fn well_formed(self) -> bool {
        self@.wf()
    }

    /// The path whose real location is wanted: the root, then so many of
    /// the names as the walk has not yet given up.
    pub fn asked(&self) -> (place: Location)
        ensures
            place@ == self@.asked(),
    {
        proof {
            use_type_invariant(self);
        }
        let mut parts: Vec<Vec<u8>> = Vec::new();
        copy_names(&self.root.parts, self.root.parts.len(), &mut parts);
        copy_names(&self.names, self.depth, &mut parts);
        proof {
            assert(names_of(self.root.parts@).take(self.root.parts@.len() as int) == self.root@);
        }
        Location { parts }
    }

    /// Takes what the lookup of [`Walk::asked`] found and says what follows.
    pub fn advance(self, probe: Probe) -> (step: Step)
        ensures
            step@ == self@.after(probe@),
            step@ matches Move::Ask(next) ==> next.wf() && next.depth < self@.depth,
            step@ matches Move::Done(Ok(place)) ==> self@.root.is_prefix_of(place),
    {
        proof {
            use_type_invariant(&self);
            let target = self@.target();
            assert(self@.root =~= target.subrange(0, self@.root.len() as int));
        }
        let Walk { root, names, depth } = self;
        match probe {
            Probe::Found(place) => {
                if !place.starts_with(&root) {
                    Step::Done(Err(Error::SymlinkTraversal))
                } else if depth == names.len() {
                    Step::Done(Ok(place))
                } else {
                    Step::Done(Ok(join(root, names)))
                }
            },
            Probe::Missing => {
                if depth <= 1 {
                    Step::Done(Ok(join(root, names)))
                } else {
                    Step::Ask(Walk { root, names, depth: depth - 1 })
                }
            },
            Probe::Failed(cause) => Step::Done(Err(Error::SecurityIo(cause))),
        }
    }
}

/// Resolves `uri` under a root directory.
///
/// `root` is the root as the caller names it, and `canonical` what looking
/// up its real location gave. That lookup is made anew for every call.
///
/// With `allow_symlinks` the result is final at once: the canonical root
/// followed by the names of the URI, whether or not anything exists there.
/// This switches off every check against links, so it is for trusted roots
/// only. Without it the result is a question, unless the URI is refused.
pub fn resolve(
    root: PathBuf,
    canonical: Result<Location, std::io::Error>,
    uri: &str,
    allow_symlinks: bool,
) -> (step: Step)
    ensures
        match canonical {
            Err(cause) => step@ == Move::Done(
                Err(Error::InvalidRoot { path: root, source: cause }),
            ),
            Ok(base) => match fault_of(uri.spec_bytes()) {
                Some(fault) => step matches Step::Done(Err(e)) && reports(e, fault),
                None => step@ == entry(base@, trail(unescape(uri.spec_bytes())), allow_symlinks),
            },
        },
        step@ matches Move::Ask(walk) ==> walk.wf(),
        step@ matches Move::Done(Ok(place)) ==> canonical matches Ok(base) && base@.is_prefix_of(
            place,
        ),
{
    let base = match canonical {
        Ok(base) => base,
        Err(cause) => {
            return Step::Done(Err(Error::InvalidRoot { path: root, source: cause }));
        },
    };
    let names = match descent(uri) {
        Ok(names) => names,
        Err(e) => {
            return Step::Done(Err(e));
        },
    };
    if allow_symlinks {
        let ghost target = base@ + names_of(names@);
        assert(base@ =~= target.subrange(0, base@.len() as int));
        Step::Done(Ok(join(base, names)))
    } else {
        let depth = names.len();
        Step::Ask(Walk { root: base, names, depth })
    }
}

/// The walk is short: it looks up the asked path and then at most the
/// ancestors between it and the root, one for each name but the first.
pub proof fn lemma_walk_is_short(walk: Ascent, fs: Lookup)
    requires
        walk.wf(),
    ensures
        walk.lookups(fs) <= walk.depth || walk.lookups(fs) == 1,
    decreases walk.depth,
{
    match walk.after(fs(walk.asked())) {
        Move::Done(_) => {},
        Move::Ask(next) => {
            lemma_walk_is_short(next, fs);
        },
    }
}

/// Confinement: whatever the filesystem answers, a walk that succeeds gives
/// a path of which the canonical root is a prefix.
pub proof fn lemma_outcome_confined(walk: Ascent, fs: Lookup)
    requires
        walk.wf(),
    ensures
        walk.outcome(fs) matches Ok(place) ==> walk.root.is_prefix_of(place),
    decreases walk.depth,
{
    assert(walk.root =~= walk.target().subrange(0, walk.root.len() as int));
    match walk.after(fs(walk.asked())) {
        Move::Done(_) => {},
        Move::Ask(next) => {
            lemma_outcome_confined(next, fs);
        },
    }
}

/// A successful walk gives the real location of the target where the target
/// exists, and the target itself where it does not.
pub proof fn lemma_outcome_is_target(walk: Ascent, fs: Lookup)
    requires
        walk.wf(),
    ensures
        walk.outcome(fs) matches Ok(place) ==> (walk.depth == walk.names.len() && fs(
            walk.target(),
        ) == Seen::Found(place)) || place == walk.target(),
    decreases walk.depth,
{
    if walk.depth == walk.names.len() {
        assert(walk.names.take(walk.depth as int) == walk.names);
    }
    match walk.after(fs(walk.asked())) {
        Move::Done(_) => {},
        Move::Ask(next) => {
            lemma_outcome_is_target(next, fs);
        },
    }
}

/// Confinement on the filesystem itself: where a resolution that started
/// at the target succeeds, whatever really stands at its result lies within
/// the root. The filesystem is taken to give, for a real location, that
/// location itself.
pub proof fn lemma_result_is_really_inside(
    walk: Ascent,
    fs: Lookup,
    place: Seq<Seq<u8>>,
    actual: Seq<Seq<u8>>,
)
    requires
        walk.wf(),
        walk.depth == walk.names.len(),
        forall|p: Seq<Seq<u8>>| #[trigger] fs(p) matches Seen::Found(q) ==> fs(q) == fs(p),
        walk.outcome(fs) == Ok::<Seq<Seq<u8>>, Error>(place),
        fs(place) == Seen::Found(actual),
    ensures
        walk.root.is_prefix_of(actual),
{
    lemma_outcome_confined(walk, fs);
    lemma_outcome_is_target(walk, fs);
    assert(walk.names.take(walk.depth as int) == walk.names);
    if fs(walk.target()) == Seen::Found(place) {
        assert(fs(place) == fs(walk.target()));
    }
}

/// Idempotence: the outcome depends on the filesystem only through what it
/// answers for the paths from the target up to the root. Two walks from the
/// same state over filesystems that answer alike there end alike.
pub proof fn lemma_outcome_repeats(walk: Ascent, first: Lookup, second: Lookup)
    requires
        walk.wf(),
        forall|d: int|
            0 <= d <= walk.depth ==> first(#[trigger] (walk.root + walk.names.take(d))) == second(
                walk.root + walk.names.take(d),
            ),
    ensures
        walk.outcome(first) == walk.outcome(second),
    decreases walk.depth,
{
    let asked = walk.root + walk.names.take(walk.depth as int);
    assert(first(asked) == second(asked));
    match walk.after(first(walk.asked())) {
        Move::Done(_) => {},
        Move::Ask(next) => {
            lemma_outcome_repeats(next, first, second);
        },
    }
}

/// An escape is caught although the target is absent: where nothing exists
/// from the asked path up to some ancestor below the root, and that
/// ancestor really lies outside the root, the walk ends in
/// `SymlinkTraversal`.
pub proof fn lemma_escape_is_caught(walk: Ascent, fs: Lookup, d: int, outside: Seq<Seq<u8>>)
    requires
        walk.wf(),
        1 <= d <= walk.depth,
        forall|k: int|
            d < k <= walk.depth ==> fs(#[trigger] (walk.root + walk.names.take(k)))
                == Seen::Missing,
        fs(walk.root + walk.names.take(d)) == Seen::Found(outside),
        !walk.root.is_prefix_of(outside),
    ensures
        walk.outcome(fs) == Err::<Seq<Seq<u8>>, Error>(Error::SymlinkTraversal),
    decreases walk.depth,
{
    if d < walk.depth {
        let asked = walk.root + walk.names.take(walk.depth as int);
        assert(fs(asked) == Seen::Missing);
        let next = Ascent { depth: (walk.depth - 1) as nat, ..walk };
        lemma_escape_is_caught(next, fs, d, outside);
    }
}

/// A target that does not exist is no error: where nothing exists from the
/// asked path up to the root, the walk ends in the target as it stands.
pub proof fn lemma_absent_is_ok(walk: Ascent, fs: Lookup)
    requires
        walk.wf(),
        forall|k: int|
            0 <= k <= walk.depth ==> fs(#[trigger] (walk.root + walk.names.take(k)))
                == Seen::Missing,
    ensures
        walk.outcome(fs) == Ok::<Seq<Seq<u8>>, Error>(walk.target()),
    decreases walk.depth,
{
    let asked = walk.root + walk.names.take(walk.depth as int);
    assert(fs(asked) == Seen::Missing);
    if walk.depth > 1 {
        let next = Ascent { depth: (walk.depth - 1) as nat, ..walk };
        lemma_absent_is_ok(next, fs);
    }
}

} // verus!
