//! The entries of a directory listing, and the order they are shown in.
//!
//! Directories come before files. Within each group the names are in
//! order, upper and lower case counting alike. Entries that this leaves
//! tied, two names that differ in case only, keep the order they came in.

use std::time::SystemTime;
use vstd::prelude::*;
use vstd::string::*;
use vstd::utf8::*;

verus! {

/// One entry of a directory listing, as the caller found it.
#[derive(Debug, Clone, PartialEq, Eq)]
pub struct Entry {
    /// The name of the file or directory, without any path before it.
    pub name: String,
    /// Whether the entry is a directory.
    pub is_dir: bool,
    /// The size in bytes; none for a directory.
    pub size: Option<u64>,
    /// When the entry was last modified.
    pub modified: Option<SystemTime>,
}

/// The text `s` in lower case, as `str::to_lowercase` gives it.
pub uninterp spec fn lowercase(s: Seq<char>) -> Seq<char>;

/// `str::to_lowercase` depends on the text alone.
pub assume_specification[ str::to_lowercase ](s: &str) -> (lower: String)
    ensures
        lower@ == lowercase(s@),
;

/// `<[T]>::swap` exchanges the elements at `a` and `b` and leaves the
/// others alone. It panics where an index is out of bounds.
pub assume_specification<T>[ <[T]>::swap ](slice: &mut [T], a: usize, b: usize)
    requires
        a < old(slice)@.len(),
        b < old(slice)@.len(),
    ensures
        final(slice)@ == old(slice)@.update(a as int, old(slice)@[b as int]).update(
            b as int,
            old(slice)@[a as int],
        ),
;

/// What entries are ordered by: files after directories, then the bytes of
/// the name in lower case.
pub type Key = (bool, Seq<u8>);

/// The key of an entry.
pub open spec fn sort_key(e: Entry) -> Key {
    (!e.is_dir, encode_utf8(lowercase(e.name@)))
}

/// `a` comes no later than `b` in the order of the dictionary, byte by
/// byte.
pub open spec fn bytes_le(a: Seq<u8>, b: Seq<u8>) -> bool
    decreases a.len(),
{
    if a.len() == 0 {
        true
    } else if b.len() == 0 {
        false
    } else if a[0] != b[0] {
        a[0] < b[0]
    } else {
        bytes_le(a.skip(1), b.skip(1))
    }
}

/// `a` comes no later than `b`.
pub open spec fn key_le(a: Key, b: Key) -> bool {
    if a.0 == b.0 {
        bytes_le(a.1, b.1)
    } else {
        !a.0
    }
}

/// No entry of `s` comes later than one that stands after it.
pub open spec fn in_order(s: Seq<Entry>) -> bool {
    forall|i: int, j: int|
        0 <= i < j < s.len() ==> key_le(#[trigger] sort_key(s[i]), #[trigger] sort_key(s[j]))
}

/// The entries of `s` whose key is `k`, in the order they have in `s`.
pub open spec fn with_key(s: Seq<Entry>, k: Key) -> Seq<Entry>
    decreases s.len(),
{
    if s.len() == 0 {
        Seq::empty()
    } else if sort_key(s.last()) == k {
        with_key(s.drop_last(), k).push(s.last())
    } else {
        with_key(s.drop_last(), k)
    }
}

/// `sorted` is `s` put in order without disturbing the entries that are
/// tied: it is in order, and for each key it holds the same entries as `s`
/// in the same order.
pub open spec fn stably_sorted(s: Seq<Entry>, sorted: Seq<Entry>) -> bool {
    &&& in_order(sorted)
    &&& forall|k: Key| #[trigger] with_key(sorted, k) == with_key(s, k)
}

/// Every text comes no later than itself.
pub proof fn lemma_bytes_le_reflexive(a: Seq<u8>)
    ensures
        bytes_le(a, a),
    decreases a.len(),
{
    if a.len() > 0 {
        lemma_bytes_le_reflexive(a.skip(1));
    }
}

/// Of two texts one comes no later than the other.
pub proof fn lemma_bytes_le_total(a: Seq<u8>, b: Seq<u8>)
    ensures
        bytes_le(a, b) || bytes_le(b, a),
    decreases a.len(),
{
    if a.len() > 0 && b.len() > 0 && a[0] == b[0] {
        lemma_bytes_le_total(a.skip(1), b.skip(1));
    }
}

/// Coming no later carries over.
pub proof fn lemma_bytes_le_transitive(a: Seq<u8>, b: Seq<u8>, c: Seq<u8>)
    requires
        bytes_le(a, b),
        bytes_le(b, c),
    ensures
        bytes_le(a, c),
    decreases a.len(),
{
    if a.len() > 0 && b.len() > 0 && c.len() > 0 && a[0] == b[0] && b[0] == c[0] {
        lemma_bytes_le_transitive(a.skip(1), b.skip(1), c.skip(1));
    }
}

/// Two texts of which each comes no later than the other are the same.
pub proof fn lemma_bytes_le_antisymmetric(a: Seq<u8>, b: Seq<u8>)
    requires
        bytes_le(a, b),
        bytes_le(b, a),
    ensures
        a == b,
    decreases a.len(),
{
    if a.len() > 0 && b.len() > 0 {
        lemma_bytes_le_antisymmetric(a.skip(1), b.skip(1));
        assert(a =~= seq![a[0]] + a.skip(1));
        assert(b =~= seq![b[0]] + b.skip(1));
    } else {
        assert(a =~= b);
    }
}

/// The order of the keys is a total order.
pub proof fn lemma_key_order(a: Key, b: Key, c: Key)
    ensures
        key_le(a, a),
        key_le(a, b) || key_le(b, a),
        key_le(a, b) && key_le(b, c) ==> key_le(a, c),
        key_le(a, b) && key_le(b, a) ==> a == b,
{
    lemma_bytes_le_reflexive(a.1);
    lemma_bytes_le_total(a.1, b.1);
    if key_le(a, b) && key_le(b, c) && a.0 == b.0 && b.0 == c.0 {
        lemma_bytes_le_transitive(a.1, b.1, c.1);
    }
    if key_le(a, b) && key_le(b, a) {
        lemma_bytes_le_antisymmetric(a.1, b.1);
    }
}

/// `s` with the entries at `j - 1` and `j` exchanged.
pub open spec fn exchanged(s: Seq<Entry>, j: int) -> Seq<Entry> {
    s.update(j - 1, s[j]).update(j, s[j - 1])
}

/// Exchanging two neighbours with different keys changes, for no key, which
/// entries have it or the order they stand in.
pub proof fn lemma_exchange_keeps_ties(s: Seq<Entry>, j: int, k: Key)
    requires
        0 < j < s.len(),
        sort_key(s[j - 1]) != sort_key(s[j]),
    ensures
        with_key(exchanged(s, j), k) == with_key(s, k),
    decreases s.len(),
{
    let t = exchanged(s, j);
    reveal_with_fuel(with_key, 3);
    if j == s.len() - 1 {
        let rest = s.drop_last().drop_last();
        assert(t.drop_last().drop_last() == rest);
        assert(t.drop_last().last() == s[j]);
        assert(s.drop_last().last() == s[j - 1]);
    } else {
        assert(t.drop_last() == exchanged(s.drop_last(), j));
        lemma_exchange_keeps_ties(s.drop_last(), j, k);
    }
}

/// Exchanging two entries changes nothing in what the list holds.
pub proof fn lemma_exchange_keeps_entries(s: Seq<Entry>, j: int)
    requires
        0 < j < s.len(),
    ensures
        exchanged(s, j).to_multiset() == s.to_multiset(),
{
    let mid = s.update(j - 1, s[j]);
    vstd::seq_lib::to_multiset_update(s, j - 1, s[j]);
    vstd::seq_lib::to_multiset_update(mid, j, s[j - 1]);
    s.to_multiset_ensures();
    assert(s.to_multiset().count(s[j]) > 0);
    assert(s.to_multiset().count(s[j - 1]) > 0);
    assert(exchanged(s, j).to_multiset() =~= s.to_multiset());
}

/// Some entry of `s` has the key `k` exactly when `with_key(s, k)` is not
/// empty.
pub proof fn lemma_with_key_found(s: Seq<Entry>, k: Key)
    ensures
        with_key(s, k).len() > 0 <==> exists|i: int|
            0 <= i < s.len() && sort_key(#[trigger] s[i]) == k,
    decreases s.len(),
{
    if s.len() > 0 {
        let shorter = s.drop_last();
        lemma_with_key_found(shorter, k);
        if sort_key(s.last()) == k {
            assert(sort_key(s[s.len() - 1]) == k);
        } else {
            if with_key(shorter, k).len() > 0 {
                let i = choose|i: int|
                    0 <= i < shorter.len() && sort_key(#[trigger] shorter[i]) == k;
                assert(s[i] == shorter[i]);
            }
            if exists|i: int| 0 <= i < s.len() && sort_key(#[trigger] s[i]) == k {
                let i = choose|i: int| 0 <= i < s.len() && sort_key(#[trigger] s[i]) == k;
                assert(shorter[i] == s[i]);
            }
        }
    }
}

/// The order leaves no choice: two lists that are both in order, and that
/// hold for each key the same entries in the same order, are the same list.
pub proof fn lemma_order_leaves_no_choice(a: Seq<Entry>, b: Seq<Entry>)
    requires
        in_order(a),
        in_order(b),
        forall|k: Key| #[trigger] with_key(a, k) == with_key(b, k),
    ensures
        a == b,
    decreases a.len(),
{
    if a.len() == 0 {
        if b.len() > 0 {
            let k = sort_key(b.last());
            assert(with_key(b, k).len() > 0);
            assert(with_key(a, k).len() == 0);
        }
        assert(a =~= b);
    } else {
        let x = a.last();
        let kx = sort_key(x);
        assert(with_key(a, kx) == with_key(a.drop_last(), kx).push(x));
        assert(with_key(b, kx) == with_key(a, kx));
        lemma_with_key_found(b, kx);
        let i = choose|i: int| 0 <= i < b.len() && sort_key(#[trigger] b[i]) == kx;
        let y = b.last();
        let ky = sort_key(y);
        assert(with_key(b, ky) == with_key(b.drop_last(), ky).push(y));
        assert(with_key(a, ky) == with_key(b, ky));
        lemma_with_key_found(a, ky);
        let j = choose|j: int| 0 <= j < a.len() && sort_key(#[trigger] a[j]) == ky;
        lemma_key_order(kx, ky, kx);
        assert(key_le(ky, kx)) by {
            if j < a.len() - 1 {
                assert(key_le(sort_key(a[j]), sort_key(a[a.len() - 1])));
            }
        }
        assert(key_le(kx, ky)) by {
            if i < b.len() - 1 {
                assert(key_le(sort_key(b[i]), sort_key(b[b.len() - 1])));
            }
        }
        assert(kx == ky);
        assert(x == y) by {
            assert(with_key(a, kx).last() == x);
            assert(with_key(b, kx).last() == y);
        }
        let a0 = a.drop_last();
        let b0 = b.drop_last();
        assert forall|k: Key| #[trigger] with_key(a0, k) == with_key(b0, k) by {
            assert(with_key(a, k) == with_key(b, k));
            if k == kx {
                assert(with_key(a0, k) == with_key(a, k).drop_last());
                assert(with_key(b0, k) == with_key(b, k).drop_last());
            }
        }
        assert(in_order(a0)) by {
            assert forall|p: int, q: int| 0 <= p < q < a0.len() implies key_le(
                #[trigger] sort_key(a0[p]),
                #[trigger] sort_key(a0[q]),
            ) by {
                assert(key_le(sort_key(a[p]), sort_key(a[q])));
            }
        }
        assert(in_order(b0)) by {
            assert forall|p: int, q: int| 0 <= p < q < b0.len() implies key_le(
                #[trigger] sort_key(b0[p]),
                #[trigger] sort_key(b0[q]),
            ) by {
                assert(key_le(sort_key(b[p]), sort_key(b[q])));
            }
        }
        lemma_order_leaves_no_choice(a0, b0);
        assert(a =~= a0.push(x));
        assert(b =~= b0.push(y));
    }
}

/// What [`sort`] promises of its result is met by one list only.
pub proof fn lemma_sorted_is_unique(s: Seq<Entry>, a: Seq<Entry>, b: Seq<Entry>)
    requires
        stably_sorted(s, a),
        stably_sorted(s, b),
    ensures
        a == b,
{
    assert forall|k: Key| #[trigger] with_key(a, k) == with_key(b, k) by {
        assert(with_key(a, k) == with_key(s, k));
        assert(with_key(b, k) == with_key(s, k));
    }
    lemma_order_leaves_no_choice(a, b);
}

fn bytes_before(a: &[u8], b: &[u8]) -> (r: bool)
    ensures
        r == !bytes_le(b@, a@),
{
    let mut i: usize = 0;
    assert(a@.skip(0) == a@ && b@.skip(0) == b@);
    while i < a.len() && i < b.len()
        invariant
            i <= a@.len(),
            i <= b@.len(),
            bytes_le(b@, a@) == bytes_le(b@.skip(i as int), a@.skip(i as int)),
        decreases a@.len() - i,
    {
        proof {
            assert(b@.skip(i as int)[0] == b@[i as int]);
            assert(a@.skip(i as int)[0] == a@[i as int]);
            assert(b@.skip(i as int).skip(1) == b@.skip(i + 1));
            assert(a@.skip(i as int).skip(1) == a@.skip(i + 1));
        }
        if a[i] != b[i] {
            return a[i] < b[i];
        }
        i += 1;
    }
    i < b.len()
}

/// Whether one entry has to stand before another, each entry given by
/// whether it is a directory and by its name in lower case: whether the
/// second does not come first or tie.
pub fn precedes(a_dir: bool, a_lower: &str, b_dir: bool, b_lower: &str) -> (r: bool)
    ensures
        r == !key_le((!b_dir, encode_utf8(b_lower@)), (!a_dir, encode_utf8(a_lower@))),
{
    if a_dir != b_dir {
        a_dir
    } else {
        bytes_before(a_lower.as_bytes(), b_lower.as_bytes())
    }
}

/// Puts the entries of a listing in the order they are shown in:
/// directories first, then by name without regard to case. Entries that are
/// tied keep their order.
///
/// Each name is put in lower case once. The entries are then moved into
/// place one at a time, which takes time in the square of their number: this
/// is for listings of a size that is shown to a reader.
pub fn sort(entries: &mut [Entry])
    ensures
        stably_sorted(old(entries)@, final(entries)@),
        final(entries)@.to_multiset() == old(entries)@.to_multiset(),
{
    let n = entries.len();
    // The name of each entry in lower case, worked out once.
    let mut lower: Vec<String> = Vec::new();
    let mut c: usize = 0;
    while c < n
        invariant
            c <= n == entries@.len(),
            entries@ == old(entries)@,
            lower@.len() == c,
            forall|x: int| 0 <= x < c ==> (#[trigger] lower@[x])@ == lowercase(entries@[x].name@),
        decreases n - c,
    {
        lower.push(entries[c].name.as_str().to_lowercase());
        c += 1;
    }
    // Each entry in turn is moved down past those that have to stand after
    // it, and past no other.
    let mut i: usize = 1;
    while i < n
        invariant
            1 <= i,
            n == entries@.len(),
            n == lower@.len(),
            forall|x: int| 0 <= x < n ==> (#[trigger] lower@[x])@ == lowercase(entries@[x].name@),
            forall|k: Key| #[trigger] with_key(entries@, k) == with_key(old(entries)@, k),
            entries@.to_multiset() == old(entries)@.to_multiset(),
            forall|a: int, b: int|
                0 <= a < b < i && b < n ==> key_le(
                    #[trigger] sort_key(entries@[a]),
                    #[trigger] sort_key(entries@[b]),
                ),
        decreases n - i,
    {
        let mut j: usize = i;
        while j > 0 && precedes(
            entries[j].is_dir,
            lower[j].as_str(),
            entries[j - 1].is_dir,
            lower[j - 1].as_str(),
        )
            invariant
                j <= i < n,
                n == entries@.len(),
                n == lower@.len(),
                forall|x: int|
                    0 <= x < n ==> (#[trigger] lower@[x])@ == lowercase(entries@[x].name@),
                forall|k: Key| #[trigger] with_key(entries@, k) == with_key(old(entries)@, k),
                entries@.to_multiset() == old(entries)@.to_multiset(),
                forall|a: int, b: int|
                    0 <= a < b <= i && a != j && b != j ==> key_le(
                        #[trigger] sort_key(entries@[a]),
                        #[trigger] sort_key(entries@[b]),
                    ),
                forall|b: int|
                    j < b <= i ==> key_le(
                        sort_key(entries@[j as int]),
                        #[trigger] sort_key(entries@[b]),
                    ),
            decreases j,
        {
            let ghost before = entries@;
            let ghost upper = sort_key(before[j - 1]);
            let ghost moving = sort_key(before[j as int]);
            proof {
                lemma_key_order(upper, moving, moving);
                lemma_exchange_keeps_entries(before, j as int);
                assert forall|k: Key| #[trigger]
                    with_key(exchanged(before, j as int), k) == with_key(old(entries)@, k) by {
                    lemma_exchange_keeps_ties(before, j as int, k);
                    assert(with_key(before, k) == with_key(old(entries)@, k));
                }
            }
            entries.swap(j - 1, j);
            lower.as_mut_slice().swap(j - 1, j);
            proof {
                assert(entries@ == exchanged(before, j as int));
                assert forall|b: int| j - 1 < b <= i implies key_le(
                    sort_key(entries@[j - 1]),
                    #[trigger] sort_key(entries@[b]),
                ) by {
                    if b == j {
                        lemma_key_order(moving, upper, upper);
                    } else {
                        assert(entries@[b] == before[b]);
                    }
                }
            }
            j -= 1;
        }
        proof {
            assert forall|a: int, b: int| 0 <= a < b < i + 1 && b < n implies key_le(
                #[trigger] sort_key(entries@[a]),
                #[trigger] sort_key(entries@[b]),
            ) by {
                if b == j && a < j - 1 {
                    lemma_key_order(
                        sort_key(entries@[a]),
                        sort_key(entries@[j - 1]),
                        sort_key(entries@[j as int]),
                    );
                }
            }
        }
        i += 1;
    }
}

} // verus!
