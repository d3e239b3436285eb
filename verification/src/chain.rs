//! The mathematics of a hash chain: what it means for an entry to follow from
//! a digest, for a sequence of entries to be valid, and what a replay of the
//! sequence reports.

use crate::hash::{collision, sha256, sha256_collides};
use crate::poh::{EntryView, MalformedEntry};
use vstd::prelude::*;

verus! {

/// `start` hashed `n` times over.
pub open spec fn iterate(start: Seq<u8>, n: nat) -> Seq<u8>
    decreases n,
{
    if n == 0 {
        start
    } else {
        sha256(iterate(start, (n - 1) as nat))
    }
}

/// The message of the last hash of an entry that stands `num_hashes` steps
/// after `prev`: `prev` hashed `num_hashes - 1` times, followed by the mixin
/// if there is one.
pub open spec fn preimage(prev: Seq<u8>, num_hashes: nat, mixin: Option<Seq<u8>>) -> Seq<u8> {
    let cursor = iterate(prev, (num_hashes - 1) as nat);
    match mixin {
        Some(m) => cursor + m,
        None => cursor,
    }
}

/// The digest that an entry `num_hashes >= 1` steps after `prev` must carry.
pub open spec fn entry_id(prev: Seq<u8>, num_hashes: nat, mixin: Option<Seq<u8>>) -> Seq<u8> {
    sha256(preimage(prev, num_hashes, mixin))
}

/// `e` follows from `prev`: it counts at least one hash and its id is the
/// digest that its count and mixin produce from `prev`.
pub open spec fn links(prev: Seq<u8>, e: EntryView) -> bool {
    e.num_hashes != 0 && e.id == entry_id(prev, e.num_hashes, e.mixin)
}

/// The digest from which entry `i` is replayed: the starting digest for the
/// first entry, the id of the entry before it for every other.
pub open spec fn anchor(initial: Seq<u8>, entries: Seq<EntryView>, i: int) -> Seq<u8> {
    if i <= 0 {
        initial
    } else {
        entries[i - 1].id
    }
}

/// Entry `i` follows from its anchor.
pub open spec fn links_at(initial: Seq<u8>, entries: Seq<EntryView>, i: int) -> bool {
    links(anchor(initial, entries, i), entries[i])
}

/// The first `n` entries each follow from their anchor.
pub open spec fn valid_upto(initial: Seq<u8>, entries: Seq<EntryView>, n: int) -> bool {
    forall|i: int| 0 <= i < n ==> #[trigger] links_at(initial, entries, i)
}

/// Every entry follows from its anchor.
pub open spec fn valid(initial: Seq<u8>, entries: Seq<EntryView>) -> bool {
    valid_upto(initial, entries, entries.len() as int)
}

/// Entry `k` is the first that does not follow from its anchor.
pub open spec fn first_fault(initial: Seq<u8>, entries: Seq<EntryView>, k: int) -> bool {
    &&& 0 <= k < entries.len()
    &&& valid_upto(initial, entries, k)
    &&& !links_at(initial, entries, k)
}

/// What a replay of `entries` from `initial` reports: `Ok(true)` for a valid
/// sequence; otherwise the first faulty entry decides, `Err` with its index
/// if it counts no hash, `Ok(false)` if its id does not match.
pub open spec fn verdict(initial: Seq<u8>, entries: Seq<EntryView>) -> Result<
    bool,
    MalformedEntry,
> {
    if valid(initial, entries) {
        Ok(true)
    } else {
        let k = choose|k: int| first_fault(initial, entries, k);
        if entries[k].num_hashes == 0 {
            Err(MalformedEntry { index: k as usize })
        } else {
            Ok(false)
        }
    }
}

/// The replay accepts the sequence.
pub open spec fn accepted(initial: Seq<u8>, entries: Seq<EntryView>) -> bool {
    verdict(initial, entries) == Ok::<bool, MalformedEntry>(true)
}

/// The replay rejects the sequence for an id that does not match.
pub open spec fn mismatched(initial: Seq<u8>, entries: Seq<EntryView>) -> bool {
    verdict(initial, entries) == Ok::<bool, MalformedEntry>(false)
}

/// The replay reports entry `i` as malformed.
pub open spec fn malformed_at(initial: Seq<u8>, entries: Seq<EntryView>, i: int) -> bool {
    verdict(initial, entries) == Err::<bool, MalformedEntry>(MalformedEntry { index: i as usize })
}

/// A sequence with a fault among its first `n` entries has a first fault.
pub proof fn lemma_fault_exists(initial: Seq<u8>, entries: Seq<EntryView>, n: int)
    requires
        0 <= n <= entries.len(),
        !valid_upto(initial, entries, n),
    ensures
        exists|k: int| k < n && first_fault(initial, entries, k),
    decreases n,
{
    if valid_upto(initial, entries, n - 1) {
        assert(first_fault(initial, entries, n - 1));
    } else {
        lemma_fault_exists(initial, entries, n - 1);
    }
}

/// The first fault is unique.
pub proof fn lemma_fault_unique(initial: Seq<u8>, entries: Seq<EntryView>, j: int, k: int)
    requires
        first_fault(initial, entries, j),
        first_fault(initial, entries, k),
    ensures
        j == k,
{
    if j < k {
        assert(links_at(initial, entries, j));
    }
    if k < j {
        assert(links_at(initial, entries, k));
    }
}

/// The verdict on a sequence whose first fault is entry `k`.
pub proof fn lemma_verdict_at_fault(initial: Seq<u8>, entries: Seq<EntryView>, k: int)
    requires
        first_fault(initial, entries, k),
    ensures
        !valid(initial, entries),
        entries[k].num_hashes == 0 ==> malformed_at(initial, entries, k),
        entries[k].num_hashes != 0 ==> mismatched(initial, entries),
{
    assert(!valid(initial, entries)) by {
        if valid(initial, entries) {
            assert(links_at(initial, entries, k));
        }
    }
    let c = choose|c: int| first_fault(initial, entries, c);
    lemma_fault_unique(initial, entries, c, k);
}

/// The verdict on a sequence in which every entry counts a hash: whether it
/// is valid.
pub proof fn lemma_verdict_counted(initial: Seq<u8>, entries: Seq<EntryView>)
    requires
        forall|i: int| 0 <= i < entries.len() ==> (#[trigger] entries[i]).num_hashes != 0,
    ensures
        valid(initial, entries) ==> accepted(initial, entries),
        !valid(initial, entries) ==> mismatched(initial, entries),
{
    if !valid(initial, entries) {
        lemma_fault_exists(initial, entries, entries.len() as int);
        let k = choose|k: int| first_fault(initial, entries, k);
        lemma_verdict_at_fault(initial, entries, k);
    }
}

/// Every entry of a valid sequence counts a hash.
pub proof fn lemma_valid_counted(initial: Seq<u8>, entries: Seq<EntryView>)
    requires
        valid(initial, entries),
    ensures
        forall|i: int| 0 <= i < entries.len() ==> (#[trigger] entries[i]).num_hashes != 0,
{
    assert forall|i: int| 0 <= i < entries.len() implies (#[trigger] entries[i]).num_hashes
        != 0 by {
        assert(links_at(initial, entries, i));
    }
}

/// Hashing `m` times and then `n` times is hashing `m + n` times.
pub proof fn lemma_iterate_add(start: Seq<u8>, m: nat, n: nat)
    ensures
        iterate(iterate(start, m), n) == iterate(start, m + n),
    decreases n,
{
    if n > 0 {
        lemma_iterate_add(start, m, (n - 1) as nat);
    }
}

/// Two iterations that start apart and meet after `n` steps pass through a
/// collision.
pub proof fn lemma_iterate_meets(a: Seq<u8>, b: Seq<u8>, n: nat)
    requires
        a != b,
        iterate(a, n) == iterate(b, n),
    ensures
        sha256_collides(),
    decreases n,
{
    if n > 0 {
        let x = iterate(a, (n - 1) as nat);
        let y = iterate(b, (n - 1) as nat);
        if x == y {
            lemma_iterate_meets(a, b, (n - 1) as nat);
        } else {
            assert(collision(x, y));
        }
    }
}

/// An iteration that repeats a digest passes through a collision or returns
/// to its start.
pub proof fn lemma_iterate_repeats(start: Seq<u8>, m: nat, n: nat)
    requires
        m < n,
        iterate(start, m) == iterate(start, n),
    ensures
        sha256_collides() || start == iterate(start, (n - m) as nat),
    decreases m,
{
    if m > 0 {
        let x = iterate(start, (m - 1) as nat);
        let y = iterate(start, (n - 1) as nat);
        if x == y {
            lemma_iterate_repeats(start, (m - 1) as nat, (n - 1) as nat);
        } else {
            assert(collision(x, y));
        }
    }
}

/// An entry that follows from two different digests exhibits a collision.
pub proof fn lemma_links_twice(a: Seq<u8>, b: Seq<u8>, e: EntryView)
    requires
        links(a, e),
        links(b, e),
        a != b,
    ensures
        sha256_collides(),
{
    let x = preimage(a, e.num_hashes, e.mixin);
    let y = preimage(b, e.num_hashes, e.mixin);
    if x == y {
        let n = (e.num_hashes - 1) as nat;
        let ca = iterate(a, n);
        let cb = iterate(b, n);
        match e.mixin {
            Some(m) => {
                assert(ca =~= (ca + m).subrange(0, ca.len() as int));
                assert(cb =~= (cb + m).subrange(0, cb.len() as int));
                assert((ca + m).len() == ca.len() + m.len());
                assert((cb + m).len() == cb.len() + m.len());
            },
            None => {},
        }
        assert(ca == cb);
        lemma_iterate_meets(a, b, n);
    } else {
        assert(collision(x, y));
    }
}

} // verus!
