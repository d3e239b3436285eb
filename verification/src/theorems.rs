//! What holds of the generator and the verifier together: runs replay, runs
//! repeat, alterations of a valid sequence are caught, ticks wait for the
//! clock.
//!
//! SHA-256 is not injective, so a replay catches an alteration only as far as
//! the alteration changes a digest. Where that depends on SHA-256, the
//! theorems name what an accepted alteration would exhibit: a collision, or a
//! chain that returns to a digest it has passed.

use crate::chain::{
    accepted, anchor, first_fault, iterate, lemma_fault_exists, lemma_iterate_add, lemma_iterate_repeats,
    lemma_links_twice, lemma_valid_counted, lemma_verdict_at_fault, lemma_verdict_counted, links,
    links_at, malformed_at, mismatched, preimage, valid, valid_upto,
};
use crate::hash::{collision, sha256, sha256_collides};
use crate::poh::{EntryView, PohView};
use crate::trace::{lemma_run, output, run, Call};
use vstd::prelude::*;

verus! {

/// Of the entries that a run from a fresh generator emits, each follows from
/// the one before it, unless it is a tick that counts no hash. So a replay
/// from the generator's starting digest never finds a mismatch, and it
/// accepts the entries if no such tick is among them.
pub proof fn run_replays(initial: Seq<u8>, tick_duration: Option<nat>, calls: Seq<Call>)
    ensures
        ({
            let out = output(PohView::fresh(initial, tick_duration), calls);
            &&& forall|i: int|
                0 <= i < out.len() && out[i].num_hashes != 0 ==> #[trigger] links_at(
                    initial,
                    out,
                    i,
                )
            &&& !mismatched(initial, out)
            &&& (forall|i: int| 0 <= i < out.len() ==> (#[trigger] out[i]).num_hashes != 0)
                ==> accepted(initial, out)
        }),
{
    let s = PohView::fresh(initial, tick_duration);
    let out = output(s, calls);
    lemma_run(s, calls);
    if forall|i: int| 0 <= i < out.len() ==> (#[trigger] out[i]).num_hashes != 0 {
        assert forall|i: int| 0 <= i < out.len() implies #[trigger] links_at(initial, out, i) by {
            assert(out[i].num_hashes != 0);
        }
        assert(valid(initial, out));
    }
    if !valid(initial, out) {
        lemma_fault_exists(initial, out, out.len() as int);
        let k = choose|k: int| first_fault(initial, out, k);
        lemma_verdict_at_fault(initial, out, k);
    }
}

/// The chain part of two states is the same: anchor, head and hash count.
pub open spec fn same_chain(a: PohView, b: PohView) -> bool {
    &&& a.anchor == b.anchor
    &&& a.last_hash == b.last_hash
    &&& a.num_hashes == b.num_hashes
}

/// Two calls are the same as far as the chain is concerned: the same kind of
/// call with the same mixin, and for ticks the same decision of the clock.
pub open spec fn same_call(a: PohView, ca: Call, b: PohView, cb: Call) -> bool {
    match (ca, cb) {
        (Call::Hash, Call::Hash) => true,
        (Call::Record { mixin: ma }, Call::Record { mixin: mb }) => ma == mb,
        (Call::Tick { now: na }, Call::Tick { now: nb }) => a.tick_due(na) == b.tick_due(nb),
        _ => false,
    }
}

/// Two runs make the same calls, one by one.
pub open spec fn same_calls(a: PohView, calls_a: Seq<Call>, b: PohView, calls_b: Seq<Call>) -> bool {
    &&& calls_a.len() == calls_b.len()
    &&& forall|i: int|
        0 <= i < calls_a.len() ==> same_call(
            run(a, calls_a.take(i)),
            #[trigger] calls_a[i],
            run(b, calls_b.take(i)),
            calls_b[i],
        )
}

/// Two runs that start on the same chain and make the same calls emit the
/// same entries, byte for byte, and end on the same chain. Their clocks may
/// show what they like, as long as they let the same ticks through.
pub proof fn runs_repeat(a: PohView, calls_a: Seq<Call>, b: PohView, calls_b: Seq<Call>)
    requires
        same_chain(a, b),
        same_calls(a, calls_a, b, calls_b),
    ensures
        output(a, calls_a) == output(b, calls_b),
        same_chain(run(a, calls_a), run(b, calls_b)),
    decreases calls_a.len(),
{
    if calls_a.len() > 0 {
        let n = calls_a.len() - 1;
        let init_a = calls_a.drop_last();
        let init_b = calls_b.drop_last();
        assert(init_a =~= calls_a.take(n));
        assert(init_b =~= calls_b.take(n));
        assert forall|i: int| 0 <= i < init_a.len() implies same_call(
            run(a, init_a.take(i)),
            #[trigger] init_a[i],
            run(b, init_b.take(i)),
            init_b[i],
        ) by {
            assert(init_a.take(i) =~= calls_a.take(i));
            assert(init_b.take(i) =~= calls_b.take(i));
            assert(same_call(
                run(a, calls_a.take(i)),
                calls_a[i],
                run(b, calls_b.take(i)),
                calls_b[i],
            ));
        }
        runs_repeat(a, init_a, b, init_b);
        assert(same_call(run(a, calls_a.take(n)), calls_a[n], run(b, calls_b.take(n)), calls_b[n]));
    }
}

/// A run makes the same calls as itself: clocks that show the same readings
/// to generators in the same state let the same ticks through.
pub proof fn same_readings_are_same_calls(s: PohView, calls: Seq<Call>)
    ensures
        same_calls(s, calls, s, calls),
{
    assert forall|i: int| 0 <= i < calls.len() implies same_call(
        run(s, calls.take(i)),
        #[trigger] calls[i],
        run(s, calls.take(i)),
        calls[i],
    ) by {
        match calls[i] {
            Call::Hash => {},
            Call::Record { mixin } => {},
            Call::Tick { now } => {},
        }
    }
}

/// An alteration that leaves the first `i` entries as they were leaves them
/// valid, and entry `i` anchored where it was.
proof fn lemma_prefix_kept(initial: Seq<u8>, entries: Seq<EntryView>, altered: Seq<EntryView>, i: int)
    requires
        valid(initial, entries),
        0 <= i <= entries.len(),
        i <= altered.len(),
        forall|j: int| 0 <= j < i ==> altered[j] == entries[j],
    ensures
        valid_upto(initial, altered, i),
        anchor(initial, altered, i) == anchor(initial, entries, i),
{
    assert forall|j: int| 0 <= j < i implies #[trigger] links_at(initial, altered, j) by {
        assert(links_at(initial, entries, j));
        assert(anchor(initial, altered, j) == anchor(initial, entries, j));
    }
}

/// A valid sequence in which one entry's id is changed is rejected with a
/// mismatch.
pub proof fn changed_id_is_caught(initial: Seq<u8>, entries: Seq<EntryView>, i: int, id: Seq<u8>)
    requires
        valid(initial, entries),
        0 <= i < entries.len(),
        id != entries[i].id,
    ensures
        mismatched(initial, entries.update(i, entries[i].with_id(id))),
{
    let altered = entries.update(i, entries[i].with_id(id));
    lemma_prefix_kept(initial, entries, altered, i);
    assert(links_at(initial, entries, i));
    assert(first_fault(initial, altered, i));
    lemma_verdict_at_fault(initial, altered, i);
}

/// A valid sequence in which one entry's mixin is changed, added or taken
/// away is rejected with a mismatch, unless the message of the entry's last
/// hash with the new mixin collides with the one with the old.
pub proof fn changed_mixin_is_caught(
    initial: Seq<u8>,
    entries: Seq<EntryView>,
    i: int,
    mixin: Option<Seq<u8>>,
)
    requires
        valid(initial, entries),
        0 <= i < entries.len(),
        mixin != entries[i].mixin,
        entries[i].wf(),
        entries[i].with_mixin(mixin).wf(),
    ensures
        ({
            let prev = anchor(initial, entries, i);
            let n = entries[i].num_hashes;
            ||| mismatched(initial, entries.update(i, entries[i].with_mixin(mixin)))
            ||| collision(preimage(prev, n, mixin), preimage(prev, n, entries[i].mixin))
        }),
{
    let altered = entries.update(i, entries[i].with_mixin(mixin));
    let prev = anchor(initial, entries, i);
    let n = entries[i].num_hashes;
    let cursor = iterate(prev, (n - 1) as nat);
    let x = preimage(prev, n, mixin);
    let y = preimage(prev, n, entries[i].mixin);
    lemma_prefix_kept(initial, entries, altered, i);
    assert(links_at(initial, entries, i));
    assert(x != y) by {
        match (mixin, entries[i].mixin) {
            (Some(a), Some(b)) => {
                let at = cursor.len() as int;
                assert(a =~= (cursor + a).subrange(at, at + 32));
                assert(b =~= (cursor + b).subrange(at, at + 32));
            },
            (Some(a), None) => {
                assert((cursor + a).len() != cursor.len());
            },
            (None, Some(b)) => {
                assert((cursor + b).len() != cursor.len());
            },
            (None, None) => {},
        }
    }
    if sha256(x) != sha256(y) {
        assert(first_fault(initial, altered, i));
        lemma_verdict_at_fault(initial, altered, i);
    }
}

/// A valid sequence in which one entry's hash count is changed is reported
/// as malformed if the new count is zero. Otherwise it is rejected with a
/// mismatch, unless SHA-256 collides; but it is accepted where the chain
/// from the entry's anchor returns to the anchor in as many hashes as the
/// count was changed by.
pub proof fn changed_count_is_caught(
    initial: Seq<u8>,
    entries: Seq<EntryView>,
    i: int,
    num_hashes: nat,
)
    requires
        valid(initial, entries),
        0 <= i < entries.len(),
        num_hashes != entries[i].num_hashes,
    ensures
        ({
            let altered = entries.update(i, entries[i].with_num_hashes(num_hashes));
            let prev = anchor(initial, entries, i);
            let by = if num_hashes < entries[i].num_hashes {
                (entries[i].num_hashes - num_hashes) as nat
            } else {
                (num_hashes - entries[i].num_hashes) as nat
            };
            if num_hashes == 0 {
                malformed_at(initial, altered, i)
            } else if iterate(prev, by) == prev {
                accepted(initial, altered)
            } else {
                mismatched(initial, altered) || sha256_collides()
            }
        }),
{
    let altered = entries.update(i, entries[i].with_num_hashes(num_hashes));
    let prev = anchor(initial, entries, i);
    let n = entries[i].num_hashes;
    let m = entries[i].mixin;
    let by = if num_hashes < n {
        (n - num_hashes) as nat
    } else {
        (num_hashes - n) as nat
    };
    let cx = iterate(prev, (num_hashes - 1) as nat);
    let cy = iterate(prev, (n - 1) as nat);
    lemma_prefix_kept(initial, entries, altered, i);
    assert(links_at(initial, entries, i));
    if num_hashes == 0 {
        assert(first_fault(initial, altered, i));
        lemma_verdict_at_fault(initial, altered, i);
    } else if iterate(prev, by) == prev {
        if num_hashes < n {
            lemma_iterate_add(prev, by, (num_hashes - 1) as nat);
        } else {
            lemma_iterate_add(prev, by, (n - 1) as nat);
        }
        assert(cx == cy);
        assert forall|k: int| 0 <= k < altered.len() implies #[trigger] links_at(
            initial,
            altered,
            k,
        ) by {
            assert(links_at(initial, entries, k));
        }
    } else if links_at(initial, altered, i) {
        let x = preimage(prev, num_hashes, m);
        let y = preimage(prev, n, m);
        if x == y {
            match m {
                Some(mixin) => {
                    assert((cx + mixin).len() == cx.len() + mixin.len());
                    assert((cy + mixin).len() == cy.len() + mixin.len());
                    assert(cx =~= (cx + mixin).subrange(0, cx.len() as int));
                    assert(cy =~= (cy + mixin).subrange(0, cy.len() as int));
                },
                None => {},
            }
            assert(cx == cy);
            if num_hashes < n {
                lemma_iterate_repeats(prev, (num_hashes - 1) as nat, (n - 1) as nat);
            } else {
                lemma_iterate_repeats(prev, (n - 1) as nat, (num_hashes - 1) as nat);
            }
        } else {
            assert(collision(x, y));
        }
    } else {
        assert(first_fault(initial, altered, i));
        lemma_verdict_at_fault(initial, altered, i);
    }
}

/// A valid sequence cut short is valid: entries missing from the end are not
/// missed by a replay.
pub proof fn cut_short_is_accepted(initial: Seq<u8>, entries: Seq<EntryView>, n: int)
    requires
        valid(initial, entries),
        0 <= n <= entries.len(),
    ensures
        accepted(initial, entries.take(n)),
{
    lemma_prefix_kept(initial, entries, entries.take(n), n);
}

/// A valid sequence from which entry `i` is removed is rejected with a
/// mismatch, unless SHA-256 collides; but it is accepted where the entry was
/// the last, or led the chain back to where it stood.
pub proof fn dropped_entry_is_caught(initial: Seq<u8>, entries: Seq<EntryView>, i: int)
    requires
        valid(initial, entries),
        0 <= i < entries.len(),
    ensures
        if i + 1 == entries.len() || entries[i].id == anchor(initial, entries, i) {
            accepted(initial, entries.remove(i))
        } else {
            mismatched(initial, entries.remove(i)) || sha256_collides()
        },
{
    let altered = entries.remove(i);
    lemma_valid_counted(initial, entries);
    lemma_verdict_counted(initial, altered);
    lemma_prefix_kept(initial, entries, altered, i);
    if i + 1 == entries.len() || entries[i].id == anchor(initial, entries, i) {
        assert forall|k: int| 0 <= k < altered.len() implies #[trigger] links_at(
            initial,
            altered,
            k,
        ) by {
            if k >= i {
                assert(links_at(initial, entries, k + 1));
            }
        }
    } else if valid(initial, altered) {
        assert(links_at(initial, altered, i));
        assert(links_at(initial, entries, i + 1));
        lemma_links_twice(anchor(initial, entries, i), entries[i].id, entries[i + 1]);
    }
}

/// A valid sequence into which a copy of entry `i` is put at position `j` is
/// rejected with a mismatch, unless SHA-256 collides; but it is accepted
/// where the chain stands at the same digest before the copy as before the
/// entry it copies, and after the copy as before the entry that follows it.
pub proof fn duplicated_entry_is_caught(initial: Seq<u8>, entries: Seq<EntryView>, i: int, j: int)
    requires
        valid(initial, entries),
        0 <= i < entries.len(),
        0 <= j <= entries.len(),
    ensures
        if anchor(initial, entries, j) == anchor(initial, entries, i) && (j == entries.len()
            || anchor(initial, entries, j) == entries[i].id) {
            accepted(initial, entries.insert(j, entries[i]))
        } else {
            mismatched(initial, entries.insert(j, entries[i])) || sha256_collides()
        },
{
    let altered = entries.insert(j, entries[i]);
    lemma_valid_counted(initial, entries);
    lemma_verdict_counted(initial, altered);
    lemma_prefix_kept(initial, entries, altered, j);
    assert(links_at(initial, entries, i));
    if anchor(initial, entries, j) == anchor(initial, entries, i) && (j == entries.len()
        || anchor(initial, entries, j) == entries[i].id) {
        assert forall|k: int| 0 <= k < altered.len() implies #[trigger] links_at(
            initial,
            altered,
            k,
        ) by {
            if k > j {
                assert(links_at(initial, entries, k - 1));
            }
        }
    } else if valid(initial, altered) {
        assert(links_at(initial, altered, j));
        if anchor(initial, entries, j) != anchor(initial, entries, i) {
            lemma_links_twice(
                anchor(initial, entries, j),
                anchor(initial, entries, i),
                entries[i],
            );
        } else {
            assert(links_at(initial, altered, j + 1));
            assert(links_at(initial, entries, j));
            lemma_links_twice(entries[i].id, anchor(initial, entries, j), entries[j]);
        }
    }
}

/// A valid sequence in which entries `i` and `j` change places is rejected
/// with a mismatch, unless SHA-256 collides; but it is accepted where the
/// chain stands at the same digest before both entries and at the same
/// digest after both.
pub proof fn swapped_entries_are_caught(initial: Seq<u8>, entries: Seq<EntryView>, i: int, j: int)
    requires
        valid(initial, entries),
        0 <= i < j < entries.len(),
    ensures
        if anchor(initial, entries, i) == anchor(initial, entries, j) && entries[i].id
            == entries[j].id {
            accepted(initial, entries.update(i, entries[j]).update(j, entries[i]))
        } else {
            mismatched(initial, entries.update(i, entries[j]).update(j, entries[i]))
                || sha256_collides()
        },
{
    let altered = entries.update(i, entries[j]).update(j, entries[i]);
    lemma_valid_counted(initial, entries);
    lemma_verdict_counted(initial, altered);
    lemma_prefix_kept(initial, entries, altered, i);
    assert(links_at(initial, entries, i));
    assert(links_at(initial, entries, j));
    if anchor(initial, entries, i) == anchor(initial, entries, j) && entries[i].id
        == entries[j].id {
        assert forall|k: int| 0 <= k < altered.len() implies #[trigger] links_at(
            initial,
            altered,
            k,
        ) by {
            assert(links_at(initial, entries, k));
        }
    } else if valid(initial, altered) {
        assert(links_at(initial, altered, i));
        if anchor(initial, entries, i) != anchor(initial, entries, j) {
            lemma_links_twice(
                anchor(initial, entries, i),
                anchor(initial, entries, j),
                entries[j],
            );
        } else if j == i + 1 {
            assert(links_at(initial, altered, j));
            lemma_links_twice(entries[j].id, anchor(initial, entries, i), entries[i]);
        } else {
            assert(links_at(initial, altered, i + 1));
            assert(links_at(initial, entries, i + 1));
            lemma_links_twice(entries[j].id, entries[i].id, entries[i + 1]);
        }
    }
}

/// A sequence that holds an entry without a hash is never accepted, and it
/// is reported as malformed at that entry if every entry before it follows
/// from its anchor.
pub proof fn zero_count_is_never_accepted(initial: Seq<u8>, entries: Seq<EntryView>, i: int)
    requires
        0 <= i < entries.len(),
        entries[i].num_hashes == 0,
    ensures
        !accepted(initial, entries),
        valid_upto(initial, entries, i) ==> malformed_at(initial, entries, i),
{
    if valid(initial, entries) {
        assert(links_at(initial, entries, i));
    }
    if valid_upto(initial, entries, i) {
        assert(first_fault(initial, entries, i));
        lemma_verdict_at_fault(initial, entries, i);
    } else {
        lemma_fault_exists(initial, entries, i);
        let k = choose|k: int| k < i && first_fault(initial, entries, k);
        lemma_verdict_at_fault(initial, entries, k);
    }
}

/// The number of plain hashes among `calls`.
pub open spec fn hashes(calls: Seq<Call>) -> nat
    decreases calls.len(),
{
    if calls.len() == 0 {
        0
    } else {
        hashes(calls.drop_last()) + if calls.last() is Hash {
            1nat
        } else {
            0nat
        }
    }
}

/// Every call is a plain hash or a tick for which, by the timer of state
/// `s`, it is too early.
pub open spec fn only_early_ticks(s: PohView, calls: Seq<Call>) -> bool {
    forall|i: int|
        0 <= i < calls.len() ==> match #[trigger] calls[i] {
            Call::Hash => true,
            Call::Record { .. } => false,
            Call::Tick { now } => !s.tick_due(now),
        }
}

/// Ticks that come before the interval has passed emit nothing and change
/// nothing, however many there are. Hashes made between them advance the
/// head and the count and nothing else.
pub proof fn early_ticks_emit_nothing(s: PohView, calls: Seq<Call>)
    requires
        only_early_ticks(s, calls),
    ensures
        output(s, calls) == Seq::<EntryView>::empty(),
        run(s, calls) == (PohView {
            last_hash: iterate(s.last_hash, hashes(calls)),
            num_hashes: s.num_hashes + hashes(calls),
            ..s
        }),
    decreases calls.len(),
{
    if calls.len() > 0 {
        let init = calls.drop_last();
        assert forall|i: int| 0 <= i < init.len() implies match #[trigger] init[i] {
            Call::Hash => true,
            Call::Record { .. } => false,
            Call::Tick { now } => !s.tick_due(now),
        } by {
            assert(init[i] == calls[i]);
        }
        early_ticks_emit_nothing(s, init);
        let last = calls[calls.len() - 1];
        assert(last == calls.last());
    }
}

/// The first tick after the interval has passed emits one entry, which
/// reports the head as it is with the hashes since the last entry, and
/// restarts the timer at its clock reading: a tick that follows before
/// another interval has passed emits nothing.
pub proof fn due_tick_emits_once(s: PohView, now: nat, next: nat)
    requires
        s.tick_due(now),
        s.tick_duration matches Some(d) && s.tick(now).elapsed(next) < d,
    ensures
        s.tick_entry(now) == Some(
            EntryView { num_hashes: s.num_hashes, id: s.last_hash, mixin: None },
        ),
        s.tick(now) == (PohView { anchor: s.last_hash, num_hashes: 0, last_tick: now, ..s }),
        s.tick(now).tick_entry(next) is None,
        s.tick(now).tick(next) == s.tick(now),
{
}

/// An entry without a mixin follows from `prev` exactly if its id is the
/// digest of the cursor alone, an entry with a mixin exactly if its id is the
/// digest of the cursor followed by the mixin. The cursor is `prev` hashed
/// `num_hashes - 1` times.
pub proof fn mixin_decides_the_last_hash(prev: Seq<u8>, e: EntryView)
    requires
        e.num_hashes != 0,
    ensures
        ({
            let cursor = iterate(prev, (e.num_hashes - 1) as nat);
            match e.mixin {
                None => links(prev, e) <==> e.id == sha256(cursor),
                Some(m) => links(prev, e) <==> e.id == sha256(cursor + m),
            }
        }),
{
}

/// An id that fits an entry without a mixin does not fit it with one, and
/// the other way round, unless the cursor alone and the cursor followed by
/// the mixin collide.
pub proof fn wrong_last_hash_is_caught(prev: Seq<u8>, e: EntryView, m: Seq<u8>)
    requires
        m.len() == 32,
        links(prev, e.with_mixin(None)),
    ensures
        ({
            let cursor = iterate(prev, (e.num_hashes - 1) as nat);
            !links(prev, e.with_mixin(Some(m))) || collision(cursor, cursor + m)
        }),
{
    let cursor = iterate(prev, (e.num_hashes - 1) as nat);
    assert((cursor + m).len() != cursor.len());
}

} // verus!
