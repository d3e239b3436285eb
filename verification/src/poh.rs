//! The Proof of History generator and the verifier of what it emits.

use crate::chain::{
    anchor, entry_id, iterate, lemma_verdict_at_fault, links, links_at, valid_upto, verdict,
};
use crate::clock::nanos;
use crate::hash;
use std::time::{Duration, Instant};
use vstd::prelude::*;

verus! {

/// One link of the chain: `id` is the digest reached `num_hashes` hashes after
/// the previous entry, the last of which also takes in `mixin` if there is
/// one.
#[derive(Clone, Copy, Debug, PartialEq, Eq)]
pub struct PohEntry {
    pub num_hashes: u64,
    pub id: hash::Hash,
    pub mixin: Option<hash::Hash>,
}

/// A [`PohEntry`] as plain mathematical values.
pub struct EntryView {
    pub num_hashes: nat,
    pub id: Seq<u8>,
    pub mixin: Option<Seq<u8>>,
}

impl EntryView {
    /// The id and the mixin, if any, are 32 bytes long, as every digest is.
    pub open spec fn wf(self) -> bool {
        &&& self.id.len() == 32
        &&& self.mixin matches Some(m) ==> m.len() == 32
    }

    /// The entry with another id.
    pub open spec fn with_id(self, id: Seq<u8>) -> EntryView {
        EntryView { id, ..self }
    }

    /// The entry with another mixin, or none.
    pub open spec fn with_mixin(self, mixin: Option<Seq<u8>>) -> EntryView {
        EntryView { mixin, ..self }
    }

    /// The entry with another hash count.
    pub open spec fn with_num_hashes(self, num_hashes: nat) -> EntryView {
        EntryView { num_hashes, ..self }
    }
}

impl View for PohEntry {
    type V = EntryView;

    open spec fn view(&self) -> EntryView {
        EntryView {
            num_hashes: self.num_hashes as nat,
            id: self.id@,
            mixin: match self.mixin {
                Some(m) => Some(m@),
                None => None,
            },
        }
    }
}

impl DeepView for PohEntry {
    type V = EntryView;

    open spec fn deep_view(&self) -> EntryView {
        self@
    }
}

/// An entry that counts no hash: no generator step stands behind it, so it
/// cannot be replayed.
#[derive(Clone, Copy, Debug, PartialEq, Eq)]
pub struct MalformedEntry {
    /// Position of the entry in the sequence under verification.
    pub index: usize,
}

/// The generator's state as plain mathematical values.
pub struct PohView {
    /// The digest from which the next entry will be replayed: the starting
    /// digest, or the id of the entry emitted last.
    pub anchor: Seq<u8>,
    /// The head of the chain.
    pub last_hash: Seq<u8>,
    /// Hashes since the anchor.
    pub num_hashes: nat,
    /// Clock reading at the last tick, in nanoseconds since creation.
    pub last_tick: nat,
    /// Time between ticks in nanoseconds; `None` disables ticks.
    pub tick_duration: Option<nat>,
}

impl PohView {
    /// The head is the anchor hashed `num_hashes` times.
    pub open spec fn wf(self) -> bool {
        self.last_hash == iterate(self.anchor, self.num_hashes)
    }

    /// The state of a generator created on `initial`.
    pub open spec fn fresh(initial: Seq<u8>, tick_duration: Option<nat>) -> PohView {
        PohView {
            anchor: initial,
            last_hash: initial,
            num_hashes: 0,
            last_tick: 0,
            tick_duration,
        }
    }

    /// The state after one plain hash.
    pub open spec fn hash(self) -> PohView {
        PohView { last_hash: hash::sha256(self.last_hash), num_hashes: self.num_hashes + 1, ..self }
    }

    /// The entry that recording `mixin` emits.
    pub open spec fn record_entry(self, mixin: Seq<u8>) -> EntryView {
        EntryView {
            num_hashes: self.num_hashes + 1,
            id: hash::sha256(self.last_hash + mixin),
            mixin: Some(mixin),
        }
    }

    /// The state after recording `mixin`.
    pub open spec fn record(self, mixin: Seq<u8>) -> PohView {
        let id = self.record_entry(mixin).id;
        PohView { anchor: id, last_hash: id, num_hashes: 0, ..self }
    }

    /// Time since the last tick at clock reading `now`; zero if the reading
    /// lies before it.
    pub open spec fn elapsed(self, now: nat) -> nat {
        if now >= self.last_tick {
            (now - self.last_tick) as nat
        } else {
            0
        }
    }

    /// A tick is due at clock reading `now`.
    pub open spec fn tick_due(self, now: nat) -> bool {
        match self.tick_duration {
            Some(d) => self.elapsed(now) >= d,
            None => false,
        }
    }

    /// The entry that a tick at clock reading `now` emits, if one is due.
    pub open spec fn tick_entry(self, now: nat) -> Option<EntryView> {
        if self.tick_due(now) {
            Some(EntryView { num_hashes: self.num_hashes, id: self.last_hash, mixin: None })
        } else {
            None
        }
    }

    /// The state after a tick at clock reading `now`.
    pub open spec fn tick(self, now: nat) -> PohView {
        if self.tick_due(now) {
            PohView { anchor: self.last_hash, num_hashes: 0, last_tick: now, ..self }
        } else {
            self
        }
    }
}

/// The digest of `last_hash` followed by `mixin`: the hash that takes a mixin
/// into the chain.
fn hash_with_mixin(last_hash: &hash::Hash, mixin: &hash::Hash) -> (id: hash::Hash)
    ensures
        id@ == hash::sha256(last_hash@ + mixin@),
{
    let head = last_hash.as_bytes();
    let tail = mixin.as_bytes();
    proof {
        hash::lemma_concat_pair(head, tail);
    }
    hash::hashv(&[head, tail])
}

/// Generator of a Proof of History chain. It has a single owner, who
/// advances it hash by hash, records mixins and asks for ticks.
pub struct Poh {
    last_hash: hash::Hash,
    num_hashes: u64,
    last_tick: u128,
    tick_duration: Option<u128>,
    started: Instant,
    anchor: Ghost<Seq<u8>>,
}

impl View for Poh {
    type V = PohView;

    closed spec fn view(&self) -> PohView {
        PohView {
            anchor: self.anchor@,
            last_hash: self.last_hash@,
            num_hashes: self.num_hashes as nat,
            last_tick: self.last_tick as nat,
            tick_duration: match self.tick_duration {
                Some(d) => Some(d as nat),
                None => None,
            },
        }
    }
}

impl Poh {
    /// Every generator's head is its anchor hashed `num_hashes` times.
    #[verifier::type_invariant]
    pub open spec fn inv(&self) -> bool {
        self@.wf()
    }

    /// Creates a generator on `last_hash`. With a `tick_duration` it emits a
    /// tick whenever that much time has passed since the last one; the first
    /// interval starts now.
    pub fn new(last_hash: hash::Hash, tick_duration: Option<Duration>) -> (poh: Poh)
        ensures
            poh@ == PohView::fresh(
                last_hash@,
                match tick_duration {
                    Some(d) => Some(nanos(d)),
                    None => None,
                },
            ),
    {
        let started = Instant::now();
        let tick_duration = match tick_duration {
            Some(d) => Some(d.as_nanos()),
            None => None,
        };
        Poh {
            last_hash,
            num_hashes: 0,
            last_tick: 0,
            tick_duration,
            started,
            anchor: Ghost(last_hash@),
        }
    }

    /// The head of the chain.
    pub fn last_hash(&self) -> (h: hash::Hash)
        ensures
            h@ == self@.last_hash,
    {
        self.last_hash
    }

    /// The number of hashes since the last emitted entry.
    pub fn num_hashes(&self) -> (n: u64)
        ensures
            n == self@.num_hashes,
    {
        self.num_hashes
    }

    /// Advances the chain by one hash. The count of hashes since the last
    /// entry must have room for one more.
    pub fn hash(&mut self)
        requires
            old(self)@.num_hashes < u64::MAX,
        ensures
            final(self)@ == old(self)@.hash(),
    {
        proof {
            use_type_invariant(&*self);
        }
        let last_hash = hash::hash(self.last_hash.as_bytes());
        *self = Poh { last_hash, num_hashes: self.num_hashes + 1, ..*self };
    }

    /// Hashes `mixin` into the chain and emits the entry that anchors it.
    /// The call counts as one hash, for which the count of hashes since the
    /// last entry must have room. The entry follows from the one emitted
    /// before it.
    pub fn record(&mut self, mixin: hash::Hash) -> (entry: PohEntry)
        requires
            old(self)@.num_hashes < u64::MAX,
        ensures
            entry@ == old(self)@.record_entry(mixin@),
            final(self)@ == old(self)@.record(mixin@),
            links(old(self)@.anchor, entry@),
    {
        proof {
            use_type_invariant(&*self);
        }
        let num_hashes = self.num_hashes + 1;
        let id = hash_with_mixin(&self.last_hash, &mixin);
        *self = Poh { last_hash: id, num_hashes: 0, anchor: Ghost(id@), ..*self };
        PohEntry { num_hashes, id, mixin: Some(mixin) }
    }

    /// Emits a tick if the clock shows that `tick_duration` has passed since
    /// the last one. The clock is read only if there is a `tick_duration`;
    /// whatever it shows, the outcome is that of [`Poh::tick_at`] at some
    /// reading.
    pub fn tick(&mut self) -> (entry: Option<PohEntry>)
        ensures
            exists|now: nat|
                final(self)@ == old(self)@.tick(now) && entry.deep_view() == old(
                    self,
                )@.tick_entry(now),
            old(self)@.tick_duration is None ==> entry is None && final(self)@ == old(self)@,
    {
        if self.tick_duration.is_some() {
            let now = self.started.elapsed().as_nanos();
            self.tick_at(now)
        } else {
            proof {
                assert(self@.tick(0) == self@);
            }
            None
        }
    }

    /// Emits a tick if, at clock reading `now` (nanoseconds since creation),
    /// `tick_duration` has passed since the last one. The tick reports the
    /// head as it is, with the hashes since the last entry, and restarts the
    /// interval at `now`. Otherwise nothing changes. A tick that counts a
    /// hash follows from the entry emitted before it; one that counts none
    /// marks idle time and cannot be replayed.
    pub fn tick_at(&mut self, now: u128) -> (entry: Option<PohEntry>)
        ensures
            final(self)@ == old(self)@.tick(now as nat),
            entry.deep_view() == old(self)@.tick_entry(now as nat),
            entry matches Some(e) ==> (e.num_hashes != 0 ==> links(old(self)@.anchor, e@)),
    {
        proof {
            use_type_invariant(&*self);
        }
        if let Some(tick_duration) = self.tick_duration {
            let elapsed = if now >= self.last_tick {
                now - self.last_tick
            } else {
                0
            };
            if elapsed >= tick_duration {
                let entry = PohEntry { num_hashes: self.num_hashes, id: self.last_hash, mixin: None };
                *self = Poh {
                    num_hashes: 0,
                    last_tick: now,
                    anchor: Ghost(self.last_hash@),
                    ..*self
                };
                return Some(entry);
            }
        }
        None
    }
}

/// Replays `entries` from `initial` and reports whether each entry follows
/// from the one before it.
///
/// Entries are checked in order and the first faulty one decides: an entry
/// that counts no hash is reported as malformed, an entry whose id is not the
/// digest that its count and mixin produce makes the result `Ok(false)`.
pub fn verify(initial: hash::Hash, entries: &[PohEntry]) -> (res: Result<bool, MalformedEntry>)
    ensures
        res == verdict(initial@, entries.deep_view()),
{
    let ghost views = entries.deep_view();
    let mut last_hash = initial;
    let mut i: usize = 0;
    while i < entries.len()
        invariant
            i <= entries.len(),
            views == entries.deep_view(),
            valid_upto(initial@, views, i as int),
            last_hash@ == anchor(initial@, views, i as int),
        decreases entries.len() - i,
    {
        let entry = &entries[i];
        assert(views[i as int] == entry@);
        if entry.num_hashes == 0 {
            proof {
                lemma_verdict_at_fault(initial@, views, i as int);
            }
            return Err(MalformedEntry { index: i });
        }
        let ghost prev = last_hash@;
        let mut n: u64 = 1;
        while n < entry.num_hashes
            invariant
                1 <= n <= entry.num_hashes,
                last_hash@ == iterate(prev, (n - 1) as nat),
            decreases entry.num_hashes - n,
        {
            last_hash = hash::hash(last_hash.as_bytes());
            n += 1;
        }
        let id = match entry.mixin {
            Some(mixin) => hash_with_mixin(&last_hash, &mixin),
            None => hash::hash(last_hash.as_bytes()),
        };
        assert(id@ == entry_id(prev, entry@.num_hashes, entry@.mixin));
        if id != entry.id {
            proof {
                lemma_verdict_at_fault(initial@, views, i as int);
            }
            return Ok(false);
        }
        assert(links_at(initial@, views, i as int));
        last_hash = id;
        i += 1;
    }
    Ok(true)
}

} // verus!
