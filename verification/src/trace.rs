//! Runs of the generator as mathematics: a sequence of calls, the state it
//! leads to and the entries it emits.

use crate::chain::{anchor, links, links_at};
use crate::poh::{EntryView, PohView};
use vstd::prelude::*;

verus! {

/// One call on a generator. A tick carries the clock reading that it saw.
pub enum Call {
    Hash,
    Record { mixin: Seq<u8> },
    Tick { now: nat },
}

/// The state after call `c` in state `s`.
pub open spec fn step(s: PohView, c: Call) -> PohView {
    match c {
        Call::Hash => s.hash(),
        Call::Record { mixin } => s.record(mixin),
        Call::Tick { now } => s.tick(now),
    }
}

/// The entry that call `c` emits in state `s`, if any.
pub open spec fn emitted(s: PohView, c: Call) -> Option<EntryView> {
    match c {
        Call::Hash => None,
        Call::Record { mixin } => Some(s.record_entry(mixin)),
        Call::Tick { now } => s.tick_entry(now),
    }
}

/// The state after `calls`, made in order from state `s`.
pub open spec fn run(s: PohView, calls: Seq<Call>) -> PohView
    decreases calls.len(),
{
    if calls.len() == 0 {
        s
    } else {
        step(run(s, calls.drop_last()), calls.last())
    }
}

/// The entries that `calls`, made in order from state `s`, emit.
pub open spec fn output(s: PohView, calls: Seq<Call>) -> Seq<EntryView>
    decreases calls.len(),
{
    if calls.len() == 0 {
        Seq::empty()
    } else {
        let before = output(s, calls.drop_last());
        match emitted(run(s, calls.drop_last()), calls.last()) {
            Some(e) => before.push(e),
            None => before,
        }
    }
}

/// The digest from which the next entry after `out` is replayed.
pub open spec fn tip(initial: Seq<u8>, out: Seq<EntryView>) -> Seq<u8> {
    anchor(initial, out, out.len() as int)
}

/// A call keeps the head at the anchor hashed `num_hashes` times; the entry
/// it emits follows from the anchor it was made on unless it counts no hash,
/// and becomes the new anchor.
pub proof fn lemma_step(s: PohView, c: Call)
    requires
        s.wf(),
    ensures
        step(s, c).wf(),
        match emitted(s, c) {
            Some(e) => {
                &&& step(s, c).anchor == e.id
                &&& e.num_hashes != 0 ==> links(s.anchor, e)
            },
            None => step(s, c).anchor == s.anchor,
        },
{
    match c {
        Call::Hash => {},
        Call::Record { mixin } => {},
        Call::Tick { now } => {},
    }
}

/// Every entry that a run emits follows from the one before it, unless it is
/// a tick that counts no hash; the run ends anchored on its last entry.
pub proof fn lemma_run(s: PohView, calls: Seq<Call>)
    requires
        s.wf(),
    ensures
        run(s, calls).wf(),
        run(s, calls).anchor == tip(s.anchor, output(s, calls)),
        forall|i: int|
            0 <= i < output(s, calls).len() && output(s, calls)[i].num_hashes != 0
                ==> #[trigger] links_at(s.anchor, output(s, calls), i),
    decreases calls.len(),
{
    if calls.len() > 0 {
        let init = calls.drop_last();
        let before = output(s, init);
        lemma_run(s, init);
        lemma_step(run(s, init), calls.last());
        let out = output(s, calls);
        assert forall|i: int| 0 <= i < out.len() && out[i].num_hashes != 0 implies #[trigger] links_at(
            s.anchor,
            out,
            i,
        ) by {
            if i < before.len() {
                assert(links_at(s.anchor, before, i));
                assert(out[i] == before[i]);
                assert(anchor(s.anchor, out, i) == anchor(s.anchor, before, i));
            }
        }
    }
}

} // verus!
