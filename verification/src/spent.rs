//! The session's record of inputs already consumed by submissions the
//! network has not yet confirmed.
//!
//! The set is append-only within a session and never persisted: it only
//! bridges the window between a submission being accepted and the node's
//! own unspent-output index catching up. Every entry is recorded exactly
//! once; the pipeline hands the whole set to the external builder as the
//! exclusion list of every build request.

use vstd::prelude::*;

use crate::types::{refs_v, InputRef, RefModel};

verus! {

/// Ordered, duplicate-free set of input references consumed by this
/// session's submissions but not yet confirmed spent by the network.
#[derive(Debug)]
pub struct SpentInputSet {
    entries: Vec<InputRef>,
}

impl View for SpentInputSet {
    type V = Seq<RefModel>;

    closed spec fn view(&self) -> Seq<RefModel> {
        refs_v(self.entries@)
    }
}

impl SpentInputSet {
    /// Every recorded reference appears exactly once.
    pub open spec fn wf(&self) -> bool {
        self@.no_duplicates()
    }

    /// The empty set: a fresh session has spent nothing.
    pub fn new() -> (s: SpentInputSet)
        ensures
            s@ == Seq::<RefModel>::empty(),
            s.wf(),
    {
        let s = SpentInputSet { entries: Vec::new() };
        proof {
            assert(s@ =~= Seq::<RefModel>::empty());
        }
        s
    }

    /// How many inputs this session has consumed so far.
    pub fn len(&self) -> (n: usize)
        ensures
            n == self@.len(),
    {
        self.entries.len()
    }

    /// Whether `r` was already consumed by this session.
    pub fn contains(&self, r: &InputRef) -> (b: bool)
        ensures
            b == self@.contains(r@),
    {
        let mut i: usize = 0;
        while i < self.entries.len()
            invariant
                0 <= i <= self.entries.len(),
                forall|j: int| 0 <= j < i ==> self@[j] != r@,
            decreases self.entries.len() - i,
        {
            if crate::types::input_ref_eq(&self.entries[i], r) {
                proof {
                    assert(self@.contains(r@)) by {
                        assert(self@[i as int] == r@);
                    }
                }
                return true;
            }
            i += 1;
        }
        false
    }

    /// A copy of the entries, in the order they were recorded; the
    /// pipeline passes this to the builder as its exclusion list.
    pub fn to_vec(&self) -> (v: Vec<InputRef>)
        ensures
            refs_v(v@) == self@,
    {
        let mut v: Vec<InputRef> = Vec::new();
        let mut i: usize = 0;
        while i < self.entries.len()
            invariant
                0 <= i <= self.entries.len(),
                refs_v(v@) =~= self@.take(i as int),
            decreases self.entries.len() - i,
        {
            v.push(self.entries[i]);
            proof {
                assert(refs_v(v@) =~= self@.take(i as int).push(self@[i as int]));
                assert(self@.take(i + 1) =~= self@.take(i as int).push(self@[i as int]));
            }
            i += 1;
        }
        proof {
            assert(self@.take(self@.len() as int) =~= self@);
        }
        v
    }

    /// Commit a batch of freshly consumed inputs. The batch must be
    /// internally duplicate-free and disjoint from what is already
    /// recorded, so afterwards every reference still appears exactly
    /// once and the old entries stand unchanged in front.
    pub fn record(&mut self, batch: &Vec<InputRef>)
        requires
            old(self).wf(),
            (old(self)@ + refs_v(batch@)).no_duplicates(),
        ensures
            final(self)@ == old(self)@ + refs_v(batch@),
            final(self).wf(),
    {
        let ghost pre = self@;
        let mut i: usize = 0;
        while i < batch.len()
            invariant
                0 <= i <= batch.len(),
                self@ =~= pre + refs_v(batch@).take(i as int),
            decreases batch.len() - i,
        {
            let ghost prev = self@;
            self.entries.push(batch[i]);
            proof {
                assert(self@ =~= prev.push(batch@[i as int]@));
                assert(refs_v(batch@).take(i + 1) =~= refs_v(batch@).take(i as int).push(
                    batch@[i as int]@,
                ));
                assert(self@ =~= pre + refs_v(batch@).take(i + 1));
            }
            i += 1;
        }
        proof {
            assert(refs_v(batch@).take(batch@.len() as int) =~= refs_v(batch@));
            assert(self@ =~= pre + refs_v(batch@));
        }
    }
}

} // verus!
