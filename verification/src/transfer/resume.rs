//! Breakpoint resume: which chunks of a transfer have been received.
use vstd::prelude::*;
use std::collections::BTreeSet;
use vstd::std_specs::iter::IteratorSpec;
use vstd::std_specs::cmp::OrdSpec;

verus! {

broadcast use {vstd::std_specs::btree::group_btree_axioms, vstd::laws_cmp::group_laws_cmp};

proof fn lemma_keys_ascending(keys: Seq<&u64>)
    requires
        vstd::std_specs::btree::increasing_seq(keys),
    ensures
        forall|i: int, j: int| 0 <= i < j < keys.len() ==> *keys[i] < *keys[j],
{
    assert(vstd::laws_cmp::obeys_cmp::<u64>());
    assert(vstd::laws_cmp::obeys_cmp::<&u64>());
    assert forall|i: int, j: int| 0 <= i < j < keys.len() implies *keys[i] < *keys[j] by {
        assert(OrdSpec::cmp_spec(&keys[i], &keys[j]) is Less);
    }
}

/// Tracks which chunks have been received for a transfer.
#[derive(Debug)]
pub struct ResumeTracker {
    received: BTreeSet<u64>,
}

impl View for ResumeTracker {
    type V = Set<u64>;

    closed spec fn view(&self) -> Set<u64> {
        self.received@
    }
}

impl ResumeTracker {
    /// An empty tracker.
    pub fn new() -> (t: Self)
        ensures
            t@ == Set::<u64>::empty(),
    {
        ResumeTracker { received: BTreeSet::new() }
    }

    /// Record that chunk `index` has arrived.
    pub fn mark_received(&mut self, index: u64)
        ensures
            final(self)@ == old(self)@.insert(index),
    {
        self.received.insert(index);
    }

    /// Whether chunk `index` has arrived.
    pub fn has(&self, index: u64) -> (b: bool)
        ensures
            b == self@.contains(index),
    {
        self.received.contains(&index)
    }

    /// The received chunk indices in ascending order, each once.
    pub fn received_chunks(&self) -> (v: Vec<u64>)
        ensures
            v@.to_set() == self@,
            v@.no_duplicates(),
            forall|i: int, j: int| 0 <= i < j < v@.len() ==> v@[i] < v@[j],
    {
        let ghost keys = vstd::std_specs::btree::spec_btree_keys_iter(&self.received).remaining();
        let mut v: Vec<u64> = Vec::new();
        for k in it: self.received.iter()
            invariant
                it.seq() == keys,
                v@ == keys.take(it.index() as int).map_values(|r: &u64| *r),
        {
            v.push(*k);
            proof {
                assert(keys.take(it.index() + 1).map_values(|r: &u64| *r) =~= v@);
            }
        }
        proof {
            assert(keys.take(keys.len() as int) =~= keys);
            assert(keys.map_values(|r: &u64| *r) =~= keys.unref());
            vstd::std_specs::btree::axiom_spec_btree_keys_iter(&self.received);
            lemma_keys_ascending(keys);
        }
        v
    }
}

} // verus!
