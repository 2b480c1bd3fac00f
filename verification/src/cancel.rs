//! The cancel flags of the running outgoing transfers, found by transfer id.
use vstd::prelude::*;

verus! {

/// The id-to-flag map that `entries` stands for: later entries win.
pub open spec fn entries_map<C>(entries: Seq<(String, C)>) -> Map<Seq<char>, C>
    decreases entries.len(),
{
    if entries.len() == 0 {
        Map::empty()
    } else {
        entries_map(entries.drop_last()).insert(entries.last().0@, entries.last().1)
    }
}

/// Whether an entry is under another id than `id`.
pub open spec fn other_than<C>(id: Seq<char>) -> spec_fn((String, C)) -> bool {
    |e: (String, C)| e.0@ != id
}

/// The flag of each running transfer, under its id. `C` is whatever the
/// sending task polls to learn that the user cancelled it.
pub struct CancelFlags<C> {
    entries: Vec<(String, C)>,
}

impl<C> View for CancelFlags<C> {
    type V = Map<Seq<char>, C>;

    closed spec fn view(&self) -> Map<Seq<char>, C> {
        entries_map(self.entries@)
    }
}

/// Entries after position `i` that do not have the key `id` leave what the
/// map holds under `id` as the first `i` entries have it.
proof fn lemma_untouched_tail<C>(entries: Seq<(String, C)>, i: int, id: Seq<char>)
    requires
        0 <= i <= entries.len(),
        forall|j: int| i <= j < entries.len() ==> (#[trigger] entries[j]).0@ != id,
    ensures
        entries_map(entries).contains_key(id) == entries_map(entries.take(i)).contains_key(id),
        entries_map(entries).contains_key(id) ==> entries_map(entries)[id] == entries_map(
            entries.take(i),
        )[id],
    decreases entries.len(),
{
    if entries.len() == i {
        assert(entries.take(i) =~= entries);
    } else {
        let shorter = entries.drop_last();
        assert(shorter.take(i) =~= entries.take(i));
        assert(entries[entries.len() - 1].0@ != id);
        lemma_untouched_tail(shorter, i, id);
    }
}

/// Removing every entry with the key `id` removes `id` from the map.
proof fn lemma_without_key<C>(entries: Seq<(String, C)>, kept: Seq<(String, C)>, id: Seq<char>)
    requires
        kept == entries.filter(other_than::<C>(id)),
    ensures
        entries_map(kept) == entries_map(entries).remove(id),
    decreases entries.len(),
{
    reveal(Seq::filter);
    if entries.len() == 0 {
        assert(entries_map(kept) =~= entries_map(entries).remove(id));
    } else {
        let shorter = entries.drop_last();
        let kept_shorter = shorter.filter(other_than::<C>(id));
        lemma_without_key(shorter, kept_shorter, id);
        let last = entries.last();
        if last.0@ == id {
            assert(kept == kept_shorter);
            assert(entries_map(kept) =~= entries_map(entries).remove(id));
        } else {
            assert(kept == kept_shorter.push(last));
            assert(kept.drop_last() =~= kept_shorter);
            assert(entries_map(kept) =~= entries_map(entries).remove(id));
        }
    }
}

impl<C> CancelFlags<C> {
    /// No transfer is running.
    pub fn new() -> (r: Self)
        ensures
            r@ == Map::<Seq<char>, C>::empty(),
    {
        CancelFlags { entries: Vec::new() }
    }

    /// The flag of transfer `id`, if it is running.
    pub fn get(&self, id: &str) -> (r: Option<&C>)
        ensures
            match r {
                Some(f) => self@.contains_key(id@) && *f == self@[id@],
                None => !self@.contains_key(id@),
            },
    {
        let key = String::from_str(id);
        let mut i = self.entries.len();
        while i > 0
            invariant
                i <= self.entries@.len(),
                key@ == id@,
                forall|j: int| i <= j < self.entries@.len() ==> (#[trigger] self.entries@[j]).0@ != id@,
            decreases i,
        {
            if self.entries[i - 1].0 == key {
                proof {
                    lemma_untouched_tail(self.entries@, i as int, id@);
                    assert(self.entries@.take(i as int).drop_last() =~= self.entries@.take(i - 1));
                }
                return Some(&self.entries[i - 1].1);
            }
            i = i - 1;
        }
        proof {
            lemma_untouched_tail(self.entries@, 0, id@);
            assert(self.entries@.take(0) =~= Seq::<(String, C)>::empty());
        }
        None
    }

    /// Forget transfer `id`; the others keep their flags.
    pub fn remove(&mut self, id: &str)
        ensures
            final(self)@ == old(self)@.remove(id@),
    {
        let key = String::from_str(id);
        let ghost old_entries = self.entries@;
        let mut kept: Vec<(String, C)> = Vec::new();
        let mut rest: Vec<(String, C)> = Vec::new();
        std::mem::swap(&mut rest, &mut self.entries);
        assert(old_entries.take(0) =~= Seq::<(String, C)>::empty());
        assert(old_entries.skip(0) =~= old_entries);
        while rest.len() > 0
            invariant
                key@ == id@,
                rest@.len() <= old_entries.len(),
                rest@ == old_entries.skip(old_entries.len() - rest@.len()),
                kept@ == old_entries.take(old_entries.len() - rest@.len()).filter(other_than::<C>(id@)),
            decreases rest@.len(),
        {
            let ghost n = old_entries.len() - rest@.len();
            let e = rest.remove(0);
            proof {
                assert(e == old_entries[n]);
                assert(old_entries.take(n + 1).drop_last() =~= old_entries.take(n));
                assert(rest@ =~= old_entries.skip(n + 1));
                reveal(Seq::filter);
            }
            if e.0 != key {
                kept.push(e);
            }
        }
        proof {
            assert(old_entries.take(old_entries.len() - rest@.len()) =~= old_entries);
            lemma_without_key(old_entries, kept@, id@);
        }
        self.entries = kept;
    }

    /// Record `flag` as the flag of transfer `id`, in place of any earlier one.
    pub fn insert(&mut self, id: String, flag: C)
        ensures
            final(self)@ == old(self)@.insert(id@, flag),
    {
        self.remove(id.as_str());
        let ghost before = self.entries@;
        self.entries.push((id, flag));
        proof {
            assert(self.entries@.drop_last() =~= before);
            assert(self@ =~= old(self)@.insert(id@, flag));
        }
    }
}

} // verus!
