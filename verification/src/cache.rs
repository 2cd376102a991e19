//! The progress cache: for each identifier, the latest definitive outcome.

use crate::keyed::StringMap;
use crate::outcome::{CacheEntry, CacheEntryView};
use vstd::prelude::*;

verus! {

/// The contents of a progress cache.
pub type CacheView = Map<Seq<char>, CacheEntryView>;

/// Whether `cache` records a success for `identifier`.
pub open spec fn is_success(cache: CacheView, identifier: Seq<char>) -> bool {
    cache.contains_key(identifier) && cache[identifier].outcome is Success
}

/// The identifiers for which `cache` records a success.
pub open spec fn success_set(cache: CacheView) -> Set<Seq<char>> {
    Set::new(|identifier: Seq<char>| is_success(cache, identifier))
}

/// The progress of a run, and of the runs before it.
#[derive(Debug)]
pub struct ProgressCache {
    entries: StringMap<CacheEntry>,
}

impl View for ProgressCache {
    type V = CacheView;

    closed spec fn view(&self) -> CacheView {
        self.entries@.map_values(|e: CacheEntry| e@)
    }
}

impl ProgressCache {
    /// The identifiers that have an entry, in the order in which they got
    /// their first.
    pub closed spec fn identifiers(&self) -> Seq<Seq<char>> {
        self.entries.key_seq()
    }

    /// The entries, each at the index of its identifier.
    pub closed spec fn entries(&self) -> Seq<CacheEntryView> {
        Seq::new(self.entries.value_seq().len(), |i: int| self.entries.value_seq()[i]@)
    }

    /// Every identifier has one entry.
    pub closed spec fn wf(&self) -> bool {
        self.entries.wf()
    }

    /// The entries of a cache are those of its identifiers, in their order.
    pub proof fn lemma_contents(&self)
        requires
            self.wf(),
        ensures
            self.identifiers().no_duplicates(),
            self.identifiers().len() == self.entries().len(),
            self@.dom() == self.identifiers().to_set(),
            self@.dom().finite(),
            self@.dom().len() == self.identifiers().len(),
            forall|i: int|
                0 <= i < self.identifiers().len() ==> self@.contains_key(
                    #[trigger] self.identifiers()[i],
                ) && self@[self.identifiers()[i]] == self.entries()[i],
    {
        self.entries.lemma_domain();
        assert(self@.dom() =~= self.entries@.dom());
    }

    /// No entry records more retries than a count of retries can hold.
    pub proof fn lemma_entries_bounded(&self)
        ensures
            forall|i: int| 0 <= i < self.entries().len() ==> (#[trigger] self.entries()[i]).retry_count <= 255,
    {
    }

    /// The empty cache: what a run starts from when nothing was stored.
    pub fn new() -> (cache: ProgressCache)
        ensures
            cache.wf(),
            cache@ == Map::<Seq<char>, CacheEntryView>::empty(),
            cache.identifiers() == Seq::<Seq<char>>::empty(),
    {
        let cache = ProgressCache { entries: StringMap::new() };
        assert(cache@ =~= Map::<Seq<char>, CacheEntryView>::empty());
        cache
    }

    /// The number of identifiers with an entry.
    pub fn len(&self) -> (n: usize)
        requires
            self.wf(),
        ensures
            n == self.identifiers().len(),
            n == self@.dom().len(),
    {
        proof {
            self.lemma_contents();
        }
        self.entries.len()
    }

    /// The entry of `identifier`, if it has one.
    pub fn get(&self, identifier: &String) -> (entry: Option<&CacheEntry>)
        requires
            self.wf(),
        ensures
            match entry {
                Some(e) => self@.contains_key(identifier@) && e@ == self@[identifier@],
                None => !self@.contains_key(identifier@),
            },
    {
        self.entries.get(identifier)
    }

    /// Whether the cache records a success for `identifier`.
    pub fn succeeded(&self, identifier: &String) -> (b: bool)
        requires
            self.wf(),
        ensures
            b == is_success(self@, identifier@),
    {
        match self.entries.get(identifier) {
            Some(entry) => entry.is_success(),
            None => false,
        }
    }

    /// The identifier at index `i`.
    pub fn identifier_at(&self, i: usize) -> (identifier: &String)
        requires
            self.wf(),
            i < self.identifiers().len(),
        ensures
            identifier@ == self.identifiers()[i as int],
    {
        self.entries.key_at(i)
    }

    /// The entry at index `i`: the entry of the identifier at that index.
    pub fn entry_at(&self, i: usize) -> (entry: &CacheEntry)
        requires
            self.wf(),
            i < self.identifiers().len(),
        ensures
            entry@ == self.entries()[i as int],
            entry@ == self@[self.identifiers()[i as int]],
    {
        proof {
            self.lemma_contents();
        }
        self.entries.value_at(i)
    }

    /// Records `entry` as the latest outcome of `identifier`, in place of any
    /// earlier one. An identifier that had an entry keeps its place; a new
    /// one goes last.
    pub fn record(&mut self, identifier: String, entry: CacheEntry)
        requires
            old(self).wf(),
        ensures
            final(self).wf(),
            final(self)@ == old(self)@.insert(identifier@, entry@),
            old(self)@.contains_key(identifier@) ==> final(self).identifiers() == old(
                self,
            ).identifiers(),
            !old(self)@.contains_key(identifier@) ==> final(self).identifiers() == old(
                self,
            ).identifiers().push(identifier@),
    {
        self.entries.insert(identifier, entry);
        assert(self@ =~= old(self)@.insert(identifier@, entry@));
    }
}

} // verus!
