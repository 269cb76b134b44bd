//! The tag-name cache: a monotonically growing mapping from opaque tag id
//! to display label.

use vstd::prelude::*;

verus! {

/// The mapping a sequence of key-value pairs denotes; a later pair with
/// the same key wins.
pub open spec fn map_of_pairs(s: Seq<(String, String)>) -> Map<Seq<char>, Seq<char>>
    decreases s.len(),
{
    if s.len() == 0 {
        Map::empty()
    } else {
        map_of_pairs(s.drop_last()).insert(s.last().0@, s.last().1@)
    }
}

/// No two pairs share a key.
pub open spec fn unique_keys(s: Seq<(String, String)>) -> bool {
    forall|i: int, j: int| 0 <= i < j < s.len() ==> s[i].0@ != s[j].0@
}

pub proof fn lemma_map_of_pairs_domain(s: Seq<(String, String)>)
    ensures
        forall|k: Seq<char>|
            map_of_pairs(s).contains_key(k) <==> exists|i: int| 0 <= i < s.len() && s[i].0@ == k,
    decreases s.len(),
{
    if s.len() > 0 {
        lemma_map_of_pairs_domain(s.drop_last());
        assert forall|k: Seq<char>|
            map_of_pairs(s).contains_key(k) <==> exists|i: int|
                0 <= i < s.len() && s[i].0@ == k by {
            if map_of_pairs(s).contains_key(k) {
                if k == s.last().0@ {
                    assert(s[s.len() - 1].0@ == k);
                } else {
                    assert(map_of_pairs(s.drop_last()).contains_key(k));
                    let i = choose|i: int|
                        0 <= i < s.drop_last().len() && s.drop_last()[i].0@ == k;
                    assert(s.drop_last()[i] == s[i]);
                    assert(s[i].0@ == k);
                }
            }
            if exists|i: int| 0 <= i < s.len() && s[i].0@ == k {
                let i = choose|i: int| 0 <= i < s.len() && s[i].0@ == k;
                if i < s.len() - 1 {
                    assert(s.drop_last()[i].0@ == k);
                    assert(map_of_pairs(s.drop_last()).contains_key(k));
                    assert(map_of_pairs(s).contains_key(k));
                } else {
                    assert(k == s.last().0@);
                    assert(map_of_pairs(s).contains_key(k));
                }
            }
        }
    }
}

pub proof fn lemma_unique_dom_len(s: Seq<(String, String)>)
    requires
        unique_keys(s),
    ensures
        map_of_pairs(s).dom().finite(),
        map_of_pairs(s).dom().len() == s.len(),
    decreases s.len(),
{
    if s.len() == 0 {
        assert(map_of_pairs(s).dom() =~= Set::<Seq<char>>::empty());
    } else {
        assert(unique_keys(s.drop_last()));
        lemma_unique_dom_len(s.drop_last());
        lemma_map_of_pairs_domain(s.drop_last());
        assert(!map_of_pairs(s.drop_last()).contains_key(s.last().0@));
        assert(map_of_pairs(s).dom() =~= map_of_pairs(s.drop_last()).dom().insert(s.last().0@));
        vstd::set::axiom_set_insert_len(map_of_pairs(s.drop_last()).dom(), s.last().0@);
    }
}

pub proof fn lemma_map_of_pairs_at(s: Seq<(String, String)>, i: int)
    requires
        unique_keys(s),
        0 <= i < s.len(),
    ensures
        map_of_pairs(s).contains_key(s[i].0@),
        map_of_pairs(s)[s[i].0@] == s[i].1@,
    decreases s.len(),
{
    lemma_map_of_pairs_domain(s);
    if i < s.len() - 1 {
        assert(unique_keys(s.drop_last()));
        assert(s.drop_last()[i] == s[i]);
        lemma_map_of_pairs_at(s.drop_last(), i);
        assert(s[i].0@ != s.last().0@);
    }
}

/// The durable tag-name cache.  Entries are only ever inserted, never
/// evicted and never updated once present.
pub struct TagCache {
    pub cache: Vec<(String, String)>,
}

impl TagCache {
    /// The pairs carry pairwise distinct keys.
    pub open spec fn wf(&self) -> bool {
        unique_keys(self.cache@)
    }

    /// The mapping the cache denotes.
    pub open spec fn view(&self) -> Map<Seq<char>, Seq<char>> {
        map_of_pairs(self.cache@)
    }

    /// An empty cache.
    pub fn new() -> (r: TagCache)
        ensures
            r.wf(),
            r@ == Map::<Seq<char>, Seq<char>>::empty(),
    {
        TagCache { cache: Vec::new() }
    }

    /// How many tags are cached.
    pub fn len(&self) -> (r: usize)
        requires
            self.wf(),
        ensures
            r == self@.dom().len(),
    {
        proof {
            lemma_unique_dom_len(self.cache@);
        }
        self.cache.len()
    }

    /// The position of the key in the pair list, if it is present.
    fn find(&self, id: &str) -> (r: Option<usize>)
        requires
            self.wf(),
        ensures
            match r {
                Some(i) => i < self.cache@.len() && self.cache@[i as int].0@ == id@
                    && self@.contains_key(id@) && self@[id@] == self.cache@[i as int].1@,
                None => !self@.contains_key(id@),
            },
    {
        proof {
            lemma_map_of_pairs_domain(self.cache@);
        }
        let n = self.cache.len();
        let mut i: usize = 0;
        while i < n
            invariant
                self.wf(),
                n == self.cache@.len(),
                i <= n,
                forall|j: int| 0 <= j < i ==> self.cache@[j].0@ != id@,
            decreases n - i,
        {
            if crate::text::str_eq(self.cache[i].0.as_str(), id) {
                proof {
                    lemma_map_of_pairs_at(self.cache@, i as int);
                }
                return Some(i);
            }
            i += 1;
        }
        proof {
            lemma_map_of_pairs_domain(self.cache@);
        }
        None
    }

    /// Whether the tag id is cached.
    pub fn contains(&self, id: &str) -> (r: bool)
        requires
            self.wf(),
        ensures
            r == self@.contains_key(id@),
    {
        self.find(id).is_some()
    }

    /// The cached label of a tag id, if any.
    pub fn get(&self, id: &str) -> (r: Option<&String>)
        requires
            self.wf(),
        ensures
            match r {
                Some(label) => self@.contains_key(id@) && label@ == self@[id@],
                None => !self@.contains_key(id@),
            },
    {
        match self.find(id) {
            Some(i) => Some(&self.cache[i].1),
            None => None,
        }
    }

    /// Caches a label under a tag id unless the id is already present:
    /// the cache grows monotonically and never rewrites an entry.
    pub fn insert_if_absent(&mut self, id: String, label: String)
        requires
            old(self).wf(),
        ensures
            final(self).wf(),
            final(self)@ == if old(self)@.contains_key(id@) {
                old(self)@
            } else {
                old(self)@.insert(id@, label@)
            },
    {
        if !self.contains(id.as_str()) {
            proof {
                lemma_map_of_pairs_domain(self.cache@);
            }
            let ghost before = self.cache@;
            self.cache.push((id, label));
            proof {
                assert(self.cache@.drop_last() =~= before);
            }
        }
    }

    /// The cached pairs, for a caller that walks or persists them.
    pub fn entries(&self) -> (r: &Vec<(String, String)>)
        ensures
            r@ == self.cache@,
    {
        &self.cache
    }

    /// Builds a cache from decoded pairs; on a repeated key the later
    /// pair wins, as re-reading the durable document would have it.
    pub fn from_entries(entries: &Vec<(String, String)>) -> (r: TagCache)
        ensures
            r.wf(),
            r@ == map_of_pairs(entries@),
    {
        let n = entries.len();
        let mut cache = TagCache::new();
        let mut i: usize = 0;
        while i < n
            invariant
                n == entries@.len(),
                i <= n,
                cache.wf(),
                cache@ == map_of_pairs(entries@.take(i as int)),
            decreases n - i,
        {
            let (id, label) = (&entries[i].0, &entries[i].1);
            cache.insert_or_replace(id.clone(), label.clone());
            proof {
                assert(entries@.take(i + 1).drop_last() =~= entries@.take(i as int));
                assert(entries@.take(i + 1).last() == entries@[i as int]);
            }
            i += 1;
        }
        proof {
            assert(entries@.take(n as int) =~= entries@);
        }
        cache
    }

    /// Inserts, overwriting the label if the key is already present.
    fn insert_or_replace(&mut self, id: String, label: String)
        requires
            old(self).wf(),
        ensures
            final(self).wf(),
            final(self)@ == old(self)@.insert(id@, label@),
    {
        let ghost before = self.cache@;
        match self.find(id.as_str()) {
            Some(i) => {
                self.cache.set(i, (id, label));
                proof {
                    lemma_update_at_key(before, self.cache@, i as int);
                }
            },
            None => {
                proof {
                    lemma_map_of_pairs_domain(before);
                }
                self.cache.push((id, label));
                proof {
                    assert(self.cache@.drop_last() =~= before);
                }
            },
        }
    }
}

proof fn lemma_update_at_key(before: Seq<(String, String)>, after: Seq<(String, String)>, i: int)
    requires
        unique_keys(before),
        0 <= i < before.len(),
        after.len() == before.len(),
        forall|j: int| 0 <= j < before.len() && j != i ==> after[j] == before[j],
        after[i].0@ == before[i].0@,
    ensures
        unique_keys(after),
        map_of_pairs(after) == map_of_pairs(before).insert(after[i].0@, after[i].1@),
    decreases before.len(),
{
    assert(unique_keys(after));
    if i == before.len() - 1 {
        assert(after.drop_last() =~= before.drop_last());
        assert(map_of_pairs(after) =~= map_of_pairs(before).insert(after[i].0@, after[i].1@));
    } else {
        assert(after.last() == before.last());
        assert(unique_keys(before.drop_last()));
        assert(after.drop_last()[i] == after[i]);
        lemma_update_at_key(before.drop_last(), after.drop_last(), i);
        lemma_map_of_pairs_domain(before.drop_last());
        assert(map_of_pairs(after) =~= map_of_pairs(before).insert(after[i].0@, after[i].1@));
    }
}

} // verus!
