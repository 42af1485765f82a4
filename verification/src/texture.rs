//! The texture cache: decoded images, one handle per path key.
//!
//! A handle is an integer token; the pixel data it stands for lives with
//! whatever renders it. The cache is an association list with distinct
//! keys, viewed as a map from path to handle, so that moving an entry to
//! a new key never touches the handle itself.
use vstd::prelude::*;

verus! {

/// The map that a sequence of (path, handle) pairs denotes; a later pair
/// with the same key would win, but the cache keeps its keys distinct.
pub open spec fn map_of(s: Seq<(String, u64)>) -> Map<Seq<char>, u64>
    decreases s.len(),
{
    if s.len() == 0 {
        Map::empty()
    } else {
        map_of(s.drop_last()).insert(s.last().0@, s.last().1)
    }
}

/// No two pairs share a key.
pub open spec fn keys_distinct(s: Seq<(String, u64)>) -> bool {
    forall|i: int, j: int|
        0 <= i < j < s.len() ==> (#[trigger] s[i]).0@ != (#[trigger] s[j]).0@
}

pub proof fn lemma_map_of_contains(s: Seq<(String, u64)>, k: Seq<char>)
    ensures
        map_of(s).contains_key(k) <==> exists|i: int| 0 <= i < s.len() && (#[trigger] s[i]).0@ == k,
    decreases s.len(),
{
    if s.len() > 0 {
        lemma_map_of_contains(s.drop_last(), k);
        if s.last().0@ == k {
            assert(s[s.len() - 1].0@ == k);
        } else if map_of(s).contains_key(k) {
            let i = choose|i: int| 0 <= i < s.drop_last().len() && (#[trigger] s.drop_last()[i]).0@ == k;
            assert(s[i].0@ == k);
        } else {
            assert(forall|i: int|
                0 <= i < s.drop_last().len() ==> (#[trigger] s.drop_last()[i]).0@ != k);
            assert(forall|i: int| 0 <= i < s.len() - 1 ==> (#[trigger] s[i]).0@ != k) by {
                assert(forall|i: int|
                    0 <= i < s.len() - 1 ==> (#[trigger] s[i]).0@ == s.drop_last()[i].0@);
            }
        }
    }
}

pub proof fn lemma_map_of_index(s: Seq<(String, u64)>, i: int)
    requires
        keys_distinct(s),
        0 <= i < s.len(),
    ensures
        map_of(s).contains_key(s[i].0@),
        map_of(s)[s[i].0@] == s[i].1,
    decreases s.len(),
{
    lemma_map_of_contains(s, s[i].0@);
    if i == s.len() - 1 {
    } else {
        assert(s.drop_last()[i] == s[i]);
        lemma_map_of_index(s.drop_last(), i);
        assert(s[i].0@ != s.last().0@);
    }
}

pub proof fn lemma_map_of_remove(s: Seq<(String, u64)>, i: int)
    requires
        keys_distinct(s),
        0 <= i < s.len(),
    ensures
        map_of(s.remove(i)) == map_of(s).remove(s[i].0@),
    decreases s.len(),
{
    let k = s[i].0@;
    if i == s.len() - 1 {
        assert(s.remove(i) =~= s.drop_last());
        lemma_map_of_contains(s.drop_last(), k);
        assert(forall|j: int|
            0 <= j < s.len() - 1 ==> (#[trigger] s.drop_last()[j]).0@ == s[j].0@);
        assert(!map_of(s.drop_last()).contains_key(k));
        assert(map_of(s.drop_last()) =~= map_of(s).remove(k));
    } else {
        assert(s.remove(i).drop_last() =~= s.drop_last().remove(i));
        assert(s.remove(i).last() == s.last());
        lemma_map_of_remove(s.drop_last(), i);
        assert(s.drop_last()[i] == s[i]);
        assert(k != s.last().0@);
        assert(map_of(s.remove(i)) =~= map_of(s).remove(k)) by {
            assert(map_of(s.remove(i)) == map_of(s.drop_last()).remove(k).insert(
                s.last().0@,
                s.last().1,
            ));
        }
    }
}

pub proof fn lemma_map_of_len(s: Seq<(String, u64)>)
    requires
        keys_distinct(s),
    ensures
        map_of(s).dom().len() == s.len(),
        map_of(s).dom().finite(),
    decreases s.len(),
{
    if s.len() > 0 {
        lemma_map_of_len(s.drop_last());
        lemma_map_of_contains(s.drop_last(), s.last().0@);
        assert(forall|j: int|
            0 <= j < s.len() - 1 ==> (#[trigger] s.drop_last()[j]).0@ == s[j].0@);
        assert(!map_of(s.drop_last()).contains_key(s.last().0@));
        assert(map_of(s).dom() =~= map_of(s.drop_last()).dom().insert(s.last().0@));
    }
}

/// Decoded textures, keyed by the path they were decoded for. A key moves
/// to the destination path when a move's animation completes, or back to
/// the source path on undo, without disturbing the handle.
pub struct TextureCache {
    entries: Vec<(String, u64)>,
}

impl View for TextureCache {
    type V = Map<Seq<char>, u64>;

    closed spec fn view(&self) -> Map<Seq<char>, u64> {
        map_of(self.entries@)
    }
}

impl TextureCache {
    /// The cache's keys never repeat.
    pub closed spec fn wf(self) -> bool {
        keys_distinct(self.entries@)
    }

    pub fn new() -> (r: TextureCache)
        ensures
            r.wf(),
            r@ == Map::<Seq<char>, u64>::empty(),
    {
        TextureCache { entries: Vec::new() }
    }

    fn find(&self, k: &String) -> (r: Option<usize>)
        ensures
            match r {
                Some(i) => i < self.entries@.len() && self.entries@[i as int].0@ == k@,
                None => forall|i: int|
                    0 <= i < self.entries@.len() ==> (#[trigger] self.entries@[i]).0@ != k@,
            },
    {
        let mut i: usize = 0;
        while i < self.entries.len()
            invariant
                i <= self.entries@.len(),
                forall|j: int| 0 <= j < i ==> (#[trigger] self.entries@[j]).0@ != k@,
            decreases self.entries@.len() - i,
        {
            if self.entries[i].0 == *k {
                return Some(i);
            }
            i = i + 1;
        }
        None
    }

    pub fn contains(&self, k: &String) -> (r: bool)
        ensures
            r == self@.contains_key(k@),
    {
        proof {
            lemma_map_of_contains(self.entries@, k@);
        }
        self.find(k).is_some()
    }

    /// The handle cached for a path, if one is.
    pub fn get(&self, k: &String) -> (r: Option<u64>)
        requires
            self.wf(),
        ensures
            match r {
                Some(v) => self@.contains_key(k@) && self@[k@] == v,
                None => !self@.contains_key(k@),
            },
    {
        proof {
            lemma_map_of_contains(self.entries@, k@);
        }
        match self.find(k) {
            Some(i) => {
                proof {
                    lemma_map_of_index(self.entries@, i as int);
                }
                Some(self.entries[i].1)
            },
            None => None,
        }
    }

    /// Caches a handle under a path, replacing whatever the path held.
    pub fn insert(&mut self, k: String, v: u64)
        requires
            old(self).wf(),
        ensures
            final(self).wf(),
            final(self)@ == old(self)@.insert(k@, v),
    {
        self.remove(&k);
        let ghost before = self.entries@;
        proof {
            lemma_map_of_contains(before, k@);
        }
        self.entries.push((k, v));
        proof {
            assert(self.entries@.drop_last() =~= before);
            assert(forall|i: int|
                0 <= i < before.len() ==> (#[trigger] before[i]).0@ != self.entries@.last().0@);
            assert(self.wf()) by {
                assert(forall|i: int, j: int|
                    0 <= i < j < self.entries@.len() && j < self.entries@.len() - 1
                        ==> (#[trigger] self.entries@[i]).0@ != (#[trigger] self.entries@[j]).0@)
                    by {
                    assert(forall|i: int|
                        0 <= i < before.len() ==> (#[trigger] self.entries@[i]) == before[i]);
                }
            }
        }
    }

    /// Drops a path's entry, handing back its handle.
    pub fn remove(&mut self, k: &String) -> (r: Option<u64>)
        requires
            old(self).wf(),
        ensures
            final(self).wf(),
            final(self)@ == old(self)@.remove(k@),
            match r {
                Some(v) => old(self)@.contains_key(k@) && old(self)@[k@] == v,
                None => !old(self)@.contains_key(k@) && final(self)@ == old(self)@,
            },
    {
        proof {
            lemma_map_of_contains(self.entries@, k@);
        }
        match self.find(k) {
            Some(i) => {
                proof {
                    lemma_map_of_index(self.entries@, i as int);
                    lemma_map_of_remove(self.entries@, i as int);
                }
                let ghost before = self.entries@;
                let (_, v) = self.entries.remove(i);
                proof {
                    assert(forall|a: int, b: int|
                        0 <= a < b < self.entries@.len() ==> (#[trigger] self.entries@[a]).0@
                            != (#[trigger] self.entries@[b]).0@) by {
                        assert(forall|a: int|
                            0 <= a < self.entries@.len() ==> (#[trigger] self.entries@[a]) == (
                            if a < i { before[a] } else { before[a + 1] }));
                    }
                }
                Some(v)
            },
            None => {
                proof {
                    assert(self@ =~= old(self)@.remove(k@));
                }
                None
            },
        }
    }

    /// Moves a cached handle from one path key to another; without an
    /// entry under `from` nothing changes.
    pub fn rekey(&mut self, from: &String, to: String)
        requires
            old(self).wf(),
        ensures
            final(self).wf(),
            old(self)@.contains_key(from@) ==> final(self)@ == old(self)@.remove(from@).insert(
                to@,
                old(self)@[from@],
            ),
            !old(self)@.contains_key(from@) ==> final(self)@ == old(self)@,
    {
        match self.remove(from) {
            Some(v) => self.insert(to, v),
            None => (),
        }
    }

    /// How many textures are cached.
    pub fn len(&self) -> (r: usize)
        requires
            self.wf(),
        ensures
            r == self@.dom().len(),
    {
        proof {
            lemma_map_of_len(self.entries@);
        }
        self.entries.len()
    }
}

} // verus!
