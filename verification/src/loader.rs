//! The loader pool's bookkeeping: which decode requests are in flight.
//!
//! The decoding itself is outside work performed by whoever drives the
//! library; this type decides what to schedule, and never schedules a
//! path twice while it is pending or already cached.
use vstd::prelude::*;
use crate::texture::TextureCache;

verus! {

/// The set of views of a sequence of strings.
pub open spec fn view_set(s: Seq<String>) -> Set<Seq<char>> {
    Set::new(|k: Seq<char>| exists|i: int| 0 <= i < s.len() && (#[trigger] s[i])@ == k)
}

/// No two strings of the sequence read the same.
pub open spec fn distinct_views(s: Seq<String>) -> bool {
    forall|i: int, j: int| 0 <= i < j < s.len() ==> (#[trigger] s[i])@ != (#[trigger] s[j])@
}

pub proof fn lemma_view_set_push(s: Seq<String>, x: String)
    ensures
        view_set(s.push(x)) == view_set(s).insert(x@),
{
    assert forall|k: Seq<char>| view_set(s.push(x)).contains(k) implies view_set(s).insert(
        x@,
    ).contains(k) by {
        let i = choose|i: int| 0 <= i < s.push(x).len() && (#[trigger] s.push(x)[i])@ == k;
        if i < s.len() {
            assert(s[i]@ == k);
        }
    }
    assert forall|k: Seq<char>| view_set(s).insert(x@).contains(k) implies view_set(
        s.push(x),
    ).contains(k) by {
        if k == x@ {
            assert(s.push(x)[s.len() as int]@ == k);
        } else {
            let i = choose|i: int| 0 <= i < s.len() && (#[trigger] s[i])@ == k;
            assert(s.push(x)[i]@ == k);
        }
    }
    assert(view_set(s.push(x)) =~= view_set(s).insert(x@));
}

pub proof fn lemma_view_set_remove(s: Seq<String>, i: int)
    requires
        distinct_views(s),
        0 <= i < s.len(),
    ensures
        view_set(s.remove(i)) == view_set(s).remove(s[i]@),
{
    let t = s.remove(i);
    assert forall|k: Seq<char>| view_set(t).contains(k) implies view_set(s).remove(
        s[i]@,
    ).contains(k) by {
        let j = choose|j: int| 0 <= j < t.len() && (#[trigger] t[j])@ == k;
        if j < i {
            assert(s[j]@ == k);
        } else {
            assert(s[j + 1]@ == k);
        }
    }
    assert forall|k: Seq<char>| view_set(s).remove(s[i]@).contains(k) implies view_set(t).contains(
        k,
    ) by {
        let j = choose|j: int| 0 <= j < s.len() && (#[trigger] s[j])@ == k;
        if j < i {
            assert(t[j]@ == k);
        } else {
            assert(t[j - 1]@ == k);
        }
    }
    assert(view_set(t) =~= view_set(s).remove(s[i]@));
}

pub proof fn lemma_view_set_len(s: Seq<String>)
    requires
        distinct_views(s),
    ensures
        view_set(s).len() == s.len(),
        view_set(s).finite(),
    decreases s.len(),
{
    if s.len() == 0 {
        assert(view_set(s) =~= Set::<Seq<char>>::empty());
    } else {
        let head = s.drop_last();
        lemma_view_set_len(head);
        assert(forall|i: int| 0 <= i < head.len() ==> (#[trigger] head[i]) == s[i]);
        assert(!view_set(head).contains(s.last()@));
        assert forall|k: Seq<char>| view_set(s).contains(k) implies view_set(head).insert(
            s.last()@,
        ).contains(k) by {
            let i = choose|i: int| 0 <= i < s.len() && (#[trigger] s[i])@ == k;
            if i < s.len() - 1 {
                assert(head[i]@ == k);
            }
        }
        assert forall|k: Seq<char>| view_set(head).insert(s.last()@).contains(k) implies view_set(
            s,
        ).contains(k) by {
            if k == s.last()@ {
                assert(s[s.len() - 1]@ == k);
            } else {
                let i = choose|i: int| 0 <= i < head.len() && (#[trigger] head[i])@ == k;
                assert(s[i]@ == k);
            }
        }
        assert(view_set(s) =~= view_set(head).insert(s.last()@));
    }
}

/// Requests handed out for decoding whose results have not come back yet.
pub struct LoaderPool {
    pending: Vec<String>,
}

impl LoaderPool {
    /// The paths currently pending, as a set.
    pub closed spec fn pending_set(self) -> Set<Seq<char>> {
        view_set(self.pending@)
    }

    /// No path is pending twice.
    pub closed spec fn wf(self) -> bool {
        distinct_views(self.pending@)
    }

    pub fn new() -> (r: LoaderPool)
        ensures
            r.wf(),
            r.pending_set() == Set::<Seq<char>>::empty(),
    {
        let r = LoaderPool { pending: Vec::new() };
        proof {
            assert(r.pending_set() =~= Set::<Seq<char>>::empty());
        }
        r
    }

    fn find(&self, p: &String) -> (r: Option<usize>)
        ensures
            match r {
                Some(i) => i < self.pending@.len() && self.pending@[i as int]@ == p@,
                None => forall|i: int|
                    0 <= i < self.pending@.len() ==> (#[trigger] self.pending@[i])@ != p@,
            },
    {
        let mut i: usize = 0;
        while i < self.pending.len()
            invariant
                i <= self.pending@.len(),
                forall|j: int| 0 <= j < i ==> (#[trigger] self.pending@[j])@ != p@,
            decreases self.pending@.len() - i,
        {
            if self.pending[i] == *p {
                return Some(i);
            }
            i = i + 1;
        }
        None
    }

    pub fn is_pending(&self, p: &String) -> (r: bool)
        ensures
            r == self.pending_set().contains(p@),
    {
        self.find(p).is_some()
    }

    /// Asks for a decode of `p`. Returns whether work is to be scheduled:
    /// a path already cached or already pending produces no new work item,
    /// and leaves the pool as it was.
    pub fn request(&mut self, cache: &TextureCache, p: &String) -> (scheduled: bool)
        requires
            old(self).wf(),
        ensures
            final(self).wf(),
            scheduled == (!cache@.contains_key(p@) && !old(self).pending_set().contains(p@)),
            scheduled ==> final(self).pending_set() == old(self).pending_set().insert(p@),
            !scheduled ==> *final(self) == *old(self),
    {
        if cache.contains(p) || self.is_pending(p) {
            return false;
        }
        let ghost before = self.pending@;
        self.pending.push(p.clone());
        proof {
            assert(self.pending@ == before.push(self.pending@.last()));
            lemma_view_set_push(before, self.pending@.last());
            assert(forall|i: int|
                0 <= i < before.len() ==> (#[trigger] self.pending@[i]) == before[i]);
        }
        true
    }

    /// Records that a decode for `p` came back (or never will), clearing
    /// its pending marker.
    pub fn complete(&mut self, p: &String)
        requires
            old(self).wf(),
        ensures
            final(self).wf(),
            final(self).pending_set() == old(self).pending_set().remove(p@),
    {
        let ghost before = self.pending@;
        match self.find(p) {
            Some(i) => {
                self.pending.remove(i);
                proof {
                    lemma_view_set_remove(before, i as int);
                    assert(forall|a: int|
                        0 <= a < self.pending@.len() ==> (#[trigger] self.pending@[a]) == (
                        if a < i { before[a] } else { before[a + 1] }));
                }
            },
            None => {
                proof {
                    assert(!self.pending_set().contains(p@));
                    assert(self.pending_set() =~= self.pending_set().remove(p@));
                }
            },
        }
    }

    /// How many decodes are still in flight.
    pub fn pending_count(&self) -> (r: usize)
        requires
            self.wf(),
        ensures
            r == self.pending_set().len(),
    {
        proof {
            lemma_view_set_len(self.pending@);
        }
        self.pending.len()
    }
}

} // verus!
