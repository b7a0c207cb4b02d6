use vstd::prelude::*;

verus! {

/// The history that results from inserting `c` into a cache holding `h`
/// with room for `cap` entries: the oldest entry goes when the cache is full.
pub open spec fn after_insert(h: Seq<Seq<u8>>, cap: nat, c: Seq<u8>) -> Seq<Seq<u8>> {
    if h.len() >= cap {
        h.drop_first().push(c)
    } else {
        h.push(c)
    }
}

/// A bounded history of recent chunks, oldest first.
pub struct RollingCache {
    entries: Vec<Vec<u8>>,
    capacity: usize,
}

impl RollingCache {
    /// The retained chunks, oldest first.
    pub closed spec fn history(&self) -> Seq<Seq<u8>> {
        self.entries@.map_values(|e: Vec<u8>| e@)
    }

    /// How many chunks the cache retains at most.
    pub closed spec fn cap(&self) -> nat {
        self.capacity as nat
    }

    pub closed spec fn wf(&self) -> bool {
        1 <= self.capacity && self.entries.len() <= self.capacity
    }

    /// An empty cache retaining at most `capacity` chunks.
    pub fn with_capacity(capacity: usize) -> (r: Self)
        requires
            capacity >= 1,
        ensures
            r.wf(),
            r.cap() == capacity,
            r.history() == Seq::<Seq<u8>>::empty(),
    {
        let r = RollingCache { entries: Vec::new(), capacity };
        proof {
            assert(r.history() =~= Seq::<Seq<u8>>::empty());
        }
        r
    }

    /// Number of retained chunks.
    pub fn len(&self) -> (n: usize)
        ensures
            n == self.history().len(),
    {
        self.entries.len()
    }

    /// Records `chunk` as the newest entry, evicting the oldest when full.
    pub fn insert(&mut self, chunk: &Vec<u8>)
        requires
            old(self).wf(),
        ensures
            final(self).wf(),
            final(self).cap() == old(self).cap(),
            final(self).history() == after_insert(old(self).history(), old(self).cap(), chunk@),
    {
        let ghost h = self.history();
        let mut copy: Vec<u8> = chunk.clone();
        proof {
            assert(copy@ =~= chunk@);
        }
        if self.entries.len() >= self.capacity {
            self.entries.remove(0);
            self.entries.push(copy);
            proof {
                assert(self.history() =~= h.drop_first().push(chunk@));
            }
        } else {
            self.entries.push(copy);
            proof {
                assert(self.history() =~= h.push(chunk@));
            }
        }
    }

    /// The retained chunks concatenated, oldest first.
    pub fn window(&self) -> (r: Vec<u8>)
        ensures
            r@ == self.history().flatten(),
    {
        let mut r: Vec<u8> = Vec::new();
        let mut i: usize = 0;
        proof {
            assert(self.history().take(0) =~= Seq::<Seq<u8>>::empty());
        }
        while i < self.entries.len()
            invariant
                i <= self.entries.len(),
                r@ == self.history().take(i as int).flatten(),
            decreases self.entries.len() - i,
        {
            let mut e: Vec<u8> = self.entries[i].clone();
            proof {
                assert(e@ =~= self.entries@[i as int]@);
                assert(self.history().take(i + 1) =~= self.history().take(i as int).push(e@));
                self.history().take(i as int).lemma_flatten_push(e@);
            }
            r.append(&mut e);
            i = i + 1;
        }
        proof {
            assert(self.history().take(i as int) =~= self.history());
        }
        r
    }
}

/// Two chunks inserted one after the other into a cache that retains at least
/// two entries both stand, in order, at the end of its window: a prompt split
/// between them can still be read there.
pub proof fn lemma_window_keeps_last_two(h: Seq<Seq<u8>>, cap: nat, c1: Seq<u8>, c2: Seq<u8>)
    requires
        cap >= 2,
        h.len() <= cap,
    ensures
        (c1 + c2).is_suffix_of(after_insert(after_insert(h, cap, c1), cap, c2).flatten()),
{
    let h1 = after_insert(h, cap, c1);
    let h2 = after_insert(h1, cap, c2);
    let rest = h2.drop_last().drop_last();
    assert(h1.len() >= 1 && h1.last() == c1);
    assert(h2.len() >= 2);
    assert(h2 =~= rest.push(c1).push(c2));
    rest.lemma_flatten_push(c1);
    rest.push(c1).lemma_flatten_push(c2);
    let f = h2.flatten();
    assert(f =~= rest.flatten() + c1 + c2);
    assert((c1 + c2) =~= f.subrange(f.len() - (c1 + c2).len(), f.len() as int));
}

} // verus!
