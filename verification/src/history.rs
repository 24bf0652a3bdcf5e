//! Persistent tangential-contact memory.
//!
//! Each destination particle `i` keeps, for every source particle it is
//! currently overlapping, the accumulated tangential spring vector of that
//! contact.  The record is a sparse mapping keyed by the composite
//! `(destination particle, source entity id, source particle)`; absence of a
//! key means the pair has no unresolved contact.

use vstd::prelude::*;

verus! {

/// One stored contact: the spring vector `(sx, sy)` for the contact of
/// destination particle `owner` with particle `nbr` of entity `ent`.
#[derive(Clone, Copy)]
pub struct TangEntry {
    pub owner: usize,
    pub ent: usize,
    pub nbr: usize,
    pub sx: i64,
    pub sy: i64,
}

impl TangEntry {
    pub open spec fn key(self) -> (usize, usize, usize) {
        (self.owner, self.ent, self.nbr)
    }

    pub open spec fn val(self) -> (i64, i64) {
        (self.sx, self.sy)
    }
}

/// The mapping an entry sequence stands for; later entries win.
pub open spec fn map_of(s: Seq<TangEntry>) -> Map<(usize, usize, usize), (i64, i64)>
    decreases s.len(),
{
    if s.len() == 0 {
        Map::empty()
    } else {
        map_of(s.drop_last()).insert(s.last().key(), s.last().val())
    }
}

/// No two entries share a key.
pub open spec fn keys_distinct(s: Seq<TangEntry>) -> bool {
    forall|i: int, j: int| 0 <= i < j < s.len() ==> s[i].key() != s[j].key()
}

/// A key is in the mapping exactly when some entry carries it.
pub proof fn lemma_map_of_dom(s: Seq<TangEntry>, k: (usize, usize, usize))
    ensures
        map_of(s).dom().contains(k) <==> exists|i: int| 0 <= i < s.len() && s[i].key() == k,
    decreases s.len(),
{
    if s.len() > 0 {
        lemma_map_of_dom(s.drop_last(), k);
        if s.last().key() == k {
            assert(s[s.len() - 1].key() == k);
        } else {
            if map_of(s).dom().contains(k) {
                let i = choose|i: int| 0 <= i < s.drop_last().len() && s.drop_last()[i].key() == k;
                assert(s[i].key() == k);
            }
            if exists|i: int| 0 <= i < s.len() && s[i].key() == k {
                let i = choose|i: int| 0 <= i < s.len() && s[i].key() == k;
                assert(i < s.len() - 1);
                assert(s.drop_last()[i].key() == k);
            }
        }
    }
}

/// With distinct keys, the mapping sends each entry's key to its value.
pub proof fn lemma_map_of_get(s: Seq<TangEntry>, i: int)
    requires
        keys_distinct(s),
        0 <= i < s.len(),
    ensures
        map_of(s).dom().contains(s[i].key()),
        map_of(s)[s[i].key()] == s[i].val(),
    decreases s.len(),
{
    if i == s.len() - 1 {
    } else {
        assert(s.drop_last()[i] == s[i]);
        lemma_map_of_get(s.drop_last(), i);
        assert(s[i].key() != s.last().key());
    }
}

/// Updating the entry that carries a key updates the mapping at that key.
pub proof fn lemma_map_of_update(s: Seq<TangEntry>, i: int, e: TangEntry)
    requires
        keys_distinct(s),
        0 <= i < s.len(),
        e.key() == s[i].key(),
    ensures
        map_of(s.update(i, e)) =~= map_of(s).insert(e.key(), e.val()),
    decreases s.len(),
{
    let t = s.update(i, e);
    if i == s.len() - 1 {
        assert(t.drop_last() =~= s.drop_last());
        assert(t.last() == e);
    } else {
        assert(t.drop_last() =~= s.drop_last().update(i, e));
        assert(s.drop_last()[i] == s[i]);
        lemma_map_of_update(s.drop_last(), i, e);
        assert(t.last() == s.last());
        assert(s[i].key() != s.last().key());
    }
}

/// Removing the entry that carries a key removes the key from the mapping.
pub proof fn lemma_map_of_remove(s: Seq<TangEntry>, i: int)
    requires
        keys_distinct(s),
        0 <= i < s.len(),
    ensures
        map_of(s.remove(i)) =~= map_of(s).remove(s[i].key()),
    decreases s.len(),
{
    let k = s[i].key();
    let t = s.remove(i);
    if i == s.len() - 1 {
        assert(t =~= s.drop_last());
        lemma_map_of_dom(s.drop_last(), k);
        assert(forall|j: int| 0 <= j < s.drop_last().len() ==> s.drop_last()[j] == s[j]);
        assert(!map_of(s.drop_last()).dom().contains(k));
    } else {
        assert(t.drop_last() =~= s.drop_last().remove(i));
        assert(s.drop_last()[i] == s[i]);
        lemma_map_of_remove(s.drop_last(), i);
        assert(t.last() == s.last());
        assert(s[i].key() != s.last().key());
    }
}

/// Sparse tangential-spring store for one particle group.
pub struct TangHistory {
    entries: Vec<TangEntry>,
}

impl View for TangHistory {
    type V = Map<(usize, usize, usize), (i64, i64)>;

    closed spec fn view(&self) -> Map<(usize, usize, usize), (i64, i64)> {
        map_of(self.entries@)
    }
}

impl TangHistory {
    /// Internal invariant: each contact is recorded at most once.
    pub closed spec fn wf(&self) -> bool {
        keys_distinct(self.entries@)
    }

    /// An empty history.
    pub fn new() -> (r: TangHistory)
        ensures
            r.wf(),
            r@ == Map::<(usize, usize, usize), (i64, i64)>::empty(),
    {
        TangHistory { entries: Vec::new() }
    }

    /// The stored spring for contact `(owner, ent, nbr)`, if the contact is
    /// live.
    pub fn get(&self, owner: usize, ent: usize, nbr: usize) -> (r: Option<(i64, i64)>)
        requires
            self.wf(),
        ensures
            match r {
                Some(v) => self@.dom().contains((owner, ent, nbr))
                    && self@[(owner, ent, nbr)] == v,
                None => !self@.dom().contains((owner, ent, nbr)),
            },
    {
        let ghost k = (owner, ent, nbr);
        let mut idx: usize = 0;
        while idx < self.entries.len()
            invariant
                self.wf(),
                0 <= idx <= self.entries.len(),
                forall|m: int| 0 <= m < idx ==> self.entries@[m].key() != (owner, ent, nbr),
            decreases self.entries.len() - idx,
        {
            let e = self.entries[idx];
            if e.owner == owner && e.ent == ent && e.nbr == nbr {
                proof {
                    lemma_map_of_get(self.entries@, idx as int);
                }
                return Some((e.sx, e.sy));
            }
            idx = idx + 1;
        }
        proof {
            lemma_map_of_dom(self.entries@, k);
        }
        None
    }

    /// Record (or replace) the spring for contact `(owner, ent, nbr)`.
    pub fn insert(&mut self, owner: usize, ent: usize, nbr: usize, sx: i64, sy: i64)
        requires
            old(self).wf(),
        ensures
            final(self).wf(),
            final(self)@ == old(self)@.insert((owner, ent, nbr), (sx, sy)),
    {
        let e = TangEntry { owner, ent, nbr, sx, sy };
        let mut idx: usize = 0;
        while idx < self.entries.len()
            invariant
                0 <= idx <= self.entries.len(),
                forall|m: int| 0 <= m < idx ==> self.entries@[m].key() != (owner, ent, nbr),
                self.wf(),
                self == old(self),
                e == (TangEntry { owner, ent, nbr, sx, sy }),
            decreases self.entries.len() - idx,
        {
            let c = self.entries[idx];
            if c.owner == owner && c.ent == ent && c.nbr == nbr {
                proof {
                    assert(self.entries@[idx as int].key() == (owner, ent, nbr));
                    assert(e.key() == (owner, ent, nbr));
                    lemma_map_of_update(self.entries@, idx as int, e);
                }
                self.entries.set(idx, e);
                proof {
                    assert forall|a: int, b: int| 0 <= a < b < self.entries@.len()
                        implies self.entries@[a].key() != self.entries@[b].key() by {
                        assert(old(self).entries@[a].key() != old(self).entries@[b].key());
                    }
                }
                assert(self@ =~= old(self)@.insert((owner, ent, nbr), (sx, sy)));
                return;
            }
            idx = idx + 1;
        }
        proof {
            lemma_map_of_dom(self.entries@, (owner, ent, nbr));
        }
        self.entries.push(e);
        proof {
            assert(self.entries@.drop_last() =~= old(self).entries@);
            assert forall|i: int, j: int| 0 <= i < j < self.entries@.len()
                implies self.entries@[i].key() != self.entries@[j].key() by {
                if j < self.entries@.len() - 1 {
                    assert(old(self).entries@[i].key() != old(self).entries@[j].key());
                } else {
                    assert(old(self).entries@[i].key() != e.key());
                }
            }
        }
        assert(self@ =~= old(self)@.insert((owner, ent, nbr), (sx, sy)));
    }

    /// Forget the contact `(owner, ent, nbr)`; no effect when it is not live.
    pub fn remove(&mut self, owner: usize, ent: usize, nbr: usize)
        requires
            old(self).wf(),
        ensures
            final(self).wf(),
            final(self)@ == old(self)@.remove((owner, ent, nbr)),
    {
        let mut idx: usize = 0;
        while idx < self.entries.len()
            invariant
                0 <= idx <= self.entries.len(),
                forall|m: int| 0 <= m < idx ==> self.entries@[m].key() != (owner, ent, nbr),
                self.wf(),
                self == old(self),
            decreases self.entries.len() - idx,
        {
            let c = self.entries[idx];
            if c.owner == owner && c.ent == ent && c.nbr == nbr {
                proof {
                    assert(self.entries@[idx as int].key() == (owner, ent, nbr));
                    lemma_map_of_remove(self.entries@, idx as int);
                }
                self.entries.remove(idx);
                proof {
                    assert forall|a: int, b: int| 0 <= a < b < self.entries@.len()
                        implies self.entries@[a].key() != self.entries@[b].key() by {
                        let oa: int = if a < idx { a } else { a + 1 };
                        let ob: int = if b < idx { b } else { b + 1 };
                        assert(old(self).entries@[oa].key() != old(self).entries@[ob].key());
                    }
                }
                assert(self@ =~= old(self)@.remove((owner, ent, nbr)));
                return;
            }
            idx = idx + 1;
        }
        proof {
            lemma_map_of_dom(self.entries@, (owner, ent, nbr));
            assert(self@ =~= self@.remove((owner, ent, nbr)));
        }
    }
}

}
