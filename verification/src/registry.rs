//! The cancellation registry: a map from the `(process_id, secret_key)`
//! pair a backend assigned to a live cancel handle for that session. A
//! session registers its handle before relaying bytes and deregisters it on
//! every exit path; an out-of-band cancel request looks its victim up here.

use vstd::prelude::*;

verus! {

/// The key under which a session's cancel handle is registered.
#[derive(Clone, Copy, Debug, Hash, PartialEq, Eq, Structural)]
pub struct CancelKey {
    pub process_id: i32,
    pub secret_key: i32,
}

/// The mapping an entry list denotes.
pub open spec fn reg_map<H>(s: Seq<(CancelKey, H)>) -> Map<CancelKey, H>
    decreases s.len(),
{
    if s.len() == 0 {
        Map::empty()
    } else {
        reg_map(s.drop_last()).insert(s.last().0, s.last().1)
    }
}

/// No key occurs twice.
pub open spec fn reg_unique<H>(s: Seq<(CancelKey, H)>) -> bool {
    forall|i: int, j: int| 0 <= i < j < s.len() ==> s[i].0 != s[j].0
}

/// What `reg_map` contains: a key is present exactly when some entry
/// carries it, and with unique keys each entry's handle is the one mapped.
pub proof fn lemma_reg_map<H>(s: Seq<(CancelKey, H)>)
    ensures
        forall|k: CancelKey| #[trigger] reg_map(s).contains_key(k) <==> exists|i: int|
            0 <= i < s.len() && s[i].0 == k,
        reg_unique(s) ==> forall|i: int| 0 <= i < s.len() ==> reg_map(s).contains_key(
            #[trigger] s[i].0,
        ) && reg_map(s)[s[i].0] == s[i].1,
    decreases s.len(),
{
    if s.len() > 0 {
        lemma_reg_map(s.drop_last());
        assert(reg_map(s) == reg_map(s.drop_last()).insert(s.last().0, s.last().1));
        assert forall|k: CancelKey| #[trigger] reg_map(s).contains_key(k) implies exists|i: int|
            0 <= i < s.len() && s[i].0 == k by {
            if k == s.last().0 {
                assert(0 <= s.len() - 1 < s.len() && s[s.len() - 1].0 == k);
            } else {
                assert(reg_map(s.drop_last()).contains_key(k));
                let i = choose|i: int| 0 <= i < s.drop_last().len() && s.drop_last()[i].0 == k;
                assert(s[i].0 == k);
            }
        }
        assert forall|k: CancelKey| (exists|i: int| 0 <= i < s.len() && s[i].0 == k)
            implies #[trigger] reg_map(s).contains_key(k) by {
            let i = choose|i: int| 0 <= i < s.len() && s[i].0 == k;
            if i < s.len() - 1 {
                assert(s.drop_last()[i].0 == k);
            }
        }
        if reg_unique(s) {
            assert forall|i: int| 0 <= i < s.len() implies reg_map(s).contains_key(
                #[trigger] s[i].0,
            ) && reg_map(s)[s[i].0] == s[i].1 by {
                if i < s.len() - 1 {
                    assert(s.drop_last()[i] == s[i]);
                    assert(s[i].0 != s.last().0);
                }
            }
        }
    }
}

/// `reg_map` after appending one entry.
pub proof fn lemma_reg_map_push<H>(s: Seq<(CancelKey, H)>, p: (CancelKey, H))
    ensures
        reg_map(s.push(p)) == reg_map(s).insert(p.0, p.1),
{
    assert(s.push(p).drop_last() =~= s);
    assert(s.push(p).last() == p);
}

/// The registry of live cancel handles, keyed by `CancelKey`. The lock that
/// guards it against concurrent sessions lives with the caller; the map
/// itself is plain data.
pub struct CancelRegistry<H> {
    entries: Vec<(CancelKey, H)>,
}

impl<H> CancelRegistry<H> {
    /// The entries, for specifications.
    pub closed spec fn spec_entries(self) -> Seq<(CancelKey, H)> {
        self.entries@
    }

    /// Keys are unique.
    pub open spec fn wf(self) -> bool {
        reg_unique(self.spec_entries())
    }

    /// The mapping from keys to live handles.
    pub open spec fn spec_map(self) -> Map<CancelKey, H> {
        reg_map(self.spec_entries())
    }

    /// An empty registry.
    pub fn new() -> (r: CancelRegistry<H>)
        ensures
            r.wf(),
            r.spec_map() == Map::<CancelKey, H>::empty(),
    {
        CancelRegistry { entries: Vec::new() }
    }

    /// Registers a handle under a key; on a collision the latest
    /// registration wins.
    pub fn register(&mut self, key: CancelKey, handle: H)
        requires
            old(self).wf(),
        ensures
            final(self).wf(),
            final(self).spec_map() == old(self).spec_map().insert(key, handle),
    {
        let ghost orig = self.entries@;
        let mut i: usize = 0;
        loop
            invariant_except_break
                i <= self.entries@.len(),
                self.entries@ == orig,
            invariant
                reg_unique(orig),
                forall|j: int| 0 <= j < i ==> orig[j].0 != key,
            ensures
                reg_unique(self.entries@),
                forall|j: int| 0 <= j < self.entries@.len() ==> self.entries@[j].0 != key,
                reg_map(self.entries@).insert(key, handle) == reg_map(orig).insert(key, handle),
            decreases self.entries@.len() - i,
        {
            if i == self.entries.len() {
                break ;
            }
            if self.entries[i].0.process_id == key.process_id && self.entries[i].0.secret_key
                == key.secret_key {
                let ghost removed = orig.remove(i as int);
                self.entries.remove(i);
                proof {
                    assert forall|a: int, b: int| 0 <= a < b < removed.len() implies removed[a].0
                        != removed[b].0 by {
                        let a2: int = if a < i { a } else { a + 1 };
                        let b2: int = if b < i { b } else { b + 1 };
                        assert(removed[a] == orig[a2] && removed[b] == orig[b2]);
                    }
                    assert forall|j: int| 0 <= j < removed.len() implies removed[j].0 != key by {
                        let j2: int = if j < i { j } else { j + 1 };
                        assert(removed[j] == orig[j2]);
                        assert(orig[i as int].0 == key);
                    }
                    lemma_reg_map(orig);
                    lemma_reg_map(removed);
                    assert(reg_map(removed).insert(key, handle) =~= reg_map(orig).insert(
                        key,
                        handle,
                    )) by {
                        assert forall|k: CancelKey|
                            reg_map(removed).contains_key(k) && k != key implies reg_map(
                            orig,
                        ).contains_key(k) && reg_map(orig)[k] == reg_map(removed)[k] by {
                            let j = choose|j: int| 0 <= j < removed.len() && removed[j].0 == k;
                            let j2: int = if j < i { j } else { j + 1 };
                            assert(orig[j2] == removed[j]);
                        }
                        assert forall|k: CancelKey|
                            reg_map(orig).contains_key(k) && k != key implies reg_map(
                            removed,
                        ).contains_key(k) && reg_map(removed)[k] == reg_map(orig)[k] by {
                            let j = choose|j: int| 0 <= j < orig.len() && orig[j].0 == k;
                            assert(j != i);
                            let j2: int = if j < i { j } else { j - 1 };
                            assert(removed[j2] == orig[j]);
                        }
                    }
                }
                break ;
            }
            i = i + 1;
        }
        let ghost before = self.entries@;
        let pair = (key, handle);
        let ghost p = pair;
        self.entries.push(pair);
        proof {
            lemma_reg_map_push(before, p);
            assert forall|a: int, b: int| 0 <= a < b < self.entries@.len() implies self.entries@[a].0
                != self.entries@[b].0 by {
                if b < before.len() {
                    assert(reg_unique(before));
                } else {
                    assert(self.entries@[b].0 == key);
                }
            }
        }
    }

    /// Removes the registration of a key, if any: afterwards the registry
    /// does not contain the key.
    pub fn deregister(&mut self, key: CancelKey)
        requires
            old(self).wf(),
        ensures
            final(self).wf(),
            final(self).spec_map() == old(self).spec_map().remove(key),
            !final(self).spec_map().contains_key(key),
    {
        let ghost orig = self.entries@;
        let mut i: usize = 0;
        loop
            invariant_except_break
                i <= self.entries@.len(),
                self.entries@ == orig,
            invariant
                reg_unique(orig),
                forall|j: int| 0 <= j < i ==> orig[j].0 != key,
            ensures
                reg_unique(self.entries@),
                forall|j: int| 0 <= j < self.entries@.len() ==> self.entries@[j].0 != key,
                reg_map(self.entries@) == reg_map(orig).remove(key),
            decreases self.entries@.len() - i,
        {
            if i == self.entries.len() {
                proof {
                    lemma_reg_map(orig);
                    assert(reg_map(orig) =~= reg_map(orig).remove(key));
                }
                break ;
            }
            if self.entries[i].0.process_id == key.process_id && self.entries[i].0.secret_key
                == key.secret_key {
                let ghost removed = orig.remove(i as int);
                self.entries.remove(i);
                proof {
                    assert forall|a: int, b: int| 0 <= a < b < removed.len() implies removed[a].0
                        != removed[b].0 by {
                        let a2: int = if a < i { a } else { a + 1 };
                        let b2: int = if b < i { b } else { b + 1 };
                        assert(removed[a] == orig[a2] && removed[b] == orig[b2]);
                    }
                    assert forall|j: int| 0 <= j < removed.len() implies removed[j].0 != key by {
                        let j2: int = if j < i { j } else { j + 1 };
                        assert(removed[j] == orig[j2]);
                        assert(orig[i as int].0 == key);
                    }
                    lemma_reg_map(orig);
                    lemma_reg_map(removed);
                    assert(reg_map(removed) =~= reg_map(orig).remove(key)) by {
                        assert forall|k: CancelKey|
                            reg_map(removed).contains_key(k) implies reg_map(orig).contains_key(
                            k,
                        ) && k != key && reg_map(orig)[k] == reg_map(removed)[k] by {
                            let j = choose|j: int| 0 <= j < removed.len() && removed[j].0 == k;
                            let j2: int = if j < i { j } else { j + 1 };
                            assert(orig[j2] == removed[j]);
                        }
                        assert forall|k: CancelKey|
                            reg_map(orig).contains_key(k) && k != key implies reg_map(
                            removed,
                        ).contains_key(k) && reg_map(removed)[k] == reg_map(orig)[k] by {
                            let j = choose|j: int| 0 <= j < orig.len() && orig[j].0 == k;
                            assert(j != i);
                            let j2: int = if j < i { j } else { j - 1 };
                            assert(removed[j2] == orig[j]);
                        }
                    }
                }
                break ;
            }
            i = i + 1;
        }
        proof {
            lemma_reg_map(self.entries@);
            if reg_map(self.entries@).contains_key(key) {
                let j = choose|j: int|
                    0 <= j < self.entries@.len() && self.entries@[j].0 == key;
            }
        }
    }

    /// Looks a key up, returning a reference to the live handle if one is
    /// registered; an absent key yields nothing and has no effect.
    pub fn lookup<'a>(&'a self, key: CancelKey) -> (r: Option<&'a H>)
        requires
            self.wf(),
        ensures
            match r {
                Some(h) => self.spec_map().contains_key(key) && *h == self.spec_map()[key],
                None => !self.spec_map().contains_key(key),
            },
    {
        let mut i: usize = 0;
        while i < self.entries.len()
            invariant
                i <= self.entries@.len(),
                self.wf(),
                forall|j: int| 0 <= j < i ==> self.entries@[j].0 != key,
            decreases self.entries@.len() - i,
        {
            if self.entries[i].0.process_id == key.process_id && self.entries[i].0.secret_key
                == key.secret_key {
                proof {
                    lemma_reg_map(self.entries@);
                    assert(self.entries@[i as int].0 == key);
                }
                return Some(&self.entries[i].1);
            }
            i = i + 1;
        }
        proof {
            lemma_reg_map(self.entries@);
            if self.spec_map().contains_key(key) {
                let j = choose|j: int|
                    0 <= j < self.entries@.len() && self.entries@[j].0 == key;
            }
        }
        None
    }
}

} // verus!
