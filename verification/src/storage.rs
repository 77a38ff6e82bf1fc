//! The in-memory key-value back end.
//!
//! One back end holds a string store, a string-list store, and a logical
//! clock.  The two stores are hash maps; beside each map a vector remembers
//! the keys in the order they first appeared, so that key enumeration is
//! possible and deterministic.

use vstd::prelude::*;
use vstd::hash_map::StringHashMap;
use crate::strutil::{clone_vec_str, dvs, eq_str, str_ends_with, str_starts_with};

verus! {

/// A key together with the value to write under it.
pub struct KeyValue {
    pub key: String,
    pub value: String,
}

/// A prefix / suffix pair that selects keys.
pub struct Pattern {
    pub prefix: String,
    pub suffix: String,
}

/// Whether a key falls under a pattern.
pub open spec fn pat_match(prefix: Seq<char>, suffix: Seq<char>, k: Seq<char>) -> bool {
    prefix.is_prefix_of(k) && suffix.is_suffix_of(k)
}

/// Keeps everything that does not read `v`.
pub open spec fn ne_val(v: Seq<char>) -> spec_fn(Seq<char>) -> bool {
    |e: Seq<char>| e != v
}

/// Whether some string in the sequence reads `k`.
pub open spec fn seq_has_str(v: Seq<String>, k: Seq<char>) -> bool {
    exists|i: int| 0 <= i < v.len() && v[i]@ == k
}

/// One back end.
pub struct MemStorage {
    kv: StringHashMap<String>,
    kv_keys: Vec<String>,
    lists: StringHashMap<Vec<String>>,
    list_names: Vec<String>,
    clock_val: u64,
}

impl MemStorage {
    /// The value stored under `k`, if any.
    pub closed spec fn spec_get(self, k: Seq<char>) -> Option<Seq<char>> {
        if self.kv@.contains_key(k) {
            Some(self.kv@[k]@)
        } else {
            None
        }
    }

    /// The list stored under `k`; an absent list reads as empty.
    pub closed spec fn spec_list(self, k: Seq<char>) -> Seq<Seq<char>> {
        if self.lists@.contains_key(k) {
            dvs(self.lists@[k]@)
        } else {
            Seq::empty()
        }
    }

    /// The current logical clock value.
    pub closed spec fn spec_clock(self) -> u64 {
        self.clock_val
    }

    /// The internal key vectors track the maps: distinct keys, exactly the
    /// keys of the maps.
    pub closed spec fn wf(self) -> bool {
        &&& forall|i: int, j: int|
            #![trigger self.kv_keys@[i]@, self.kv_keys@[j]@]
            0 <= i < j < self.kv_keys@.len() ==> self.kv_keys@[i]@ != self.kv_keys@[j]@
        &&& forall|i: int|
            0 <= i < self.kv_keys@.len() ==> self.kv@.contains_key(#[trigger] self.kv_keys@[i]@)
        &&& forall|k: Seq<char>|
            #[trigger] self.kv@.contains_key(k) ==> seq_has_str(self.kv_keys@, k)
        &&& forall|i: int, j: int|
            #![trigger self.list_names@[i]@, self.list_names@[j]@]
            0 <= i < j < self.list_names@.len() ==> self.list_names@[i]@ != self.list_names@[j]@
        &&& forall|i: int|
            0 <= i < self.list_names@.len() ==> self.lists@.contains_key(
                #[trigger] self.list_names@[i]@,
            )
        &&& forall|k: Seq<char>|
            #[trigger] self.lists@.contains_key(k) ==> seq_has_str(self.list_names@, k)
    }

    /// A fresh back end: nothing stored, clock at zero.
    pub fn new() -> (r: Self)
        ensures
            r.wf(),
            r.spec_clock() == 0,
            forall|k: Seq<char>| #[trigger] r.spec_get(k) is None,
            forall|k: Seq<char>| #[trigger] r.spec_list(k) == Seq::<Seq<char>>::empty(),
    {
        MemStorage {
            kv: StringHashMap::new(),
            kv_keys: Vec::new(),
            lists: StringHashMap::new(),
            list_names: Vec::new(),
            clock_val: 0,
        }
    }

    /// Reads the value under `key`.
    pub fn get(&self, key: &str) -> (r: Option<String>)
        ensures
            match r {
                Some(v) => self.spec_get(key@) == Some(v@),
                None => self.spec_get(key@) is None,
            },
    {
        match self.kv.get(key) {
            Some(v) => Some(v.clone()),
            None => None,
        }
    }

    /// Writes `value` under `key`, creating or replacing it.
    pub fn set(&mut self, kv: &KeyValue) -> (r: bool)
        requires
            old(self).wf(),
        ensures
            final(self).wf(),
            r == true,
            final(self).spec_get(kv.key@) == Some(kv.value@),
            forall|k: Seq<char>|
                k != kv.key@ ==> #[trigger] final(self).spec_get(k) == old(self).spec_get(k),
            forall|k: Seq<char>| #[trigger] final(self).spec_list(k) == old(self).spec_list(k),
            final(self).spec_clock() == old(self).spec_clock(),
    {
        if !self.kv.contains_key(kv.key.as_str()) {
            self.kv_keys.push(kv.key.clone());
        }
        self.kv.insert(kv.key.clone(), kv.value.clone());
        proof {
            assert forall|k: Seq<char>| #[trigger]
                self.kv@.contains_key(k) implies seq_has_str(self.kv_keys@, k) by {
                if k != kv.key@ {
                    assert(seq_has_str(old(self).kv_keys@, k));
                    let i = choose|i: int|
                        0 <= i < old(self).kv_keys@.len() && old(self).kv_keys@[i]@ == k;
                    assert(self.kv_keys@[i]@ == k);
                } else {
                    if old(self).kv@.contains_key(k) {
                        assert(seq_has_str(old(self).kv_keys@, k));
                        let i = choose|i: int|
                            0 <= i < old(self).kv_keys@.len() && old(self).kv_keys@[i]@ == k;
                        assert(self.kv_keys@[i]@ == k);
                    } else {
                        assert(self.kv_keys@[self.kv_keys@.len() - 1]@ == k);
                    }
                }
            }
        }
        true
    }

    /// Every stored key under the pattern, each exactly once.
    pub fn keys(&self, p: &Pattern) -> (r: Vec<String>)
        requires
            self.wf(),
        ensures
            forall|i: int, j: int|
                #![trigger r@[i]@, r@[j]@]
                0 <= i < j < r@.len() ==> r@[i]@ != r@[j]@,
            forall|k: Seq<char>|
                #[trigger] seq_has_str(r@, k) <==> (self.spec_get(k) is Some && pat_match(
                    p.prefix@,
                    p.suffix@,
                    k,
                )),
    {
        let mut r: Vec<String> = Vec::new();
        let mut i: usize = 0;
        while i < self.kv_keys.len()
            invariant
                self.wf(),
                i <= self.kv_keys@.len(),
                forall|a: int, b: int|
                    #![trigger r@[a]@, r@[b]@]
                    0 <= a < b < r@.len() ==> r@[a]@ != r@[b]@,
                forall|a: int|
                    0 <= a < r@.len() ==> exists|b: int|
                        0 <= b < i && #[trigger] r@[a]@ == self.kv_keys@[b]@,
                forall|a: int|
                    0 <= a < r@.len() ==> self.spec_get(#[trigger] r@[a]@) is Some && pat_match(
                        p.prefix@,
                        p.suffix@,
                        r@[a]@,
                    ),
                forall|b: int|
                    0 <= b < i && self.spec_get(#[trigger] self.kv_keys@[b]@) is Some && pat_match(
                        p.prefix@,
                        p.suffix@,
                        self.kv_keys@[b]@,
                    ) ==> seq_has_str(r@, self.kv_keys@[b]@),
            decreases self.kv_keys@.len() - i,
        {
            let key = &self.kv_keys[i];
            let ghost pre_r = r@;
            let m1 = str_starts_with(key.as_str(), p.prefix.as_str());
            let m2 = str_ends_with(key.as_str(), p.suffix.as_str());
            if m1 && m2 {
                r.push(key.clone());
            }
            proof {
                assert forall|b: int|
                    0 <= b < i + 1 && self.spec_get(#[trigger] self.kv_keys@[b]@) is Some
                        && pat_match(p.prefix@, p.suffix@, self.kv_keys@[b]@) implies seq_has_str(
                    r@,
                    self.kv_keys@[b]@,
                ) by {
                    if b == i as int {
                        assert(m1 && m2);
                        assert(r@[r@.len() - 1]@ == self.kv_keys@[b]@);
                    } else {
                        assert(seq_has_str(pre_r, self.kv_keys@[b]@));
                        let a = choose|a: int|
                            0 <= a < pre_r.len() && pre_r[a]@ == self.kv_keys@[b]@;
                        assert(r@[a]@ == self.kv_keys@[b]@);
                    }
                }
            }
            i += 1;
        }
        proof {
            assert forall|k: Seq<char>| #[trigger]
                seq_has_str(r@, k) implies (self.spec_get(k) is Some && pat_match(
                p.prefix@,
                p.suffix@,
                k,
            )) by {
                let a = choose|a: int| 0 <= a < r@.len() && r@[a]@ == k;
                assert(self.spec_get(r@[a]@) is Some);
            }
            assert forall|k: Seq<char>|
                (self.spec_get(k) is Some && pat_match(
                    p.prefix@,
                    p.suffix@,
                    k,
                )) implies #[trigger] seq_has_str(r@, k) by {
                assert(seq_has_str(self.kv_keys@, k));
                let b = choose|b: int| 0 <= b < self.kv_keys@.len() && self.kv_keys@[b]@ == k;
                assert(self.spec_get(self.kv_keys@[b]@) is Some);
            }
        }
        r
    }

    /// Reads the whole list under `key`; an absent list reads as empty.
    pub fn list_get(&self, key: &str) -> (r: Vec<String>)
        ensures
            dvs(r@) == self.spec_list(key@),
            r@.len() == self.spec_list(key@).len(),
            forall|i: int| 0 <= i < r@.len() ==> #[trigger] r@[i]@ == self.spec_list(key@)[i],
    {
        let r = match self.lists.get(key) {
            Some(v) => clone_vec_str(v),
            None => Vec::new(),
        };
        proof {
            assert(dvs(r@) =~= self.spec_list(key@));
            assert forall|i: int| 0 <= i < r@.len() implies #[trigger] r@[i]@ == self.spec_list(
                key@,
            )[i] by {
                assert(dvs(r@)[i] == r@[i]@);
            }
        }
        r
    }

    /// Appends `value` at the end of the list under `key`.
    pub fn list_append(&mut self, kv: &KeyValue) -> (r: bool)
        requires
            old(self).wf(),
        ensures
            final(self).wf(),
            r == true,
            final(self).spec_list(kv.key@) == old(self).spec_list(kv.key@).push(kv.value@),
            forall|k: Seq<char>|
                k != kv.key@ ==> #[trigger] final(self).spec_list(k) == old(self).spec_list(k),
            forall|k: Seq<char>| #[trigger] final(self).spec_get(k) == old(self).spec_get(k),
            final(self).spec_clock() == old(self).spec_clock(),
    {
        let mut nv = match self.lists.get(kv.key.as_str()) {
            Some(v) => clone_vec_str(v),
            None => Vec::new(),
        };
        nv.push(kv.value.clone());
        if !self.lists.contains_key(kv.key.as_str()) {
            self.list_names.push(kv.key.clone());
        }
        self.lists.insert(kv.key.clone(), nv);
        proof {
            assert forall|k: Seq<char>| #[trigger]
                self.lists@.contains_key(k) implies seq_has_str(self.list_names@, k) by {
                if old(self).lists@.contains_key(k) {
                    assert(seq_has_str(old(self).list_names@, k));
                    let i = choose|i: int|
                        0 <= i < old(self).list_names@.len() && old(self).list_names@[i]@ == k;
                    assert(self.list_names@[i]@ == k);
                } else {
                    assert(k == kv.key@);
                    assert(self.list_names@[self.list_names@.len() - 1]@ == k);
                }
            }
            assert(final(self).spec_list(kv.key@) =~= old(self).spec_list(kv.key@).push(kv.value@));
        }
        true
    }

    /// Removes every copy of `value` from the list under `key` and says
    /// how many were removed.
    pub fn list_remove(&mut self, kv: &KeyValue) -> (r: usize)
        requires
            old(self).wf(),
        ensures
            final(self).wf(),
            final(self).spec_list(kv.key@) == old(self).spec_list(kv.key@).filter(
                ne_val(kv.value@),
            ),
            r == old(self).spec_list(kv.key@).len() - final(self).spec_list(kv.key@).len(),
            forall|k: Seq<char>|
                k != kv.key@ ==> #[trigger] final(self).spec_list(k) == old(self).spec_list(k),
            forall|k: Seq<char>| #[trigger] final(self).spec_get(k) == old(self).spec_get(k),
            final(self).spec_clock() == old(self).spec_clock(),
    {
        let ghost pred = ne_val(kv.value@);
        let cur = match self.lists.get(kv.key.as_str()) {
            Some(v) => clone_vec_str(v),
            None => {
                proof {
                    reveal(Seq::filter);
                    assert(old(self).spec_list(kv.key@).filter(pred) =~= Seq::<Seq<char>>::empty());
                }
                return 0;
            },
        };
        let ghost orig = dvs(cur@);
        proof {
            assert(orig == old(self).spec_list(kv.key@));
        }
        let mut kept: Vec<String> = Vec::new();
        let mut removed: usize = 0;
        let mut i: usize = 0;
        proof {
            reveal(Seq::filter);
            assert(orig.take(0) =~= Seq::<Seq<char>>::empty());
            assert(Seq::<Seq<char>>::empty().filter(pred) =~= Seq::<Seq<char>>::empty());
        }
        while i < cur.len()
            invariant
                i <= cur@.len(),
                pred == ne_val(kv.value@),
                orig == dvs(cur@),
                forall|a: int| 0 <= a < cur@.len() ==> #[trigger] dvs(cur@)[a] == cur@[a]@,
                dvs(kept@) == orig.take(i as int).filter(pred),
                removed == i - kept@.len(),
                kept@.len() <= i,
            decreases cur@.len() - i,
        {
            let ghost t = orig.take(i + 1);
            proof {
                reveal(Seq::filter);
                assert(t.drop_last() =~= orig.take(i as int));
                assert(t.last() == orig[i as int]);
                assert(t.filter(pred) == if pred(orig[i as int]) {
                    orig.take(i as int).filter(pred).push(orig[i as int])
                } else {
                    orig.take(i as int).filter(pred)
                });
            }
            if eq_str(cur[i].as_str(), kv.value.as_str()) {
                removed = removed + 1;
            } else {
                let ghost pk = kept@;
                kept.push(cur[i].clone());
                proof {
                    crate::strutil::lemma_dvs_push(pk, kept@[kept@.len() - 1]);
                    assert(dvs(kept@) =~= dvs(pk).push(orig[i as int]));
                }
            }
            i += 1;
        }
        proof {
            reveal(Seq::filter);
            assert(orig.take(cur@.len() as int) =~= orig);
        }
        self.lists.insert(kv.key.clone(), kept);
        proof {
            assert forall|k: Seq<char>| #[trigger]
                self.lists@.contains_key(k) implies seq_has_str(self.list_names@, k) by {
                assert(old(self).lists@.contains_key(k));
                assert(seq_has_str(old(self).list_names@, k));
            }
        }
        removed
    }

    /// Every key whose list is not empty and falls under the pattern.
    pub fn list_keys(&self, p: &Pattern) -> (r: Vec<String>)
        requires
            self.wf(),
        ensures
            forall|i: int, j: int|
                #![trigger r@[i]@, r@[j]@]
                0 <= i < j < r@.len() ==> r@[i]@ != r@[j]@,
            forall|k: Seq<char>|
                #[trigger] seq_has_str(r@, k) <==> (self.spec_list(k).len() > 0 && pat_match(
                    p.prefix@,
                    p.suffix@,
                    k,
                )),
    {
        let mut r: Vec<String> = Vec::new();
        let mut i: usize = 0;
        while i < self.list_names.len()
            invariant
                self.wf(),
                i <= self.list_names@.len(),
                forall|a: int, b: int|
                    #![trigger r@[a]@, r@[b]@]
                    0 <= a < b < r@.len() ==> r@[a]@ != r@[b]@,
                forall|a: int|
                    0 <= a < r@.len() ==> exists|b: int|
                        0 <= b < i && #[trigger] r@[a]@ == self.list_names@[b]@,
                forall|a: int|
                    0 <= a < r@.len() ==> self.spec_list(#[trigger] r@[a]@).len() > 0 && pat_match(
                        p.prefix@,
                        p.suffix@,
                        r@[a]@,
                    ),
                forall|b: int|
                    0 <= b < i && self.spec_list(#[trigger] self.list_names@[b]@).len() > 0
                        && pat_match(p.prefix@, p.suffix@, self.list_names@[b]@) ==> seq_has_str(
                        r@,
                        self.list_names@[b]@,
                    ),
            decreases self.list_names@.len() - i,
        {
            let key = &self.list_names[i];
            let ghost pre_r = r@;
            let nonempty = match self.lists.get(key.as_str()) {
                Some(v) => v.len() > 0,
                None => false,
            };
            let m1 = str_starts_with(key.as_str(), p.prefix.as_str());
            let m2 = str_ends_with(key.as_str(), p.suffix.as_str());
            if nonempty && m1 && m2 {
                r.push(key.clone());
            }
            proof {
                assert forall|b: int|
                    0 <= b < i + 1 && self.spec_list(#[trigger] self.list_names@[b]@).len() > 0
                        && pat_match(p.prefix@, p.suffix@, self.list_names@[b]@) implies seq_has_str(
                    r@,
                    self.list_names@[b]@,
                ) by {
                    if b == i as int {
                        assert(nonempty && m1 && m2);
                        assert(r@[r@.len() - 1]@ == self.list_names@[b]@);
                    } else {
                        assert(seq_has_str(pre_r, self.list_names@[b]@));
                        let a = choose|a: int|
                            0 <= a < pre_r.len() && pre_r[a]@ == self.list_names@[b]@;
                        assert(r@[a]@ == self.list_names@[b]@);
                    }
                }
            }
            i += 1;
        }
        proof {
            assert forall|k: Seq<char>| #[trigger]
                seq_has_str(r@, k) implies (self.spec_list(k).len() > 0 && pat_match(
                p.prefix@,
                p.suffix@,
                k,
            )) by {
                let a = choose|a: int| 0 <= a < r@.len() && r@[a]@ == k;
                assert(self.spec_list(r@[a]@).len() > 0);
            }
            assert forall|k: Seq<char>|
                (self.spec_list(k).len() > 0 && pat_match(
                    p.prefix@,
                    p.suffix@,
                    k,
                )) implies #[trigger] seq_has_str(r@, k) by {
                assert(self.lists@.contains_key(k));
                assert(seq_has_str(self.list_names@, k));
                let b = choose|b: int| 0 <= b < self.list_names@.len() && self.list_names@[b]@ == k;
                assert(self.spec_list(self.list_names@[b]@).len() > 0);
            }
        }
        r
    }

    /// Advances the clock: to `at_least` if that is ahead of it, else by
    /// one (stopping at the largest value), and returns the new value.
    pub fn clock(&mut self, at_least: u64) -> (r: u64)
        requires
            old(self).wf(),
        ensures
            r == final(self).spec_clock(),
            final(self).spec_clock() == (if at_least > old(self).spec_clock() {
                at_least
            } else if old(self).spec_clock() < u64::MAX {
                (old(self).spec_clock() + 1) as u64
            } else {
                u64::MAX
            }),
            final(self).spec_clock() >= old(self).spec_clock(),
            final(self).spec_clock() >= at_least,
            old(self).spec_clock() < u64::MAX ==> final(self).spec_clock() > old(
                self,
            ).spec_clock(),
            final(self).wf(),
            forall|k: Seq<char>| #[trigger] final(self).spec_get(k) == old(self).spec_get(k),
            forall|k: Seq<char>| #[trigger] final(self).spec_list(k) == old(self).spec_list(k),
    {
        if at_least > self.clock_val {
            self.clock_val = at_least;
        } else if self.clock_val < u64::MAX {
            self.clock_val = self.clock_val + 1;
        }
        proof {
            assert(self.kv_keys@ == old(self).kv_keys@);
            assert(self.kv@ == old(self).kv@);
            assert(self.list_names@ == old(self).list_names@);
            assert(self.lists@ == old(self).lists@);
        }
        self.clock_val
    }

    /// Reads the clock without advancing it.
    pub fn clock_value(&self) -> (r: u64)
        ensures
            r == self.spec_clock(),
    {
        self.clock_val
    }
}

} // verus!
