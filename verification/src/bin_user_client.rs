//! The per-user bin view over one back end.
//!
//! A bin rewrites every logical key into the physical key
//! `escape(user) + "::" + escape(key)` before touching the store, and
//! strips that header again from enumerated keys.  On keys without colons
//! the rewriting is a bijection, so a bin never sees another bin's keys.

use vstd::prelude::*;
use crate::colon::{escape, spec_escape};
use crate::storage::{pat_match, seq_has_str, KeyValue, MemStorage, Pattern};
use crate::strutil::push_char;
use vstd::string::StringExecFns;

verus! {

/// The physical form of logical key `key` inside the bin `bin` (already
/// escaped): `bin + "::" + escape(key)`.
pub open spec fn phys_key(bin: Seq<char>, key: Seq<char>) -> Seq<char> {
    bin + seq![':', ':'] + spec_escape(key)
}

/// The header that starts every physical key of the bin.
pub open spec fn bin_header(bin: Seq<char>) -> Seq<char> {
    bin + seq![':', ':']
}

/// A handle on the bin of one user: the escaped name and the index of the
/// back end that holds it.
pub struct BinUserClient {
    pub name: String,
    pub back: usize,
}

impl BinUserClient {
    /// Builds the physical key for `key`.
    fn phys(&self, key: &str) -> (r: String)
        ensures
            r@ == phys_key(self.name@, key@),
    {
        let mut r = self.name.clone();
        push_char(&mut r, ':');
        push_char(&mut r, ':');
        let e = escape(key);
        r.append(e.as_str());
        proof {
            assert(r@ =~= phys_key(self.name@, key@));
        }
        r
    }

    /// Reads the value under `key` in this bin.
    pub fn get(&self, st: &MemStorage, key: &str) -> (r: Option<String>)
        ensures
            match r {
                Some(v) => st.spec_get(phys_key(self.name@, key@)) == Some(v@),
                None => st.spec_get(phys_key(self.name@, key@)) is None,
            },
    {
        let pk = self.phys(key);
        st.get(pk.as_str())
    }

    /// Writes `value` under `key` in this bin.
    pub fn set(&self, st: &mut MemStorage, kv: &KeyValue) -> (r: bool)
        requires
            old(st).wf(),
        ensures
            final(st).wf(),
            r == true,
            final(st).spec_get(phys_key(self.name@, kv.key@)) == Some(kv.value@),
            forall|k: Seq<char>|
                k != phys_key(self.name@, kv.key@) ==> #[trigger] final(st).spec_get(k) == old(
                    st,
                ).spec_get(k),
            forall|k: Seq<char>| #[trigger] final(st).spec_list(k) == old(st).spec_list(k),
            final(st).spec_clock() == old(st).spec_clock(),
    {
        let pk = self.phys(&kv.key);
        st.set(&KeyValue { key: pk, value: kv.value.clone() })
    }

    /// Every logical key under the pattern whose physical key is stored,
    /// with the bin header stripped, each exactly once.
    pub fn keys(&self, st: &MemStorage, p: &Pattern) -> (r: Vec<String>)
        requires
            st.wf(),
            self.name@.len() + 2 <= usize::MAX,
        ensures
            forall|i: int, j: int|
                #![trigger r@[i]@, r@[j]@]
                0 <= i < j < r@.len() ==> r@[i]@ != r@[j]@,
            forall|k: Seq<char>|
                #[trigger] seq_has_str(r@, k) <==> (st.spec_get(bin_header(self.name@) + k) is Some
                    && p.prefix@.is_prefix_of(k) && p.suffix@.is_suffix_of(
                    bin_header(self.name@) + k,
                )),
    {
        let mut pp = self.name.clone();
        push_char(&mut pp, ':');
        push_char(&mut pp, ':');
        pp.append(p.prefix.as_str());
        proof {
            assert(pp@ =~= bin_header(self.name@) + p.prefix@);
        }
        let full = st.keys(&Pattern { prefix: pp, suffix: p.suffix.clone() });
        let ghost hdr = bin_header(self.name@);
        let ghost n = hdr.len() as int;
        let strip = self.name.unicode_len() + 2;
        let mut r: Vec<String> = Vec::new();
        let mut i: usize = 0;
        proof {
            assert forall|a: int| 0 <= a < full@.len() implies (st.spec_get(
                #[trigger] full@[a]@,
            ) is Some && pat_match(hdr + p.prefix@, p.suffix@, full@[a]@)) by {
                assert(seq_has_str(full@, full@[a]@));
            }
        }
        while i < full.len()
            invariant
                i <= full@.len(),
                strip == n,
                n == hdr.len(),
                hdr == bin_header(self.name@),
                r@.len() == i,
                forall|a: int|
                    0 <= a < full@.len() ==> (st.spec_get(#[trigger] full@[a]@) is Some && pat_match(
                        hdr + p.prefix@,
                        p.suffix@,
                        full@[a]@,
                    )),
                forall|a: int| 0 <= a < i ==> #[trigger] r@[a]@ == full@[a]@.skip(n),
                forall|a: int| 0 <= a < i ==> full@[a]@ == hdr + #[trigger] r@[a]@,
            decreases full@.len() - i,
        {
            let key = &full[i];
            proof {
                assert(st.spec_get(full@[i as int]@) is Some && pat_match(
                    hdr + p.prefix@,
                    p.suffix@,
                    full@[i as int]@,
                ));
                assert((hdr + p.prefix@).len() == n + p.prefix@.len());
                assert(full@[i as int]@.len() >= n);
            }
            let len = key.as_str().unicode_len();
            let stripped = key.as_str().substring_char(strip, len).to_owned();
            proof {
                let fk = full@[i as int]@;
                assert(stripped@ == fk.skip(n)) by {
                    assert(stripped@ =~= fk.subrange(n, fk.len() as int));
                    assert(fk.skip(n) =~= fk.subrange(n, fk.len() as int));
                }
                assert(fk == hdr + stripped@) by {
                    assert((hdr + p.prefix@).is_prefix_of(fk));
                    assert((hdr + p.prefix@) =~= fk.subrange(0, n + p.prefix@.len()));
                    assert forall|q: int| 0 <= q < fk.len() implies fk[q] == (hdr + fk.skip(n))[q]
                        by {
                        if q < n {
                            assert(fk.subrange(0, n + p.prefix@.len())[q] == fk[q]);
                            assert((hdr + p.prefix@)[q] == hdr[q]);
                        } else {
                            assert((hdr + fk.skip(n))[q] == fk.skip(n)[q - n]);
                            assert(fk.skip(n)[q - n] == fk[q]);
                        }
                    }
                    assert(fk =~= hdr + fk.skip(n));
                }
            }
            r.push(stripped);
            i += 1;
        }
        proof {
            assert forall|a: int, b: int| 0 <= a < b < r@.len() implies r@[a]@ != r@[b]@ by {
                if r@[a]@ == r@[b]@ {
                    assert(full@[a]@ == hdr + r@[a]@);
                    assert(full@[b]@ == hdr + r@[b]@);
                    assert(full@[a]@ == full@[b]@);
                }
            }
            assert forall|k: Seq<char>| #[trigger]
                seq_has_str(r@, k) implies (st.spec_get(hdr + k) is Some && p.prefix@.is_prefix_of(
                k,
            ) && p.suffix@.is_suffix_of(hdr + k)) by {
                let a = choose|a: int| 0 <= a < r@.len() && r@[a]@ == k;
                assert(full@[a]@ == hdr + k);
                assert(seq_has_str(full@, hdr + k)) by {
                    assert(full@[a]@ == hdr + k);
                }
                assert(st.spec_get(full@[a]@) is Some);
                assert(pat_match(hdr + p.prefix@, p.suffix@, hdr + k));
                assert(p.prefix@.is_prefix_of(k)) by {
                    let full_k = hdr + k;
                    assert((hdr + p.prefix@).is_prefix_of(full_k));
                    assert forall|q: int| 0 <= q < p.prefix@.len() implies p.prefix@[q] == k[q] by {
                        assert((hdr + p.prefix@)[n + q] == full_k.subrange(
                            0,
                            (hdr + p.prefix@).len() as int,
                        )[n + q]);
                    }
                }
            }
            assert forall|k: Seq<char>|
                (st.spec_get(hdr + k) is Some && p.prefix@.is_prefix_of(k)
                    && p.suffix@.is_suffix_of(hdr + k)) implies #[trigger] seq_has_str(r@, k) by {
                let full_k = hdr + k;
                assert(pat_match(hdr + p.prefix@, p.suffix@, full_k)) by {
                    assert((hdr + p.prefix@).is_prefix_of(full_k)) by {
                        assert((hdr + p.prefix@) =~= full_k.subrange(
                            0,
                            (hdr + p.prefix@).len() as int,
                        ));
                    }
                }
                assert(seq_has_str(full@, full_k));
                let a = choose|a: int| 0 <= a < full@.len() && full@[a]@ == full_k;
                assert(r@[a]@ == full@[a]@.skip(n));
                assert(full_k.skip(n) =~= k);
            }
        }
        r
    }

    /// Reads the whole list under `key` in this bin.
    pub fn list_get(&self, st: &MemStorage, key: &str) -> (r: Vec<String>)
        ensures
            crate::strutil::dvs(r@) == st.spec_list(phys_key(self.name@, key@)),
            r@.len() == st.spec_list(phys_key(self.name@, key@)).len(),
            forall|i: int|
                0 <= i < r@.len() ==> #[trigger] r@[i]@ == st.spec_list(
                    phys_key(self.name@, key@),
                )[i],
    {
        let pk = self.phys(key);
        st.list_get(pk.as_str())
    }

    /// Appends `value` to the list under `key` in this bin.
    pub fn list_append(&self, st: &mut MemStorage, kv: &KeyValue) -> (r: bool)
        requires
            old(st).wf(),
        ensures
            final(st).wf(),
            r == true,
            final(st).spec_list(phys_key(self.name@, kv.key@)) == old(st).spec_list(
                phys_key(self.name@, kv.key@),
            ).push(kv.value@),
            forall|k: Seq<char>|
                k != phys_key(self.name@, kv.key@) ==> #[trigger] final(st).spec_list(k) == old(
                    st,
                ).spec_list(k),
            forall|k: Seq<char>| #[trigger] final(st).spec_get(k) == old(st).spec_get(k),
            final(st).spec_clock() == old(st).spec_clock(),
    {
        let pk = self.phys(&kv.key);
        st.list_append(&KeyValue { key: pk, value: kv.value.clone() })
    }

    /// Removes every copy of `value` from the list under `key` in this bin.
    pub fn list_remove(&self, st: &mut MemStorage, kv: &KeyValue) -> (r: usize)
        requires
            old(st).wf(),
        ensures
            final(st).wf(),
            final(st).spec_list(phys_key(self.name@, kv.key@)) == old(st).spec_list(
                phys_key(self.name@, kv.key@),
            ).filter(crate::storage::ne_val(kv.value@)),
            r == old(st).spec_list(phys_key(self.name@, kv.key@)).len() - final(st).spec_list(
                phys_key(self.name@, kv.key@),
            ).len(),
            forall|k: Seq<char>|
                k != phys_key(self.name@, kv.key@) ==> #[trigger] final(st).spec_list(k) == old(
                    st,
                ).spec_list(k),
            forall|k: Seq<char>| #[trigger] final(st).spec_get(k) == old(st).spec_get(k),
            final(st).spec_clock() == old(st).spec_clock(),
    {
        let pk = self.phys(&kv.key);
        st.list_remove(&KeyValue { key: pk, value: kv.value.clone() })
    }

    /// Every logical key under the pattern whose list in this bin is not
    /// empty, with the bin header stripped, each exactly once.
    pub fn list_keys(&self, st: &MemStorage, p: &Pattern) -> (r: Vec<String>)
        requires
            st.wf(),
            self.name@.len() + 2 <= usize::MAX,
        ensures
            forall|i: int, j: int|
                #![trigger r@[i]@, r@[j]@]
                0 <= i < j < r@.len() ==> r@[i]@ != r@[j]@,
            forall|k: Seq<char>|
                #[trigger] seq_has_str(r@, k) <==> (st.spec_list(bin_header(self.name@) + k).len()
                    > 0 && p.prefix@.is_prefix_of(k) && p.suffix@.is_suffix_of(
                    bin_header(self.name@) + k,
                )),
    {
        let mut pp = self.name.clone();
        push_char(&mut pp, ':');
        push_char(&mut pp, ':');
        pp.append(p.prefix.as_str());
        proof {
            assert(pp@ =~= bin_header(self.name@) + p.prefix@);
        }
        let full = st.list_keys(&Pattern { prefix: pp, suffix: p.suffix.clone() });
        let ghost hdr = bin_header(self.name@);
        let ghost n = hdr.len() as int;
        let strip = self.name.unicode_len() + 2;
        let mut r: Vec<String> = Vec::new();
        let mut i: usize = 0;
        proof {
            assert forall|a: int| 0 <= a < full@.len() implies (st.spec_list(
                #[trigger] full@[a]@,
            ).len() > 0 && pat_match(hdr + p.prefix@, p.suffix@, full@[a]@)) by {
                assert(seq_has_str(full@, full@[a]@));
            }
        }
        while i < full.len()
            invariant
                i <= full@.len(),
                strip == n,
                n == hdr.len(),
                hdr == bin_header(self.name@),
                r@.len() == i,
                forall|a: int|
                    0 <= a < full@.len() ==> (st.spec_list(#[trigger] full@[a]@).len() > 0
                        && pat_match(hdr + p.prefix@, p.suffix@, full@[a]@)),
                forall|a: int| 0 <= a < i ==> #[trigger] r@[a]@ == full@[a]@.skip(n),
                forall|a: int| 0 <= a < i ==> full@[a]@ == hdr + #[trigger] r@[a]@,
            decreases full@.len() - i,
        {
            let key = &full[i];
            proof {
                assert(st.spec_list(full@[i as int]@).len() > 0 && pat_match(
                    hdr + p.prefix@,
                    p.suffix@,
                    full@[i as int]@,
                ));
                assert((hdr + p.prefix@).len() == n + p.prefix@.len());
                assert(full@[i as int]@.len() >= n);
            }
            let len = key.as_str().unicode_len();
            let stripped = key.as_str().substring_char(strip, len).to_owned();
            proof {
                let fk = full@[i as int]@;
                assert(stripped@ == fk.skip(n)) by {
                    assert(stripped@ =~= fk.subrange(n, fk.len() as int));
                    assert(fk.skip(n) =~= fk.subrange(n, fk.len() as int));
                }
                assert(fk == hdr + stripped@) by {
                    assert((hdr + p.prefix@).is_prefix_of(fk));
                    assert((hdr + p.prefix@) =~= fk.subrange(0, n + p.prefix@.len()));
                    assert forall|q: int| 0 <= q < fk.len() implies fk[q] == (hdr + fk.skip(n))[q]
                        by {
                        if q < n {
                            assert(fk.subrange(0, n + p.prefix@.len())[q] == fk[q]);
                            assert((hdr + p.prefix@)[q] == hdr[q]);
                        } else {
                            assert((hdr + fk.skip(n))[q] == fk.skip(n)[q - n]);
                            assert(fk.skip(n)[q - n] == fk[q]);
                        }
                    }
                    assert(fk =~= hdr + fk.skip(n));
                }
            }
            r.push(stripped);
            i += 1;
        }
        proof {
            assert forall|a: int, b: int| 0 <= a < b < r@.len() implies r@[a]@ != r@[b]@ by {
                if r@[a]@ == r@[b]@ {
                    assert(full@[a]@ == hdr + r@[a]@);
                    assert(full@[b]@ == hdr + r@[b]@);
                    assert(full@[a]@ == full@[b]@);
                }
            }
            assert forall|k: Seq<char>| #[trigger]
                seq_has_str(r@, k) implies (st.spec_list(hdr + k).len() > 0
                && p.prefix@.is_prefix_of(k) && p.suffix@.is_suffix_of(hdr + k)) by {
                let a = choose|a: int| 0 <= a < r@.len() && r@[a]@ == k;
                assert(full@[a]@ == hdr + k);
                assert(st.spec_list(full@[a]@).len() > 0);
                assert(pat_match(hdr + p.prefix@, p.suffix@, hdr + k));
                assert(p.prefix@.is_prefix_of(k)) by {
                    let full_k = hdr + k;
                    assert((hdr + p.prefix@).is_prefix_of(full_k));
                    assert forall|q: int| 0 <= q < p.prefix@.len() implies p.prefix@[q] == k[q] by {
                        assert((hdr + p.prefix@)[n + q] == full_k.subrange(
                            0,
                            (hdr + p.prefix@).len() as int,
                        )[n + q]);
                    }
                }
            }
            assert forall|k: Seq<char>|
                (st.spec_list(hdr + k).len() > 0 && p.prefix@.is_prefix_of(k)
                    && p.suffix@.is_suffix_of(hdr + k)) implies #[trigger] seq_has_str(r@, k) by {
                let full_k = hdr + k;
                assert(pat_match(hdr + p.prefix@, p.suffix@, full_k)) by {
                    assert((hdr + p.prefix@).is_prefix_of(full_k)) by {
                        assert((hdr + p.prefix@) =~= full_k.subrange(
                            0,
                            (hdr + p.prefix@).len() as int,
                        ));
                    }
                }
                assert(seq_has_str(full@, full_k));
                let a = choose|a: int| 0 <= a < full@.len() && full@[a]@ == full_k;
                assert(r@[a]@ == full@[a]@.skip(n));
                assert(full_k.skip(n) =~= k);
            }
        }
        r
    }

    /// Advances the back end's clock as [`MemStorage::clock`] does.
    pub fn clock(&self, st: &mut MemStorage, at_least: u64) -> (r: u64)
        requires
            old(st).wf(),
        ensures
            final(st).wf(),
            r == final(st).spec_clock(),
            final(st).spec_clock() == (if at_least > old(st).spec_clock() {
                at_least
            } else if old(st).spec_clock() < u64::MAX {
                (old(st).spec_clock() + 1) as u64
            } else {
                u64::MAX
            }),
            final(st).spec_clock() >= old(st).spec_clock(),
            final(st).spec_clock() >= at_least,
            old(st).spec_clock() < u64::MAX ==> final(st).spec_clock() > old(st).spec_clock(),
            forall|k: Seq<char>| #[trigger] final(st).spec_get(k) == old(st).spec_get(k),
            forall|k: Seq<char>| #[trigger] final(st).spec_list(k) == old(st).spec_list(k),
    {
        st.clock(at_least)
    }
}

} // verus!
