//! The bin storage router.
//!
//! A user name is hashed with FNV-1a — a fixed algorithm, so that every
//! process that holds the same back-end list picks the same back end for a
//! name — and the hash modulo the number of back ends selects where that
//! user's bin lives.

use vstd::prelude::*;
use vstd::utf8::encode_utf8;
use crate::bin_user_client::BinUserClient;
use crate::colon::{escape, spec_escape};
use crate::storage::MemStorage;

verus! {

/// FNV-1a offset basis.
pub const FNV_OFFSET: u64 = 0xcbf29ce484222325;

/// FNV-1a prime.
pub const FNV_PRIME: u64 = 0x100000001b3;

/// FNV-1a over a byte sequence.
pub open spec fn spec_fnv1a(bytes: Seq<u8>) -> u64
    decreases bytes.len(),
{
    if bytes.len() == 0 {
        FNV_OFFSET
    } else {
        vstd::wrapping::u64_specs::wrapping_mul(
            spec_fnv1a(bytes.drop_last()) ^ (bytes.last() as u64),
            FNV_PRIME,
        )
    }
}

/// Which back end, out of `n`, holds the bin of `name`.
pub open spec fn spec_route(name: Seq<char>, n: int) -> int {
    spec_fnv1a(encode_utf8(name)) as int % n
}

/// Computes the FNV-1a hash of the bytes of `name`.
pub fn fnv1a(name: &str) -> (r: u64)
    ensures
        r == spec_fnv1a(encode_utf8(name@)),
{
    let bytes = name.as_bytes();
    let ghost all = encode_utf8(name@);
    let mut h: u64 = FNV_OFFSET;
    let mut i: usize = 0;
    proof {
        assert(all.take(0) =~= Seq::<u8>::empty());
    }
    while i < bytes.len()
        invariant
            i <= bytes@.len(),
            bytes@ == all,
            h == spec_fnv1a(all.take(i as int)),
        decreases bytes@.len() - i,
    {
        let b = bytes[i];
        h = (h ^ (b as u64)).wrapping_mul(FNV_PRIME);
        proof {
            assert(all.take(i + 1).drop_last() =~= all.take(i as int));
            assert(all.take(i + 1).last() == all[i as int]);
        }
        i += 1;
    }
    proof {
        assert(all.take(all.len() as int) =~= all);
    }
    h
}

/// Routing is deterministic across processes: any two routers over the
/// same number of back ends send every name to the same index, whatever
/// the back ends hold.
pub proof fn lemma_route_deterministic(a: BinStorageClient, b: BinStorageClient, name: Seq<char>)
    requires
        a.backs@.len() == b.backs@.len(),
    ensures
        spec_route(name, a.backs@.len() as int) == spec_route(name, b.backs@.len() as int),
{
}

/// The router: it owns the back ends and hands out per-user bins.
pub struct BinStorageClient {
    pub backs: Vec<MemStorage>,
}

impl BinStorageClient {
    /// At least one back end, each well formed.
    pub open spec fn wf(self) -> bool {
        &&& self.backs@.len() > 0
        &&& forall|i: int| 0 <= i < self.backs@.len() ==> #[trigger] self.backs@[i].wf()
    }

    /// Builds a router over the given back ends.
    pub fn new(backs: Vec<MemStorage>) -> (r: Self)
        ensures
            r.backs == backs,
    {
        BinStorageClient { backs }
    }

    /// The bin of `name`: the deterministically chosen back-end index
    /// together with the escaped name that prefixes every physical key.
    pub fn bin(&self, name: &str) -> (r: BinUserClient)
        requires
            self.wf(),
        ensures
            r.name@ == spec_escape(name@),
            r.back == spec_route(name@, self.backs@.len() as int),
            r.back < self.backs@.len(),
    {
        let h = fnv1a(name);
        let n = self.backs.len() as u64;
        let idx = (h % n) as usize;
        BinUserClient { name: escape(name), back: idx }
    }
}

} // verus!
