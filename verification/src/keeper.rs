//! The keeper's clock synchronisation round.
//!
//! Once per tick the keeper walks all back ends twice, carrying the
//! largest clock value it has seen and offering it to each back end.  The
//! first pass collects the global maximum; the second pushes it to the
//! back ends that were visited before it was known.  After a round, every
//! back end's clock is at least the maximum any of them had before it.

use vstd::prelude::*;
use crate::storage::MemStorage;

verus! {

/// One synchronisation round over the back ends.
pub fn sync_clocks(backs: &mut Vec<MemStorage>)
    requires
        forall|i: int| 0 <= i < old(backs)@.len() ==> #[trigger] old(backs)@[i].wf(),
    ensures
        final(backs)@.len() == old(backs)@.len(),
        forall|i: int| 0 <= i < final(backs)@.len() ==> #[trigger] final(backs)@[i].wf(),
        forall|i: int, k: Seq<char>|
            0 <= i < final(backs)@.len() ==> #[trigger] final(backs)@[i].spec_get(k) == old(
                backs,
            )@[i].spec_get(k),
        forall|i: int, k: Seq<char>|
            0 <= i < final(backs)@.len() ==> #[trigger] final(backs)@[i].spec_list(k) == old(
                backs,
            )@[i].spec_list(k),
        forall|i: int|
            0 <= i < final(backs)@.len() ==> #[trigger] final(backs)@[i].spec_clock() >= old(
                backs,
            )@[i].spec_clock(),
        forall|i: int, j: int|
            #![trigger final(backs)@[i].spec_clock(), old(backs)@[j].spec_clock()]
            0 <= i < final(backs)@.len() && 0 <= j < final(backs)@.len()
                ==> final(backs)@[i].spec_clock() >= old(backs)@[j].spec_clock(),
{
    let n = backs.len();
    let mut c: u64 = 0;
    let mut i: usize = 0;
    while i < n
        invariant
            i <= n,
            n == backs@.len(),
            backs@.len() == old(backs)@.len(),
            forall|j: int| 0 <= j < n ==> #[trigger] backs@[j].wf(),
            forall|j: int, k: Seq<char>|
                0 <= j < n ==> #[trigger] backs@[j].spec_get(k) == old(backs)@[j].spec_get(k),
            forall|j: int, k: Seq<char>|
                0 <= j < n ==> #[trigger] backs@[j].spec_list(k) == old(backs)@[j].spec_list(k),
            forall|j: int|
                0 <= j < n ==> #[trigger] backs@[j].spec_clock() >= old(backs)@[j].spec_clock(),
            forall|j: int| 0 <= j < i ==> c >= #[trigger] old(backs)@[j].spec_clock(),
        decreases n - i,
    {
        let got = backs[i].clock(c);
        if got > c {
            c = got;
        }
        i += 1;
    }
    let ghost c1 = c;
    let mut i: usize = 0;
    while i < n
        invariant
            i <= n,
            n == backs@.len(),
            backs@.len() == old(backs)@.len(),
            c >= c1,
            forall|j: int| 0 <= j < n ==> c1 >= #[trigger] old(backs)@[j].spec_clock(),
            forall|j: int| 0 <= j < n ==> #[trigger] backs@[j].wf(),
            forall|j: int, k: Seq<char>|
                0 <= j < n ==> #[trigger] backs@[j].spec_get(k) == old(backs)@[j].spec_get(k),
            forall|j: int, k: Seq<char>|
                0 <= j < n ==> #[trigger] backs@[j].spec_list(k) == old(backs)@[j].spec_list(k),
            forall|j: int|
                0 <= j < n ==> #[trigger] backs@[j].spec_clock() >= old(backs)@[j].spec_clock(),
            forall|j: int| 0 <= j < i ==> #[trigger] backs@[j].spec_clock() >= c1,
        decreases n - i,
    {
        let got = backs[i].clock(c);
        if got > c {
            c = got;
        }
        i += 1;
    }
}

} // verus!
