//! The single-process reference server.
//!
//! The same service contract as the sharded front end, but over one
//! in-process table: a user record per name, a precomputed home timeline
//! per name, and one global sequence counter in place of the per-back-end
//! clocks.  It exists so the service can run and be tested without any
//! back ends.

use vstd::prelude::*;
use vstd::relations::{sorted_by, total_ordering};
use crate::err::TribError;
use crate::storage::seq_has_str;
use crate::strutil::{dvs, eq_str, insertion_sort, lex_le, lex_lt, str_le};
use crate::trib::{
    is_valid_username, trib_le, trib_le_exec, valid_username, Trib, TribV, MAX_FOLLOWING,
    MAX_TRIB_FETCH, MAX_TRIB_LEN, MIN_LIST_USER,
};

verus! {

/// A post paired with the global sequence number that ordered it.
#[derive(Debug, Clone)]
pub struct SeqTrib {
    pub seq: u64,
    pub trib: Trib,
}

/// The mathematical shadow of a [`SeqTrib`].
pub ghost struct SeqTribV {
    pub seq: u64,
    pub trib: TribV,
}

impl DeepView for SeqTrib {
    type V = SeqTribV;

    open spec fn deep_view(&self) -> SeqTribV {
        SeqTribV { seq: self.seq, trib: self.trib.deep_view() }
    }
}

/// Sequence-number order on recorded posts, tie-broken by the canonical
/// post order so that it is a total ordering.
pub open spec fn stv_le(a: SeqTribV, b: SeqTribV) -> bool {
    if a.seq != b.seq {
        a.seq < b.seq
    } else {
        trib_le(a.trib, b.trib)
    }
}

/// [`stv_le`] as a relation value.
pub open spec fn stv_le_f() -> spec_fn(SeqTribV, SeqTribV) -> bool {
    |a: SeqTribV, b: SeqTribV| stv_le(a, b)
}

/// The sequence order on recorded posts is a total ordering.
pub proof fn lemma_stv_le_total_ordering()
    ensures
        total_ordering(stv_le_f()),
{
    crate::trib::lemma_trib_le_total_ordering();
    let t = crate::trib::trib_le_f();
    let r = stv_le_f();
    assert forall|x: SeqTribV, y: SeqTribV| #[trigger] r(x, y) && #[trigger] r(y, x) implies x
        == y by {
        if x.seq == y.seq {
            assert(t(x.trib, y.trib) && t(y.trib, x.trib));
        }
    }
    assert forall|x: SeqTribV, y: SeqTribV, z: SeqTribV|
        #[trigger] r(x, y) && #[trigger] r(y, z) implies r(x, z) by {
        if x.seq == y.seq && y.seq == z.seq {
            assert(t(x.trib, y.trib) && t(y.trib, z.trib));
        }
    }
    assert forall|x: SeqTribV, y: SeqTribV| #[trigger] r(x, y) || #[trigger] r(y, x) by {
        if x.seq == y.seq {
            assert(t(x.trib, y.trib) || t(y.trib, x.trib));
        }
    }
}

/// Whether some string of the vector reads `s`.
fn vec_has_str(v: &Vec<String>, s: &str) -> (r: bool)
    ensures
        r == seq_has_str(v@, s@),
{
    let mut i: usize = 0;
    while i < v.len()
        invariant
            i <= v@.len(),
            forall|a: int| 0 <= a < i ==> (#[trigger] v@[a])@ != s@,
        decreases v@.len() - i,
    {
        if eq_str(v[i].as_str(), s) {
            proof {
                assert(v@[i as int]@ == s@);
            }
            return true;
        }
        i += 1;
    }
    proof {
        if seq_has_str(v@, s@) {
            let a = choose|a: int| 0 <= a < v@.len() && v@[a]@ == s@;
        }
    }
    false
}

/// Removes the first string reading `s`, if any.
fn vec_remove_str(v: &mut Vec<String>, s: &str)
    requires
        forall|a: int, b: int|
            #![trigger old(v)@[a]@, old(v)@[b]@]
            0 <= a < b < old(v)@.len() ==> old(v)@[a]@ != old(v)@[b]@,
    ensures
        forall|x: Seq<char>|
            #[trigger] seq_has_str(final(v)@, x) == (seq_has_str(old(v)@, x) && x != s@),
        forall|a: int, b: int|
            #![trigger final(v)@[a]@, final(v)@[b]@]
            0 <= a < b < final(v)@.len() ==> final(v)@[a]@ != final(v)@[b]@,
        final(v)@.len() <= old(v)@.len(),
{
    let mut i: usize = 0;
    while i < v.len()
        invariant
            i <= v@.len(),
            v@ == old(v)@,
            forall|a: int| 0 <= a < i ==> (#[trigger] v@[a])@ != s@,
            forall|a: int, b: int|
                #![trigger v@[a]@, v@[b]@]
                0 <= a < b < v@.len() ==> v@[a]@ != v@[b]@,
        decreases v@.len() - i,
    {
        if eq_str(v[i].as_str(), s) {
            let ghost prev = v@;
            v.remove(i);
            proof {
                assert(prev[i as int]@ == s@);
                assert forall|x: Seq<char>|
                    #[trigger] seq_has_str(v@, x) == (seq_has_str(prev, x) && x != s@) by {
                    if seq_has_str(v@, x) {
                        let a = choose|a: int| 0 <= a < v@.len() && v@[a]@ == x;
                        if a < i {
                            assert(prev[a]@ == x);
                        } else {
                            assert(prev[a + 1]@ == x);
                        }
                        assert(seq_has_str(prev, x));
                        if x == s@ {
                            if a < i {
                                assert(prev[a]@ == s@);
                            } else {
                                assert(prev[a + 1]@ == prev[i as int]@);
                            }
                        }
                    }
                    if seq_has_str(prev, x) && x != s@ {
                        let a = choose|a: int| 0 <= a < prev.len() && prev[a]@ == x;
                        if a < i {
                            assert(v@[a]@ == x);
                        } else {
                            assert(a != i);
                            assert(v@[a - 1]@ == x);
                        }
                    }
                }
                assert forall|a: int, b: int|
                    #![trigger v@[a]@, v@[b]@]
                    0 <= a < b < v@.len() implies v@[a]@ != v@[b]@ by {
                    let pa = if a < i {
                        a
                    } else {
                        a + 1
                    };
                    let pb = if b < i {
                        b
                    } else {
                        b + 1
                    };
                    assert(v@[a]@ == prev[pa]@ && v@[b]@ == prev[pb]@);
                }
            }
            return ;
        }
        i += 1;
    }
    proof {
        assert forall|x: Seq<char>|
            #[trigger] seq_has_str(v@, x) == (seq_has_str(old(v)@, x) && x != s@) by {
            if seq_has_str(v@, x) && x == s@ {
                let a = choose|a: int| 0 <= a < v@.len() && v@[a]@ == x;
            }
        }
    }
}

/// The data the reference server keeps on one user: who they follow, who
/// follows them, and their posts with and without sequence numbers.
pub struct User {
    pub following: Vec<String>,
    pub followers: Vec<String>,
    pub seq_tribs: Vec<SeqTrib>,
    pub tribs: Vec<Trib>,
}

impl User {
    /// Both relation lists hold each name at most once.
    pub open spec fn wf(self) -> bool {
        &&& forall|a: int, b: int|
            #![trigger self.following@[a]@, self.following@[b]@]
            0 <= a < b < self.following@.len() ==> self.following@[a]@ != self.following@[b]@
        &&& forall|a: int, b: int|
            #![trigger self.followers@[a]@, self.followers@[b]@]
            0 <= a < b < self.followers@.len() ==> self.followers@[a]@ != self.followers@[b]@
    }

    /// A fresh user: no relations, no posts.
    pub fn new() -> (r: User)
        ensures
            r.wf(),
            r.following@.len() == 0,
            r.followers@.len() == 0,
            r.seq_tribs@.len() == 0,
            r.tribs@.len() == 0,
    {
        User { following: Vec::new(), followers: Vec::new(), seq_tribs: Vec::new(), tribs: Vec::new() }
    }

    /// Whether this user follows `whom`.
    pub fn is_following(&self, whom: &str) -> (r: bool)
        ensures
            r == seq_has_str(self.following@, whom@),
    {
        vec_has_str(&self.following, whom)
    }

    /// Records that this user follows `whom`.
    pub fn follow(&mut self, whom: &str)
        requires
            old(self).wf(),
        ensures
            final(self).wf(),
            forall|x: Seq<char>|
                #[trigger] seq_has_str(final(self).following@, x) == (seq_has_str(
                    old(self).following@,
                    x,
                ) || x == whom@),
            final(self).followers == old(self).followers,
            final(self).seq_tribs == old(self).seq_tribs,
            final(self).tribs == old(self).tribs,
    {
        if !vec_has_str(&self.following, whom) {
            let ghost prev = self.following@;
            self.following.push(whom.to_owned());
            proof {
                assert forall|x: Seq<char>|
                    #[trigger] seq_has_str(self.following@, x) == (seq_has_str(prev, x) || x
                        == whom@) by {
                    if seq_has_str(self.following@, x) {
                        let a = choose|a: int|
                            0 <= a < self.following@.len() && self.following@[a]@ == x;
                        if a < prev.len() {
                            assert(prev[a]@ == x);
                        }
                    }
                    if seq_has_str(prev, x) {
                        let a = choose|a: int| 0 <= a < prev.len() && prev[a]@ == x;
                        assert(self.following@[a]@ == x);
                    }
                    if x == whom@ {
                        assert(self.following@[prev.len() as int]@ == x);
                    }
                }
                assert forall|a: int, b: int|
                    #![trigger self.following@[a]@, self.following@[b]@]
                    0 <= a < b < self.following@.len() implies self.following@[a]@
                    != self.following@[b]@ by {
                    if b == prev.len() {
                        if self.following@[a]@ == whom@ {
                            assert(prev[a]@ == whom@);
                            assert(seq_has_str(prev, whom@));
                        }
                    } else {
                        assert(prev[a]@ == self.following@[a]@ && prev[b]@ == self.following@[b]@);
                    }
                }
            }
        }
    }

    /// Records that this user no longer follows `whom`.
    pub fn unfollow(&mut self, whom: &str)
        requires
            old(self).wf(),
        ensures
            final(self).wf(),
            forall|x: Seq<char>|
                #[trigger] seq_has_str(final(self).following@, x) == (seq_has_str(
                    old(self).following@,
                    x,
                ) && x != whom@),
            final(self).followers == old(self).followers,
            final(self).seq_tribs == old(self).seq_tribs,
            final(self).tribs == old(self).tribs,
    {
        vec_remove_str(&mut self.following, whom);
    }

    /// Records a new follower.
    pub fn add_follower(&mut self, who: &str)
        requires
            old(self).wf(),
        ensures
            final(self).wf(),
            forall|x: Seq<char>|
                #[trigger] seq_has_str(final(self).followers@, x) == (seq_has_str(
                    old(self).followers@,
                    x,
                ) || x == who@),
            final(self).following == old(self).following,
            final(self).seq_tribs == old(self).seq_tribs,
            final(self).tribs == old(self).tribs,
    {
        if !vec_has_str(&self.followers, who) {
            let ghost prev = self.followers@;
            self.followers.push(who.to_owned());
            proof {
                assert forall|x: Seq<char>|
                    #[trigger] seq_has_str(self.followers@, x) == (seq_has_str(prev, x) || x
                        == who@) by {
                    if seq_has_str(self.followers@, x) {
                        let a = choose|a: int|
                            0 <= a < self.followers@.len() && self.followers@[a]@ == x;
                        if a < prev.len() {
                            assert(prev[a]@ == x);
                        }
                    }
                    if seq_has_str(prev, x) {
                        let a = choose|a: int| 0 <= a < prev.len() && prev[a]@ == x;
                        assert(self.followers@[a]@ == x);
                    }
                    if x == who@ {
                        assert(self.followers@[prev.len() as int]@ == x);
                    }
                }
                assert forall|a: int, b: int|
                    #![trigger self.followers@[a]@, self.followers@[b]@]
                    0 <= a < b < self.followers@.len() implies self.followers@[a]@
                    != self.followers@[b]@ by {
                    if b == prev.len() {
                        if self.followers@[a]@ == who@ {
                            assert(prev[a]@ == who@);
                            assert(seq_has_str(prev, who@));
                        }
                    } else {
                        assert(prev[a]@ == self.followers@[a]@ && prev[b]@ == self.followers@[b]@);
                    }
                }
            }
        }
    }

    /// Drops a follower.
    pub fn remove_follower(&mut self, who: &str)
        requires
            old(self).wf(),
        ensures
            final(self).wf(),
            forall|x: Seq<char>|
                #[trigger] seq_has_str(final(self).followers@, x) == (seq_has_str(
                    old(self).followers@,
                    x,
                ) && x != who@),
            final(self).following == old(self).following,
            final(self).seq_tribs == old(self).seq_tribs,
            final(self).tribs == old(self).tribs,
    {
        vec_remove_str(&mut self.followers, who);
    }

    /// The names this user follows, in the order they were recorded.
    pub fn list_following(&self) -> (r: Vec<String>)
        ensures
            dvs(r@) == dvs(self.following@),
    {
        crate::strutil::clone_vec_str(&self.following)
    }

    /// Records a post by this user with the given sequence number and
    /// wall time, and hands the recorded trib back.
    pub fn post(&mut self, who: &str, msg: &str, seq: u64, time: u64) -> (r: Trib)
        requires
            old(self).wf(),
        ensures
            final(self).wf(),
            r.deep_view() == (TribV { user: who@, message: msg@, time, clock: seq }),
            dvs(final(self).tribs@) == dvs(old(self).tribs@).push(r.deep_view()),
            dvs(final(self).seq_tribs@) == dvs(old(self).seq_tribs@).push(
                (SeqTribV { seq, trib: r.deep_view() }),
            ),
            final(self).following == old(self).following,
            final(self).followers == old(self).followers,
    {
        let trib = Trib { user: who.to_owned(), message: msg.to_owned(), time, clock: seq };
        let st = SeqTrib { seq, trib: trib.clone_trib() };
        let ghost prev = self.seq_tribs@;
        let ghost prevt = self.tribs@;
        self.tribs.push(trib.clone_trib());
        self.seq_tribs.push(st);
        proof {
            assert(dvs(self.seq_tribs@) =~= dvs(prev).push(
                (SeqTribV { seq, trib: trib.deep_view() }),
            ));
            assert(dvs(self.tribs@) =~= dvs(prevt).push(trib.deep_view()));
        }
        trib
    }

    /// The newest stored posts, at most `MAX_TRIB_FETCH`, oldest first.
    pub fn list_tribs(&self) -> (r: Vec<Trib>)
        ensures
            dvs(r@) == dvs(self.tribs@).skip(
                if self.tribs@.len() > MAX_TRIB_FETCH as nat {
                    self.tribs@.len() - MAX_TRIB_FETCH as nat
                } else {
                    0
                } as int,
            ),
    {
        let n = self.tribs.len();
        let start = if n > MAX_TRIB_FETCH {
            n - MAX_TRIB_FETCH
        } else {
            0
        };
        let mut r: Vec<Trib> = Vec::new();
        let mut i: usize = start;
        while i < n
            invariant
                start <= i <= n,
                n == self.tribs@.len(),
                r@.len() == i - start,
                forall|a: int|
                    0 <= a < r@.len() ==> (#[trigger] r@[a]).deep_view() == self.tribs@[start
                        + a].deep_view(),
            decreases n - i,
        {
            r.push(self.tribs[i].clone_trib());
            i += 1;
        }
        proof {
            assert(dvs(r@) =~= dvs(self.tribs@).skip(start as int));
        }
        r
    }
}

impl Trib {
    /// A copy of this trib, character for character.
    pub fn clone_trib(&self) -> (r: Trib)
        ensures
            r.deep_view() == self.deep_view(),
    {
        Trib {
            user: self.user.clone(),
            message: self.message.clone(),
            time: self.time,
            clock: self.clock,
        }
    }
}

/// The reference server: one table of users, one precomputed home
/// timeline per user, one global sequence counter.
pub struct FrontServer {
    names: Vec<String>,
    data: Vec<User>,
    homes: Vec<Vec<Trib>>,
    seq: u64,
}

impl FrontServer {
    /// Whether `u` is registered.
    pub closed spec fn has_user(self, u: Seq<char>) -> bool {
        seq_has_str(self.names@, u)
    }

    /// The row of user `u`.
    pub closed spec fn idx_of(self, u: Seq<char>) -> int {
        choose|i: int| 0 <= i < self.names@.len() && self.names@[i]@ == u
    }

    /// Whether `who` currently follows `whom`.
    pub closed spec fn follows(self, who: Seq<char>, whom: Seq<char>) -> bool {
        self.has_user(who) && seq_has_str(self.data@[self.idx_of(who)].following@, whom)
    }

    /// How many users `who` follows.
    pub closed spec fn n_following(self, who: Seq<char>) -> nat {
        self.data@[self.idx_of(who)].following@.len()
    }

    /// The stored posts of `u`, oldest first.
    pub closed spec fn tribs_of(self, u: Seq<char>) -> Seq<TribV> {
        dvs(self.data@[self.idx_of(u)].tribs@)
    }

    /// The recorded posts of `u` with their sequence numbers.
    pub closed spec fn seq_tribs_of(self, u: Seq<char>) -> Seq<SeqTribV> {
        dvs(self.data@[self.idx_of(u)].seq_tribs@)
    }

    /// The precomputed home timeline of `u`.
    pub closed spec fn home_of(self, u: Seq<char>) -> Seq<TribV> {
        dvs(self.homes@[self.idx_of(u)]@)
    }

    /// The sequence counter.
    pub closed spec fn seq_of(self) -> u64 {
        self.seq
    }

    /// How many users are registered.
    pub closed spec fn n_users(self) -> nat {
        self.names@.len()
    }

    /// The recorded posts in row `i`.
    pub closed spec fn row_seq_tribs(self, i: int) -> Seq<SeqTribV> {
        dvs(self.data@[i].seq_tribs@)
    }

    /// The followee names in row `i`.
    pub closed spec fn row_following(self, i: int) -> Seq<Seq<char>> {
        dvs(self.data@[i].following@)
    }

    /// One row per user, rows well formed, every followee registered.
    pub closed spec fn wf(self) -> bool {
        &&& forall|a: int, b: int|
            #![trigger self.names@[a]@, self.names@[b]@]
            0 <= a < b < self.names@.len() ==> self.names@[a]@ != self.names@[b]@
        &&& self.data@.len() == self.names@.len()
        &&& self.homes@.len() == self.names@.len()
        &&& forall|i: int| 0 <= i < self.data@.len() ==> (#[trigger] self.data@[i]).wf()
        &&& forall|i: int, a: int|
            0 <= i < self.data@.len() && 0 <= a < self.data@[i].following@.len()
                ==> seq_has_str(self.names@, (#[trigger] self.data@[i].following@[a])@)
    }

    /// Pins the row index of a registered user.
    proof fn lemma_idx(self, u: Seq<char>)
        requires
            self.wf(),
            self.has_user(u),
        ensures
            0 <= self.idx_of(u) < self.names@.len(),
            self.names@[self.idx_of(u)]@ == u,
            forall|j: int| 0 <= j < self.names@.len() && self.names@[j]@ == u ==> j == self.idx_of(u),
    {
        let i = self.idx_of(u);
        assert(0 <= i < self.names@.len() && self.names@[i]@ == u);
        assert forall|j: int|
            0 <= j < self.names@.len() && self.names@[j]@ == u implies j == i by {
            if j != i {
                assert(self.names@[i]@ != self.names@[j]@);
            }
        }
    }

    /// The row of `name`, if registered.
    fn find(&self, name: &str) -> (r: Option<usize>)
        requires
            self.wf(),
        ensures
            match r {
                Some(i) => self.has_user(name@) && i == self.idx_of(name@) && i
                    < self.names@.len(),
                None => !self.has_user(name@),
            },
    {
        let mut i: usize = 0;
        while i < self.names.len()
            invariant
                self.wf(),
                i <= self.names@.len(),
                forall|a: int| 0 <= a < i ==> (#[trigger] self.names@[a])@ != name@,
            decreases self.names@.len() - i,
        {
            if eq_str(self.names[i].as_str(), name) {
                proof {
                    assert(self.names@[i as int]@ == name@);
                    self.lemma_idx(name@);
                }
                return Some(i);
            }
            i += 1;
        }
        proof {
            if self.has_user(name@) {
                let a = choose|a: int|
                    0 <= a < self.names@.len() && self.names@[a]@ == name@;
            }
        }
        None
    }

    /// A server with no users.
    pub fn new() -> (r: FrontServer)
        ensures
            r.wf(),
            forall|u: Seq<char>| !(#[trigger] r.has_user(u)),
            r.seq_of() == 0,
    {
        let r = FrontServer { names: Vec::new(), data: Vec::new(), homes: Vec::new(), seq: 0 };
        proof {
            assert forall|u: Seq<char>| !(#[trigger] r.has_user(u)) by {
                if r.has_user(u) {
                    let a = choose|a: int| 0 <= a < r.names@.len() && r.names@[a]@ == u;
                }
            }
        }
        r
    }

    /// Registers `user`: rejects a malformed or taken name, otherwise
    /// adds an empty record and an empty home timeline.
    pub fn sign_up(&mut self, user: &str) -> (r: Result<(), TribError>)
        requires
            old(self).wf(),
        ensures
            final(self).wf(),
            !valid_username(user@) ==> crate::front::is_invalid_username(r, user@) && *final(self)
                == *old(self),
            valid_username(user@) && old(self).has_user(user@) ==> crate::front::is_username_taken(
                r,
                user@,
            ) && *final(self) == *old(self),
            valid_username(user@) && !old(self).has_user(user@) ==> {
                &&& r is Ok
                &&& forall|u: Seq<char>|
                    #[trigger] final(self).has_user(u) == (old(self).has_user(u) || u == user@)
                &&& final(self).tribs_of(user@) == Seq::<TribV>::empty()
                &&& final(self).home_of(user@) == Seq::<TribV>::empty()
                &&& forall|u: Seq<char>, w: Seq<char>|
                    #[trigger] final(self).follows(u, w) == old(self).follows(u, w)
                &&& forall|u: Seq<char>|
                    u != user@ && old(self).has_user(u) ==> #[trigger] final(self).tribs_of(u)
                        == old(self).tribs_of(u) && final(self).home_of(u) == old(self).home_of(u)
                        && final(self).seq_tribs_of(u) == old(self).seq_tribs_of(u)
                &&& final(self).seq_of() == old(self).seq_of()
            },
    {
        if !is_valid_username(user) {
            return Err(TribError::InvalidUsername(user.to_owned()));
        }
        match self.find(user) {
            Some(_) => Err(TribError::UsernameTaken(user.to_owned())),
            None => {
                let ghost pre = *self;
                self.names.push(user.to_owned());
                self.data.push(User::new());
                self.homes.push(Vec::new());
                proof {
                    let n = pre.names@.len() as int;
                    assert(self.names@[n]@ == user@);
                    assert forall|u: Seq<char>|
                        #[trigger] self.has_user(u) == (pre.has_user(u) || u == user@) by {
                        if self.has_user(u) {
                            let a = choose|a: int|
                                0 <= a < self.names@.len() && self.names@[a]@ == u;
                            if a < n {
                                assert(pre.names@[a]@ == u);
                            }
                        }
                        if pre.has_user(u) {
                            let a = choose|a: int|
                                0 <= a < pre.names@.len() && pre.names@[a]@ == u;
                            assert(self.names@[a]@ == u);
                        }
                        if u == user@ {
                            assert(self.names@[n]@ == u);
                        }
                    }
                    assert(self.wf()) by {
                        assert forall|a: int, b: int|
                            #![trigger self.names@[a]@, self.names@[b]@]
                            0 <= a < b < self.names@.len() implies self.names@[a]@
                            != self.names@[b]@ by {
                            if b == n {
                                if self.names@[a]@ == user@ {
                                    assert(pre.names@[a]@ == user@);
                                    assert(pre.has_user(user@));
                                }
                            } else {
                                assert(pre.names@[a]@ == self.names@[a]@ && pre.names@[b]@
                                    == self.names@[b]@);
                            }
                        }
                        assert forall|i: int, a: int|
                            0 <= i < self.data@.len() && 0 <= a
                                < self.data@[i].following@.len() implies seq_has_str(
                            self.names@,
                            (#[trigger] self.data@[i].following@[a])@,
                        ) by {
                            if i < n {
                                assert(self.data@[i] == pre.data@[i]);
                                assert(seq_has_str(pre.names@, pre.data@[i].following@[a]@));
                                let x = choose|x: int|
                                    0 <= x < pre.names@.len() && pre.names@[x]@ == pre.data@[
                                    i].following@[a]@;
                                assert(self.names@[x]@ == self.data@[i].following@[a]@);
                            }
                        }
                    }
                    self.lemma_idx(user@);
                    assert(self.idx_of(user@) == n);
                    assert(self.tribs_of(user@) =~= Seq::<TribV>::empty());
                    assert(self.home_of(user@) =~= Seq::<TribV>::empty());
                    assert forall|u: Seq<char>, w: Seq<char>|
                        #[trigger] self.follows(u, w) == pre.follows(u, w) by {
                        if pre.has_user(u) {
                            pre.lemma_idx(u);
                            self.lemma_idx(u);
                            assert(self.names@[pre.idx_of(u)]@ == u);
                            assert(self.idx_of(u) == pre.idx_of(u));
                        } else if self.has_user(u) && u != user@ {
                            assert(pre.has_user(u));
                        } else if u == user@ && !pre.has_user(u) {
                            assert(self.data@[n].following@.len() == 0);
                        }
                    }
                    assert forall|u: Seq<char>|
                        u != user@ && pre.has_user(u) implies #[trigger] self.tribs_of(u)
                        == pre.tribs_of(u) && self.home_of(u) == pre.home_of(u)
                        && self.seq_tribs_of(u) == pre.seq_tribs_of(u) by {
                        pre.lemma_idx(u);
                        self.lemma_idx(u);
                        assert(self.names@[pre.idx_of(u)]@ == u);
                        assert(self.idx_of(u) == pre.idx_of(u));
                    }
                }
                Ok(())
            },
        }
    }

    /// Whether `who` follows `whom`; both must exist and differ.
    pub fn is_following(&self, who: &str, whom: &str) -> (r: Result<bool, TribError>)
        requires
            self.wf(),
        ensures
            who@ == whom@ ==> crate::front::is_who_whom(r, who@),
            who@ != whom@ && !self.has_user(whom@) ==> crate::front::is_user_does_not_exist(
                r,
                whom@,
            ),
            who@ != whom@ && self.has_user(whom@) && !self.has_user(who@)
                ==> crate::front::is_user_does_not_exist(r, who@),
            who@ != whom@ && self.has_user(whom@) && self.has_user(who@) ==> r == Ok::<
                bool,
                TribError,
            >(self.follows(who@, whom@)),
    {
        if eq_str(who, whom) {
            return Err(TribError::WhoWhom(who.to_owned()));
        }
        if self.find(whom).is_none() {
            return Err(TribError::UserDoesNotExist(whom.to_owned()));
        }
        match self.find(who) {
            Some(i) => Ok(self.data[i].is_following(whom)),
            None => Err(TribError::UserDoesNotExist(who.to_owned())),
        }
    }

    /// Everyone `who` follows, in the order the relations were recorded.
    pub fn following(&self, who: &str) -> (r: Result<Vec<String>, TribError>)
        requires
            self.wf(),
        ensures
            !self.has_user(who@) ==> crate::front::is_user_does_not_exist(r, who@),
            self.has_user(who@) ==> (match r {
                Ok(v) => forall|w: Seq<char>|
                    #[trigger] seq_has_str(v@, w) == self.follows(who@, w),
                Err(_) => false,
            }),
    {
        match self.find(who) {
            Some(i) => {
                let v = self.data[i].list_following();
                proof {
                    assert forall|w: Seq<char>|
                        #[trigger] seq_has_str(v@, w) == self.follows(who@, w) by {
                        crate::strutil::lemma_seq_has_dvs(v@, w);
                        crate::strutil::lemma_seq_has_dvs(self.data@[i as int].following@, w);
                    }
                }
                Ok(v)
            },
            None => Err(TribError::UserDoesNotExist(who.to_owned())),
        }
    }
}


impl Default for FrontServer {
    /// The same empty server [`FrontServer::new`] builds.
    fn default() -> (r: Self)
        ensures
            r.wf(),
            forall|u: Seq<char>| !(#[trigger] r.has_user(u)),
            r.seq_of() == 0,
    {
        Self::new()
    }
}

/// Copies a vector of recorded posts.
fn clone_vec_seqtrib(v: &Vec<SeqTrib>) -> (r: Vec<SeqTrib>)
    ensures
        dvs(r@) == dvs(v@),
{
    let mut r: Vec<SeqTrib> = Vec::new();
    let mut i: usize = 0;
    while i < v.len()
        invariant
            i <= v@.len(),
            r@.len() == i,
            forall|a: int| 0 <= a < i ==> (#[trigger] r@[a]).deep_view() == v@[a].deep_view(),
        decreases v@.len() - i,
    {
        let e = &v[i];
        r.push(SeqTrib { seq: e.seq, trib: e.trib.clone_trib() });
        i += 1;
    }
    proof {
        assert(dvs(r@) =~= dvs(v@));
    }
    r
}

impl FrontServer {
    /// The recorded posts of the listed users, one user after another;
    /// an unregistered name contributes nothing.
    pub closed spec fn st_concat(self, fl: Seq<Seq<char>>) -> Seq<SeqTribV>
        decreases fl.len(),
    {
        if fl.len() == 0 {
            Seq::empty()
        } else {
            self.st_concat(fl.drop_last()) + (if self.has_user(fl.last()) {
                self.seq_tribs_of(fl.last())
            } else {
                Seq::empty()
            })
        }
    }

    /// Rebuilds the home timeline of the user in row `i`: their own
    /// recorded posts and their followees', merged into sequence order.
    pub fn rebuild_home(&self, i: usize) -> (r: Vec<Trib>)
        requires
            self.wf(),
            i < self.n_users(),
        ensures
            exists|sts: Seq<SeqTribV>|
                sorted_by(sts, stv_le_f()) && #[trigger] sts.to_multiset() == (self.row_seq_tribs(
                    i as int,
                ) + self.st_concat(self.row_following(i as int))).to_multiset() && dvs(r@)
                    == sts.map_values(|s: SeqTribV| s.trib),
    {
        let mut pool = clone_vec_seqtrib(&self.data[i].seq_tribs);
        let fl = &self.data[i].following;
        let ghost flv = dvs(fl@);
        let mut k: usize = 0;
        proof {
            assert(flv.take(0) =~= Seq::<Seq<char>>::empty());
            assert(dvs(pool@) =~= dvs(self.data@[i as int].seq_tribs@) + self.st_concat(
                flv.take(0),
            ));
        }
        while k < fl.len()
            invariant
                k <= fl@.len(),
                self.wf(),
                i < self.names@.len(),
                fl == self.data@[i as int].following,
                flv == dvs(fl@),
                forall|a: int| 0 <= a < fl@.len() ==> (#[trigger] fl@[a])@ == flv[a],
                dvs(pool@) == dvs(self.data@[i as int].seq_tribs@) + self.st_concat(
                    flv.take(k as int),
                ),
            decreases fl@.len() - k,
        {
            let ghost pp = dvs(pool@);
            proof {
                assert(seq_has_str(self.names@, fl@[k as int]@));
                assert(self.has_user(flv[k as int]));
                assert(flv.take(k + 1).drop_last() =~= flv.take(k as int));
                assert(flv.take(k + 1).last() == flv[k as int]);
            }
            match self.find(fl[k].as_str()) {
                Some(j) => {
                    let mut more = clone_vec_seqtrib(&self.data[j].seq_tribs);
                    pool.append(&mut more);
                    proof {
                        self.lemma_idx(flv[k as int]);
                        assert(dvs(pool@) =~= pp + self.seq_tribs_of(flv[k as int]));
                    }
                },
                None => {
                    proof {
                        assert(false);
                    }
                },
            }
            k += 1;
        }
        proof {
            assert(flv.take(flv.len() as int) =~= flv);
            lemma_stv_le_total_ordering();
        }
        let le = |a: &SeqTrib, b: &SeqTrib| -> (rr: bool)
            ensures
                rr == stv_le(a.deep_view(), b.deep_view()),
            {
                if a.seq != b.seq {
                    a.seq < b.seq
                } else {
                    trib_le_exec(&a.trib, &b.trib)
                }
            };
        insertion_sort::<SeqTrib, _>(&mut pool, Ghost(stv_le_f()), le);
        let ghost sts = dvs(pool@);
        let mut out: Vec<Trib> = Vec::new();
        let mut m: usize = 0;
        while m < pool.len()
            invariant
                m <= pool@.len(),
                sts == dvs(pool@),
                out@.len() == m,
                forall|a: int|
                    0 <= a < m ==> (#[trigger] out@[a]).deep_view() == pool@[a].trib.deep_view(),
            decreases pool@.len() - m,
        {
            out.push(pool[m].trib.clone_trib());
            m += 1;
        }
        proof {
            assert(dvs(out@) =~= sts.map_values(|s: SeqTribV| s.trib));
        }
        out
    }

    /// Makes `who` follow `whom` and rebuilds `who`'s home timeline.
    pub fn follow(&mut self, who: &str, whom: &str) -> (r: Result<(), TribError>)
        requires
            old(self).wf(),
        ensures
            final(self).wf(),
            who@ == whom@ ==> crate::front::is_who_whom(r, who@) && *final(self) == *old(self),
            who@ != whom@ && !old(self).has_user(whom@)
                ==> crate::front::is_user_does_not_exist(r, who@) && *final(self) == *old(self),
            who@ != whom@ && old(self).has_user(whom@) && !old(self).has_user(who@)
                ==> crate::front::is_user_does_not_exist(r, who@) && *final(self) == *old(self),
            who@ != whom@ && old(self).has_user(whom@) && old(self).has_user(who@) && old(
                self,
            ).follows(who@, whom@) ==> crate::front::is_already_following(r, who@, whom@)
                && *final(self) == *old(self),
            who@ != whom@ && old(self).has_user(whom@) && old(self).has_user(who@) && !old(
                self,
            ).follows(who@, whom@) && old(self).n_following(who@) >= MAX_FOLLOWING as nat ==> r
                == Err::<(), TribError>(TribError::FollowingTooMany) && *final(self) == *old(self),
            (who@ != whom@ && old(self).has_user(whom@) && old(self).has_user(who@) && !old(
                self,
            ).follows(who@, whom@) && old(self).n_following(who@) < MAX_FOLLOWING as nat) ==> {
                &&& r is Ok
                &&& forall|u: Seq<char>| #[trigger] final(self).has_user(u) == old(self).has_user(u)
                &&& forall|u: Seq<char>, w: Seq<char>|
                    #[trigger] final(self).follows(u, w) == (old(self).follows(u, w) || (u == who@
                        && w == whom@))
                &&& forall|u: Seq<char>|
                    old(self).has_user(u) ==> #[trigger] final(self).tribs_of(u) == old(
                        self,
                    ).tribs_of(u)
                &&& final(self).seq_of() == old(self).seq_of()
            },
    {
        if eq_str(who, whom) {
            return Err(TribError::WhoWhom(who.to_owned()));
        }
        if self.find(whom).is_none() {
            return Err(TribError::UserDoesNotExist(who.to_owned()));
        }
        let i = match self.find(who) {
            Some(i) => i,
            None => {
                return Err(TribError::UserDoesNotExist(who.to_owned()));
            },
        };
        if self.data[i].is_following(whom) {
            return Err(TribError::AlreadyFollowing(who.to_owned(), whom.to_owned()));
        }
        if self.data[i].following.len() >= MAX_FOLLOWING {
            return Err(TribError::FollowingTooMany);
        }
        let ghost pre = *self;
        self.data[i].follow(whom);
        proof {
            assert forall|a: int|
                0 <= a < self.data@[i as int].following@.len() implies seq_has_str(
                pre.names@,
                (#[trigger] self.data@[i as int].following@[a])@,
            ) || self.data@[i as int].following@[a]@ == whom@ by {
                let x = self.data@[i as int].following@[a]@;
                assert(seq_has_str(self.data@[i as int].following@, x)) by {
                    assert(self.data@[i as int].following@[a]@ == x);
                }
                if x != whom@ {
                    assert(seq_has_str(pre.data@[i as int].following@, x));
                    let b = choose|b: int|
                        0 <= b < pre.data@[i as int].following@.len() && pre.data@[
                        i as int].following@[b]@ == x;
                }
            }
            Self::lemma_row_update(pre, *self, i as int, who@, whom@);
        }
        let j = match self.find(whom) {
            Some(j) => j,
            None => {
                proof {
                    assert(false);
                }
                return Err(TribError::UserDoesNotExist(whom.to_owned()));
            },
        };
        let ghost mid = *self;
        self.data[j].add_follower(who);
        proof {
            Self::lemma_row_update(mid, *self, j as int, who@, whom@);
        }
        let hb = self.rebuild_home(i);
        let ghost mid2 = *self;
        self.homes[i] = hb;
        proof {
            assert(self.names@ == mid2.names@ && self.data@ == mid2.data@);
        }
        Ok(())
    }

    /// After one user's row changed without touching its name, the user
    /// set is unchanged, rows keep their indices, and only that row's
    /// relations and posts may differ.
    proof fn lemma_row_update(
        pre: FrontServer,
        post: FrontServer,
        i: int,
        who: Seq<char>,
        whom: Seq<char>,
    )
        requires
            pre.wf(),
            post.names@ == pre.names@,
            post.homes@ == pre.homes@,
            post.seq == pre.seq,
            0 <= i < pre.data@.len(),
            post.data@ == pre.data@.update(i, post.data@[i]),
            post.data@[i].wf(),
            forall|a: int|
                0 <= a < post.data@[i].following@.len() ==> seq_has_str(
                    pre.names@,
                    (#[trigger] post.data@[i].following@[a])@,
                ) || post.data@[i].following@[a]@ == whom,
            pre.has_user(whom),
        ensures
            post.wf(),
            forall|u: Seq<char>| #[trigger] post.has_user(u) == pre.has_user(u),
            forall|u: Seq<char>| pre.has_user(u) ==> #[trigger] post.idx_of(u) == pre.idx_of(u),
    {
        assert(post.wf()) by {
            assert forall|r: int, a: int|
                0 <= r < post.data@.len() && 0 <= a
                    < post.data@[r].following@.len() implies seq_has_str(
                post.names@,
                (#[trigger] post.data@[r].following@[a])@,
            ) by {
                if r != i {
                    assert(post.data@[r] == pre.data@[r]);
                }
            }
            assert forall|r: int| 0 <= r < post.data@.len() implies (
            #[trigger] post.data@[r]).wf() by {
                if r != i {
                    assert(post.data@[r] == pre.data@[r]);
                }
            }
        }
        assert forall|u: Seq<char>|
            pre.has_user(u) implies #[trigger] post.idx_of(u) == pre.idx_of(u) by {
            pre.lemma_idx(u);
            post.lemma_idx(u);
        }
    }

    /// Makes `who` stop following `whom` and rebuilds `who`'s home
    /// timeline.
    pub fn unfollow(&mut self, who: &str, whom: &str) -> (r: Result<(), TribError>)
        requires
            old(self).wf(),
        ensures
            final(self).wf(),
            who@ == whom@ ==> crate::front::is_who_whom(r, who@) && *final(self) == *old(self),
            who@ != whom@ && !old(self).has_user(whom@)
                ==> crate::front::is_user_does_not_exist(r, whom@) && *final(self) == *old(self),
            who@ != whom@ && old(self).has_user(whom@) && !old(self).has_user(who@)
                ==> crate::front::is_user_does_not_exist(r, whom@) && *final(self) == *old(self),
            who@ != whom@ && old(self).has_user(whom@) && old(self).has_user(who@) && !old(
                self,
            ).follows(who@, whom@) ==> crate::front::is_not_following(r, who@, whom@)
                && *final(self) == *old(self),
            (who@ != whom@ && old(self).has_user(whom@) && old(self).has_user(who@) && old(
                self,
            ).follows(who@, whom@)) ==> {
                &&& r is Ok
                &&& forall|u: Seq<char>| #[trigger] final(self).has_user(u) == old(self).has_user(u)
                &&& forall|u: Seq<char>, w: Seq<char>|
                    #[trigger] final(self).follows(u, w) == (old(self).follows(u, w) && !(u == who@
                        && w == whom@))
                &&& forall|u: Seq<char>|
                    old(self).has_user(u) ==> #[trigger] final(self).tribs_of(u) == old(
                        self,
                    ).tribs_of(u)
                &&& final(self).seq_of() == old(self).seq_of()
            },
    {
        if eq_str(who, whom) {
            return Err(TribError::WhoWhom(who.to_owned()));
        }
        if self.find(whom).is_none() {
            return Err(TribError::UserDoesNotExist(whom.to_owned()));
        }
        let i = match self.find(who) {
            Some(i) => i,
            None => {
                return Err(TribError::UserDoesNotExist(whom.to_owned()));
            },
        };
        if !self.data[i].is_following(whom) {
            return Err(TribError::NotFollowing(who.to_owned(), whom.to_owned()));
        }
        let ghost pre = *self;
        self.data[i].unfollow(whom);
        proof {
            assert forall|a: int|
                0 <= a < self.data@[i as int].following@.len() implies seq_has_str(
                pre.names@,
                (#[trigger] self.data@[i as int].following@[a])@,
            ) || self.data@[i as int].following@[a]@ == whom@ by {
                let x = self.data@[i as int].following@[a]@;
                assert(seq_has_str(self.data@[i as int].following@, x)) by {
                    assert(self.data@[i as int].following@[a]@ == x);
                }
                if x != whom@ {
                    assert(seq_has_str(pre.data@[i as int].following@, x));
                    let b = choose|b: int|
                        0 <= b < pre.data@[i as int].following@.len() && pre.data@[
                        i as int].following@[b]@ == x;
                }
            }
            Self::lemma_row_update(pre, *self, i as int, who@, whom@);
        }
        let j = match self.find(whom) {
            Some(j) => j,
            None => {
                proof {
                    assert(false);
                }
                return Err(TribError::UserDoesNotExist(whom.to_owned()));
            },
        };
        let ghost mid = *self;
        self.data[j].remove_follower(who);
        proof {
            Self::lemma_row_update(mid, *self, j as int, who@, whom@);
        }
        let hb = self.rebuild_home(i);
        let ghost mid2 = *self;
        self.homes[i] = hb;
        proof {
            assert(self.names@ == mid2.names@ && self.data@ == mid2.data@);
        }
        Ok(())
    }
}


impl FrontServer {
    /// Stores a post by `who`: orders it with the next sequence value (at
    /// least `clock`), stamps it with the wall clock, and appends it to
    /// `who`'s record and to the home timelines of `who` and all their
    /// followers.
    pub fn post(&mut self, who: &str, msg: &str, clock: u64) -> (r: Result<(), TribError>)
        requires
            old(self).wf(),
            vstd::utf8::encode_utf8(msg@).len() <= usize::MAX,
        ensures
            final(self).wf(),
            vstd::utf8::encode_utf8(msg@).len() > MAX_TRIB_LEN as nat ==> r == Err::<
                (),
                TribError,
            >(TribError::TribTooLong) && *final(self) == *old(self),
            vstd::utf8::encode_utf8(msg@).len() <= MAX_TRIB_LEN as nat && !old(self).has_user(
                who@,
            ) ==> crate::front::is_user_does_not_exist(r, who@) && *final(self) == *old(self),
            vstd::utf8::encode_utf8(msg@).len() <= MAX_TRIB_LEN as nat && old(self).has_user(who@)
                && (old(self).seq_of() == u64::MAX || clock == u64::MAX) ==> r == Err::<
                (),
                TribError,
            >(TribError::MaxedSeq) && *final(self) == *old(self),
            (vstd::utf8::encode_utf8(msg@).len() <= MAX_TRIB_LEN as nat && old(self).has_user(
                who@,
            ) && old(self).seq_of() < u64::MAX && clock < u64::MAX) ==> {
                let s = if clock > old(self).seq_of() {
                    clock
                } else {
                    old(self).seq_of()
                };
                &&& r is Ok
                &&& final(self).seq_of() == s + 1
                &&& forall|u: Seq<char>| #[trigger] final(self).has_user(u) == old(self).has_user(u)
                &&& forall|u: Seq<char>, w: Seq<char>|
                    #[trigger] final(self).follows(u, w) == old(self).follows(u, w)
                &&& exists|tv: TribV|
                    tv.user == who@ && tv.message == msg@ && tv.clock == s && final(self).tribs_of(
                        who@,
                    ) == #[trigger] old(self).tribs_of(who@).push(tv)
                &&& forall|u: Seq<char>|
                    u != who@ && old(self).has_user(u) ==> #[trigger] final(self).tribs_of(u)
                        == old(self).tribs_of(u)
            },
    {
        if msg.len() > MAX_TRIB_LEN {
            return Err(TribError::TribTooLong);
        }
        let i = match self.find(who) {
            Some(i) => i,
            None => {
                return Err(TribError::UserDoesNotExist(who.to_owned()));
            },
        };
        if self.seq == u64::MAX || clock == u64::MAX {
            return Err(TribError::MaxedSeq);
        }
        if self.seq < clock {
            self.seq = clock;
        }
        let s = self.seq;
        self.seq = s + 1;
        let time = crate::front::FrontendServer::now_secs();
        let ghost pre = *self;
        let t = self.data[i].post(who, msg, s, time);
        proof {
            assert forall|a: int|
                0 <= a < self.data@[i as int].following@.len() implies seq_has_str(
                pre.names@,
                (#[trigger] self.data@[i as int].following@[a])@,
            ) || self.data@[i as int].following@[a]@ == who@ by {
                assert(self.data@[i as int].following@[a]@ == pre.data@[i as int].following@[a]@);
            }
            Self::lemma_row_update(pre, *self, i as int, who@, who@);
        }
        let ghost mid = *self;
        let mut j: usize = 0;
        while j < self.homes.len()
            invariant
                j <= self.homes@.len(),
                self.wf(),
                i < self.names@.len(),
                self.names@ == mid.names@,
                self.data@ == mid.data@,
                self.seq == mid.seq,
                self.homes@.len() == mid.homes@.len(),
            decreases self.homes@.len() - j,
        {
            let mine = j == i;
            let follower = vec_has_str(&self.data[i].followers, self.names[j].as_str());
            if mine || follower {
                let ghost hs = *self;
                self.homes[j].push(t.clone_trib());
                proof {
                    assert(self.names@ == hs.names@ && self.data@ == hs.data@);
                }
            }
            j += 1;
        }
        proof {
            assert forall|u: Seq<char>|
                #[trigger] self.has_user(u) == old(self).has_user(u) by {}
            assert(self.tribs_of(who@) == old(self).tribs_of(who@).push(
                (TribV { user: who@, message: msg@, time, clock: s }),
            )) by {
                old(self).lemma_idx(who@);
                self.lemma_idx(who@);
            }
            assert forall|u: Seq<char>|
                u != who@ && old(self).has_user(u) implies #[trigger] self.tribs_of(u) == old(
                self,
            ).tribs_of(u) by {
                old(self).lemma_idx(u);
                self.lemma_idx(u);
                assert(self.idx_of(u) == old(self).idx_of(u));
                assert(self.idx_of(u) != i as int);
            }
            assert forall|u: Seq<char>, w: Seq<char>|
                #[trigger] self.follows(u, w) == old(self).follows(u, w) by {
                if old(self).has_user(u) {
                    old(self).lemma_idx(u);
                    self.lemma_idx(u);
                    if old(self).idx_of(u) == i as int {
                        assert(self.data@[i as int].following == pre.data@[i as int].following);
                    }
                }
            }
        }
        Ok(())
    }

    /// The newest stored posts of `user`, at most `MAX_TRIB_FETCH`.
    pub fn tribs(&self, user: &str) -> (r: Result<Vec<Trib>, TribError>)
        requires
            self.wf(),
        ensures
            !self.has_user(user@) ==> crate::front::is_user_does_not_exist(r, user@),
            self.has_user(user@) ==> (match r {
                Ok(v) => dvs(v@) == self.tribs_of(user@).skip(
                    crate::front::gc_k(self.tribs_of(user@).len()) as int,
                ) && v@.len() <= MAX_TRIB_FETCH,
                Err(_) => false,
            }),
    {
        match self.find(user) {
            Some(i) => {
                let v = self.data[i].list_tribs();
                proof {
                    assert(self.tribs_of(user@) == dvs(self.data@[i as int].tribs@));
                    assert(dvs(v@).len() == v@.len());
                }
                Ok(v)
            },
            None => Err(TribError::UserDoesNotExist(user.to_owned())),
        }
    }

    /// The stored home timeline of `user`, truncated to the newest
    /// `MAX_TRIB_FETCH`.
    pub fn home(&self, user: &str) -> (r: Result<Vec<Trib>, TribError>)
        requires
            self.wf(),
        ensures
            !self.has_user(user@) ==> crate::front::is_user_does_not_exist(r, user@),
            self.has_user(user@) ==> (match r {
                Ok(v) => dvs(v@) == self.home_of(user@).skip(
                    crate::front::gc_k(self.home_of(user@).len()) as int,
                ) && v@.len() <= MAX_TRIB_FETCH,
                Err(_) => false,
            }),
    {
        match self.find(user) {
            Some(i) => {
                let h = &self.homes[i];
                let n = h.len();
                let start = if n > MAX_TRIB_FETCH {
                    n - MAX_TRIB_FETCH
                } else {
                    0
                };
                let mut v: Vec<Trib> = Vec::new();
                let mut m: usize = start;
                while m < n
                    invariant
                        start <= m <= n,
                        n == h@.len(),
                        v@.len() == m - start,
                        forall|a: int|
                            0 <= a < v@.len() ==> (#[trigger] v@[a]).deep_view() == h@[start
                                + a].deep_view(),
                    decreases n - m,
                {
                    v.push(h[m].clone_trib());
                    m += 1;
                }
                proof {
                    assert(dvs(v@) =~= dvs(h@).skip(start as int));
                }
                Ok(v)
            },
            None => Err(TribError::UserDoesNotExist(user.to_owned())),
        }
    }

    /// The first registered user names, alphabetically, at most
    /// `MIN_LIST_USER` of them.
    pub fn list_users(&self) -> (r: Result<Vec<String>, TribError>)
        requires
            self.wf(),
        ensures
            match r {
                Ok(us) => {
                    &&& forall|a: int, b: int|
                        #![trigger us@[a]@, us@[b]@]
                        0 <= a < b < us@.len() ==> lex_lt(us@[a]@, us@[b]@)
                    &&& us@.len() <= MIN_LIST_USER
                    &&& exists|allu: Seq<Seq<char>>|
                        {
                            &&& (forall|a: int, b: int|
                                0 <= a < b < allu.len() ==> lex_lt(
                                    #[trigger] allu[a],
                                    #[trigger] allu[b],
                                ))
                            &&& (forall|u: Seq<char>|
                                #[trigger] allu.contains(u) == self.has_user(u))
                            &&& dvs(us@) == allu.take(
                                if allu.len() > MIN_LIST_USER as nat {
                                    MIN_LIST_USER as int
                                } else {
                                    allu.len() as int
                                },
                            )
                        }
                },
                Err(_) => false,
            },
    {
        let mut us = crate::strutil::clone_vec_str(&self.names);
        let ghost pren = dvs(us@);
        let le = |a: &String, b: &String| -> (rr: bool)
            ensures
                rr == lex_le(a.deep_view(), b.deep_view()),
            { str_le(a.as_str(), b.as_str()) };
        proof {
            crate::strutil::lemma_lex_le_total_ordering();
        }
        insertion_sort::<String, _>(&mut us, Ghost(crate::strutil::lex_le_f()), le);
        let ghost allu = dvs(us@);
        proof {
            broadcast use vstd::seq_lib::group_to_multiset_ensures;

            assert(pren.no_duplicates()) by {
                assert forall|a: int, b: int|
                    0 <= a < pren.len() && 0 <= b < pren.len() && a != b implies pren[a]
                    != pren[b] by {
                    assert(pren[a] == self.names@[a]@ && pren[b] == self.names@[b]@);
                }
            }
            pren.lemma_multiset_has_no_duplicates();
            allu.lemma_multiset_has_no_duplicates_conv();
            assert forall|u: Seq<char>| #[trigger] allu.contains(u) == self.has_user(u) by {
                assert(allu.contains(u) == pren.contains(u)) by {
                    assert(pren.to_multiset() == allu.to_multiset());
                    assert(pren.contains(u) <==> pren.to_multiset().count(u) > 0);
                    assert(allu.contains(u) <==> allu.to_multiset().count(u) > 0);
                }
                assert(pren.contains(u) == self.has_user(u)) by {
                    if pren.contains(u) {
                        let a = choose|a: int| 0 <= a < pren.len() && pren[a] == u;
                        assert(self.names@[a]@ == u);
                    }
                    if self.has_user(u) {
                        let a = choose|a: int|
                            0 <= a < self.names@.len() && self.names@[a]@ == u;
                        assert(pren[a] == u);
                    }
                }
            }
            assert forall|a: int, b: int|
                0 <= a < b < allu.len() implies lex_lt(#[trigger] allu[a], #[trigger] allu[b]) by {
                assert(crate::strutil::lex_le_f()(allu[a], allu[b]));
            }
        }
        let mut out = us;
        if out.len() > MIN_LIST_USER {
            out.truncate(MIN_LIST_USER);
            proof {
                assert(dvs(out@) =~= allu.take(MIN_LIST_USER as int)) by {
                    assert forall|a: int|
                        0 <= a < out@.len() implies #[trigger] dvs(out@)[a] == allu.take(
                        MIN_LIST_USER as int,
                    )[a] by {
                        assert(out@[a].deep_view() == allu[a]);
                    }
                }
            }
        } else {
            proof {
                assert(allu.take(allu.len() as int) =~= allu);
            }
        }
        proof {
            assert forall|a: int, b: int|
                #![trigger out@[a]@, out@[b]@]
                0 <= a < b < out@.len() implies lex_lt(out@[a]@, out@[b]@) by {
                assert(dvs(out@)[a] == out@[a]@ && dvs(out@)[b] == out@[b]@);
                assert(lex_lt(allu[a], allu[b]));
            }
        }
        Ok(out)
    }
}


} // verus!
