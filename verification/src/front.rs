//! The front-end server: social-graph operations over sharded bins.
//!
//! Every operation validates user names and signup state first, then
//! works through per-user bins.  The general bin (of the empty name)
//! holds one `signup_<user>` key per registered user and a capped cache
//! of the first user names; each user's own bin holds the list `tribs`
//! of that user's stored posts and the append-only list `log` of follow
//! and unfollow records, replayed on every read.

use vstd::prelude::*;
use vstd::hash_set::StringHashSet;
use crate::bin_client::{spec_route, BinStorageClient};
use crate::bin_user_client::{phys_key, BinUserClient};
use crate::codec::spec_encode_trib;
use crate::colon::{lemma_escape_colon_free, spec_escape};
use crate::digits::spec_dec;
use crate::err::TribError;
use crate::storage::{KeyValue, MemStorage, Pattern};
use crate::strutil::{lex_lt};
use crate::trib::{is_valid_username, valid_username, Trib, TribV, MAX_FOLLOWING, MAX_TRIB_FETCH, MAX_TRIB_LEN, MIN_LIST_USER};

verus! {

/// The characters of the signup key prefix.
pub open spec fn s_signup() -> Seq<char> {
    seq!['s', 'i', 'g', 'n', 'u', 'p', '_']
}

/// The physical key that records that `u` signed up.
pub open spec fn k_signup(u: Seq<char>) -> Seq<char> {
    seq![':', ':'] + s_signup() + u
}

/// The physical key of the user-list cache in the general bin.
pub open spec fn k_cache() -> Seq<char> {
    seq![':', ':', 'c', 'a', 'c', 'h', 'e']
}

/// The physical key of `u`'s stored posts.
pub open spec fn k_tribs(u: Seq<char>) -> Seq<char> {
    u + seq![':', ':', 't', 'r', 'i', 'b', 's']
}

/// The physical key of `u`'s follow log.
pub open spec fn k_log(u: Seq<char>) -> Seq<char> {
    u + seq![':', ':', 'l', 'o', 'g']
}

/// The separator written between the clock and the target of a follow
/// record.
pub open spec fn sep_follow() -> Seq<char> {
    seq![':', ':', 'f', 'o', 'l', 'l', 'o', 'w', ':', ':']
}

/// The separator of an unfollow record.
pub open spec fn sep_unfollow() -> Seq<char> {
    seq![':', ':', 'u', 'n', 'f', 'o', 'l', 'l', 'o', 'w', ':', ':']
}

/// One log record: the clock in canonical decimal, the kind, the target.
pub open spec fn log_entry(c: u64, f: bool, w: Seq<char>) -> Seq<char> {
    spec_dec(c as nat) + (if f {
        sep_follow()
    } else {
        sep_unfollow()
    }) + w
}

/// Whether `s` reads as the log record `(c, f, w)` for a valid target.
pub open spec fn is_log_entry(s: Seq<char>, c: u64, f: bool, w: Seq<char>) -> bool {
    s == log_entry(c, f, w) && valid_username(w)
}

/// The record a well-formed log entry carries.
pub open spec fn ev_of_entry(s: Seq<char>) -> (u64, bool, Seq<char>) {
    choose|c: u64, f: bool, w: Seq<char>| is_log_entry(s, c, f, w)
}

/// Whether `s` is a well-formed log entry at all.
pub open spec fn wf_log_entry(s: Seq<char>) -> bool {
    exists|c: u64, f: bool, w: Seq<char>| is_log_entry(s, c, f, w)
}

/// One replay step: a follow inserts the target if it is new and the set
/// is not full; an unfollow removes it.  Anything unreadable is skipped.
pub open spec fn apply_log_entry(fs: Set<Seq<char>>, s: Seq<char>) -> Set<Seq<char>> {
    if wf_log_entry(s) {
        let (c, f, w) = ev_of_entry(s);
        if f {
            if !fs.contains(w) && fs.len() < MAX_FOLLOWING as nat {
                fs.insert(w)
            } else {
                fs
            }
        } else {
            fs.remove(w)
        }
    } else {
        fs
    }
}

/// The followee set a log determines, replayed from the start.
pub open spec fn replay(entries: Seq<Seq<char>>) -> Set<Seq<char>>
    decreases entries.len(),
{
    if entries.len() == 0 {
        Set::empty()
    } else {
        apply_log_entry(replay(entries.drop_last()), entries.last())
    }
}

/// A replayed followee set is finite and never exceeds the follow cap.
pub proof fn lemma_replay_bounds(entries: Seq<Seq<char>>)
    ensures
        replay(entries).finite(),
        replay(entries).len() <= MAX_FOLLOWING as nat,
    decreases entries.len(),
{
    broadcast use vstd::set::group_set_axioms;

    if entries.len() > 0 {
        lemma_replay_bounds(entries.drop_last());
    }
}

/// Reading a log entry is unambiguous: one string, one record.
pub proof fn lemma_log_entry_unique(
    s: Seq<char>,
    c1: u64,
    f1: bool,
    w1: Seq<char>,
    c2: u64,
    f2: bool,
    w2: Seq<char>,
)
    requires
        is_log_entry(s, c1, f1, w1),
        is_log_entry(s, c2, f2, w2),
    ensures
        c1 == c2,
        f1 == f2,
        w1 == w2,
{
    let a1 = spec_dec(c1 as nat);
    let a2 = spec_dec(c2 as nat);
    crate::digits::lemma_dec_shape(c1 as nat);
    crate::digits::lemma_dec_shape(c2 as nat);
    let p1 = if f1 {
        sep_follow()
    } else {
        sep_unfollow()
    };
    let p2 = if f2 {
        sep_follow()
    } else {
        sep_unfollow()
    };
    assert(a1.len() == a2.len()) by {
        if a1.len() < a2.len() {
            assert(s[a1.len() as int] == p1[0]);
            assert(s[a1.len() as int] == a2[a1.len() as int]);
            assert(crate::digits::is_digit(a2[a1.len() as int]));
        }
        if a2.len() < a1.len() {
            assert(s[a2.len() as int] == p2[0]);
            assert(s[a2.len() as int] == a1[a2.len() as int]);
            assert(crate::digits::is_digit(a1[a2.len() as int]));
        }
    }
    assert(a1 == a2) by {
        assert forall|q: int| 0 <= q < a1.len() implies a1[q] == a2[q] by {
            assert(s[q] == a1[q]);
            assert(s[q] == a2[q]);
        }
        assert(a1 =~= a2);
    }
    crate::digits::lemma_dec_injective(c1 as nat, c2 as nat);
    assert(f1 == f2) by {
        if f1 != f2 {
            assert(s[a1.len() as int + 2] == p1[2]);
            assert(s[a1.len() as int + 2] == p2[2]);
        }
    }
    assert(w1 == w2) by {
        assert(p1 == p2);
        assert(s.len() == a1.len() + p1.len() + w1.len());
        assert(s.len() == a2.len() + p2.len() + w2.len());
        assert forall|q: int| 0 <= q < w1.len() implies w1[q] == w2[q] by {
            assert(s[a1.len() as int + p1.len() as int + q] == w1[q]);
            assert(s[a2.len() as int + p2.len() as int + q] == w2[q]);
        }
        assert(w1 =~= w2);
    }
}

/// Pins [`ev_of_entry`] to a known record.
pub proof fn lemma_ev_of_entry(s: Seq<char>, c: u64, f: bool, w: Seq<char>)
    requires
        is_log_entry(s, c, f, w),
    ensures
        wf_log_entry(s),
        ev_of_entry(s) == (c, f, w),
{
    assert(wf_log_entry(s));
    let (c2, f2, w2) = ev_of_entry(s);
    lemma_log_entry_unique(s, c2, f2, w2, c, f, w);
}

/// The trib a stored entry carries.
pub open spec fn trib_of_entry(s: Seq<char>) -> TribV {
    choose|t: TribV| valid_username(t.user) && s == spec_encode_trib(t)
}

/// Whether `s` is the stored form of some well-formed trib.
pub open spec fn wf_trib_entry(s: Seq<char>) -> bool {
    exists|t: TribV| valid_username(t.user) && s == spec_encode_trib(t)
}

/// Pins [`trib_of_entry`] to a known trib.
pub proof fn lemma_trib_of_entry(s: Seq<char>, t: TribV)
    requires
        valid_username(t.user),
        s == spec_encode_trib(t),
    ensures
        wf_trib_entry(s),
        trib_of_entry(s) == t,
{
    assert(wf_trib_entry(s));
    let t2 = trib_of_entry(s);
    crate::codec::lemma_encode_injective(t2, t);
}

/// What the cache list must look like: at most twenty entries, strictly
/// ascending, every one a signed-up valid user name.
pub open spec fn cache_ok(entries: Seq<Seq<char>>, signed: spec_fn(Seq<char>) -> bool) -> bool {
    &&& entries.len() <= crate::trib::MIN_LIST_USER as nat
    &&& forall|a: int, b: int|
        0 <= a < b < entries.len() ==> lex_lt(#[trigger] entries[a], #[trigger] entries[b])
    &&& forall|a: int|
        0 <= a < entries.len() ==> valid_username(#[trigger] entries[a]) && signed(entries[a])
}

/// What a stored trib list must look like: every entry the stored form of
/// a well-formed trib by `u`, clocks strictly ascending and at most the
/// back end's clock.
pub open spec fn tribs_ok(entries: Seq<Seq<char>>, u: Seq<char>, clk: u64) -> bool {
    &&& forall|a: int|
        0 <= a < entries.len() ==> wf_trib_entry(#[trigger] entries[a]) && trib_of_entry(
            entries[a],
        ).user == u
    &&& forall|a: int, b: int|
        0 <= a < b < entries.len() ==> trib_of_entry(#[trigger] entries[a]).clock < trib_of_entry(
            #[trigger] entries[b],
        ).clock
    &&& forall|a: int|
        0 <= a < entries.len() ==> trib_of_entry(#[trigger] entries[a]).clock <= clk
}

/// What a stored log must look like: every entry a well-formed record
/// about a registered user other than `u`, clocks strictly ascending and
/// at most the back end's clock.
pub open spec fn log_ok(
    entries: Seq<Seq<char>>,
    u: Seq<char>,
    clk: u64,
    signed: spec_fn(Seq<char>) -> bool,
) -> bool {
    &&& forall|a: int|
        0 <= a < entries.len() ==> wf_log_entry(#[trigger] entries[a]) && ev_of_entry(
            entries[a],
        ).2 != u && signed(ev_of_entry(entries[a]).2)
    &&& forall|a: int, b: int|
        0 <= a < b < entries.len() ==> ev_of_entry(#[trigger] entries[a]).0 < ev_of_entry(
            #[trigger] entries[b],
        ).0
    &&& forall|a: int|
        0 <= a < entries.len() ==> ev_of_entry(#[trigger] entries[a]).0 <= clk
}

/// The front-end server: it owns the router and, through it, the back
/// ends.
pub struct FrontendServer {
    pub bin_storage: BinStorageClient,
}

impl FrontendServer {
    /// How many back ends there are.
    pub open spec fn n_backs(self) -> int {
        self.bin_storage.backs@.len() as int
    }

    /// The back end that holds the bin of `name`.
    pub open spec fn back_of(self, name: Seq<char>) -> MemStorage {
        self.bin_storage.backs@[spec_route(name, self.n_backs())]
    }

    /// The back end of the general bin.
    pub open spec fn general(self) -> MemStorage {
        self.back_of(Seq::empty())
    }

    /// Whether `u` ever signed up.
    pub open spec fn signed_up(self, u: Seq<char>) -> bool {
        self.general().spec_get(k_signup(u)) is Some
    }

    /// `signed_up` as a function value.
    pub open spec fn signed_f(self) -> spec_fn(Seq<char>) -> bool {
        |u: Seq<char>| self.signed_up(u)
    }

    /// The user-list cache.
    pub open spec fn cache(self) -> Seq<Seq<char>> {
        self.general().spec_list(k_cache())
    }

    /// The stored posts of `u`, in storage order.
    pub open spec fn raw_tribs(self, u: Seq<char>) -> Seq<Seq<char>> {
        self.back_of(u).spec_list(k_tribs(u))
    }

    /// The follow log of `u`, in append order.
    pub open spec fn raw_log(self, u: Seq<char>) -> Seq<Seq<char>> {
        self.back_of(u).spec_list(k_log(u))
    }

    /// Who `u` follows right now: the replay of `u`'s log.
    pub open spec fn followees(self, u: Seq<char>) -> Set<Seq<char>> {
        replay(self.raw_log(u))
    }

    /// The posts of `u` as tribs, in storage order (which, by the clock
    /// invariant, is the canonical order).
    pub open spec fn trib_seq(self, u: Seq<char>) -> Seq<TribV> {
        Seq::new(self.raw_tribs(u).len(), |i: int| trib_of_entry(self.raw_tribs(u)[i]))
    }

    /// What every operation preserves.
    pub open spec fn wf(self) -> bool {
        &&& self.bin_storage.wf()
        &&& forall|i: int| 0 <= i < self.n_backs() ==> self.kv_ok(i)
        &&& forall|i: int| 0 <= i < self.n_backs() ==> self.lists_ok(i)
    }

    /// Every stored string key records a signup: `k_signup(u)` for a
    /// valid `u`, with the value `"T"`.
    pub open spec fn kv_ok(self, i: int) -> bool {
        forall|k: Seq<char>|
            (#[trigger] self.bin_storage.backs@[i].spec_get(k)) is Some ==> exists|u: Seq<char>|
                valid_username(u) && k == #[trigger] k_signup(u)
                    && self.bin_storage.backs@[i].spec_get(k) == Some(seq!['T'])
    }

    /// Every non-empty stored list is the cache, a trib list, or a log,
    /// on the back end its key routes to, with well-formed content.
    pub open spec fn lists_ok(self, i: int) -> bool {
        forall|k: Seq<char>|
            (#[trigger] self.bin_storage.backs@[i].spec_list(k)).len() > 0 ==> self.list_key_ok(
                i,
                k,
            )
    }

    pub open spec fn list_key_ok(self, i: int, k: Seq<char>) -> bool {
        ||| (k == k_cache() && i == spec_route(Seq::empty(), self.n_backs()) && cache_ok(
            self.bin_storage.backs@[i].spec_list(k),
            self.signed_f(),
        ))
        ||| (exists|u: Seq<char>|
            valid_username(u) && k == #[trigger] k_tribs(u) && i == spec_route(u, self.n_backs())
                && tribs_ok(
                self.bin_storage.backs@[i].spec_list(k),
                u,
                self.bin_storage.backs@[i].spec_clock(),
            ))
        ||| (exists|u: Seq<char>|
            valid_username(u) && k == #[trigger] k_log(u) && i == spec_route(u, self.n_backs())
                && log_ok(
                self.bin_storage.backs@[i].spec_list(k),
                u,
                self.bin_storage.backs@[i].spec_clock(),
                self.signed_f(),
            ))
    }

    /// Builds a front end over fresh back ends.
    pub fn new(backs: Vec<MemStorage>) -> (r: FrontendServer)
        requires
            backs@.len() > 0,
            forall|i: int| 0 <= i < backs@.len() ==> (#[trigger] backs@[i]).wf(),
            forall|i: int, k: Seq<char>|
                0 <= i < backs@.len() ==> (#[trigger] backs@[i].spec_get(k)) is None,
            forall|i: int, k: Seq<char>|
                0 <= i < backs@.len() ==> (#[trigger] backs@[i].spec_list(k)) == Seq::<
                    Seq<char>,
                >::empty(),
        ensures
            r.wf(),
            r.n_backs() == backs@.len(),
            forall|u: Seq<char>| !(#[trigger] r.signed_up(u)),
            forall|u: Seq<char>| #[trigger] r.raw_tribs(u) == Seq::<Seq<char>>::empty(),
            forall|u: Seq<char>| #[trigger] r.raw_log(u) == Seq::<Seq<char>>::empty(),
            r.cache() == Seq::<Seq<char>>::empty(),
    {
        let r = FrontendServer { bin_storage: BinStorageClient::new(backs) };
        proof {
            assert forall|i: int| 0 <= i < r.n_backs() implies r.kv_ok(i) by {
                assert(forall|k: Seq<char>|
                    (#[trigger] r.bin_storage.backs@[i].spec_get(k)) is None);
            }
            assert forall|i: int| 0 <= i < r.n_backs() implies r.lists_ok(i) by {
                assert(forall|k: Seq<char>|
                    (#[trigger] r.bin_storage.backs@[i].spec_list(k)).len() == 0);
            }
        }
        r
    }
}

/// Whether `r` reports an invalid user name `name`.
pub open spec fn is_invalid_username<T>(r: Result<T, TribError>, name: Seq<char>) -> bool {
    match r {
        Err(TribError::InvalidUsername(s)) => s@ == name,
        _ => false,
    }
}

/// Whether `r` reports that `name` was already taken.
pub open spec fn is_username_taken<T>(r: Result<T, TribError>, name: Seq<char>) -> bool {
    match r {
        Err(TribError::UsernameTaken(s)) => s@ == name,
        _ => false,
    }
}

/// Whether `r` reports that `name` never signed up.
pub open spec fn is_user_does_not_exist<T>(r: Result<T, TribError>, name: Seq<char>) -> bool {
    match r {
        Err(TribError::UserDoesNotExist(s)) => s@ == name,
        _ => false,
    }
}

/// Whether `r` rejects a user acting on themselves.
pub open spec fn is_who_whom<T>(r: Result<T, TribError>, name: Seq<char>) -> bool {
    match r {
        Err(TribError::WhoWhom(s)) => s@ == name,
        _ => false,
    }
}

/// Whether `r` reports a follow that already exists.
pub open spec fn is_already_following<T>(r: Result<T, TribError>, a: Seq<char>, b: Seq<char>) -> bool {
    match r {
        Err(TribError::AlreadyFollowing(x, y)) => x@ == a && y@ == b,
        _ => false,
    }
}

/// Whether `r` reports an unfollow without a follow.
pub open spec fn is_not_following<T>(r: Result<T, TribError>, a: Seq<char>, b: Seq<char>) -> bool {
    match r {
        Err(TribError::NotFollowing(x, y)) => x@ == a && y@ == b,
        _ => false,
    }
}

impl FrontendServer {
    /// Everything two states share when only signups were added, lists
    /// were possibly rewritten in place, and clocks moved forward.
    pub open spec fn steps_to(self, post: FrontendServer) -> bool {
        &&& post.n_backs() == self.n_backs()
        &&& forall|i: int|
            0 <= i < self.n_backs() ==> (#[trigger] post.bin_storage.backs@[i]).wf()
        &&& forall|u: Seq<char>| self.signed_up(u) ==> #[trigger] post.signed_up(u)
        &&& forall|i: int|
            0 <= i < self.n_backs() ==> #[trigger] post.bin_storage.backs@[i].spec_clock()
                >= self.bin_storage.backs@[i].spec_clock()
        &&& forall|i: int, k: Seq<char>|
            0 <= i < self.n_backs() ==> ((#[trigger] post.bin_storage.backs@[i].spec_get(k))
                is Some ==> (post.bin_storage.backs@[i].spec_get(k)
                == self.bin_storage.backs@[i].spec_get(k) || (exists|u: Seq<char>|
                valid_username(u) && k == #[trigger] k_signup(u)
                    && post.bin_storage.backs@[i].spec_get(k) == Some(seq!['T']))))
        &&& forall|i: int, k: Seq<char>|
            0 <= i < self.n_backs() ==> (#[trigger] post.bin_storage.backs@[i].spec_list(k)
                == self.bin_storage.backs@[i].spec_list(k) || (
            post.bin_storage.backs@[i].spec_list(k).len() > 0 ==> post.list_key_ok(i, k)))
    }

    /// A step that keeps every stored list well shaped keeps the whole
    /// state well formed.
    pub proof fn lemma_wf_preserved(self, post: FrontendServer)
        requires
            self.wf(),
            self.steps_to(post),
        ensures
            post.wf(),
    {
        assert(post.bin_storage.wf());
        assert forall|i: int| 0 <= i < post.n_backs() implies post.kv_ok(i) by {
            assert(self.kv_ok(i));
            assert forall|k: Seq<char>|
                (#[trigger] post.bin_storage.backs@[i].spec_get(k)) is Some implies exists|
                u: Seq<char>,
            |
                valid_username(u) && k == #[trigger] k_signup(u)
                    && post.bin_storage.backs@[i].spec_get(k) == Some(seq!['T']) by {
                if post.bin_storage.backs@[i].spec_get(k) == self.bin_storage.backs@[i].spec_get(
                    k,
                ) {
                    assert(self.bin_storage.backs@[i].spec_get(k) is Some);
                }
            }
        }
        assert forall|i: int| 0 <= i < post.n_backs() implies post.lists_ok(i) by {
            assert(self.lists_ok(i));
            assert forall|k: Seq<char>|
                (#[trigger] post.bin_storage.backs@[i].spec_list(k)).len() > 0 implies post.list_key_ok(
                i,
                k,
            ) by {
                if post.bin_storage.backs@[i].spec_list(k)
                    == self.bin_storage.backs@[i].spec_list(k) {
                    assert(self.bin_storage.backs@[i].spec_list(k).len() > 0);
                    assert(self.list_key_ok(i, k));
                    let entries = self.bin_storage.backs@[i].spec_list(k);
                    if k == k_cache() && i == spec_route(Seq::empty(), self.n_backs())
                        && cache_ok(entries, self.signed_f()) {
                        assert(cache_ok(entries, post.signed_f())) by {
                            assert forall|a: int| 0 <= a < entries.len() implies valid_username(
                                #[trigger] entries[a],
                            ) && post.signed_f()(entries[a]) by {
                                assert(self.signed_f()(entries[a]));
                                assert(self.signed_up(entries[a]));
                            }
                        }
                        assert(post.list_key_ok(i, k));
                    } else if exists|u: Seq<char>|
                        valid_username(u) && k == #[trigger] k_tribs(u) && i == spec_route(
                            u,
                            self.n_backs(),
                        ) && tribs_ok(entries, u, self.bin_storage.backs@[i].spec_clock()) {
                        let u = choose|u: Seq<char>|
                            valid_username(u) && k == #[trigger] k_tribs(u) && i == spec_route(
                                u,
                                self.n_backs(),
                            ) && tribs_ok(entries, u, self.bin_storage.backs@[i].spec_clock());
                        assert(tribs_ok(entries, u, post.bin_storage.backs@[i].spec_clock()));
                        assert(post.list_key_ok(i, k));
                    } else {
                        let u = choose|u: Seq<char>|
                            valid_username(u) && k == #[trigger] k_log(u) && i == spec_route(
                                u,
                                self.n_backs(),
                            ) && log_ok(
                                entries,
                                u,
                                self.bin_storage.backs@[i].spec_clock(),
                                self.signed_f(),
                            );
                        assert(log_ok(
                            entries,
                            u,
                            post.bin_storage.backs@[i].spec_clock(),
                            post.signed_f(),
                        )) by {
                            assert forall|a: int|
                                0 <= a < entries.len() implies wf_log_entry(#[trigger] entries[a])
                                && ev_of_entry(entries[a]).2 != u && post.signed_f()(
                                ev_of_entry(entries[a]).2,
                            ) by {
                                assert(self.signed_f()(ev_of_entry(entries[a]).2));
                                assert(self.signed_up(ev_of_entry(entries[a]).2));
                            }
                        }
                        assert(post.list_key_ok(i, k));
                    }
                }
            }
        }
    }

    /// Builds the logical key `signup_<user>`.
    fn signup_key_str(user: &str) -> (r: String)
        requires
            valid_username(user@),
        ensures
            r@ == s_signup() + user@,
            spec_escape(r@) == r@,
    {
        let mut r = String::from_str("signup_");
        r.append(user);
        proof {
            reveal_strlit("signup_");
            assert("signup_"@ =~= s_signup());
            assert(r@ =~= s_signup() + user@);
            crate::trib::lemma_username_chars(user@);
            assert forall|k: int| 0 <= k < r@.len() implies r@[k] != ':' by {
                if k >= 7 {
                    assert(r@[k] == user@[k - 7]);
                }
            }
            lemma_escape_colon_free(r@);
        }
        r
    }

    /// The general bin, with its name and routing pinned down.
    fn general_bin(&self) -> (r: BinUserClient)
        requires
            self.bin_storage.wf(),
        ensures
            r.name@ == Seq::<char>::empty(),
            r.back == spec_route(Seq::empty(), self.n_backs()),
            r.back < self.n_backs(),
    {
        let r = self.bin_storage.bin("");
        proof {
            reveal_strlit("");
            assert(""@ =~= Seq::<char>::empty());
            assert(spec_escape(Seq::<char>::empty()) =~= Seq::<char>::empty());
        }
        r
    }

    /// Whether `user` has signed up, read from the general bin.
    fn check_signed(&self, user: &str) -> (r: bool)
        requires
            self.wf(),
            valid_username(user@),
        ensures
            r == self.signed_up(user@),
    {
        let gb = self.general_bin();
        let key = Self::signup_key_str(user);
        let got = gb.get(&self.bin_storage.backs[gb.back], key.as_str());
        proof {
            assert(phys_key(gb.name@, key@) =~= k_signup(user@));
        }
        got.is_some()
    }

    /// Registers `user`.
    ///
    /// Rejects a malformed name and a name already registered; otherwise
    /// records the signup.  Nothing else in the store moves.
    pub fn sign_up(&mut self, user: &str) -> (r: Result<(), TribError>)
        requires
            old(self).wf(),
        ensures
            final(self).wf(),
            !valid_username(user@) ==> is_invalid_username(r, user@) && *final(self) == *old(self),
            valid_username(user@) && old(self).signed_up(user@) ==> is_username_taken(r, user@)
                && *final(self) == *old(self),
            valid_username(user@) && !old(self).signed_up(user@) ==> {
                &&& r is Ok
                &&& final(self).signed_up(user@)
                &&& forall|u: Seq<char>|
                    u != user@ ==> #[trigger] final(self).signed_up(u) == old(self).signed_up(u)
                &&& forall|u: Seq<char>| #[trigger]
                    final(self).raw_tribs(u) == old(self).raw_tribs(u)
                &&& forall|u: Seq<char>| #[trigger] final(self).raw_log(u) == old(self).raw_log(u)
                &&& final(self).cache() == old(self).cache()
                &&& final(self).n_backs() == old(self).n_backs()
                &&& forall|i: int|
                    0 <= i < old(self).n_backs()
                        ==> #[trigger] final(self).bin_storage.backs@[i].spec_clock() == old(
                        self,
                    ).bin_storage.backs@[i].spec_clock()
            },
    {
        if !is_valid_username(user) {
            return Err(TribError::InvalidUsername(user.to_owned()));
        }
        let gb = self.general_bin();
        let key = Self::signup_key_str(user);
        let got = gb.get(&self.bin_storage.backs[gb.back], key.as_str());
        proof {
            assert(phys_key(gb.name@, key@) =~= k_signup(user@));
        }
        if got.is_some() {
            return Err(TribError::UsernameTaken(user.to_owned()));
        }
        let idx = gb.back;
        let ghost pre = *self;
        gb.set(&mut self.bin_storage.backs[idx], &KeyValue { key, value: String::from_str("T") });
        proof {
            reveal_strlit("T");
            assert("T"@ =~= seq!['T']);
            let postv = *self;
            assert(postv.bin_storage.backs@ == pre.bin_storage.backs@.update(
                idx as int,
                postv.bin_storage.backs@[idx as int],
            ));
            assert forall|u: Seq<char>|
                u != user@ implies #[trigger] postv.signed_up(u) == pre.signed_up(u) by {
                lemma_k_signup_inj(u, user@);
            }
            assert(postv.signed_up(user@));
            assert(pre.steps_to(postv)) by {
                assert forall|i: int, k: Seq<char>|
                    0 <= i < pre.n_backs() implies ((
                #[trigger] postv.bin_storage.backs@[i].spec_get(k)) is Some ==> (
                postv.bin_storage.backs@[i].spec_get(k) == pre.bin_storage.backs@[i].spec_get(k)
                    || (exists|u: Seq<char>|
                    valid_username(u) && k == #[trigger] k_signup(u)
                        && postv.bin_storage.backs@[i].spec_get(k) == Some(seq!['T'])))) by {
                    if i == idx as int && k == k_signup(user@) {
                        assert(valid_username(user@) && k == k_signup(user@)
                            && postv.bin_storage.backs@[i].spec_get(k) == Some(seq!['T']));
                    }
                }
            }
            pre.lemma_wf_preserved(postv);
        }
        Ok(())
    }
}

/// What a successful log-entry parse must read as.
pub open spec fn parsed_log_as(
    r: Option<(String, bool, String)>,
    c: u64,
    f: bool,
    w: Seq<char>,
) -> bool {
    match r {
        Some(p) => p.0@ == spec_dec(c as nat) && p.1 == f && p.2@ == w,
        None => false,
    }
}

/// Every character of a log record is ASCII.
pub proof fn lemma_log_entry_ascii(c: u64, f: bool, w: Seq<char>)
    requires
        valid_username(w),
    ensures
        vstd::utf8::is_ascii_chars(log_entry(c, f, w)),
{
    crate::digits::lemma_dec_shape(c as nat);
    let s = log_entry(c, f, w);
    let a = spec_dec(c as nat);
    let p = if f {
        sep_follow()
    } else {
        sep_unfollow()
    };
    assert forall|i: int| 0 <= i < s.len() implies '\0' <= #[trigger] s[i] <= '\u{7f}' by {
        vstd::utf8::char_is_scalar(s[i]);
        vstd::utf8::char_u32_cast(s[i], s[i] as u32);
        if i < a.len() {
            assert(s[i] == a[i]);
            assert(crate::digits::is_digit(a[i]));
        } else if i < a.len() + p.len() {
            assert(s[i] == p[i - a.len()]);
        } else {
            assert(s[i] == w[i - a.len() - p.len()]);
            assert(crate::trib::is_lower(s[i]) || crate::digits::is_digit(s[i]));
        }
    }
}

/// The list-key shapes never collide, and each determines its user.
pub proof fn lemma_list_key_shapes(u1: Seq<char>, u2: Seq<char>)
    requires
        valid_username(u1),
        valid_username(u2),
    ensures
        k_tribs(u1) != k_cache(),
        k_log(u1) != k_cache(),
        k_tribs(u1) != k_log(u2),
        (k_tribs(u1) == k_tribs(u2)) ==> u1 == u2,
        (k_log(u1) == k_log(u2)) ==> u1 == u2,
{
    crate::trib::lemma_username_chars(u1);
    crate::trib::lemma_username_chars(u2);
    assert(k_tribs(u1)[0] == u1[0]);
    assert(k_log(u1)[0] == u1[0]);
    assert(k_cache()[0] == ':');
    if k_tribs(u1) == k_log(u2) {
        assert(k_tribs(u1)[u1.len() as int] == ':');
        assert(k_log(u2)[u2.len() as int] == ':');
        if u1.len() < u2.len() {
            assert(k_log(u2)[u1.len() as int] == u2[u1.len() as int]);
        } else if u2.len() < u1.len() {
            assert(k_tribs(u1)[u2.len() as int] == u1[u2.len() as int]);
        } else {
            assert(k_tribs(u1).len() == u1.len() + 7);
            assert(k_log(u2).len() == u2.len() + 5);
        }
    }
    if k_tribs(u1) == k_tribs(u2) && u1 != u2 {
        if u1.len() < u2.len() {
            assert(k_tribs(u1)[u1.len() as int] == ':');
            assert(k_tribs(u2)[u1.len() as int] == u2[u1.len() as int]);
        } else if u2.len() < u1.len() {
            assert(k_tribs(u2)[u2.len() as int] == ':');
            assert(k_tribs(u1)[u2.len() as int] == u1[u2.len() as int]);
        } else {
            assert forall|q: int| 0 <= q < u1.len() implies u1[q] == u2[q] by {
                assert(k_tribs(u1)[q] == u1[q]);
                assert(k_tribs(u2)[q] == u2[q]);
            }
            assert(u1 =~= u2);
        }
    }
    if k_log(u1) == k_log(u2) && u1 != u2 {
        if u1.len() < u2.len() {
            assert(k_log(u1)[u1.len() as int] == ':');
            assert(k_log(u2)[u1.len() as int] == u2[u1.len() as int]);
        } else if u2.len() < u1.len() {
            assert(k_log(u2)[u2.len() as int] == ':');
            assert(k_log(u1)[u2.len() as int] == u1[u2.len() as int]);
        } else {
            assert forall|q: int| 0 <= q < u1.len() implies u1[q] == u2[q] by {
                assert(k_log(u1)[q] == u1[q]);
                assert(k_log(u2)[q] == u2[q]);
            }
            assert(u1 =~= u2);
        }
    }
}

impl FrontendServer {
    /// Under `wf`, the log of a valid user is well shaped.
    pub proof fn lemma_log_wf(self, u: Seq<char>)
        requires
            self.wf(),
            valid_username(u),
        ensures
            log_ok(self.raw_log(u), u, self.back_of(u).spec_clock(), self.signed_f()),
    {
        let i = spec_route(u, self.n_backs());
        let k = k_log(u);
        if self.raw_log(u).len() > 0 {
            assert(0 <= i < self.n_backs());
            assert(self.lists_ok(i));
            assert(self.bin_storage.backs@[i].spec_list(k).len() > 0);
            assert(self.list_key_ok(i, k));
            lemma_list_key_shapes(u, u);
            assert(k != k_cache());
            if exists|u2: Seq<char>|
                valid_username(u2) && k == #[trigger] k_tribs(u2) && i == spec_route(
                    u2,
                    self.n_backs(),
                ) && tribs_ok(
                    self.bin_storage.backs@[i].spec_list(k),
                    u2,
                    self.bin_storage.backs@[i].spec_clock(),
                ) {
                let u2 = choose|u2: Seq<char>|
                    valid_username(u2) && k == #[trigger] k_tribs(u2) && i == spec_route(
                        u2,
                        self.n_backs(),
                    ) && tribs_ok(
                        self.bin_storage.backs@[i].spec_list(k),
                        u2,
                        self.bin_storage.backs@[i].spec_clock(),
                    );
                lemma_list_key_shapes(u2, u);
            }
            let u2 = choose|u2: Seq<char>|
                valid_username(u2) && k == #[trigger] k_log(u2) && i == spec_route(
                    u2,
                    self.n_backs(),
                ) && log_ok(
                    self.bin_storage.backs@[i].spec_list(k),
                    u2,
                    self.bin_storage.backs@[i].spec_clock(),
                    self.signed_f(),
                );
            lemma_list_key_shapes(u2, u);
            assert(u2 == u);
        }
    }

    /// Under `wf`, the stored posts of a valid user are well shaped.
    pub proof fn lemma_tribs_wf(self, u: Seq<char>)
        requires
            self.wf(),
            valid_username(u),
        ensures
            tribs_ok(self.raw_tribs(u), u, self.back_of(u).spec_clock()),
    {
        let i = spec_route(u, self.n_backs());
        let k = k_tribs(u);
        if self.raw_tribs(u).len() > 0 {
            assert(0 <= i < self.n_backs());
            assert(self.lists_ok(i));
            assert(self.bin_storage.backs@[i].spec_list(k).len() > 0);
            assert(self.list_key_ok(i, k));
            lemma_list_key_shapes(u, u);
            assert(k != k_cache());
            if exists|u2: Seq<char>|
                valid_username(u2) && k == #[trigger] k_log(u2) && i == spec_route(
                    u2,
                    self.n_backs(),
                ) && log_ok(
                    self.bin_storage.backs@[i].spec_list(k),
                    u2,
                    self.bin_storage.backs@[i].spec_clock(),
                    self.signed_f(),
                ) {
                let u2 = choose|u2: Seq<char>|
                    valid_username(u2) && k == #[trigger] k_log(u2) && i == spec_route(
                        u2,
                        self.n_backs(),
                    ) && log_ok(
                        self.bin_storage.backs@[i].spec_list(k),
                        u2,
                        self.bin_storage.backs@[i].spec_clock(),
                        self.signed_f(),
                    );
                lemma_list_key_shapes(u, u2);
            }
            let u2 = choose|u2: Seq<char>|
                valid_username(u2) && k == #[trigger] k_tribs(u2) && i == spec_route(
                    u2,
                    self.n_backs(),
                ) && tribs_ok(
                    self.bin_storage.backs@[i].spec_list(k),
                    u2,
                    self.bin_storage.backs@[i].spec_clock(),
                );
            lemma_list_key_shapes(u2, u);
            assert(u2 == u);
        }
    }

    /// Under `wf`, a registered name is a valid user name.
    pub proof fn lemma_signed_valid(self, u: Seq<char>)
        requires
            self.wf(),
            self.signed_up(u),
        ensures
            valid_username(u),
    {
        let i = spec_route(Seq::empty(), self.n_backs());
        assert(self.kv_ok(i));
        assert(self.bin_storage.backs@[i].spec_get(k_signup(u)) is Some);
        let u2 = choose|u2: Seq<char>|
            valid_username(u2) && k_signup(u) == #[trigger] k_signup(u2)
                && self.bin_storage.backs@[i].spec_get(k_signup(u)) == Some(seq!['T']);
        lemma_k_signup_inj(u, u2);
    }

    /// Under `wf`, the cache is well shaped.
    pub proof fn lemma_cache_wf(self)
        requires
            self.wf(),
        ensures
            cache_ok(self.cache(), self.signed_f()),
    {
        let i = spec_route(Seq::empty(), self.n_backs());
        let k = k_cache();
        if self.cache().len() > 0 {
            assert(0 <= i < self.n_backs());
            assert(self.lists_ok(i));
            assert(self.bin_storage.backs@[i].spec_list(k).len() > 0);
            assert(self.list_key_ok(i, k));
            if exists|u2: Seq<char>|
                valid_username(u2) && k == #[trigger] k_tribs(u2) && i == spec_route(
                    u2,
                    self.n_backs(),
                ) && tribs_ok(
                    self.bin_storage.backs@[i].spec_list(k),
                    u2,
                    self.bin_storage.backs@[i].spec_clock(),
                ) {
                let u2 = choose|u2: Seq<char>|
                    valid_username(u2) && k == #[trigger] k_tribs(u2) && i == spec_route(
                        u2,
                        self.n_backs(),
                    ) && tribs_ok(
                        self.bin_storage.backs@[i].spec_list(k),
                        u2,
                        self.bin_storage.backs@[i].spec_clock(),
                    );
                lemma_list_key_shapes(u2, u2);
            }
            if exists|u2: Seq<char>|
                valid_username(u2) && k == #[trigger] k_log(u2) && i == spec_route(
                    u2,
                    self.n_backs(),
                ) && log_ok(
                    self.bin_storage.backs@[i].spec_list(k),
                    u2,
                    self.bin_storage.backs@[i].spec_clock(),
                    self.signed_f(),
                ) {
                let u2 = choose|u2: Seq<char>|
                    valid_username(u2) && k == #[trigger] k_log(u2) && i == spec_route(
                        u2,
                        self.n_backs(),
                    ) && log_ok(
                        self.bin_storage.backs@[i].spec_list(k),
                        u2,
                        self.bin_storage.backs@[i].spec_clock(),
                        self.signed_f(),
                    );
                lemma_list_key_shapes(u2, u2);
            }
        }
    }

    /// Reads one log record: the clock digits, the kind, the target.
    ///
    /// On any string that reads as a well-formed record this returns
    /// exactly that record's parts.
    fn parse_log_entry(s: &str) -> (r: Option<(String, bool, String)>)
        requires
            s@.len() + 16 <= usize::MAX,
        ensures
            forall|c: u64, f: bool, w: Seq<char>|
                is_log_entry(s@, c, f, w) ==> #[trigger] parsed_log_as(r, c, f, w),
    {
        if !s.is_ascii() {
            proof {
                assert forall|c: u64, f: bool, w: Seq<char>|
                    is_log_entry(s@, c, f, w) implies #[trigger] parsed_log_as(None, c, f, w) by {
                    lemma_log_entry_ascii(c, f, w);
                }
            }
            return None;
        }
        let len = crate::strutil::ascii_len(s);
        let mut i: usize = 0;
        while i < len && crate::strutil::ascii_get(s, i) != ':'
            invariant
                i <= len,
                len == s@.len(),
                s.is_ascii(),
                forall|q: int| 0 <= q < i ==> s@[q] != ':',
            decreases len - i,
        {
            i += 1;
        }
        proof {
            assert(i == len || s@[i as int] == ':');
        }
        if i == 0 || i + 1 >= len {
            proof {
                assert forall|c: u64, f: bool, w: Seq<char>|
                    is_log_entry(s@, c, f, w) implies #[trigger] parsed_log_as(None, c, f, w) by {
                    Self::lemma_pin_first_colon(s@, c, f, w, i as int);
                }
            }
            return None;
        }
        if crate::strutil::ascii_get(s, i + 1) != ':' {
            proof {
                assert forall|c: u64, f: bool, w: Seq<char>|
                    is_log_entry(s@, c, f, w) implies #[trigger] parsed_log_as(None, c, f, w) by {
                    Self::lemma_pin_first_colon(s@, c, f, w, i as int);
                }
            }
            return None;
        }
        let cs = s.substring_ascii(0, i).to_owned();
        let is_follow = i + 10 <= len && crate::strutil::ascii_get(s, i + 2) == 'f'
            && crate::strutil::ascii_get(s, i + 3) == 'o' && crate::strutil::ascii_get(s, i + 4)
            == 'l' && crate::strutil::ascii_get(s, i + 5) == 'l' && crate::strutil::ascii_get(
            s,
            i + 6,
        ) == 'o' && crate::strutil::ascii_get(s, i + 7) == 'w' && crate::strutil::ascii_get(
            s,
            i + 8,
        ) == ':' && crate::strutil::ascii_get(s, i + 9) == ':';
        if is_follow {
            let whom = s.substring_ascii(i + 10, len).to_owned();
            let r = Some((cs, true, whom));
            proof {
                assert forall|c: u64, f: bool, w: Seq<char>|
                    is_log_entry(s@, c, f, w) implies #[trigger] parsed_log_as(r, c, f, w) by {
                    Self::lemma_pin_first_colon(s@, c, f, w, i as int);
                    let a = spec_dec(c as nat);
                    assert(i as int == a.len());
                    if !f {
                        assert(s@[i + 2] == sep_unfollow()[2]);
                    }
                    assert(f);
                    assert(cs@ =~= a);
                    assert(whom@ =~= w);
                }
            }
            return r;
        }
        let is_unfollow = i + 12 <= len && crate::strutil::ascii_get(s, i + 2) == 'u'
            && crate::strutil::ascii_get(s, i + 3) == 'n' && crate::strutil::ascii_get(s, i + 4)
            == 'f' && crate::strutil::ascii_get(s, i + 5) == 'o' && crate::strutil::ascii_get(
            s,
            i + 6,
        ) == 'l' && crate::strutil::ascii_get(s, i + 7) == 'l' && crate::strutil::ascii_get(
            s,
            i + 8,
        ) == 'o' && crate::strutil::ascii_get(s, i + 9) == 'w' && crate::strutil::ascii_get(
            s,
            i + 10,
        ) == ':' && crate::strutil::ascii_get(s, i + 11) == ':';
        if is_unfollow {
            let whom = s.substring_ascii(i + 12, len).to_owned();
            let r = Some((cs, false, whom));
            proof {
                assert forall|c: u64, f: bool, w: Seq<char>|
                    is_log_entry(s@, c, f, w) implies #[trigger] parsed_log_as(r, c, f, w) by {
                    Self::lemma_pin_first_colon(s@, c, f, w, i as int);
                    let a = spec_dec(c as nat);
                    assert(i as int == a.len());
                    if f {
                        assert(s@[i + 2] == sep_follow()[2]);
                    }
                    assert(!f);
                    assert(cs@ =~= a);
                    assert(whom@ =~= w);
                }
            }
            return r;
        }
        proof {
            assert forall|c: u64, f: bool, w: Seq<char>|
                is_log_entry(s@, c, f, w) implies #[trigger] parsed_log_as(None, c, f, w) by {
                Self::lemma_pin_first_colon(s@, c, f, w, i as int);
                let a = spec_dec(c as nat);
                assert(i as int == a.len());
                let p = if f {
                    sep_follow()
                } else {
                    sep_unfollow()
                };
                assert forall|q: int| 0 <= q < p.len() implies s@[i + q] == p[q] by {}
                assert(s@.len() >= i + p.len() + w.len());
            }
        }
        None
    }

    /// Under a record reading, the first colon of the entry sits right
    /// after the clock digits.
    proof fn lemma_pin_first_colon(s: Seq<char>, c: u64, f: bool, w: Seq<char>, i: int)
        requires
            is_log_entry(s, c, f, w),
            0 <= i <= s.len(),
            forall|q: int| 0 <= q < i ==> s[q] != ':',
            i == s.len() || s[i] == ':',
        ensures
            i == spec_dec(c as nat).len(),
            spec_dec(c as nat) == s.subrange(0, i),
            1 <= i,
            i + 2 <= s.len(),
            s[i + 1] == ':',
            forall|q: int|
                0 <= q < (if f {
                    sep_follow()
                } else {
                    sep_unfollow()
                }).len() ==> #[trigger] s[i + q] == (if f {
                    sep_follow()
                } else {
                    sep_unfollow()
                })[q],
            w == s.subrange(
                i + (if f {
                    sep_follow()
                } else {
                    sep_unfollow()
                }).len(),
                s.len() as int,
            ),
    {
        crate::digits::lemma_dec_shape(c as nat);
        let a = spec_dec(c as nat);
        let p = if f {
            sep_follow()
        } else {
            sep_unfollow()
        };
        assert(s.len() == a.len() + p.len() + w.len());
        assert(s[a.len() as int] == p[0]);
        assert(i == a.len()) by {
            if i < a.len() {
                assert(s[i] == a[i]);
                assert(crate::digits::is_digit(a[i]));
            }
            if i > a.len() {
                assert(s[a.len() as int] != ':');
            }
        }
        assert(a =~= s.subrange(0, i));
        assert forall|q: int| 0 <= q < p.len() implies s[i + q] == p[q] by {}
        assert(w =~= s.subrange(i + p.len(), s.len() as int));
    }
}

impl FrontendServer {
    /// Replays a log: the follow set it determines, and a list holding
    /// every name in that set.
    fn replay_log(entries: &Vec<String>) -> (r: (StringHashSet, Vec<String>))
        requires
            forall|a: int| 0 <= a < entries@.len() ==> wf_log_entry((#[trigger] entries@[a])@),
        ensures
            r.0@ == replay(crate::strutil::dvs(entries@)),
            forall|w: Seq<char>|
                r.0@.contains(w) ==> #[trigger] crate::storage::seq_has_str(r.1@, w),
    {
        let ghost all = crate::strutil::dvs(entries@);
        let mut fset = StringHashSet::new();
        let mut cands: Vec<String> = Vec::new();
        let mut i: usize = 0;
        proof {
            assert(all.take(0) =~= Seq::<Seq<char>>::empty());
        }
        while i < entries.len()
            invariant
                i <= entries@.len(),
                all == crate::strutil::dvs(entries@),
                forall|a: int| 0 <= a < entries@.len() ==> wf_log_entry((#[trigger] entries@[a])@),
                fset@ == replay(all.take(i as int)),
                forall|w: Seq<char>|
                    fset@.contains(w) ==> #[trigger] crate::storage::seq_has_str(cands@, w),
            decreases entries@.len() - i,
        {
            let ghost pre = fset@;
            let ghost e = entries@[i as int]@;
            proof {
                assert(all[i as int] == e);
                assert(all.take(i + 1).drop_last() =~= all.take(i as int));
                assert(all.take(i + 1).last() == e);
                assert(wf_log_entry(e));
                assert(replay(all.take(i + 1)) == apply_log_entry(pre, e));
            }
            let ghost ev = ev_of_entry(e);
            proof {
                assert(is_log_entry(e, ev.0, ev.1, ev.2));
                crate::digits::lemma_dec_len_u64(ev.0);
                assert(e.len() <= 47);
            }
            let p = Self::parse_log_entry(entries[i].as_str());
            proof {
                assert(parsed_log_as(p, ev.0, ev.1, ev.2));
            }
            match p {
                Some((cs, f, w)) => {
                    proof {
                        assert(f == ev.1 && w@ == ev.2);
                    }
                    if f {
                        if !fset.contains(w.as_str()) && fset.len() < MAX_FOLLOWING {
                            let ghost pc = cands@;
                            cands.push(w.clone());
                            fset.insert(w);
                            proof {
                                assert(fset@ == pre.insert(ev.2));
                                assert forall|x: Seq<char>| fset@.contains(x)
                                    implies #[trigger] crate::storage::seq_has_str(cands@, x) by {
                                    if x == ev.2 {
                                        assert(cands@[cands@.len() - 1]@ == x);
                                    } else {
                                        assert(pre.contains(x));
                                        assert(crate::storage::seq_has_str(pc, x));
                                        let a = choose|a: int|
                                            0 <= a < pc.len() && pc[a]@ == x;
                                        assert(cands@[a]@ == x);
                                    }
                                }
                            }
                        } else {
                            proof {
                                assert(fset@ == apply_log_entry(pre, e));
                            }
                        }
                    } else {
                        if fset.contains(w.as_str()) {
                            fset.remove(w.as_str());
                        } else {
                            proof {
                                assert(fset@ =~= pre.remove(ev.2));
                            }
                        }
                        proof {
                            assert(fset@ == pre.remove(ev.2));
                            assert forall|x: Seq<char>| fset@.contains(x)
                                implies #[trigger] crate::storage::seq_has_str(cands@, x) by {
                                assert(pre.contains(x));
                            }
                        }
                    }
                },
                None => {
                    proof {
                        assert(false);
                    }
                },
            }
            i += 1;
        }
        proof {
            assert(all.take(entries@.len() as int) =~= all);
        }
        (fset, cands)
    }

    /// Fetches the follow log of `who` (assumed valid) from `who`'s bin.
    fn fetch_log(&self, who: &str) -> (r: Vec<String>)
        requires
            self.wf(),
            valid_username(who@),
        ensures
            crate::strutil::dvs(r@) == self.raw_log(who@),
            forall|a: int| 0 <= a < r@.len() ==> wf_log_entry((#[trigger] r@[a])@),
            forall|a: int| 0 <= a < r@.len() ==> (#[trigger] r@[a])@ == self.raw_log(who@)[a],
    {
        let ub = self.bin_storage.bin(who);
        let log = ub.list_get(&self.bin_storage.backs[ub.back], "log");
        proof {
            crate::trib::lemma_username_chars(who@);
            lemma_escape_colon_free(who@);
            reveal_strlit("log");
            assert("log"@ =~= seq!['l', 'o', 'g']);
            lemma_escape_colon_free("log"@);
            assert(phys_key(ub.name@, "log"@) =~= k_log(who@));
            assert(crate::strutil::dvs(log@) =~= self.raw_log(who@)) by {
                assert forall|a: int| 0 <= a < log@.len()
                    implies #[trigger] crate::strutil::dvs(log@)[a] == self.raw_log(who@)[a] by {
                    assert(log@[a]@ == self.raw_log(who@)[a]);
                }
            }
            self.lemma_log_wf(who@);
            assert forall|a: int| 0 <= a < log@.len() implies wf_log_entry(
                (#[trigger] log@[a])@,
            ) by {
                assert(self.raw_log(who@)[a] == log@[a]@);
            }
        }
        log
    }

    /// Who `who` follows, alphabetically.
    ///
    /// Rejects a malformed or unregistered name; otherwise lists exactly
    /// the replayed followee set of `who`'s log, in strictly ascending
    /// order, never more than the follow cap.
    pub fn following(&self, who: &str) -> (r: Result<Vec<String>, TribError>)
        requires
            self.wf(),
        ensures
            !valid_username(who@) ==> is_invalid_username(r, who@),
            valid_username(who@) && !self.signed_up(who@) ==> is_user_does_not_exist(r, who@),
            valid_username(who@) && self.signed_up(who@) ==> (match r {
                Ok(v) => {
                    &&& forall|a: int, b: int|
                        #![trigger v@[a]@, v@[b]@]
                        0 <= a < b < v@.len() ==> lex_lt(v@[a]@, v@[b]@)
                    &&& forall|w: Seq<char>|
                        #[trigger] crate::storage::seq_has_str(v@, w) <==> self.followees(
                            who@,
                        ).contains(w)
                    &&& v@.len() <= MAX_FOLLOWING
                },
                Err(_) => false,
            }),
    {
        if !is_valid_username(who) {
            return Err(TribError::InvalidUsername(who.to_owned()));
        }
        if !self.check_signed(who) {
            return Err(TribError::UserDoesNotExist(who.to_owned()));
        }
        let log = self.fetch_log(who);
        let (fset, cands) = Self::replay_log(&log);
        proof {
            assert(fset@ == self.followees(who@));
            lemma_replay_bounds(self.raw_log(who@));
        }
        let mut out: Vec<String> = Vec::new();
        let mut emitted = StringHashSet::new();
        let mut i: usize = 0;
        while i < cands.len()
            invariant
                i <= cands@.len(),
                fset@ == self.followees(who@),
                fset@.finite(),
                fset@.len() <= MAX_FOLLOWING as nat,
                emitted@.finite(),
                emitted@.subset_of(fset@),
                emitted@.len() == out@.len(),
                forall|x: Seq<char>|
                    emitted@.contains(x) == #[trigger] crate::storage::seq_has_str(out@, x),
                forall|a: int| 0 <= a < out@.len() ==> fset@.contains((#[trigger] out@[a])@),
                forall|a: int, b: int|
                    #![trigger out@[a]@, out@[b]@]
                    0 <= a < b < out@.len() ==> out@[a]@ != out@[b]@,
                forall|w: Seq<char>|
                    fset@.contains(w) && #[trigger] crate::storage::seq_has_str(
                        cands@.take(i as int),
                        w,
                    ) ==> emitted@.contains(w),
                forall|w: Seq<char>|
                    fset@.contains(w) ==> #[trigger] crate::storage::seq_has_str(cands@, w),
            decreases cands@.len() - i,
        {
            broadcast use vstd::set::group_set_axioms;

            let c = &cands[i];
            let ghost po = out@;
            let ghost pe = emitted@;
            let keep = fset.contains(c.as_str()) && !emitted.contains(c.as_str());
            if keep {
                emitted.insert(c.clone());
                out.push(c.clone());
                proof {
                    assert(emitted@ == pe.insert(cands@[i as int]@));
                    assert(out@[po.len() as int]@ == cands@[i as int]@);
                    assert forall|x: Seq<char>|
                        emitted@.contains(x) == #[trigger] crate::storage::seq_has_str(
                            out@,
                            x,
                        ) by {
                        if emitted@.contains(x) {
                            if pe.contains(x) {
                                assert(crate::storage::seq_has_str(po, x));
                                let a = choose|a: int| 0 <= a < po.len() && po[a]@ == x;
                                assert(out@[a]@ == x);
                            } else {
                                assert(x == cands@[i as int]@);
                                assert(out@[po.len() as int]@ == x);
                            }
                        }
                        if crate::storage::seq_has_str(out@, x) {
                            let a = choose|a: int| 0 <= a < out@.len() && out@[a]@ == x;
                            if a < po.len() {
                                assert(crate::storage::seq_has_str(po, x)) by {
                                    assert(po[a]@ == x);
                                }
                                assert(pe.contains(x));
                            } else {
                                assert(x == cands@[i as int]@);
                            }
                        }
                    }
                    assert forall|a: int, b: int|
                        #![trigger out@[a]@, out@[b]@]
                        0 <= a < b < out@.len() implies out@[a]@ != out@[b]@ by {
                        if b == po.len() {
                            assert(out@[b]@ == cands@[i as int]@);
                            assert(!pe.contains(cands@[i as int]@));
                            if out@[a]@ == cands@[i as int]@ {
                                assert(po[a]@ == cands@[i as int]@);
                                assert(crate::storage::seq_has_str(po, cands@[i as int]@));
                            }
                        } else {
                            assert(po[a]@ == out@[a]@ && po[b]@ == out@[b]@);
                        }
                    }
                }
            }
            proof {
                assert forall|w: Seq<char>|
                    fset@.contains(w) && #[trigger] crate::storage::seq_has_str(
                        cands@.take(i + 1),
                        w,
                    ) implies emitted@.contains(w) by {
                    let a = choose|a: int|
                        0 <= a < cands@.take(i + 1).len() && (#[trigger] cands@.take(i + 1)[a])@
                            == w;
                    if a < i {
                        assert(crate::storage::seq_has_str(cands@.take(i as int), w)) by {
                            assert(cands@.take(i as int)[a]@ == w);
                        }
                        assert(pe.contains(w));
                    } else {
                        assert(cands@[i as int]@ == w);
                        if !pe.contains(w) {
                            assert(keep);
                        }
                    }
                }
            }
            i += 1;
        }
        proof {
            broadcast use vstd::set::group_set_axioms;

            assert(cands@.take(cands@.len() as int) =~= cands@);
            vstd::set_lib::lemma_len_subset(emitted@, fset@);
        }
        let ghost pre_sort = out@;
        proof {
            crate::strutil::lemma_lex_le_total_ordering();
        }
        let le = |a: &String, b: &String| -> (rr: bool)
            ensures
                rr == crate::strutil::lex_le(a.deep_view(), b.deep_view()),
            { crate::strutil::str_le(a.as_str(), b.as_str()) };
        crate::strutil::insertion_sort::<String, _>(&mut out, Ghost(crate::strutil::lex_le_f()), le);
        proof {
            let dpre = crate::strutil::dvs(pre_sort);
            let dpost = crate::strutil::dvs(out@);
            broadcast use vstd::seq_lib::group_to_multiset_ensures;

            assert forall|w: Seq<char>|
                #[trigger] crate::storage::seq_has_str(out@, w) <==> self.followees(
                    who@,
                ).contains(w) by {
                crate::strutil::lemma_seq_has_dvs(out@, w);
                crate::strutil::lemma_seq_has_dvs(pre_sort, w);
                assert(dpost.contains(w) == dpre.contains(w)) by {
                    assert(dpre.to_multiset() == dpost.to_multiset());
                    assert(dpre.contains(w) <==> dpre.to_multiset().count(w) > 0);
                    assert(dpost.contains(w) <==> dpost.to_multiset().count(w) > 0);
                }
                assert(crate::storage::seq_has_str(pre_sort, w) <==> fset@.contains(w)) by {
                    if crate::storage::seq_has_str(pre_sort, w) {
                        let a = choose|a: int| 0 <= a < pre_sort.len() && pre_sort[a]@ == w;
                        assert(fset@.contains(pre_sort[a]@));
                    }
                    if fset@.contains(w) {
                        assert(crate::storage::seq_has_str(cands@, w));
                        assert(emitted@.contains(w));
                        assert(crate::storage::seq_has_str(pre_sort, w));
                    }
                }
            }
            assert(dpre.no_duplicates()) by {
                assert forall|a: int, b: int|
                    0 <= a < dpre.len() && 0 <= b < dpre.len() && a != b implies dpre[a]
                    != dpre[b] by {
                    assert(dpre[a] == pre_sort[a]@ && dpre[b] == pre_sort[b]@);
                }
            }
            dpre.lemma_multiset_has_no_duplicates();
            dpost.lemma_multiset_has_no_duplicates_conv();
            assert forall|a: int, b: int|
                #![trigger out@[a]@, out@[b]@]
                0 <= a < b < out@.len() implies lex_lt(out@[a]@, out@[b]@) by {
                assert(dpost[a] == out@[a]@ && dpost[b] == out@[b]@);
                assert(crate::strutil::lex_le_f()(dpost[a], dpost[b]));
                assert(dpost[a] != dpost[b]);
            }
        }
        Ok(out)
    }

    /// Whether `who` currently follows `whom`.
    ///
    /// Rejects malformed names, a user asking about themselves, and
    /// unregistered users; otherwise answers from the replayed log.
    pub fn is_following(&self, who: &str, whom: &str) -> (r: Result<bool, TribError>)
        requires
            self.wf(),
        ensures
            !valid_username(who@) ==> is_invalid_username(r, who@),
            valid_username(who@) && !valid_username(whom@) ==> is_invalid_username(r, whom@),
            valid_username(who@) && valid_username(whom@) && who@ == whom@ ==> is_who_whom(
                r,
                who@,
            ),
            valid_username(who@) && valid_username(whom@) && who@ != whom@ && !self.signed_up(
                who@,
            ) ==> is_user_does_not_exist(r, who@),
            valid_username(who@) && valid_username(whom@) && who@ != whom@ && self.signed_up(who@)
                && !self.signed_up(whom@) ==> is_user_does_not_exist(r, whom@),
            valid_username(who@) && valid_username(whom@) && who@ != whom@ && self.signed_up(who@)
                && self.signed_up(whom@) ==> r == Ok::<bool, TribError>(
                self.followees(who@).contains(whom@),
            ),
    {
        if !is_valid_username(who) {
            return Err(TribError::InvalidUsername(who.to_owned()));
        }
        if !is_valid_username(whom) {
            return Err(TribError::InvalidUsername(whom.to_owned()));
        }
        if crate::strutil::eq_str(who, whom) {
            return Err(TribError::WhoWhom(who.to_owned()));
        }
        if !self.check_signed(who) {
            return Err(TribError::UserDoesNotExist(who.to_owned()));
        }
        if !self.check_signed(whom) {
            return Err(TribError::UserDoesNotExist(whom.to_owned()));
        }
        let vs = match self.following(who) {
            Ok(v) => v,
            Err(e) => {
                proof {
                    assert(false);
                }
                return Err(e);
            },
        };
        let mut i: usize = 0;
        while i < vs.len()
            invariant
                i <= vs@.len(),
                valid_username(who@),
                valid_username(whom@),
                who@ != whom@,
                self.signed_up(who@),
                self.signed_up(whom@),
                forall|a: int| 0 <= a < i ==> (#[trigger] vs@[a])@ != whom@,
                forall|w: Seq<char>|
                    #[trigger] crate::storage::seq_has_str(vs@, w) <==> self.followees(
                        who@,
                    ).contains(w),
            decreases vs@.len() - i,
        {
            if crate::strutil::eq_str(vs[i].as_str(), whom) {
                proof {
                    assert(crate::storage::seq_has_str(vs@, whom@)) by {
                        assert(vs@[i as int]@ == whom@);
                    }
                }
                return Ok(true);
            }
            i += 1;
        }
        proof {
            if self.followees(who@).contains(whom@) {
                assert(crate::storage::seq_has_str(vs@, whom@));
                let a = choose|a: int| 0 <= a < vs@.len() && vs@[a]@ == whom@;
            }
        }
        Ok(false)
    }
}

/// What one accepted follow does to a followee set.
pub open spec fn follow_step(fs: Set<Seq<char>>, w: Seq<char>) -> Set<Seq<char>> {
    if !fs.contains(w) && fs.len() < MAX_FOLLOWING as nat {
        fs.insert(w)
    } else {
        fs
    }
}

/// What one unfollow does to a followee set.
pub open spec fn unfollow_step(fs: Set<Seq<char>>, w: Seq<char>) -> Set<Seq<char>> {
    fs.remove(w)
}

/// A log key never reads as a trib key or the cache key, and names its
/// user.
pub proof fn lemma_k_log_vs_others(u1: Seq<char>, u2: Seq<char>)
    ensures
        k_log(u1) != k_tribs(u2),
        k_log(u1) != k_cache(),
        (k_log(u1) == k_log(u2)) ==> u1 == u2,
{
    let a = k_log(u1);
    assert(a[a.len() - 1] == 'g');
    assert(k_tribs(u2)[k_tribs(u2).len() - 1] == 's');
    assert(k_cache()[k_cache().len() - 1] == 'e');
    if k_log(u1) == k_log(u2) {
        assert(u1.len() == u2.len());
        assert forall|q: int| 0 <= q < u1.len() implies u1[q] == u2[q] by {
            assert(k_log(u1)[q] == u1[q]);
            assert(k_log(u2)[q] == u2[q]);
        }
        assert(u1 =~= u2);
    }
}

/// A trib key never reads as a log key or the cache key, and names its
/// user.
pub proof fn lemma_k_tribs_vs_others(u1: Seq<char>, u2: Seq<char>)
    ensures
        k_tribs(u1) != k_log(u2),
        k_tribs(u1) != k_cache(),
        (k_tribs(u1) == k_tribs(u2)) ==> u1 == u2,
{
    let a = k_tribs(u1);
    assert(a[a.len() - 1] == 's');
    assert(k_log(u2)[k_log(u2).len() - 1] == 'g');
    assert(k_cache()[k_cache().len() - 1] == 'e');
    if k_tribs(u1) == k_tribs(u2) {
        assert(u1.len() == u2.len());
        assert forall|q: int| 0 <= q < u1.len() implies u1[q] == u2[q] by {
            assert(k_tribs(u1)[q] == u1[q]);
            assert(k_tribs(u2)[q] == u2[q]);
        }
        assert(u1 =~= u2);
    }
}

impl FrontendServer {
    /// The shared middle of `follow` and `unfollow`: take a fresh clock
    /// value, append the record to `who`'s log, read the whole log back
    /// and replay it from the start, stopping at the appended record.
    ///
    /// Returns the followee set the replay saw just before that record —
    /// the set the caller decides against.
    fn log_and_replay(&mut self, who: &str, whom: &str, f: bool) -> (r: StringHashSet)
        requires
            old(self).wf(),
            valid_username(who@),
            valid_username(whom@),
            who@ != whom@,
            old(self).signed_up(whom@),
            old(self).back_of(who@).spec_clock() < u64::MAX,
        ensures
            final(self).wf(),
            r@ == old(self).followees(who@),
            final(self).raw_log(who@) == old(self).raw_log(who@).push(
                log_entry((old(self).back_of(who@).spec_clock() + 1) as u64, f, whom@),
            ),
            final(self).followees(who@) == apply_log_entry(
                old(self).followees(who@),
                log_entry((old(self).back_of(who@).spec_clock() + 1) as u64, f, whom@),
            ),
            final(self).n_backs() == old(self).n_backs(),
            forall|u: Seq<char>| #[trigger] final(self).signed_up(u) == old(self).signed_up(u),
            final(self).cache() == old(self).cache(),
            forall|u: Seq<char>| #[trigger] final(self).raw_tribs(u) == old(self).raw_tribs(u),
            forall|u: Seq<char>|
                u != who@ ==> #[trigger] final(self).raw_log(u) == old(self).raw_log(u),
            forall|i: int|
                0 <= i < old(self).n_backs() && i != spec_route(who@, old(self).n_backs())
                    ==> #[trigger] final(self).bin_storage.backs@[i].spec_clock() == old(
                    self,
                ).bin_storage.backs@[i].spec_clock(),
            final(self).back_of(who@).spec_clock() == old(self).back_of(who@).spec_clock() + 1,
    {
        let ghost pre = *self;
        let ghost clk0 = pre.back_of(who@).spec_clock();
        let ub = self.bin_storage.bin(who);
        let idx = ub.back;
        proof {
            crate::trib::lemma_username_chars(who@);
            lemma_escape_colon_free(who@);
            assert(ub.name@ == who@);
        }
        let c = ub.clock(&mut self.bin_storage.backs[idx], 0);
        let ghost mid = *self;
        proof {
            assert(c == clk0 + 1);
            assert(pre.steps_to(mid));
            pre.lemma_wf_preserved(mid);
        }
        let cstr = crate::digits::dec_u64(c);
        let mut entry = cstr.clone();
        if f {
            entry.append("::follow::");
            proof {
                reveal_strlit("::follow::");
                assert("::follow::"@ =~= sep_follow());
            }
        } else {
            entry.append("::unfollow::");
            proof {
                reveal_strlit("::unfollow::");
                assert("::unfollow::"@ =~= sep_unfollow());
            }
        }
        entry.append(whom);
        let ghost ev = log_entry(c, f, whom@);
        proof {
            assert(entry@ == ev);
            assert(is_log_entry(ev, c, f, whom@));
            lemma_ev_of_entry(ev, c, f, whom@);
        }
        let lk = String::from_str("log");
        proof {
            reveal_strlit("log");
            assert("log"@ =~= seq!['l', 'o', 'g']);
            lemma_escape_colon_free("log"@);
            assert(phys_key(ub.name@, lk@) =~= k_log(who@));
        }
        ub.list_append(&mut self.bin_storage.backs[idx], &KeyValue { key: lk, value: entry });
        let ghost post = *self;
        let ghost oldlog = pre.raw_log(who@);
        proof {
            pre.lemma_log_wf(who@);
            assert(post.raw_log(who@) == oldlog.push(ev));
            assert forall|u: Seq<char>|
                u != who@ implies #[trigger] post.raw_log(u) == pre.raw_log(u) by {
                lemma_k_log_vs_others(u, who@);
            }
            assert forall|u: Seq<char>| #[trigger]
                post.raw_tribs(u) == pre.raw_tribs(u) by {
                lemma_k_tribs_vs_others(u, who@);
            }
            assert(post.cache() == pre.cache()) by {
                lemma_k_log_vs_others(who@, who@);
            }
            assert(mid.steps_to(post)) by {
                assert forall|i: int, k: Seq<char>|
                    0 <= i < mid.n_backs() implies (#[trigger] post.bin_storage.backs@[i].spec_list(
                    k,
                ) == mid.bin_storage.backs@[i].spec_list(k) || (
                post.bin_storage.backs@[i].spec_list(k).len() > 0 ==> post.list_key_ok(i, k))) by {
                    if i == idx as int && k == k_log(who@) {
                        assert(post.list_key_ok(i, k)) by {
                            let es = post.bin_storage.backs@[i].spec_list(k);
                            assert(es == oldlog.push(ev));
                            assert(log_ok(oldlog, who@, clk0, pre.signed_f()));
                            assert(log_ok(
                                es,
                                who@,
                                post.bin_storage.backs@[i].spec_clock(),
                                post.signed_f(),
                            )) by {
                                assert forall|a: int|
                                    0 <= a < es.len() implies wf_log_entry(#[trigger] es[a])
                                    && ev_of_entry(es[a]).2 != who@ && post.signed_f()(
                                    ev_of_entry(es[a]).2,
                                ) by {
                                    if a < es.len() - 1 {
                                        assert(es[a] == oldlog[a]);
                                        assert(pre.signed_f()(ev_of_entry(es[a]).2));
                                        assert(pre.signed_up(ev_of_entry(es[a]).2));
                                        assert(post.signed_up(ev_of_entry(es[a]).2));
                                    } else {
                                        assert(es[a] == ev);
                                        assert(ev_of_entry(ev).2 == whom@);
                                        assert(post.signed_up(whom@));
                                    }
                                }
                                assert forall|a: int, b: int|
                                    0 <= a < b < es.len() implies ev_of_entry(
                                    #[trigger] es[a],
                                ).0 < ev_of_entry(#[trigger] es[b]).0 by {
                                    if b < es.len() - 1 {
                                        assert(es[a] == oldlog[a]);
                                        assert(es[b] == oldlog[b]);
                                    } else {
                                        assert(es[b] == ev);
                                        assert(es[a] == oldlog[a]);
                                        assert(ev_of_entry(es[a]).0 <= clk0);
                                    }
                                }
                                assert forall|a: int|
                                    0 <= a < es.len() implies ev_of_entry(#[trigger] es[a]).0
                                    <= post.bin_storage.backs@[i].spec_clock() by {
                                    if a < es.len() - 1 {
                                        assert(es[a] == oldlog[a]);
                                        assert(ev_of_entry(es[a]).0 <= clk0);
                                    } else {
                                        assert(es[a] == ev);
                                    }
                                }
                            }
                        }
                    }
                }
            }
            mid.lemma_wf_preserved(post);
            assert(post.followees(who@) == apply_log_entry(pre.followees(who@), ev)) by {
                let nl = post.raw_log(who@);
                assert(nl.drop_last() =~= oldlog);
                assert(nl.last() == ev);
            }
        }
        let log = self.fetch_log(who);
        let ghost all = crate::strutil::dvs(log@);
        proof {
            assert(all =~= post.raw_log(who@));
            assert(all == oldlog.push(ev));
        }
        let mut fset = StringHashSet::new();
        let mut k: usize = 0;
        proof {
            assert(all.take(0) =~= Seq::<Seq<char>>::empty());
        }
        while k < log.len()
            invariant
                k <= log@.len() - 1,
                log@.len() == all.len(),
                all == oldlog.push(ev),
                log_ok(oldlog, who@, clk0, pre.signed_f()),
                clk0 < c,
                c == clk0 + 1,
                ev == log_entry(c, f, whom@),
                is_log_entry(ev, c, f, whom@),
                cstr@ == spec_dec(c as nat),
                fset@ == replay(all.take(k as int)),
                forall|a: int| 0 <= a < log@.len() ==> (#[trigger] log@[a])@ == all[a],
                *self == post,
                post.wf(),
                pre == *old(self),
                clk0 == pre.back_of(who@).spec_clock(),
                valid_username(who@),
                oldlog == pre.raw_log(who@),
                pre.followees(who@) == replay(oldlog),
                post.raw_log(who@) == oldlog.push(ev),
                post.followees(who@) == apply_log_entry(pre.followees(who@), ev),
                post.n_backs() == pre.n_backs(),
                forall|u: Seq<char>| #[trigger] post.signed_up(u) == pre.signed_up(u),
                post.cache() == pre.cache(),
                forall|u: Seq<char>| #[trigger] post.raw_tribs(u) == pre.raw_tribs(u),
                forall|u: Seq<char>|
                    u != who@ ==> #[trigger] post.raw_log(u) == pre.raw_log(u),
                forall|i: int|
                    0 <= i < pre.n_backs() && i != spec_route(who@, pre.n_backs())
                        ==> #[trigger] post.bin_storage.backs@[i].spec_clock()
                        == pre.bin_storage.backs@[i].spec_clock(),
                post.back_of(who@).spec_clock() == clk0 + 1,
            decreases log@.len() - k,
        {
            let ghost e = all[k as int];
            proof {
                assert(all.take(k + 1).drop_last() =~= all.take(k as int));
                assert(all.take(k + 1).last() == e);
                if (k as int) < all.len() - 1 {
                    assert(e == oldlog[k as int]);
                } else {
                    assert(e == ev);
                }
                assert(wf_log_entry(e));
            }
            let ghost kev = ev_of_entry(e);
            proof {
                assert(is_log_entry(e, kev.0, kev.1, kev.2));
                crate::digits::lemma_dec_len_u64(kev.0);
                assert(e.len() <= 47);
            }
            let p = Self::parse_log_entry(log[k].as_str());
            proof {
                assert(parsed_log_as(p, kev.0, kev.1, kev.2));
            }
            match p {
                Some((cs, pf, pw)) => {
                    proof {
                        assert(cs@ == spec_dec(kev.0 as nat) && pf == kev.1 && pw@ == kev.2);
                    }
                    if crate::strutil::eq_str(cs.as_str(), cstr.as_str()) && pf == f
                        && crate::strutil::eq_str(pw.as_str(), whom) {
                        proof {
                            crate::digits::lemma_dec_injective(kev.0 as nat, c as nat);
                            assert(kev.0 == c);
                            assert(k as int == all.len() - 1) by {
                                if (k as int) < all.len() - 1 {
                                    assert(e == oldlog[k as int]);
                                    assert(ev_of_entry(oldlog[k as int]).0 <= clk0);
                                }
                            }
                            assert(all.take(k as int) =~= oldlog);
                            assert(replay(all.take(k as int)) == replay(oldlog));
                            assert(fset@ == pre.followees(who@));
                        }
                        return fset;
                    }
                    proof {
                        assert((k as int) != all.len() - 1) by {
                            if (k as int) == all.len() - 1 {
                                assert(e == ev);
                                lemma_log_entry_unique(e, kev.0, kev.1, kev.2, c, f, whom@);
                            }
                        }
                    }
                    let ghost prefs = fset@;
                    if pf {
                        if !fset.contains(pw.as_str()) && fset.len() < MAX_FOLLOWING {
                            fset.insert(pw);
                        }
                    } else {
                        if fset.contains(pw.as_str()) {
                            fset.remove(pw.as_str());
                        } else {
                            proof {
                                assert(fset@ =~= prefs.remove(kev.2));
                            }
                        }
                    }
                    proof {
                        assert(fset@ == apply_log_entry(prefs, e));
                    }
                },
                None => {
                    proof {
                        assert(false);
                    }
                },
            }
            k += 1;
        }
        proof {
            assert(false);
        }
        fset
    }

    /// Makes `who` follow `whom`.
    ///
    /// Rejects self-follows, malformed and unregistered names, and a
    /// back-end clock that can no longer hand out fresh values.  The
    /// record is otherwise appended, and the replay decides: already
    /// following, too many followees, or success.
    pub fn follow(&mut self, who: &str, whom: &str) -> (r: Result<(), TribError>)
        requires
            old(self).wf(),
        ensures
            final(self).wf(),
            who@ == whom@ ==> is_who_whom(r, who@) && *final(self) == *old(self),
            who@ != whom@ && !valid_username(who@) ==> is_invalid_username(r, who@) && *final(self)
                == *old(self),
            who@ != whom@ && valid_username(who@) && !valid_username(whom@)
                ==> is_invalid_username(r, whom@) && *final(self) == *old(self),
            who@ != whom@ && valid_username(who@) && valid_username(whom@) && !old(
                self,
            ).signed_up(who@) ==> is_user_does_not_exist(r, who@) && *final(self) == *old(self),
            who@ != whom@ && valid_username(who@) && valid_username(whom@) && old(self).signed_up(
                who@,
            ) && !old(self).signed_up(whom@) ==> is_user_does_not_exist(r, whom@) && *final(self)
                == *old(self),
            who@ != whom@ && valid_username(who@) && valid_username(whom@) && old(self).signed_up(
                who@,
            ) && old(self).signed_up(whom@) && old(self).back_of(who@).spec_clock() == u64::MAX
                ==> r == Err::<(), TribError>(TribError::MaxedSeq) && *final(self) == *old(self),
            (who@ != whom@ && valid_username(who@) && valid_username(whom@) && old(
                self,
            ).signed_up(who@) && old(self).signed_up(whom@) && old(self).back_of(
                who@,
            ).spec_clock() < u64::MAX) ==> {
                let fs = old(self).followees(who@);
                &&& fs.contains(whom@) ==> is_already_following(r, who@, whom@)
                &&& !fs.contains(whom@) && fs.len() < MAX_FOLLOWING as nat ==> r is Ok
                &&& !fs.contains(whom@) && fs.len() >= MAX_FOLLOWING as nat ==> r == Err::<
                    (),
                    TribError,
                >(TribError::FollowingTooMany)
                &&& final(self).followees(who@) == follow_step(fs, whom@)
                &&& final(self).raw_log(who@) == old(self).raw_log(who@).push(
                    log_entry((old(self).back_of(who@).spec_clock() + 1) as u64, true, whom@),
                )
                &&& final(self).n_backs() == old(self).n_backs()
                &&& forall|u: Seq<char>| #[trigger]
                    final(self).signed_up(u) == old(self).signed_up(u)
                &&& final(self).cache() == old(self).cache()
                &&& forall|u: Seq<char>| #[trigger]
                    final(self).raw_tribs(u) == old(self).raw_tribs(u)
                &&& forall|u: Seq<char>|
                    u != who@ ==> #[trigger] final(self).raw_log(u) == old(self).raw_log(u)
            },
    {
        if crate::strutil::eq_str(who, whom) {
            return Err(TribError::WhoWhom(who.to_owned()));
        }
        if !is_valid_username(who) {
            return Err(TribError::InvalidUsername(who.to_owned()));
        }
        if !is_valid_username(whom) {
            return Err(TribError::InvalidUsername(whom.to_owned()));
        }
        if !self.check_signed(who) {
            return Err(TribError::UserDoesNotExist(who.to_owned()));
        }
        if !self.check_signed(whom) {
            return Err(TribError::UserDoesNotExist(whom.to_owned()));
        }
        proof {
            crate::trib::lemma_username_chars(who@);
            lemma_escape_colon_free(who@);
        }
        let ub = self.bin_storage.bin(who);
        if self.bin_storage.backs[ub.back].clock_value() == u64::MAX {
            return Err(TribError::MaxedSeq);
        }
        let ghost c = (old(self).back_of(who@).spec_clock() + 1) as u64;
        let fset = self.log_and_replay(who, whom, true);
        proof {
            lemma_ev_of_entry(log_entry(c, true, whom@), c, true, whom@);
            lemma_replay_bounds(old(self).raw_log(who@));
        }
        if fset.contains(whom) {
            Err(TribError::AlreadyFollowing(who.to_owned(), whom.to_owned()))
        } else if fset.len() < MAX_FOLLOWING {
            Ok(())
        } else {
            Err(TribError::FollowingTooMany)
        }
    }

    /// Makes `who` stop following `whom`.
    ///
    /// The same boundary checks as `follow`; the replay decides between
    /// success and not-following.
    pub fn unfollow(&mut self, who: &str, whom: &str) -> (r: Result<(), TribError>)
        requires
            old(self).wf(),
        ensures
            final(self).wf(),
            who@ == whom@ ==> is_who_whom(r, who@) && *final(self) == *old(self),
            who@ != whom@ && !valid_username(who@) ==> is_invalid_username(r, who@) && *final(self)
                == *old(self),
            who@ != whom@ && valid_username(who@) && !valid_username(whom@)
                ==> is_invalid_username(r, whom@) && *final(self) == *old(self),
            who@ != whom@ && valid_username(who@) && valid_username(whom@) && !old(
                self,
            ).signed_up(who@) ==> is_user_does_not_exist(r, who@) && *final(self) == *old(self),
            who@ != whom@ && valid_username(who@) && valid_username(whom@) && old(self).signed_up(
                who@,
            ) && !old(self).signed_up(whom@) ==> is_user_does_not_exist(r, whom@) && *final(self)
                == *old(self),
            who@ != whom@ && valid_username(who@) && valid_username(whom@) && old(self).signed_up(
                who@,
            ) && old(self).signed_up(whom@) && old(self).back_of(who@).spec_clock() == u64::MAX
                ==> r == Err::<(), TribError>(TribError::MaxedSeq) && *final(self) == *old(self),
            (who@ != whom@ && valid_username(who@) && valid_username(whom@) && old(
                self,
            ).signed_up(who@) && old(self).signed_up(whom@) && old(self).back_of(
                who@,
            ).spec_clock() < u64::MAX) ==> {
                let fs = old(self).followees(who@);
                &&& fs.contains(whom@) ==> r is Ok
                &&& !fs.contains(whom@) ==> is_not_following(r, who@, whom@)
                &&& final(self).followees(who@) == unfollow_step(fs, whom@)
                &&& final(self).raw_log(who@) == old(self).raw_log(who@).push(
                    log_entry((old(self).back_of(who@).spec_clock() + 1) as u64, false, whom@),
                )
                &&& final(self).n_backs() == old(self).n_backs()
                &&& forall|u: Seq<char>| #[trigger]
                    final(self).signed_up(u) == old(self).signed_up(u)
                &&& final(self).cache() == old(self).cache()
                &&& forall|u: Seq<char>| #[trigger]
                    final(self).raw_tribs(u) == old(self).raw_tribs(u)
                &&& forall|u: Seq<char>|
                    u != who@ ==> #[trigger] final(self).raw_log(u) == old(self).raw_log(u)
            },
    {
        if crate::strutil::eq_str(who, whom) {
            return Err(TribError::WhoWhom(who.to_owned()));
        }
        if !is_valid_username(who) {
            return Err(TribError::InvalidUsername(who.to_owned()));
        }
        if !is_valid_username(whom) {
            return Err(TribError::InvalidUsername(whom.to_owned()));
        }
        if !self.check_signed(who) {
            return Err(TribError::UserDoesNotExist(who.to_owned()));
        }
        if !self.check_signed(whom) {
            return Err(TribError::UserDoesNotExist(whom.to_owned()));
        }
        proof {
            crate::trib::lemma_username_chars(who@);
            lemma_escape_colon_free(who@);
        }
        let ub = self.bin_storage.bin(who);
        if self.bin_storage.backs[ub.back].clock_value() == u64::MAX {
            return Err(TribError::MaxedSeq);
        }
        let ghost c = (old(self).back_of(who@).spec_clock() + 1) as u64;
        let fset = self.log_and_replay(who, whom, false);
        proof {
            lemma_ev_of_entry(log_entry(c, false, whom@), c, false, whom@);
        }
        if fset.contains(whom) {
            Ok(())
        } else {
            Err(TribError::NotFollowing(who.to_owned(), whom.to_owned()))
        }
    }
}


impl FrontendServer {
    /// Relies on `std::time::SystemTime`: the wall clock, read as whole
    /// seconds since the Unix epoch.  Nothing is promised of the value.
    #[verifier::external_body]
    pub(crate) fn now_secs() -> u64 {
        match std::time::SystemTime::now().duration_since(std::time::SystemTime::UNIX_EPOCH) {
            Ok(d) => d.as_secs(),
            Err(_) => 0,
        }
    }

    /// Stores a post by `who` carrying the given wall-clock time.
    ///
    /// Rejects a malformed name, a message over the length cap, an
    /// unregistered author, and an exhausted back-end clock; otherwise
    /// takes a fresh logical clock value (at least `clock_hint`) and
    /// appends the encoded trib to `who`'s stored posts.
    #[verifier::rlimit(100)]
    pub fn post_at(&mut self, who: &str, msg: &str, clock_hint: u64, time: u64) -> (r: Result<
        (),
        TribError,
    >)
        requires
            old(self).wf(),
            vstd::utf8::encode_utf8(msg@).len() <= usize::MAX,
        ensures
            final(self).wf(),
            !valid_username(who@) ==> is_invalid_username(r, who@) && *final(self) == *old(self),
            valid_username(who@) && vstd::utf8::encode_utf8(msg@).len() > MAX_TRIB_LEN as nat
                ==> r == Err::<(), TribError>(TribError::TribTooLong) && *final(self) == *old(
                self,
            ),
            valid_username(who@) && vstd::utf8::encode_utf8(msg@).len() <= MAX_TRIB_LEN as nat
                && !old(self).signed_up(who@) ==> is_user_does_not_exist(r, who@) && *final(self)
                == *old(self),
            valid_username(who@) && vstd::utf8::encode_utf8(msg@).len() <= MAX_TRIB_LEN as nat
                && old(self).signed_up(who@) && old(self).back_of(who@).spec_clock() == u64::MAX
                ==> r == Err::<(), TribError>(TribError::MaxedSeq) && *final(self) == *old(self),
            (valid_username(who@) && vstd::utf8::encode_utf8(msg@).len() <= MAX_TRIB_LEN as nat
                && old(self).signed_up(who@) && old(self).back_of(who@).spec_clock()
                < u64::MAX) ==> {
                let c = if clock_hint > old(self).back_of(who@).spec_clock() {
                    clock_hint
                } else {
                    (old(self).back_of(who@).spec_clock() + 1) as u64
                };
                let tv = TribV { user: who@, message: msg@, time, clock: c };
                &&& r is Ok
                &&& final(self).raw_tribs(who@) == old(self).raw_tribs(who@).push(
                    spec_encode_trib(tv),
                )
                &&& final(self).trib_seq(who@) == old(self).trib_seq(who@).push(tv)
                &&& final(self).back_of(who@).spec_clock() == c
                &&& final(self).n_backs() == old(self).n_backs()
                &&& forall|u: Seq<char>| #[trigger]
                    final(self).signed_up(u) == old(self).signed_up(u)
                &&& final(self).cache() == old(self).cache()
                &&& forall|u: Seq<char>| #[trigger] final(self).raw_log(u) == old(self).raw_log(u)
                &&& forall|u: Seq<char>|
                    u != who@ ==> #[trigger] final(self).raw_tribs(u) == old(self).raw_tribs(u)
                &&& forall|u: Seq<char>|
                    u != who@ ==> #[trigger] final(self).trib_seq(u) == old(self).trib_seq(u)
                &&& forall|i: int|
                    0 <= i < old(self).n_backs() && i != spec_route(who@, old(self).n_backs())
                        ==> #[trigger] final(self).bin_storage.backs@[i].spec_clock() == old(
                        self,
                    ).bin_storage.backs@[i].spec_clock()
            },
    {
        if !is_valid_username(who) {
            return Err(TribError::InvalidUsername(who.to_owned()));
        }
        if msg.len() > MAX_TRIB_LEN {
            return Err(TribError::TribTooLong);
        }
        if !self.check_signed(who) {
            return Err(TribError::UserDoesNotExist(who.to_owned()));
        }
        proof {
            crate::trib::lemma_username_chars(who@);
            lemma_escape_colon_free(who@);
        }
        let ub = self.bin_storage.bin(who);
        let idx = ub.back;
        if self.bin_storage.backs[idx].clock_value() == u64::MAX {
            return Err(TribError::MaxedSeq);
        }
        let ghost pre = *self;
        let ghost clk0 = pre.back_of(who@).spec_clock();
        let c = ub.clock(&mut self.bin_storage.backs[idx], clock_hint);
        let ghost mid = *self;
        proof {
            assert(c > clk0);
            assert(pre.steps_to(mid));
            pre.lemma_wf_preserved(mid);
        }
        let t = Trib { user: who.to_owned(), message: msg.to_owned(), time, clock: c };
        let ghost tv = t.deep_view();
        let entry = crate::codec::encode_trib(&t);
        let ghost ev = spec_encode_trib(tv);
        proof {
            assert(entry@ == ev);
            lemma_trib_of_entry(ev, tv);
        }
        let tk = String::from_str("tribs");
        proof {
            reveal_strlit("tribs");
            assert("tribs"@ =~= seq!['t', 'r', 'i', 'b', 's']);
            lemma_escape_colon_free("tribs"@);
            assert(phys_key(ub.name@, tk@) =~= k_tribs(who@));
        }
        ub.list_append(&mut self.bin_storage.backs[idx], &KeyValue { key: tk, value: entry });
        let ghost post = *self;
        let ghost oldts = pre.raw_tribs(who@);
        proof {
            pre.lemma_tribs_wf(who@);
            assert(post.raw_tribs(who@) == oldts.push(ev));
            assert forall|u: Seq<char>|
                u != who@ implies #[trigger] post.raw_tribs(u) == pre.raw_tribs(u) by {
                lemma_k_tribs_vs_others(u, who@);
            }
            assert forall|u: Seq<char>| #[trigger]
                post.raw_log(u) == pre.raw_log(u) by {
                lemma_k_log_vs_others(u, who@);
            }
            assert(post.cache() == pre.cache()) by {
                lemma_k_tribs_vs_others(who@, who@);
            }
            assert(mid.steps_to(post)) by {
                assert forall|i: int, k: Seq<char>|
                    0 <= i < mid.n_backs() implies (#[trigger] post.bin_storage.backs@[i].spec_list(
                    k,
                ) == mid.bin_storage.backs@[i].spec_list(k) || (
                post.bin_storage.backs@[i].spec_list(k).len() > 0 ==> post.list_key_ok(i, k))) by {
                    if i == idx as int && k == k_tribs(who@) {
                        assert(post.list_key_ok(i, k)) by {
                            let es = post.bin_storage.backs@[i].spec_list(k);
                            assert(es == oldts.push(ev));
                            assert(tribs_ok(oldts, who@, clk0));
                            assert(tribs_ok(es, who@, post.bin_storage.backs@[i].spec_clock())) by {
                                assert forall|a: int|
                                    0 <= a < es.len() implies wf_trib_entry(#[trigger] es[a])
                                    && trib_of_entry(es[a]).user == who@ by {
                                    if a < es.len() - 1 {
                                        assert(es[a] == oldts[a]);
                                    } else {
                                        assert(es[a] == ev);
                                    }
                                }
                                assert forall|a: int, b: int|
                                    0 <= a < b < es.len() implies trib_of_entry(
                                    #[trigger] es[a],
                                ).clock < trib_of_entry(#[trigger] es[b]).clock by {
                                    if b < es.len() - 1 {
                                        assert(es[a] == oldts[a]);
                                        assert(es[b] == oldts[b]);
                                    } else {
                                        assert(es[b] == ev);
                                        assert(es[a] == oldts[a]);
                                        assert(trib_of_entry(es[a]).clock <= clk0);
                                    }
                                }
                                assert forall|a: int|
                                    0 <= a < es.len() implies trib_of_entry(#[trigger] es[a]).clock
                                    <= post.bin_storage.backs@[i].spec_clock() by {
                                    if a < es.len() - 1 {
                                        assert(es[a] == oldts[a]);
                                        assert(trib_of_entry(es[a]).clock <= clk0);
                                    } else {
                                        assert(es[a] == ev);
                                    }
                                }
                            }
                        }
                    }
                }
            }
            mid.lemma_wf_preserved(post);
            assert(post.trib_seq(who@) =~= pre.trib_seq(who@).push(tv)) by {
                assert forall|a: int|
                    0 <= a < post.raw_tribs(who@).len() implies #[trigger] post.trib_seq(who@)[a]
                    == pre.trib_seq(who@).push(tv)[a] by {
                    if a < oldts.len() {
                        assert(post.raw_tribs(who@)[a] == oldts[a]);
                    } else {
                        assert(post.raw_tribs(who@)[a] == ev);
                    }
                }
            }
            assert forall|u: Seq<char>|
                u != who@ implies #[trigger] post.trib_seq(u) == pre.trib_seq(u) by {
                assert(post.raw_tribs(u) == pre.raw_tribs(u));
                assert(post.trib_seq(u) =~= pre.trib_seq(u));
            }
        }
        Ok(())
    }

    /// Stores a post by `who`, stamping it with the wall clock.
    ///
    /// Everything [`Self::post_at`] promises holds for some wall-clock
    /// value; nothing more can be said of a clock read.
    #[verifier::rlimit(100)]
    #[verifier::spinoff_prover]
    pub fn post(&mut self, who: &str, msg: &str, clock_hint: u64) -> (r: Result<(), TribError>)
        requires
            old(self).wf(),
            vstd::utf8::encode_utf8(msg@).len() <= usize::MAX,
        ensures
            final(self).wf(),
            !valid_username(who@) ==> is_invalid_username(r, who@) && *final(self) == *old(self),
            valid_username(who@) && vstd::utf8::encode_utf8(msg@).len() > MAX_TRIB_LEN as nat
                ==> r == Err::<(), TribError>(TribError::TribTooLong) && *final(self) == *old(
                self,
            ),
            valid_username(who@) && vstd::utf8::encode_utf8(msg@).len() <= MAX_TRIB_LEN as nat
                && !old(self).signed_up(who@) ==> is_user_does_not_exist(r, who@) && *final(self)
                == *old(self),
            valid_username(who@) && vstd::utf8::encode_utf8(msg@).len() <= MAX_TRIB_LEN as nat
                && old(self).signed_up(who@) && old(self).back_of(who@).spec_clock() == u64::MAX
                ==> r == Err::<(), TribError>(TribError::MaxedSeq) && *final(self) == *old(self),
            (valid_username(who@) && vstd::utf8::encode_utf8(msg@).len() <= MAX_TRIB_LEN as nat
                && old(self).signed_up(who@) && old(self).back_of(who@).spec_clock()
                < u64::MAX) ==> {
                let c = if clock_hint > old(self).back_of(who@).spec_clock() {
                    clock_hint
                } else {
                    (old(self).back_of(who@).spec_clock() + 1) as u64
                };
                &&& r is Ok
                &&& exists|tv: TribV|
                    tv.user == who@ && tv.message == msg@ && tv.clock == c
                        && final(self).raw_tribs(who@) == old(self).raw_tribs(who@).push(
                        #[trigger] spec_encode_trib(tv),
                    ) && final(self).trib_seq(who@) == old(self).trib_seq(who@).push(tv)
                &&& final(self).back_of(who@).spec_clock() == c
                &&& final(self).n_backs() == old(self).n_backs()
                &&& forall|u: Seq<char>| #[trigger]
                    final(self).signed_up(u) == old(self).signed_up(u)
                &&& final(self).cache() == old(self).cache()
                &&& forall|u: Seq<char>| #[trigger] final(self).raw_log(u) == old(self).raw_log(u)
                &&& forall|u: Seq<char>|
                    u != who@ ==> #[trigger] final(self).raw_tribs(u) == old(self).raw_tribs(u)
                &&& forall|u: Seq<char>|
                    u != who@ ==> #[trigger] final(self).trib_seq(u) == old(self).trib_seq(u)
            },
    {
        let time = Self::now_secs();
        let r = self.post_at(who, msg, clock_hint, time);
        proof {
            if valid_username(who@) && vstd::utf8::encode_utf8(msg@).len() <= MAX_TRIB_LEN as nat
                && old(self).signed_up(who@) && old(self).back_of(who@).spec_clock() < u64::MAX {
                let c = if clock_hint > old(self).back_of(who@).spec_clock() {
                    clock_hint
                } else {
                    (old(self).back_of(who@).spec_clock() + 1) as u64
                };
                assert(self.raw_tribs(who@) == old(self).raw_tribs(who@).push(
                    spec_encode_trib(TribV { user: who@, message: msg@, time, clock: c }),
                ));
                assert(self.trib_seq(who@) == old(self).trib_seq(who@).push(
                    (TribV { user: who@, message: msg@, time, clock: c }),
                ));
            }
        }
        r
    }
}


/// Removing the head value of a list whose tail never repeats it keeps
/// exactly the tail.
pub proof fn lemma_filter_drop_head(s: Seq<Seq<char>>, v: Seq<char>)
    requires
        s.len() > 0,
        s[0] == v,
        forall|i: int| 1 <= i < s.len() ==> #[trigger] s[i] != v,
    ensures
        s.filter(crate::storage::ne_val(v)) == s.skip(1),
{
    reveal(Seq::filter);
    let pred = crate::storage::ne_val(v);
    let single = seq![s[0]];
    assert(s =~= single + s.skip(1));
    Seq::filter_distributes_over_add(single, s.skip(1), pred);
    assert(single.filter(pred) =~= Seq::<Seq<char>>::empty()) by {
        assert(single.len() == 1);
        assert(single.drop_last() =~= Seq::<Seq<char>>::empty());
        assert(single.drop_last().filter(pred) =~= Seq::<Seq<char>>::empty());
        assert(single.last() == s[0]);
        assert(!pred(s[0]));
    }
    lemma_filter_all(s.skip(1), pred);
    assert(s.filter(pred) == (single + s.skip(1)).filter(pred));
    assert(Seq::<Seq<char>>::empty() + s.skip(1) =~= s.skip(1));
}

/// Filtering with a predicate every element meets changes nothing.
pub proof fn lemma_filter_all<A>(s: Seq<A>, pred: spec_fn(A) -> bool)
    requires
        forall|i: int| 0 <= i < s.len() ==> pred(#[trigger] s[i]),
    ensures
        s.filter(pred) == s,
    decreases s.len(),
{
    reveal(Seq::filter);
    if s.len() > 0 {
        lemma_filter_all(s.drop_last(), pred);
        assert(pred(s.last()));
        assert(s.drop_last().push(s.last()) =~= s);
    }
}

impl FrontendServer {
    /// The stored posts of `who` (assumed valid), decoded, in storage
    /// order — which the clock invariant makes the canonical order.
    fn fetch_tribs(&self, who: &str) -> (r: (Vec<String>, Vec<Trib>))
        requires
            self.wf(),
            valid_username(who@),
        ensures
            crate::strutil::dvs(r.0@) == self.raw_tribs(who@),
            forall|a: int| 0 <= a < r.0@.len() ==> (#[trigger] r.0@[a])@ == self.raw_tribs(who@)[a],
            r.1@.len() == r.0@.len(),
            crate::strutil::dvs(r.1@) == self.trib_seq(who@),
            forall|a: int|
                0 <= a < r.1@.len() ==> (#[trigger] r.1@[a]).deep_view() == self.trib_seq(who@)[a],
    {
        let ub = self.bin_storage.bin(who);
        proof {
            crate::trib::lemma_username_chars(who@);
            lemma_escape_colon_free(who@);
        }
        let stored = ub.list_get(&self.bin_storage.backs[ub.back], "tribs");
        proof {
            reveal_strlit("tribs");
            assert("tribs"@ =~= seq!['t', 'r', 'i', 'b', 's']);
            lemma_escape_colon_free("tribs"@);
            assert(phys_key(ub.name@, "tribs"@) =~= k_tribs(who@));
            assert(crate::strutil::dvs(stored@) =~= self.raw_tribs(who@)) by {
                assert forall|a: int|
                    0 <= a < stored@.len() implies #[trigger] crate::strutil::dvs(stored@)[a]
                    == self.raw_tribs(who@)[a] by {
                    assert(stored@[a]@ == self.raw_tribs(who@)[a]);
                }
            }
            self.lemma_tribs_wf(who@);
        }
        let mut tv: Vec<Trib> = Vec::new();
        let mut i: usize = 0;
        while i < stored.len()
            invariant
                i <= stored@.len(),
                self.wf(),
                valid_username(who@),
                crate::strutil::dvs(stored@) == self.raw_tribs(who@),
                forall|a: int|
                    0 <= a < stored@.len() ==> (#[trigger] stored@[a])@ == self.raw_tribs(who@)[a],
                tribs_ok(self.raw_tribs(who@), who@, self.back_of(who@).spec_clock()),
                tv@.len() == i,
                forall|a: int|
                    0 <= a < i ==> (#[trigger] tv@[a]).deep_view() == self.trib_seq(who@)[a],
            decreases stored@.len() - i,
        {
            let ghost e = self.raw_tribs(who@)[i as int];
            proof {
                assert(wf_trib_entry(e));
            }
            match crate::codec::decode_trib(stored[i].as_str()) {
                Some(t) => {
                    proof {
                        let tt = trib_of_entry(e);
                        assert(valid_username(tt.user) && e == spec_encode_trib(tt));
                        assert(crate::codec::decoded_as(Some(t), tt));
                        assert(self.trib_seq(who@)[i as int] == tt);
                    }
                    tv.push(t);
                },
                None => {
                    proof {
                        let tt = trib_of_entry(e);
                        assert(valid_username(tt.user) && e == spec_encode_trib(tt));
                        assert(crate::codec::decoded_as(None, tt));
                        assert(false);
                    }
                },
            }
            i += 1;
        }
        proof {
            assert(crate::strutil::dvs(tv@) =~= self.trib_seq(who@));
        }
        (stored, tv)
    }

    /// The most recent posts of `user`, oldest first.
    ///
    /// Rejects malformed and unregistered names.  Otherwise returns the
    /// posts in the canonical order, truncated to the newest
    /// `MAX_TRIB_FETCH`, and garbage-collects everything older out of the
    /// back end, so that the stored list keeps exactly what is returned.
    #[verifier::rlimit(100)]
    pub fn tribs(&mut self, user: &str) -> (r: Result<Vec<Trib>, TribError>)
        requires
            old(self).wf(),
        ensures
            final(self).wf(),
            !valid_username(user@) ==> is_invalid_username(r, user@) && *final(self) == *old(self),
            valid_username(user@) && !old(self).signed_up(user@) ==> is_user_does_not_exist(
                r,
                user@,
            ) && *final(self) == *old(self),
            valid_username(user@) && old(self).signed_up(user@) ==> {
                let all = old(self).trib_seq(user@);
                let k = if all.len() > MAX_TRIB_FETCH as nat {
                    all.len() - MAX_TRIB_FETCH as nat
                } else {
                    0
                };
                &&& (match r {
                    Ok(ts) => crate::strutil::dvs(ts@) == all.skip(k as int) && ts@.len()
                        <= MAX_TRIB_FETCH,
                    Err(_) => false,
                })
                &&& final(self).raw_tribs(user@) == old(self).raw_tribs(user@).skip(k as int)
                &&& final(self).trib_seq(user@) == all.skip(k as int)
                &&& final(self).n_backs() == old(self).n_backs()
                &&& forall|u: Seq<char>| #[trigger]
                    final(self).signed_up(u) == old(self).signed_up(u)
                &&& final(self).cache() == old(self).cache()
                &&& forall|u: Seq<char>| #[trigger] final(self).raw_log(u) == old(self).raw_log(u)
                &&& forall|u: Seq<char>|
                    u != user@ ==> #[trigger] final(self).raw_tribs(u) == old(self).raw_tribs(u)
                &&& forall|u: Seq<char>|
                    u != user@ ==> #[trigger] final(self).trib_seq(u) == old(self).trib_seq(u)
                &&& forall|i: int|
                    0 <= i < old(self).n_backs()
                        ==> #[trigger] final(self).bin_storage.backs@[i].spec_clock() == old(
                        self,
                    ).bin_storage.backs@[i].spec_clock()
            },
    {
        if !is_valid_username(user) {
            return Err(TribError::InvalidUsername(user.to_owned()));
        }
        if !self.check_signed(user) {
            return Err(TribError::UserDoesNotExist(user.to_owned()));
        }
        proof {
            crate::trib::lemma_username_chars(user@);
            lemma_escape_colon_free(user@);
        }
        let (stored, mut tv) = self.fetch_tribs(user);
        let ghost pre = *self;
        let ghost all = pre.trib_seq(user@);
        proof {
            pre.lemma_tribs_wf(user@);
            crate::trib::lemma_trib_le_total_ordering();
            assert(vstd::relations::sorted_by(crate::strutil::dvs(tv@), crate::trib::trib_le_f()))
                by {
                assert forall|a: int, b: int|
                    0 <= a < b < all.len() implies crate::trib::trib_le_f()(
                    #[trigger] all[a],
                    #[trigger] all[b],
                ) by {
                    assert(all[a] == trib_of_entry(pre.raw_tribs(user@)[a]));
                    assert(all[b] == trib_of_entry(pre.raw_tribs(user@)[b]));
                    assert(all[a].clock < all[b].clock);
                }
            }
        }
        crate::trib::sort_tribs(&mut tv);
        proof {
            vstd::seq_lib::lemma_sorted_unique(
                crate::strutil::dvs(tv@),
                all,
                crate::trib::trib_le_f(),
            );
            assert(crate::strutil::dvs(tv@) == all);
        }
        let ub = self.bin_storage.bin(user);
        let idx = ub.back;
        let n = tv.len();
        if n > MAX_TRIB_FETCH {
            let old_num = n - MAX_TRIB_FETCH;
            let mut i: usize = 0;
            proof {
                assert(pre.raw_tribs(user@).skip(0) =~= pre.raw_tribs(user@));
            }
            while i < old_num
                invariant
                    i <= old_num,
                    old_num == n - MAX_TRIB_FETCH,
                    n == tv@.len(),
                    n == all.len(),
                    n > MAX_TRIB_FETCH,
                    valid_username(user@),
                    ub.name@ == user@,
                    idx == ub.back,
                    idx == spec_route(user@, pre.n_backs()),
                    idx < pre.n_backs(),
                    all == pre.trib_seq(user@),
                    crate::strutil::dvs(tv@) == all,
                    forall|a: int| 0 <= a < n ==> (#[trigger] tv@[a]).deep_view() == all[a],
                    tribs_ok(pre.raw_tribs(user@), user@, pre.back_of(user@).spec_clock()),
                    all.len() == pre.raw_tribs(user@).len(),
                    forall|a: int|
                        0 <= a < n ==> #[trigger] pre.raw_tribs(user@)[a] == spec_encode_trib(
                            all[a],
                        ),
                    self.n_backs() == pre.n_backs(),
                    forall|b: int|
                        0 <= b < pre.n_backs() ==> (#[trigger] self.bin_storage.backs@[b]).wf(),
                    self.raw_tribs(user@) == pre.raw_tribs(user@).skip(i as int),
                    forall|b: int, k2: Seq<char>|
                        0 <= b < pre.n_backs() && !(b == idx && k2 == k_tribs(user@))
                            ==> #[trigger] self.bin_storage.backs@[b].spec_list(k2)
                            == pre.bin_storage.backs@[b].spec_list(k2),
                    forall|b: int, k2: Seq<char>|
                        0 <= b < pre.n_backs() ==> #[trigger] self.bin_storage.backs@[b].spec_get(
                            k2,
                        ) == pre.bin_storage.backs@[b].spec_get(k2),
                    forall|b: int|
                        0 <= b < pre.n_backs()
                            ==> #[trigger] self.bin_storage.backs@[b].spec_clock()
                            == pre.bin_storage.backs@[b].spec_clock(),
                decreases old_num - i,
            {
                let ghost st0 = *self;
                let val = crate::codec::encode_trib(&tv[i]);
                proof {
                    assert(val@ == spec_encode_trib(all[i as int]));
                    assert(val@ == pre.raw_tribs(user@)[i as int]);
                }
                let tk = String::from_str("tribs");
                proof {
                    reveal_strlit("tribs");
                    assert("tribs"@ =~= seq!['t', 'r', 'i', 'b', 's']);
                    lemma_escape_colon_free("tribs"@);
                    assert(phys_key(ub.name@, tk@) =~= k_tribs(user@));
                }
                ub.list_remove(&mut self.bin_storage.backs[idx], &KeyValue { key: tk, value: val });
                proof {
                    let cur = st0.raw_tribs(user@);
                    let rest = pre.raw_tribs(user@).skip(i + 1);
                    assert(cur[0] == pre.raw_tribs(user@)[i as int]);
                    assert forall|a: int| 1 <= a < cur.len() implies #[trigger] cur[a] != val@ by {
                        assert(cur[a] == pre.raw_tribs(user@)[i + a]);
                        if cur[a] == val@ {
                            lemma_trib_of_entry(val@, all[i as int]);
                            lemma_trib_of_entry(val@, all[i + a]);
                            assert(all[i + a].clock == all[i as int].clock);
                            assert(all[i as int].clock < all[i + a].clock);
                        }
                    }
                    lemma_filter_drop_head(cur, val@);
                    assert(cur.skip(1) =~= rest);
                    assert(self.raw_tribs(user@) == rest);
                }
                i += 1;
            }
            let ghost gcd = *self;
            proof {
                assert(pre.steps_to(gcd)) by {
                    assert forall|b: int, k2: Seq<char>|
                        0 <= b < pre.n_backs() implies (#[trigger] gcd.bin_storage.backs@[b].spec_list(
                        k2,
                    ) == pre.bin_storage.backs@[b].spec_list(k2) || (
                    gcd.bin_storage.backs@[b].spec_list(k2).len() > 0 ==> gcd.list_key_ok(
                        b,
                        k2,
                    ))) by {
                        if b == idx as int && k2 == k_tribs(user@) {
                            if gcd.bin_storage.backs@[b].spec_list(k2).len() > 0 {
                                assert(gcd.list_key_ok(b, k2)) by {
                                    let es = gcd.raw_tribs(user@);
                                    assert(es == pre.raw_tribs(user@).skip(old_num as int));
                                    assert(tribs_ok(
                                        es,
                                        user@,
                                        gcd.bin_storage.backs@[b].spec_clock(),
                                    )) by {
                                        assert forall|a: int|
                                            0 <= a < es.len() implies wf_trib_entry(
                                            #[trigger] es[a],
                                        ) && trib_of_entry(es[a]).user == user@ && trib_of_entry(
                                            es[a],
                                        ).clock <= gcd.bin_storage.backs@[b].spec_clock() by {
                                            assert(es[a] == pre.raw_tribs(user@)[old_num + a]);
                                        }
                                        assert forall|a: int, b2: int|
                                            0 <= a < b2 < es.len() implies trib_of_entry(
                                            #[trigger] es[a],
                                        ).clock < trib_of_entry(#[trigger] es[b2]).clock by {
                                            assert(es[a] == pre.raw_tribs(user@)[old_num + a]);
                                            assert(es[b2] == pre.raw_tribs(user@)[old_num + b2]);
                                        }
                                    }
                                }
                            }
                        }
                    }
                }
                pre.lemma_wf_preserved(gcd);
                assert(self.trib_seq(user@) =~= all.skip(old_num as int)) by {
                    assert forall|a: int|
                        0 <= a < self.raw_tribs(user@).len() implies #[trigger] self.trib_seq(
                        user@,
                    )[a] == all.skip(old_num as int)[a] by {
                        assert(self.raw_tribs(user@)[a] == pre.raw_tribs(user@)[old_num + a]);
                    }
                }
                assert forall|u: Seq<char>|
                    u != user@ implies #[trigger] self.raw_tribs(u) == pre.raw_tribs(u) by {
                    lemma_k_tribs_vs_others(u, user@);
                }
                assert forall|u: Seq<char>| #[trigger]
                    self.raw_log(u) == pre.raw_log(u) by {
                    lemma_k_log_vs_others(u, user@);
                }
                assert(self.cache() == pre.cache()) by {
                    lemma_k_tribs_vs_others(user@, user@);
                }
            }
            let ghost tvfull = tv@;
            let rest = tv.split_off(old_num);
            proof {
                assert(crate::strutil::dvs(rest@) =~= all.skip(old_num as int)) by {
                    assert forall|a: int|
                        0 <= a < rest@.len() implies #[trigger] crate::strutil::dvs(rest@)[a]
                        == all.skip(old_num as int)[a] by {
                        assert(rest@[a] == tvfull.subrange(old_num as int, n as int)[a]);
                        assert(rest@[a] == tvfull[old_num + a]);
                        assert(tvfull[old_num + a].deep_view() == crate::strutil::dvs(tvfull)[
                        old_num + a]);
                    }
                }
            }
            Ok(rest)
        } else {
            proof {
                assert(pre.raw_tribs(user@).skip(0) =~= pre.raw_tribs(user@));
                assert(all.skip(0) =~= all);
            }
            Ok(tv)
        }
    }
}


/// How much a read of a trib list garbage-collects: everything before
/// the newest `MAX_TRIB_FETCH`.
pub open spec fn gc_k(n: nat) -> nat {
    if n > MAX_TRIB_FETCH as nat {
        (n - MAX_TRIB_FETCH as nat) as nat
    } else {
        0
    }
}

/// Every name a replay can produce was the target of some log entry.
pub proof fn lemma_replay_targets(entries: Seq<Seq<char>>, w: Seq<char>)
    requires
        replay(entries).contains(w),
    ensures
        exists|a: int|
            0 <= a < entries.len() && wf_log_entry(#[trigger] entries[a]) && ev_of_entry(
                entries[a],
            ).2 == w,
    decreases entries.len(),
{
    broadcast use vstd::set::group_set_axioms;

    if entries.len() > 0 {
        let e = entries.last();
        if wf_log_entry(e) && ev_of_entry(e).1 && !replay(entries.drop_last()).contains(
            ev_of_entry(e).2,
        ) && replay(entries.drop_last()).len() < MAX_FOLLOWING as nat && ev_of_entry(e).2 == w {
            assert(0 <= entries.len() - 1 < entries.len() && wf_log_entry(
                entries[entries.len() - 1],
            ) && ev_of_entry(entries[entries.len() - 1]).2 == w);
        } else {
            assert(replay(entries.drop_last()).contains(w));
            lemma_replay_targets(entries.drop_last(), w);
            let a = choose|a: int|
                0 <= a < entries.drop_last().len() && wf_log_entry(
                    #[trigger] entries.drop_last()[a],
                ) && ev_of_entry(entries.drop_last()[a]).2 == w;
            assert(entries[a] == entries.drop_last()[a]);
        }
    }
}

impl FrontendServer {
    /// Everyone `u` follows is a registered user other than `u`.
    pub proof fn lemma_followees_signed(self, u: Seq<char>, w: Seq<char>)
        requires
            self.wf(),
            valid_username(u),
            self.followees(u).contains(w),
        ensures
            valid_username(w),
            self.signed_up(w),
            w != u,
    {
        self.lemma_log_wf(u);
        lemma_replay_targets(self.raw_log(u), w);
        let a = choose|a: int|
            0 <= a < self.raw_log(u).len() && wf_log_entry(#[trigger] self.raw_log(u)[a])
                && ev_of_entry(self.raw_log(u)[a]).2 == w;
        let ev = ev_of_entry(self.raw_log(u)[a]);
        assert(is_log_entry(self.raw_log(u)[a], ev.0, ev.1, ev.2));
        assert(self.signed_f()(w));
    }

    /// The posts of the listed users, one user's posts after another's.
    pub open spec fn tribs_concat(self, fl: Seq<Seq<char>>) -> Seq<TribV>
        decreases fl.len(),
    {
        if fl.len() == 0 {
            Seq::empty()
        } else {
            self.tribs_concat(fl.drop_last()) + self.trib_seq(fl.last())
        }
    }

    /// Two states holding the same posts for the listed users concatenate
    /// them the same way.
    pub proof fn lemma_tribs_concat_same(s1: FrontendServer, s2: FrontendServer, fl: Seq<Seq<char>>)
        requires
            forall|a: int| 0 <= a < fl.len() ==> s1.trib_seq(#[trigger] fl[a]) == s2.trib_seq(fl[a]),
        ensures
            s1.tribs_concat(fl) == s2.tribs_concat(fl),
        decreases fl.len(),
    {
        if fl.len() > 0 {
            Self::lemma_tribs_concat_same(s1, s2, fl.drop_last());
            assert(fl[fl.len() - 1] == fl.last());
        }
    }

    /// The home feed of `user`: their own newest posts merged with the
    /// newest posts of everyone they follow, in the canonical order,
    /// truncated to the newest `MAX_TRIB_FETCH`.
    ///
    /// Reading the feed garbage-collects the read users' stored posts,
    /// exactly as [`Self::tribs`] does for each of them.
    pub fn home(&mut self, user: &str) -> (r: Result<Vec<Trib>, TribError>)
        requires
            old(self).wf(),
        ensures
            final(self).wf(),
            !valid_username(user@) ==> is_invalid_username(r, user@) && *final(self) == *old(self),
            valid_username(user@) && !old(self).signed_up(user@) ==> is_user_does_not_exist(
                r,
                user@,
            ) && *final(self) == *old(self),
            valid_username(user@) && old(self).signed_up(user@) ==> {
                &&& (match r {
                    Ok(h) => {
                        &&& vstd::relations::sorted_by(
                            crate::strutil::dvs(h@),
                            crate::trib::trib_le_f(),
                        )
                        &&& h@.len() <= MAX_TRIB_FETCH
                        &&& exists|fl: Seq<Seq<char>>|
                            {
                                let pool = final(self).trib_seq(user@)
                                    + #[trigger] final(self).tribs_concat(fl);
                                &&& (forall|a: int, b: int|
                                    0 <= a < b < fl.len() ==> lex_lt(fl[a], fl[b]))
                                &&& (forall|w: Seq<char>|
                                    fl.contains(w) == old(self).followees(user@).contains(w))
                                &&& crate::strutil::dvs(h@) == pool.sort_by(
                                    crate::trib::trib_le_f(),
                                ).skip(gc_k(pool.len()) as int)
                            }
                    },
                    Err(_) => false,
                })
                &&& forall|u: Seq<char>| #[trigger]
                    final(self).signed_up(u) == old(self).signed_up(u)
                &&& final(self).cache() == old(self).cache()
                &&& forall|u: Seq<char>| #[trigger] final(self).raw_log(u) == old(self).raw_log(u)
                &&& final(self).followees(user@) == old(self).followees(user@)
                &&& forall|u: Seq<char>|
                    u != user@ && !old(self).followees(user@).contains(u)
                        ==> #[trigger] final(self).trib_seq(u) == old(self).trib_seq(u)
                &&& final(self).trib_seq(user@) == old(self).trib_seq(user@).skip(
                    gc_k(old(self).trib_seq(user@).len()) as int,
                )
                &&& forall|u: Seq<char>|
                    old(self).followees(user@).contains(u) ==> #[trigger] final(self).trib_seq(u)
                        == old(self).trib_seq(u).skip(gc_k(old(self).trib_seq(u).len()) as int)
            },
    {
        if !is_valid_username(user) {
            return Err(TribError::InvalidUsername(user.to_owned()));
        }
        if !self.check_signed(user) {
            return Err(TribError::UserDoesNotExist(user.to_owned()));
        }
        let ghost pre = *self;
        let mut home_vec = match self.tribs(user) {
            Ok(v) => v,
            Err(e) => {
                proof {
                    assert(false);
                }
                return Err(e);
            },
        };
        let ghost st1 = *self;
        let fl = match self.following(user) {
            Ok(v) => v,
            Err(e) => {
                proof {
                    assert(false);
                }
                return Err(e);
            },
        };
        let ghost flv = crate::strutil::dvs(fl@);
        proof {
            assert(st1.followees(user@) == pre.followees(user@));
            assert forall|a: int| 0 <= a < flv.len() implies valid_username(#[trigger] flv[a])
                && pre.signed_up(flv[a]) && flv[a] != user@ by {
                assert(crate::storage::seq_has_str(fl@, flv[a])) by {
                    assert(fl@[a]@ == flv[a]);
                }
                assert(st1.followees(user@).contains(flv[a]));
                st1.lemma_followees_signed(user@, flv[a]);
            }
            assert forall|a: int, b: int|
                #![trigger flv[a], flv[b]]
                0 <= a < b < flv.len() implies flv[a] != flv[b] by {
                assert(flv[a] == fl@[a]@ && flv[b] == fl@[b]@);
                assert(lex_lt(fl@[a]@, fl@[b]@));
                if flv[a] == flv[b] {
                    crate::strutil::lemma_lex_irrefl(flv[a]);
                }
            }
            assert(flv.take(0) =~= Seq::<Seq<char>>::empty());
        }
        let mut i: usize = 0;
        while i < fl.len()
            invariant
                i <= fl@.len(),
                flv == crate::strutil::dvs(fl@),
                flv.len() == fl@.len(),
                self.wf(),
                pre.wf(),
                valid_username(user@),
                forall|a: int| 0 <= a < fl@.len() ==> (#[trigger] fl@[a])@ == flv[a],
                forall|a: int|
                    0 <= a < flv.len() ==> valid_username(#[trigger] flv[a]) && pre.signed_up(
                        flv[a],
                    ) && flv[a] != user@,
                forall|a: int, b: int|
                    #![trigger flv[a], flv[b]]
                    0 <= a < b < flv.len() ==> flv[a] != flv[b],
                forall|u: Seq<char>| #[trigger] self.signed_up(u) == pre.signed_up(u),
                self.cache() == pre.cache(),
                forall|u: Seq<char>| #[trigger] self.raw_log(u) == pre.raw_log(u),
                self.n_backs() == pre.n_backs(),
                self.trib_seq(user@) == pre.trib_seq(user@).skip(
                    gc_k(pre.trib_seq(user@).len()) as int,
                ),
                forall|u: Seq<char>|
                    u != user@ && !flv.contains(u) ==> #[trigger] self.trib_seq(u)
                        == pre.trib_seq(u),
                forall|a: int|
                    0 <= a < i ==> #[trigger] self.trib_seq(flv[a]) == pre.trib_seq(
                        flv[a],
                    ).skip(gc_k(pre.trib_seq(flv[a]).len()) as int),
                forall|a: int|
                    i <= a < flv.len() ==> #[trigger] self.trib_seq(flv[a]) == pre.trib_seq(
                        flv[a],
                    ),
                crate::strutil::dvs(home_vec@) == self.trib_seq(user@) + self.tribs_concat(
                    flv.take(i as int),
                ),
            decreases fl@.len() - i,
        {
            let ghost stb = *self;
            let mut ft = match self.tribs(fl[i].as_str()) {
                Ok(v) => v,
                Err(e) => {
                    proof {
                        assert(false);
                    }
                    return Err(e);
                },
            };
            let ghost fte = crate::strutil::dvs(ft@);
            let ghost hv_old = home_vec@;
            home_vec.append(&mut ft);
            proof {
                let w = flv[i as int];
                assert(fte == stb.trib_seq(w).skip(gc_k(stb.trib_seq(w).len()) as int));
                assert(self.trib_seq(w) == fte);
                assert(stb.trib_seq(w) == pre.trib_seq(w));
                assert forall|a: int|
                    0 <= a < i + 1 implies #[trigger] self.trib_seq(flv[a]) == pre.trib_seq(
                    flv[a],
                ).skip(gc_k(pre.trib_seq(flv[a]).len()) as int) by {
                    if a < i {
                        assert(self.trib_seq(flv[a]) == stb.trib_seq(flv[a]));
                    }
                }
                assert(crate::strutil::dvs(home_vec@) =~= crate::strutil::dvs(hv_old) + fte);
                assert(self.trib_seq(user@) == stb.trib_seq(user@));
                Self::lemma_tribs_concat_same(stb, *self, flv.take(i as int));
                assert(flv.take(i + 1).drop_last() =~= flv.take(i as int));
                assert(flv.take(i + 1).last() == flv[i as int]);
                assert(self.tribs_concat(flv.take(i + 1)) == self.tribs_concat(flv.take(i as int))
                    + self.trib_seq(flv[i as int]));
                assert(crate::strutil::dvs(home_vec@) =~= self.trib_seq(user@)
                    + self.tribs_concat(flv.take(i + 1)));
            }
            i += 1;
        }
        proof {
            assert(flv.take(flv.len() as int) =~= flv);
        }
        let ghost pool = self.trib_seq(user@) + self.tribs_concat(flv);
        proof {
            assert(crate::strutil::dvs(home_vec@) == pool);
            assert forall|w: Seq<char>|
                flv.contains(w) == old(self).followees(user@).contains(w) by {
                crate::strutil::lemma_seq_has_dvs(fl@, w);
            }
            crate::trib::lemma_trib_le_total_ordering();
        }
        crate::trib::sort_tribs(&mut home_vec);
        let hn = home_vec.len();
        if hn > MAX_TRIB_FETCH {
            let ghost hfull = home_vec@;
            let rest = home_vec.split_off(hn - MAX_TRIB_FETCH);
            proof {
                assert(crate::strutil::dvs(rest@) =~= crate::strutil::dvs(hfull).skip(
                    hn - MAX_TRIB_FETCH,
                )) by {
                    assert forall|a: int|
                        0 <= a < rest@.len() implies #[trigger] crate::strutil::dvs(rest@)[a]
                        == crate::strutil::dvs(hfull).skip(hn - MAX_TRIB_FETCH)[a] by {
                        assert(rest@[a] == hfull.subrange(hn - MAX_TRIB_FETCH, hn as int)[a]);
                        assert(rest@[a] == hfull[hn - MAX_TRIB_FETCH + a]);
                        assert(hfull[hn - MAX_TRIB_FETCH + a].deep_view() == crate::strutil::dvs(
                            hfull,
                        )[hn - MAX_TRIB_FETCH + a]);
                    }
                }
                assert(vstd::relations::sorted_by(
                    crate::strutil::dvs(rest@),
                    crate::trib::trib_le_f(),
                )) by {
                    assert forall|p: int, q: int|
                        0 <= p < q < rest@.len() implies crate::trib::trib_le_f()(
                        #[trigger] crate::strutil::dvs(rest@)[p],
                        #[trigger] crate::strutil::dvs(rest@)[q],
                    ) by {
                        assert(crate::strutil::dvs(rest@)[p] == crate::strutil::dvs(hfull)[hn
                            - MAX_TRIB_FETCH + p]);
                        assert(crate::strutil::dvs(rest@)[q] == crate::strutil::dvs(hfull)[hn
                            - MAX_TRIB_FETCH + q]);
                    }
                }
            }
            Ok(rest)
        } else {
            proof {
                assert(crate::strutil::dvs(home_vec@).skip(0) =~= crate::strutil::dvs(home_vec@));
            }
            Ok(home_vec)
        }
    }
}


impl FrontendServer {
    /// The first registered user names, alphabetically.
    ///
    /// While the cache holds a full listing it is returned as it is; a
    /// shorter cache is rebuilt from the signup records: all names,
    /// sorted, truncated to `MIN_LIST_USER`, written back, and returned.
    /// Names registered beyond a full cache stay invisible here.
    #[verifier::rlimit(100)]
    pub fn list_users(&mut self) -> (r: Result<Vec<String>, TribError>)
        requires
            old(self).wf(),
        ensures
            final(self).wf(),
            old(self).cache().len() >= MIN_LIST_USER ==> (match r {
                Ok(us) => crate::strutil::dvs(us@) == old(self).cache(),
                Err(_) => false,
            }) && *final(self) == *old(self),
            old(self).cache().len() < MIN_LIST_USER ==> {
                &&& (match r {
                    Ok(us) => {
                        &&& forall|a: int, b: int|
                            #![trigger us@[a]@, us@[b]@]
                            0 <= a < b < us@.len() ==> lex_lt(us@[a]@, us@[b]@)
                        &&& us@.len() <= MIN_LIST_USER
                        &&& final(self).cache() == crate::strutil::dvs(us@)
                        &&& exists|allu: Seq<Seq<char>>|
                            {
                                &&& (forall|a: int, b: int|
                                    0 <= a < b < allu.len() ==> lex_lt(
                                        #[trigger] allu[a],
                                        #[trigger] allu[b],
                                    ))
                                &&& (forall|u: Seq<char>|
                                    #[trigger] allu.contains(u) == old(self).signed_up(u))
                                &&& crate::strutil::dvs(us@) == allu.take(
                                    if allu.len() > MIN_LIST_USER as nat {
                                        MIN_LIST_USER as int
                                    } else {
                                        allu.len() as int
                                    },
                                )
                            }
                    },
                    Err(_) => false,
                })
                &&& forall|u: Seq<char>| #[trigger]
                    final(self).signed_up(u) == old(self).signed_up(u)
                &&& forall|u: Seq<char>| #[trigger] final(self).raw_log(u) == old(self).raw_log(u)
                &&& forall|u: Seq<char>| #[trigger]
                    final(self).raw_tribs(u) == old(self).raw_tribs(u)
                &&& final(self).n_backs() == old(self).n_backs()
                &&& forall|i: int|
                    0 <= i < old(self).n_backs()
                        ==> #[trigger] final(self).bin_storage.backs@[i].spec_clock() == old(
                        self,
                    ).bin_storage.backs@[i].spec_clock()
            },
    {
        let gb = self.general_bin();
        let gidx = gb.back;
        let cache = gb.list_get(&self.bin_storage.backs[gidx], "cache");
        proof {
            reveal_strlit("cache");
            assert("cache"@ =~= seq!['c', 'a', 'c', 'h', 'e']);
            lemma_escape_colon_free("cache"@);
            assert(phys_key(gb.name@, "cache"@) =~= k_cache());
            assert(crate::strutil::dvs(cache@) =~= old(self).cache()) by {
                assert forall|a: int|
                    0 <= a < cache@.len() implies #[trigger] crate::strutil::dvs(cache@)[a] == old(
                    self,
                ).cache()[a] by {
                    assert(cache@[a]@ == old(self).cache()[a]);
                }
            }
        }
        if cache.len() >= MIN_LIST_USER {
            return Ok(cache);
        }
        let ghost pre = *self;
        let ghost oldcache = pre.cache();
        proof {
            pre.lemma_cache_wf();
        }
        let mut i: usize = 0;
        proof {
            assert(oldcache.skip(0) =~= oldcache);
        }
        while i < cache.len()
            invariant
                i <= cache@.len(),
                cache@.len() == oldcache.len(),
                forall|a: int| 0 <= a < cache@.len() ==> (#[trigger] cache@[a])@ == oldcache[a],
                gb.name@ == Seq::<char>::empty(),
                gidx == gb.back,
                gidx == spec_route(Seq::empty(), pre.n_backs()),
                gidx < pre.n_backs(),
                cache_ok(oldcache, pre.signed_f()),
                self.n_backs() == pre.n_backs(),
                forall|b: int|
                    0 <= b < pre.n_backs() ==> (#[trigger] self.bin_storage.backs@[b]).wf(),
                self.cache() == oldcache.skip(i as int),
                forall|b: int, k2: Seq<char>|
                    0 <= b < pre.n_backs() && !(b == gidx && k2 == k_cache())
                        ==> #[trigger] self.bin_storage.backs@[b].spec_list(k2)
                        == pre.bin_storage.backs@[b].spec_list(k2),
                forall|b: int, k2: Seq<char>|
                    0 <= b < pre.n_backs() ==> #[trigger] self.bin_storage.backs@[b].spec_get(k2)
                        == pre.bin_storage.backs@[b].spec_get(k2),
                forall|b: int|
                    0 <= b < pre.n_backs() ==> #[trigger] self.bin_storage.backs@[b].spec_clock()
                        == pre.bin_storage.backs@[b].spec_clock(),
            decreases cache@.len() - i,
        {
            let ghost st0 = *self;
            let ck = String::from_str("cache");
            proof {
                reveal_strlit("cache");
                assert("cache"@ =~= seq!['c', 'a', 'c', 'h', 'e']);
                lemma_escape_colon_free("cache"@);
                assert(phys_key(gb.name@, ck@) =~= k_cache());
            }
            gb.list_remove(
                &mut self.bin_storage.backs[gidx],
                &KeyValue { key: ck, value: cache[i].clone() },
            );
            proof {
                let cur = st0.cache();
                assert(cur[0] == oldcache[i as int]);
                assert forall|a: int|
                    1 <= a < cur.len() implies #[trigger] cur[a] != oldcache[i as int] by {
                    assert(cur[a] == oldcache[i + a]);
                    assert(lex_lt(oldcache[i as int], oldcache[i + a]));
                    if cur[a] == oldcache[i as int] {
                        crate::strutil::lemma_lex_irrefl(oldcache[i as int]);
                    }
                }
                lemma_filter_drop_head(cur, oldcache[i as int]);
                assert(cur.skip(1) =~= oldcache.skip(i + 1));
            }
            i += 1;
        }
        let pat = Pattern { prefix: String::from_str("signup_"), suffix: String::new() };
        let keys = gb.keys(&self.bin_storage.backs[gidx], &pat);
        proof {
            reveal_strlit("signup_");
            assert("signup_"@ =~= s_signup());
            assert(crate::bin_user_client::bin_header(gb.name@) =~= seq![':', ':']);
            assert forall|k: Seq<char>| #[trigger]
                crate::storage::seq_has_str(keys@, k) implies (k.len() >= 7 && k.skip(7)
                == k.subrange(7, k.len() as int)) by {
                assert(s_signup().is_prefix_of(k));
            }
            assert forall|a: int| 0 <= a < keys@.len() implies (#[trigger] keys@[a])@.len()
                >= 7 by {
                assert(crate::storage::seq_has_str(keys@, keys@[a]@)) by {
                    assert(keys@[a]@ == keys@[a]@);
                }
                assert(s_signup().is_prefix_of(keys@[a]@));
            }
        }
        let mut users: Vec<String> = Vec::new();
        let mut j: usize = 0;
        while j < keys.len()
            invariant
                j <= keys@.len(),
                users@.len() == j,
                forall|a: int| 0 <= a < keys@.len() ==> (#[trigger] keys@[a])@.len() >= 7,
                forall|a: int| 0 <= a < j ==> (#[trigger] users@[a])@ == keys@[a]@.skip(7),
            decreases keys@.len() - j,
        {
            let key = &keys[j];
            let klen = key.as_str().unicode_len();
            let name = key.as_str().substring_char(7, klen).to_owned();
            proof {
                assert(name@ =~= keys@[j as int]@.skip(7));
            }
            users.push(name);
            j += 1;
        }
        let ghost usersv0 = users@;
        let ghost pren = crate::strutil::dvs(usersv0);
        proof {
            assert forall|u: Seq<char>| #[trigger]
                crate::storage::seq_has_str(usersv0, u) <==> pre.signed_up(u) by {
                if crate::storage::seq_has_str(usersv0, u) {
                    let a = choose|a: int| 0 <= a < usersv0.len() && usersv0[a]@ == u;
                    let k = keys@[a]@;
                    assert(crate::storage::seq_has_str(keys@, k)) by {
                        assert(keys@[a]@ == k);
                    }
                    assert(self.bin_storage.backs@[gidx as int].spec_get(
                        crate::bin_user_client::bin_header(gb.name@) + k,
                    ) is Some);
                    assert(pre.bin_storage.backs@[gidx as int].spec_get(
                        seq![':', ':'] + k,
                    ) is Some) by {
                        assert((crate::bin_user_client::bin_header(gb.name@) + k) =~= (seq![
                            ':',
                            ':',
                        ] + k));
                    }
                    assert(pre.kv_ok(gidx as int));
                    let u2 = choose|u2: Seq<char>|
                        valid_username(u2) && (seq![':', ':'] + k) == #[trigger] k_signup(u2)
                            && pre.bin_storage.backs@[gidx as int].spec_get(seq![':', ':'] + k)
                            == Some(seq!['T']);
                    assert(k =~= s_signup() + u2) by {
                        assert forall|q: int| 0 <= q < k.len() implies k[q] == (s_signup()
                            + u2)[q] by {
                            assert((seq![':', ':'] + k)[2 + q] == k[q]);
                            assert(k_signup(u2)[2 + q] == (s_signup() + u2)[q]);
                        }
                    }
                    assert(u =~= u2) by {
                        assert forall|q: int| 0 <= q < u.len() implies u[q] == u2[q] by {
                            assert(k.skip(7)[q] == k[7 + q]);
                            assert((s_signup() + u2)[7 + q] == u2[q]);
                        }
                        assert(u.len() == u2.len());
                    }
                    assert(pre.signed_up(u2));
                }
                if pre.signed_up(u) {
                    let k = s_signup() + u;
                    assert((seq![':', ':'] + k) =~= k_signup(u));
                    assert(self.bin_storage.backs@[gidx as int].spec_get(seq![':', ':'] + k)
                        is Some);
                    assert(crate::storage::seq_has_str(keys@, k)) by {
                        assert(s_signup().is_prefix_of(k)) by {
                            assert(s_signup() =~= k.subrange(0, 7));
                        }
                        assert(pat.suffix@.is_suffix_of(
                            crate::bin_user_client::bin_header(gb.name@) + k,
                        )) by {
                            assert(pat.suffix@ =~= (crate::bin_user_client::bin_header(gb.name@)
                                + k).subrange(
                                (crate::bin_user_client::bin_header(gb.name@) + k).len() as int,
                                (crate::bin_user_client::bin_header(gb.name@) + k).len() as int,
                            ));
                        }
                        assert(self.bin_storage.backs@[gidx as int].spec_get(
                            crate::bin_user_client::bin_header(gb.name@) + k,
                        ) is Some) by {
                            assert((crate::bin_user_client::bin_header(gb.name@) + k) =~= (seq![
                                ':',
                                ':',
                            ] + k));
                        }
                    }
                    let a = choose|a: int| 0 <= a < keys@.len() && keys@[a]@ == k;
                    assert(usersv0[a]@ == k.skip(7));
                    assert(k.skip(7) =~= u);
                    assert(crate::storage::seq_has_str(usersv0, u)) by {
                        assert(usersv0[a]@ == u);
                    }
                }
            }
            assert forall|a: int, b: int|
                #![trigger usersv0[a]@, usersv0[b]@]
                0 <= a < b < usersv0.len() implies usersv0[a]@ != usersv0[b]@ by {
                if usersv0[a]@ == usersv0[b]@ {
                    assert(keys@[a]@.skip(7) == keys@[b]@.skip(7));
                    assert(keys@[a]@ =~= keys@[b]@) by {
                        assert(crate::storage::seq_has_str(keys@, keys@[a]@)) by {
                            assert(keys@[a]@ == keys@[a]@);
                        }
                        assert(crate::storage::seq_has_str(keys@, keys@[b]@)) by {
                            assert(keys@[b]@ == keys@[b]@);
                        }
                        assert(s_signup().is_prefix_of(keys@[a]@));
                        assert(s_signup().is_prefix_of(keys@[b]@));
                        assert forall|q: int| 0 <= q < keys@[a]@.len() implies keys@[a]@[q]
                            == keys@[b]@[q] by {
                            if q < 7 {
                                assert(keys@[a]@[q] == s_signup()[q]);
                                assert(keys@[b]@[q] == s_signup()[q]);
                            } else {
                                assert(keys@[a]@.skip(7)[q - 7] == keys@[a]@[q]);
                                assert(keys@[b]@.skip(7)[q - 7] == keys@[b]@[q]);
                            }
                        }
                        assert(keys@[a]@.len() == keys@[b]@.len()) by {
                            assert(keys@[a]@.skip(7).len() == keys@[b]@.skip(7).len());
                        }
                    }
                }
            }
        }
        let le = |a: &String, b: &String| -> (rr: bool)
            ensures
                rr == crate::strutil::lex_le(a.deep_view(), b.deep_view()),
            { crate::strutil::str_le(a.as_str(), b.as_str()) };
        proof {
            crate::strutil::lemma_lex_le_total_ordering();
        }
        crate::strutil::insertion_sort::<String, _>(
            &mut users,
            Ghost(crate::strutil::lex_le_f()),
            le,
        );
        let ghost allu = crate::strutil::dvs(users@);
        proof {
            broadcast use vstd::seq_lib::group_to_multiset_ensures;

            assert(pren.no_duplicates()) by {
                assert forall|a: int, b: int|
                    0 <= a < pren.len() && 0 <= b < pren.len() && a != b implies pren[a]
                    != pren[b] by {}
            }
            pren.lemma_multiset_has_no_duplicates();
            allu.lemma_multiset_has_no_duplicates_conv();
            assert forall|u: Seq<char>| #[trigger] allu.contains(u) == pre.signed_up(u) by {
                assert(allu.contains(u) == pren.contains(u)) by {
                    assert(pren.to_multiset() == allu.to_multiset());
                    assert(pren.contains(u) <==> pren.to_multiset().count(u) > 0);
                    assert(allu.contains(u) <==> allu.to_multiset().count(u) > 0);
                }
                crate::strutil::lemma_seq_has_dvs(usersv0, u);
            }
            assert forall|a: int, b: int|
                0 <= a < b < allu.len() implies lex_lt(#[trigger] allu[a], #[trigger] allu[b]) by {
                assert(crate::strutil::lex_le_f()(allu[a], allu[b]));
            }
        }
        let mut d: usize = 1;
        while d < users.len()
            invariant
                1 <= d,
                allu == crate::strutil::dvs(users@),
                forall|a: int, b: int|
                    0 <= a < b < allu.len() ==> lex_lt(#[trigger] allu[a], #[trigger] allu[b]),
            decreases users@.len() - d,
        {
            if crate::strutil::eq_str(users[d - 1].as_str(), users[d].as_str()) {
                proof {
                    assert(allu[d - 1] == users@[d - 1]@ && allu[d as int] == users@[d as int]@);
                    crate::strutil::lemma_lex_irrefl(allu[d - 1]);
                    assert(false);
                }
                users.remove(d);
            } else {
                d += 1;
            }
        }
        if users.len() > MIN_LIST_USER {
            users.truncate(MIN_LIST_USER);
            proof {
                assert(crate::strutil::dvs(users@) =~= allu.take(MIN_LIST_USER as int)) by {
                    assert forall|a: int|
                        0 <= a < users@.len() implies #[trigger] crate::strutil::dvs(users@)[a]
                        == allu.take(MIN_LIST_USER as int)[a] by {
                        assert(users@[a].deep_view() == allu[a]);
                    }
                }
            }
        }
        let ghost taken = crate::strutil::dvs(users@);
        proof {
            assert(taken == allu.take(
                if allu.len() > MIN_LIST_USER as nat {
                    MIN_LIST_USER as int
                } else {
                    allu.len() as int
                },
            )) by {
                if allu.len() <= MIN_LIST_USER as nat {
                    assert(allu.take(allu.len() as int) =~= allu);
                }
            }
            crate::strutil::lemma_lex_le_total_ordering();
            assert(vstd::relations::sorted_by(taken, crate::strutil::lex_le_f())) by {
                assert forall|a: int, b: int|
                    0 <= a < b < taken.len() implies crate::strutil::lex_le_f()(
                    #[trigger] taken[a],
                    #[trigger] taken[b],
                ) by {
                    assert(taken[a] == allu[a] && taken[b] == allu[b]);
                    assert(lex_lt(allu[a], allu[b]));
                }
            }
        }
        let le2 = |a: &String, b: &String| -> (rr: bool)
            ensures
                rr == crate::strutil::lex_le(a.deep_view(), b.deep_view()),
            { crate::strutil::str_le(a.as_str(), b.as_str()) };
        crate::strutil::insertion_sort::<String, _>(
            &mut users,
            Ghost(crate::strutil::lex_le_f()),
            le2,
        );
        proof {
            vstd::seq_lib::lemma_sorted_unique(
                crate::strutil::dvs(users@),
                taken,
                crate::strutil::lex_le_f(),
            );
            assert(crate::strutil::dvs(users@) == taken);
        }
        let mut w: usize = 0;
        proof {
            assert(taken.take(0) =~= Seq::<Seq<char>>::empty());
            assert forall|a: int| 0 <= a < taken.len() implies pre.signed_up(
                #[trigger] taken[a],
            ) && valid_username(taken[a]) by {
                assert(allu.contains(taken[a])) by {
                    assert(allu[a] == taken[a]);
                }
                assert(pre.signed_up(taken[a]));
                pre.lemma_signed_valid(taken[a]);
            }
        }
        while w < users.len()
            invariant
                w <= users@.len(),
                taken == crate::strutil::dvs(users@),
                taken.len() <= MIN_LIST_USER,
                forall|a: int| 0 <= a < users@.len() ==> (#[trigger] users@[a])@ == taken[a],
                forall|a: int, b: int|
                    0 <= a < b < taken.len() ==> lex_lt(#[trigger] taken[a], #[trigger] taken[b]),
                forall|a: int| 0 <= a < taken.len() ==> pre.signed_up(#[trigger] taken[a]),
                forall|a: int| 0 <= a < taken.len() ==> valid_username(#[trigger] taken[a]),
                gb.name@ == Seq::<char>::empty(),
                gidx == gb.back,
                gidx == spec_route(Seq::empty(), pre.n_backs()),
                gidx < pre.n_backs(),
                self.n_backs() == pre.n_backs(),
                forall|b: int|
                    0 <= b < pre.n_backs() ==> (#[trigger] self.bin_storage.backs@[b]).wf(),
                self.cache() == taken.take(w as int),
                forall|b: int, k2: Seq<char>|
                    0 <= b < pre.n_backs() && !(b == gidx && k2 == k_cache())
                        ==> #[trigger] self.bin_storage.backs@[b].spec_list(k2)
                        == pre.bin_storage.backs@[b].spec_list(k2),
                forall|b: int, k2: Seq<char>|
                    0 <= b < pre.n_backs() ==> #[trigger] self.bin_storage.backs@[b].spec_get(k2)
                        == pre.bin_storage.backs@[b].spec_get(k2),
                forall|b: int|
                    0 <= b < pre.n_backs() ==> #[trigger] self.bin_storage.backs@[b].spec_clock()
                        == pre.bin_storage.backs@[b].spec_clock(),
            decreases users@.len() - w,
        {
            let ck = String::from_str("cache");
            proof {
                reveal_strlit("cache");
                assert("cache"@ =~= seq!['c', 'a', 'c', 'h', 'e']);
                lemma_escape_colon_free("cache"@);
                assert(phys_key(gb.name@, ck@) =~= k_cache());
            }
            gb.list_append(
                &mut self.bin_storage.backs[gidx],
                &KeyValue { key: ck, value: users[w].clone() },
            );
            proof {
                assert(self.cache() =~= taken.take(w + 1));
            }
            w += 1;
        }
        proof {
            assert(taken.take(taken.len() as int) =~= taken);
            assert(self.cache() == taken);
            assert(pre.steps_to(*self)) by {
                assert forall|b: int, k2: Seq<char>|
                    0 <= b < pre.n_backs() implies (#[trigger] self.bin_storage.backs@[b].spec_list(
                    k2,
                ) == pre.bin_storage.backs@[b].spec_list(k2) || (
                self.bin_storage.backs@[b].spec_list(k2).len() > 0 ==> self.list_key_ok(
                    b,
                    k2,
                ))) by {
                    if b == gidx as int && k2 == k_cache() {
                        if self.bin_storage.backs@[b].spec_list(k2).len() > 0 {
                            assert(self.list_key_ok(b, k2)) by {
                                assert(cache_ok(taken, self.signed_f())) by {
                                    assert forall|a: int|
                                        0 <= a < taken.len() implies valid_username(
                                        #[trigger] taken[a],
                                    ) && self.signed_f()(taken[a]) by {
                                        assert(pre.signed_up(taken[a]));
                                        assert(self.signed_up(taken[a]) == pre.signed_up(
                                            taken[a],
                                        ));
                                    }
                                }
                            }
                        }
                    }
                }
            }
            pre.lemma_wf_preserved(*self);
        }
        let out = gb.list_get(&self.bin_storage.backs[gidx], "cache");
        proof {
            reveal_strlit("cache");
            assert("cache"@ =~= seq!['c', 'a', 'c', 'h', 'e']);
            lemma_escape_colon_free("cache"@);
            assert(phys_key(gb.name@, "cache"@) =~= k_cache());
            assert(crate::strutil::dvs(out@) =~= taken) by {
                assert forall|a: int|
                    0 <= a < out@.len() implies #[trigger] crate::strutil::dvs(out@)[a]
                    == taken[a] by {
                    assert(out@[a]@ == self.cache()[a]);
                }
            }
        }
        Ok(out)
    }
}


/// A follow of `b` immediately undone by an unfollow of `b` leaves `b`
/// out of the followee set, whatever it held before.
pub proof fn lemma_follow_then_unfollow(fs: Set<Seq<char>>, b: Seq<char>)
    ensures
        !unfollow_step(follow_step(fs, b), b).contains(b),
{
    broadcast use vstd::set::group_set_axioms;
}

/// While fewer than `MIN_LIST_USER` users exist, a rebuilt user listing
/// holds every registered user: the truncation never cuts anyone.
pub proof fn lemma_short_user_list(allu: Seq<Seq<char>>, us: Seq<Seq<char>>, u: Seq<char>)
    requires
        allu.len() <= MIN_LIST_USER as nat,
        us == allu.take(
            if allu.len() > MIN_LIST_USER as nat {
                MIN_LIST_USER as int
            } else {
                allu.len() as int
            },
        ),
        allu.contains(u),
    ensures
        us.contains(u),
{
    assert(allu.take(allu.len() as int) =~= allu);
}

impl FrontendServer {
    /// One keeper round over this front end's back ends: afterwards every
    /// back-end clock is at least the largest any of them had before, and
    /// nothing stored has moved.
    pub fn sync_clocks(&mut self)
        requires
            old(self).wf(),
        ensures
            final(self).wf(),
            final(self).n_backs() == old(self).n_backs(),
            forall|u: Seq<char>| #[trigger] final(self).signed_up(u) == old(self).signed_up(u),
            final(self).cache() == old(self).cache(),
            forall|u: Seq<char>| #[trigger] final(self).raw_log(u) == old(self).raw_log(u),
            forall|u: Seq<char>| #[trigger] final(self).raw_tribs(u) == old(self).raw_tribs(u),
            forall|i: int, j: int|
                #![trigger final(self).bin_storage.backs@[i].spec_clock(), old(self).bin_storage.backs@[j].spec_clock()]
                0 <= i < final(self).n_backs() && 0 <= j < old(self).n_backs()
                    ==> final(self).bin_storage.backs@[i].spec_clock()
                    >= old(self).bin_storage.backs@[j].spec_clock(),
    {
        let ghost pre = *self;
        crate::keeper::sync_clocks(&mut self.bin_storage.backs);
        proof {
            assert(pre.steps_to(*self));
            pre.lemma_wf_preserved(*self);
        }
    }
}


/// Two signup keys agree only for the same user.
pub proof fn lemma_k_signup_inj(u1: Seq<char>, u2: Seq<char>)
    ensures
        (k_signup(u1) == k_signup(u2)) ==> u1 == u2,
{
    if k_signup(u1) == k_signup(u2) {
        assert(s_signup().len() == 7);
        assert(k_signup(u1).len() == 9 + u1.len());
        assert(k_signup(u2).len() == 9 + u2.len());
        assert(u1.len() == u2.len());
        assert forall|q: int| 0 <= q < u1.len() implies u1[q] == u2[q] by {
            assert(k_signup(u1)[9 + q] == u1[q]);
            assert(k_signup(u2)[9 + q] == u2[q]);
        }
        assert(u1 =~= u2);
    }
}

} // verus!
