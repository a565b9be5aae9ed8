//! The reverse proxy's logic: round-robin choice of a backend, and the address of
//! the request forwarded to it. Serving and forwarding are left to the caller.
use vstd::prelude::*;

verus! {

/// The backends to forward to, and the one whose turn is next.
pub struct BackendPool {
    backends: Vec<String>,
    next: usize,
}

/// A [`BackendPool`] as plain values.
pub struct PoolView {
    pub backends: Seq<Seq<char>>,
    pub next: nat,
}

impl View for BackendPool {
    type V = PoolView;

    closed spec fn view(&self) -> PoolView {
        PoolView { backends: self.backends.deep_view(), next: self.next as nat }
    }
}

/// A pool whose next turn names one of its backends; so it has at least one.
pub open spec fn pool_ok(p: PoolView) -> bool {
    p.next < p.backends.len()
}

/// The pool after one request has been given a backend: the turn passes to the next
/// backend, and from the last back to the first.
pub open spec fn after_pick(p: PoolView) -> PoolView {
    PoolView { backends: p.backends, next: ((p.next + 1) % p.backends.len()) as nat }
}

/// The pool after `k` requests.
pub open spec fn after_picks(p: PoolView, k: nat) -> PoolView
    decreases k,
{
    if k == 0 {
        p
    } else {
        after_pick(after_picks(p, (k - 1) as nat))
    }
}

impl BackendPool {
    /// A pool over `backends`, the first of which gets the first request. A pool
    /// without backends can be made, but no backend can be chosen from it.
    pub fn new(backends: Vec<String>) -> (pool: Self)
        ensures
            pool@.backends == backends.deep_view(),
            pool@.next == 0,
            backends@.len() > 0 ==> pool_ok(pool@),
    {
        BackendPool { backends, next: 0 }
    }

    /// The backend for the next request; the turn passes on.
    pub fn next_backend(&mut self) -> (backend: String)
        requires
            pool_ok(old(self)@),
        ensures
            backend@ == old(self)@.backends[old(self)@.next as int],
            final(self)@ == after_pick(old(self)@),
            pool_ok(final(self)@),
    {
        let backend = self.backends[self.next].clone();
        let n = self.backends.len();
        proof {
            if self.next + 1 < n {
                vstd::arithmetic::div_mod::lemma_small_mod((self.next + 1) as nat, n as nat);
            } else {
                vstd::arithmetic::div_mod::lemma_mod_self_0(n as int);
            }
        }
        self.next = if self.next + 1 < n {
            self.next + 1
        } else {
            0
        };
        assert(self.backends.deep_view() =~= old(self).backends.deep_view());
        backend
    }
}

/// The pool after `k` requests: same backends, turn moved `k` places cyclically.
proof fn lemma_picks(p: PoolView, k: nat)
    requires
        pool_ok(p),
    ensures
        after_picks(p, k).backends == p.backends,
        after_picks(p, k).next == (p.next + k) % p.backends.len(),
    decreases k,
{
    let n = p.backends.len() as int;
    if k > 0 {
        lemma_picks(p, (k - 1) as nat);
        let q = after_picks(p, (k - 1) as nat);
        let x = p.next + k - 1;
        assert(q.next == x % n);
        vstd::arithmetic::div_mod::lemma_add_mod_noop_right(1, x, n);
        assert((1 + x % n) % n == (1 + x) % n);
        assert(after_picks(p, k).next == ((q.next + 1) as int) % n);
        assert(1 + x == p.next + k);
    } else {
        vstd::arithmetic::div_mod::lemma_small_mod(p.next, n as nat);
    }
}

/// Round robin: starting from any pool, the `k`-th request after it goes to the
/// backend `k` places after the current turn, cyclically, and after as many
/// requests as there are backends the pool is back where it started.
pub proof fn lemma_round_robin(p: PoolView, k: nat)
    requires
        pool_ok(p),
    ensures
        after_picks(p, k).backends == p.backends,
        after_picks(p, k).next == (p.next + k) % p.backends.len(),
        pool_ok(after_picks(p, k)),
        after_picks(p, p.backends.len()) == p,
{
    let n = p.backends.len() as int;
    lemma_picks(p, k);
    lemma_picks(p, p.backends.len());
    vstd::arithmetic::div_mod::lemma_mod_bound((p.next + k) as int, n);
    vstd::arithmetic::div_mod::lemma_mod_add_multiples_vanish(p.next as int, n);
    vstd::arithmetic::div_mod::lemma_small_mod(p.next, n as nat);
}

/// The address of the request forwarded to `backend`: `http://`, the backend, then
/// the path and query of the incoming request, or `/` when it has none.
pub fn backend_uri(backend: &str, path_and_query: Option<&str>) -> (uri: String)
    ensures
        uri@ == "http://"@ + backend@ + match path_and_query {
            Some(pq) => pq@,
            None => "/"@,
        },
{
    let mut uri = "http://".to_owned();
    uri.append(backend);
    match path_and_query {
        Some(pq) => uri.append(pq),
        None => uri.append("/"),
    }
    uri
}

} // verus!
