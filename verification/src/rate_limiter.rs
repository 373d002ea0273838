//! A sliding-window rate limiter: each client may make at most
//! `max_requests` requests within any window of `window` length.
//!
//! Times are nanoseconds since the limiter was created. Each client keeps the
//! times of its allowed requests, oldest first; the ones older than the
//! window are dropped before a request is judged.

use vstd::prelude::*;
use crate::clock::{instant_now, nanos_since};

verus! {

broadcast use {vstd::std_specs::hash::group_hash_axioms, vstd::std_specs::vecdeque::group_vec_dequeue_axioms};

/// How long before `now` the request at `t` was made (zero if `t` is later).
pub open spec fn age(now: u128, t: u128) -> u128 {
    if now >= t {
        (now - t) as u128
    } else {
        0
    }
}

/// The request times after dropping, from the oldest end, those more than
/// `window` old at `now`.
pub open spec fn prune(q: Seq<u128>, now: u128, window: u128) -> Seq<u128>
    decreases q.len(),
{
    if q.len() > 0 && age(now, q[0]) > window {
        prune(q.drop_first(), now, window)
    } else {
        q
    }
}

/// The request times held for a client (none for a new client).
pub open spec fn times_of(clients: Map<u32, Seq<u128>>, c: u32) -> Seq<u128> {
    if clients.contains_key(c) {
        clients[c]
    } else {
        Seq::empty()
    }
}

/// Whether a request of client `c` at `now` is allowed.
pub open spec fn allows(clients: Map<u32, Seq<u128>>, c: u32, now: u128, window: u128, max: usize) -> bool {
    prune(times_of(clients, c), now, window).len() < max
}

/// The clients' request times after judging a request of `c` at `now`.
pub open spec fn after_request(
    clients: Map<u32, Seq<u128>>,
    c: u32,
    now: u128,
    window: u128,
    max: usize,
) -> Map<u32, Seq<u128>> {
    let kept = prune(times_of(clients, c), now, window);
    clients.insert(c, if kept.len() < max { kept.push(now) } else { kept })
}

proof fn lemma_prune_suffix(q: Seq<u128>, now: u128, window: u128)
    ensures
        prune(q, now, window).len() <= q.len(),
        prune(q, now, window) == q.skip(q.len() - prune(q, now, window).len()),
    decreases q.len(),
{
    if q.len() > 0 && age(now, q[0]) > window {
        lemma_prune_suffix(q.drop_first(), now, window);
        let p = prune(q.drop_first(), now, window);
        assert(q.drop_first().skip(q.drop_first().len() - p.len()) =~= q.skip(q.len() - p.len()));
    } else {
        assert(q.skip(0) =~= q);
    }
}

/// A client never has more request times held than the limit allows.
pub proof fn lemma_requests_within_limit(
    clients: Map<u32, Seq<u128>>,
    c: u32,
    now: u128,
    window: u128,
    max: usize,
)
    requires
        times_of(clients, c).len() <= max,
    ensures
        times_of(after_request(clients, c, now, window, max), c).len() <= max,
        allows(clients, c, now, window, max) ==> prune(times_of(clients, c), now, window).len() + 1
            <= max,
{
    lemma_prune_suffix(times_of(clients, c), now, window);
}

proof fn lemma_prune_all_old(q: Seq<u128>, now: u128, window: u128)
    requires
        forall|i: int| 0 <= i < q.len() ==> now > #[trigger] q[i] + window,
    ensures
        prune(q, now, window).len() == 0,
    decreases q.len(),
{
    if q.len() > 0 {
        assert(now > q[0] + window);
        assert forall|i: int| 0 <= i < q.drop_first().len() implies now > #[trigger] q.drop_first()[i] + window by {
            assert(q.drop_first()[i] == q[i + 1]);
        }
        lemma_prune_all_old(q.drop_first(), now, window);
    }
}

/// Requests made more than a window before `now` no longer count: when every
/// request held for the client is that old, a request is allowed exactly
/// when the limit allows any request at all.
pub proof fn lemma_old_requests_forgotten(
    clients: Map<u32, Seq<u128>>,
    c: u32,
    now: u128,
    window: u128,
    max: usize,
)
    requires
        forall|i: int| 0 <= i < times_of(clients, c).len() ==> now > #[trigger] times_of(clients, c)[i] + window,
    ensures
        allows(clients, c, now, window, max) == (max > 0),
{
    lemma_prune_all_old(times_of(clients, c), now, window);
}

/// While the oldest request held for the client is within the window, every
/// held request counts: a request is allowed exactly when fewer than the
/// limit are held.
pub proof fn lemma_recent_requests_count(
    clients: Map<u32, Seq<u128>>,
    c: u32,
    now: u128,
    window: u128,
    max: usize,
)
    requires
        times_of(clients, c).len() > 0,
        now <= times_of(clients, c)[0] + window,
    ensures
        allows(clients, c, now, window, max) == (times_of(clients, c).len() < max),
{
}

pub struct RateLimiter {
    max_requests: usize,
    /// The window length in nanoseconds.
    window: u128,
    clients: std::collections::HashMap<u32, std::collections::VecDeque<u128>>,
    origin: std::time::Instant,
    /// The latest clock reading a request was judged at.
    last_now: u128,
}

impl RateLimiter {
    /// Each client's allowed request times, oldest first.
    pub closed spec fn clients_view(&self) -> Map<u32, Seq<u128>> {
        self.clients@.map_values(|q: std::collections::VecDeque<u128>| q@)
    }

    pub closed spec fn spec_max(&self) -> usize {
        self.max_requests
    }

    /// The window length in nanoseconds.
    pub closed spec fn spec_window(&self) -> u128 {
        self.window
    }

    /// The latest clock reading a request was judged at (0 before any).
    pub closed spec fn spec_last_now(&self) -> u128 {
        self.last_now
    }

    /// A limiter of `max_requests` per window of `window_ms` milliseconds.
    pub fn new(max_requests: usize, window_ms: u64) -> (r: Self)
        ensures
            r.clients_view() == Map::<u32, Seq<u128>>::empty(),
            r.spec_max() == max_requests,
            r.spec_window() == window_ms * 1_000_000,
            r.spec_last_now() == 0,
    {
        let r = RateLimiter {
            max_requests,
            window: (window_ms as u128) * 1_000_000u128,
            clients: std::collections::HashMap::new(),
            origin: instant_now(),
            last_now: 0,
        };
        assert(r.clients_view() =~= Map::<u32, Seq<u128>>::empty());
        r
    }

    /// Judges a request of `client_id` at time `now`: drops the client's
    /// request times older than the window, then allows the request (and
    /// records it) when fewer than `max_requests` remain.
    pub fn is_allowed_at(&mut self, client_id: u32, now: u128) -> (r: bool)
        ensures
            r == allows(old(self).clients_view(), client_id, now, old(self).spec_window(), old(self).spec_max()),
            final(self).clients_view() == after_request(
                old(self).clients_view(),
                client_id,
                now,
                old(self).spec_window(),
                old(self).spec_max(),
            ),
            final(self).spec_max() == old(self).spec_max(),
            final(self).spec_window() == old(self).spec_window(),
            final(self).spec_last_now() == old(self).spec_last_now(),
    {
        let ghost cv = self.clients_view();
        let mut queue = match self.clients.remove(&client_id) {
            Some(q) => q,
            None => std::collections::VecDeque::new(),
        };
        let ghost q0 = queue@;
        assert(q0 == times_of(cv, client_id));
        while queue.len() > 0
            invariant
                prune(queue@, now, self.window) == prune(q0, now, self.window),
            ensures
                queue@ == prune(q0, now, self.window),
            decreases queue@.len(),
        {
            let front = queue[0];
            let elapsed = if now >= front { now - front } else { 0 };
            if elapsed > self.window {
                let ghost before = queue@;
                let _ = queue.pop_front();
                assert(queue@ =~= before.drop_first());
            } else {
                break;
            }
        }
        let allowed = queue.len() < self.max_requests;
        if allowed {
            queue.push_back(now);
        }
        self.clients.insert(client_id, queue);
        assert(self.clients_view() =~= after_request(cv, client_id, now, self.window, self.max_requests));
        allowed
    }

    /// Judges a request of `client_id` now: see `is_allowed_at`, at the time
    /// the clock gives (nanoseconds since the limiter was made), which is
    /// never before the time an earlier request was judged at.
    pub fn is_allowed(&mut self, client_id: u32) -> (r: bool)
        ensures
            final(self).spec_last_now() >= old(self).spec_last_now(),
            r == allows(
                old(self).clients_view(),
                client_id,
                final(self).spec_last_now(),
                old(self).spec_window(),
                old(self).spec_max(),
            ),
            final(self).clients_view() == after_request(
                old(self).clients_view(),
                client_id,
                final(self).spec_last_now(),
                old(self).spec_window(),
                old(self).spec_max(),
            ),
            final(self).spec_max() == old(self).spec_max(),
            final(self).spec_window() == old(self).spec_window(),
    {
        let t = nanos_since(&self.origin);
        let now = if t < self.last_now {
            self.last_now
        } else {
            t
        };
        let r = self.is_allowed_at(client_id, now);
        self.last_now = now;
        r
    }
}

} // verus!
