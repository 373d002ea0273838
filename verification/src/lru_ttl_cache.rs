//! A least-recently-used cache whose entries also expire a fixed time after
//! they were last written.
//!
//! Times are nanoseconds since the cache was created. A read of an expired
//! entry drops it and misses; a write of a new key first drops expired
//! entries from the least recent end, then evicts the least recent entry if
//! the cache is still full.

use vstd::prelude::*;
use crate::clock::{instant_now, nanos_since};
use crate::dlist::DList;
use crate::text::{int_decimal, join, push_char, push_signed, join_strings};

verus! {

broadcast use vstd::std_specs::hash::group_hash_axioms;

/// `(key, value, expires_at)`.
pub type TtlEntry = (i32, i32, u128);

/// The position of the first entry with `key`, if any.
pub open spec fn find_entry(s: Seq<TtlEntry>, key: i32) -> Option<int>
    decreases s.len(),
{
    if s.len() == 0 {
        None
    } else if s[0].0 == key {
        Some(0)
    } else {
        match find_entry(s.drop_first(), key) {
            Some(i) => Some(i + 1),
            None => None,
        }
    }
}

/// No key occurs twice.
pub open spec fn distinct_entry_keys(s: Seq<TtlEntry>) -> bool {
    forall|i: int, j: int| 0 <= i < j < s.len() ==> s[i].0 != s[j].0
}

/// An entry is expired once the clock is past its expiry time.
pub open spec fn expired_at(e: TtlEntry, now: u128) -> bool {
    now > e.2
}

/// What a read of `key` at time `now` returns, and the entries after it.
pub open spec fn read_at(s: Seq<TtlEntry>, key: i32, now: u128) -> (i32, Seq<TtlEntry>) {
    match find_entry(s, key) {
        Some(i) => if expired_at(s[i], now) {
            (-1i32, s.remove(i))
        } else {
            (s[i].1, seq![s[i]] + s.remove(i))
        },
        None => (-1i32, s),
    }
}

/// The entries after dropping expired ones from the least recent end.
pub open spec fn drop_expired_tail(s: Seq<TtlEntry>, now: u128) -> Seq<TtlEntry>
    decreases s.len(),
{
    if s.len() > 0 && expired_at(s.last(), now) {
        drop_expired_tail(s.drop_last(), now)
    } else {
        s
    }
}

/// The entries after writing `value` under `key` at time `now`, in a cache of
/// capacity `cap` whose entries live `ttl` nanoseconds.
pub open spec fn write_at(
    s: Seq<TtlEntry>,
    cap: nat,
    ttl: u128,
    key: i32,
    value: i32,
    now: u128,
) -> Seq<TtlEntry> {
    let fresh: TtlEntry = (key, value, (now + ttl) as u128);
    match find_entry(s, key) {
        Some(i) => seq![fresh] + s.remove(i),
        None => {
            let live = drop_expired_tail(s, now);
            if live.len() == cap && live.len() > 0 {
                seq![fresh] + live.drop_last()
            } else {
                seq![fresh] + live
            }
        },
    }
}

/// `[key:value:expired]` or `[key:value:active]`.
pub open spec fn ttl_entry_text(e: TtlEntry, now: u128) -> Seq<char> {
    seq!['['] + int_decimal(e.0 as int) + seq![':'] + int_decimal(e.1 as int) + seq![':'] + (
    if expired_at(e, now) {
        seq!['e', 'x', 'p', 'i', 'r', 'e', 'd']
    } else {
        seq!['a', 'c', 't', 'i', 'v', 'e']
    }) + seq![']']
}

/// The entries at time `now`, most recent first, separated by spaces.
pub open spec fn ttl_state_text(s: Seq<TtlEntry>, now: u128) -> Seq<char> {
    join(s.map_values(|e: TtlEntry| ttl_entry_text(e, now)), seq![' '])
}

proof fn lemma_find_entry(s: Seq<TtlEntry>, key: i32)
    ensures
        find_entry(s, key) matches Some(i) ==> 0 <= i < s.len() && s[i].0 == key && forall|j: int|
            0 <= j < i ==> s[j].0 != key,
        find_entry(s, key) is None ==> forall|j: int| 0 <= j < s.len() ==> s[j].0 != key,
    decreases s.len(),
{
    if s.len() > 0 && s[0].0 != key {
        lemma_find_entry(s.drop_first(), key);
        assert forall|j: int| 1 <= j < s.len() implies s[j] == s.drop_first()[j - 1] by {}
    }
}

proof fn lemma_drop_expired_tail(s: Seq<TtlEntry>, now: u128)
    ensures
        drop_expired_tail(s, now).len() <= s.len(),
        drop_expired_tail(s, now) == s.take(drop_expired_tail(s, now).len() as int),
        drop_expired_tail(s, now).len() > 0 ==> !expired_at(drop_expired_tail(s, now).last(), now),
    decreases s.len(),
{
    if s.len() > 0 && expired_at(s.last(), now) {
        lemma_drop_expired_tail(s.drop_last(), now);
        let r = drop_expired_tail(s.drop_last(), now);
        assert(s.drop_last().take(r.len() as int) =~= s.take(r.len() as int));
    } else {
        assert(s.take(s.len() as int) =~= s);
    }
}

/// Reads and writes never make a key occur twice.
pub proof fn lemma_ttl_keys_stay_distinct(
    s: Seq<TtlEntry>,
    cap: nat,
    ttl: u128,
    key: i32,
    value: i32,
    now: u128,
)
    requires
        distinct_entry_keys(s),
    ensures
        distinct_entry_keys(write_at(s, cap, ttl, key, value, now)),
        distinct_entry_keys(read_at(s, key, now).1),
{
    lemma_find_entry(s, key);
    let fresh: TtlEntry = (key, value, (now + ttl) as u128);
    match find_entry(s, key) {
        Some(i) => {
            let w = seq![fresh] + s.remove(i);
            assert forall|a: int, b: int| 0 <= a < b < w.len() implies w[a].0 != w[b].0 by {
                let b1 = if b - 1 < i { b - 1 } else { b };
                assert(w[b] == s[b1]);
                if a > 0 {
                    let a1 = if a - 1 < i { a - 1 } else { a };
                    assert(w[a] == s[a1]);
                }
            }
            let r = read_at(s, key, now).1;
            assert forall|a: int, b: int| 0 <= a < b < r.len() implies r[a].0 != r[b].0 by {
                if expired_at(s[i], now) {
                    let a1 = if a < i { a } else { a + 1 };
                    let b1 = if b < i { b } else { b + 1 };
                    assert(r[a] == s[a1]);
                    assert(r[b] == s[b1]);
                } else {
                    let b1 = if b - 1 < i { b - 1 } else { b };
                    assert(r[b] == s[b1]);
                    if a > 0 {
                        let a1 = if a - 1 < i { a - 1 } else { a };
                        assert(r[a] == s[a1]);
                    }
                }
            }
        },
        None => {
            lemma_drop_expired_tail(s, now);
            let live = drop_expired_tail(s, now);
            let kept = if live.len() == cap && live.len() > 0 {
                live.drop_last()
            } else {
                live
            };
            assert(kept =~= s.take(kept.len() as int));
            let w = seq![fresh] + kept;
            assert(w == write_at(s, cap, ttl, key, value, now));
            assert forall|a: int, b: int| 0 <= a < b < w.len() implies w[a].0 != w[b].0 by {
                assert(w[b] == s[b - 1]);
                if a > 0 {
                    assert(w[a] == s[a - 1]);
                }
            }
        },
    }
}

/// After a write at time `now`, a read at any time up to the write's expiry
/// gives back the value written.
pub proof fn lemma_ttl_read_after_write(
    s: Seq<TtlEntry>,
    cap: nat,
    ttl: u128,
    key: i32,
    value: i32,
    now: u128,
    later: u128,
)
    requires
        distinct_entry_keys(s),
        now + ttl <= u128::MAX,
        later <= now + ttl,
    ensures
        read_at(write_at(s, cap, ttl, key, value, now), key, later).0 == value,
{
    lemma_ttl_keys_stay_distinct(s, cap, ttl, key, value, now);
    let w = write_at(s, cap, ttl, key, value, now);
    lemma_find_entry(s, key);
    lemma_find_entry(w, key);
    if let Some(i) = find_entry(s, key) {
        assert(w[0].0 == key);
    } else {
        assert(w[0].0 == key);
    }
}

/// A write past its expiry time is no longer readable.
pub proof fn lemma_ttl_expiry(
    s: Seq<TtlEntry>,
    cap: nat,
    ttl: u128,
    key: i32,
    value: i32,
    now: u128,
    later: u128,
)
    requires
        distinct_entry_keys(s),
        now + ttl <= u128::MAX,
        later > now + ttl,
    ensures
        read_at(write_at(s, cap, ttl, key, value, now), key, later).0 == -1,
{
    let w = write_at(s, cap, ttl, key, value, now);
    lemma_find_entry(s, key);
    lemma_find_entry(w, key);
    assert(w[0].0 == key);
}

/// The keys of the entries, in order.
pub open spec fn entry_keys(s: Seq<TtlEntry>) -> Seq<i32> {
    s.map_values(|e: TtlEntry| e.0)
}

/// The key index `m` names, for each entry of `s`, the node `hs` gives it.
pub open spec fn entry_index_names(s: Seq<TtlEntry>, hs: Seq<usize>, m: Map<i32, usize>) -> bool {
    &&& s.len() == hs.len()
    &&& forall|p: int| 0 <= p < s.len() ==> m.contains_key(#[trigger] s[p].0) && m[s[p].0] == hs[p]
    &&& m.dom() == entry_keys(s).to_set()
}

/// Moving the entry at `p` to the front, with the same key and node, keeps
/// the index right.
proof fn lemma_entry_index_to_front(
    s: Seq<TtlEntry>,
    hs: Seq<usize>,
    m: Map<i32, usize>,
    p: int,
    e: TtlEntry,
)
    requires
        entry_index_names(s, hs, m),
        distinct_entry_keys(s),
        0 <= p < s.len(),
        e.0 == s[p].0,
    ensures
        entry_index_names(seq![e] + s.remove(p), seq![hs[p]] + hs.remove(p), m),
        distinct_entry_keys(seq![e] + s.remove(p)),
{
    let s1 = seq![e] + s.remove(p);
    let hs1 = seq![hs[p]] + hs.remove(p);
    assert forall|q: int| 0 <= q < s1.len() implies m.contains_key(#[trigger] s1[q].0) && m[s1[q].0]
        == hs1[q] by {
        if q > 0 {
            let q1 = if q - 1 < p { q - 1 } else { q };
            assert(s1[q] == s[q1]);
            assert(hs1[q] == hs[q1]);
        }
    }
    assert(distinct_entry_keys(s1)) by {
        assert forall|a: int, b: int| 0 <= a < b < s1.len() implies s1[a].0 != s1[b].0 by {
            let b1 = if b - 1 < p { b - 1 } else { b };
            assert(s1[b] == s[b1]);
            if a > 0 {
                let a1 = if a - 1 < p { a - 1 } else { a };
                assert(s1[a] == s[a1]);
            }
        }
    }
    assert(m.dom() =~= entry_keys(s1).to_set()) by {
        assert forall|k: i32| m.dom().contains(k) <==> entry_keys(s1).to_set().contains(k) by {
            if m.dom().contains(k) {
                assert(entry_keys(s).to_set().contains(k));
                let q = choose|q: int| 0 <= q < s.len() && entry_keys(s)[q] == k;
                if q == p {
                    assert(entry_keys(s1)[0] == k);
                } else {
                    let q2 = if q < p { q + 1 } else { q };
                    assert(s1[q2] == s[q]);
                    assert(entry_keys(s1)[q2] == k);
                }
            }
            if entry_keys(s1).to_set().contains(k) {
                let q = choose|q: int| 0 <= q < s1.len() && entry_keys(s1)[q] == k;
                if q == 0 {
                    assert(entry_keys(s)[p] == k);
                } else {
                    let q1 = if q - 1 < p { q - 1 } else { q };
                    assert(s1[q] == s[q1]);
                    assert(entry_keys(s)[q1] == k);
                }
            }
        }
    }
}

/// Dropping the entry at `p` and its key keeps the index right.
proof fn lemma_entry_index_remove(s: Seq<TtlEntry>, hs: Seq<usize>, m: Map<i32, usize>, p: int)
    requires
        entry_index_names(s, hs, m),
        distinct_entry_keys(s),
        0 <= p < s.len(),
    ensures
        entry_index_names(s.remove(p), hs.remove(p), m.remove(s[p].0)),
        distinct_entry_keys(s.remove(p)),
{
    let k0 = s[p].0;
    let s1 = s.remove(p);
    let m1 = m.remove(k0);
    assert forall|q: int| 0 <= q < s1.len() implies m1.contains_key(#[trigger] s1[q].0) && m1[s1[q].0]
        == hs.remove(p)[q] by {
        let q1 = if q < p { q } else { q + 1 };
        assert(s1[q] == s[q1]);
        assert(hs.remove(p)[q] == hs[q1]);
        assert(s[q1].0 != s[p].0);
    }
    assert(distinct_entry_keys(s1)) by {
        assert forall|a: int, b: int| 0 <= a < b < s1.len() implies s1[a].0 != s1[b].0 by {
            let a1 = if a < p { a } else { a + 1 };
            let b1 = if b < p { b } else { b + 1 };
            assert(s1[a] == s[a1] && s1[b] == s[b1]);
        }
    }
    assert(m1.dom() =~= entry_keys(s1).to_set()) by {
        assert forall|k: i32| m1.dom().contains(k) <==> entry_keys(s1).to_set().contains(k) by {
            if m1.dom().contains(k) {
                assert(entry_keys(s).to_set().contains(k));
                let q = choose|q: int| 0 <= q < s.len() && entry_keys(s)[q] == k;
                assert(q != p);
                let q2 = if q < p { q } else { q - 1 };
                assert(s1[q2] == s[q]);
                assert(entry_keys(s1)[q2] == k);
            }
            if entry_keys(s1).to_set().contains(k) {
                let q = choose|q: int| 0 <= q < s1.len() && entry_keys(s1)[q] == k;
                let q1 = if q < p { q } else { q + 1 };
                assert(s1[q] == s[q1]);
                assert(entry_keys(s)[q1] == k);
                assert(s[q1].0 != s[p].0);
            }
        }
    }
}

/// Adding an entry of a new key at the front, on node `h`, keeps the index
/// right once the key is indexed to `h`.
proof fn lemma_entry_index_push_front(
    s: Seq<TtlEntry>,
    hs: Seq<usize>,
    m: Map<i32, usize>,
    e: TtlEntry,
    h: usize,
)
    requires
        entry_index_names(s, hs, m),
        distinct_entry_keys(s),
        forall|q: int| 0 <= q < s.len() ==> s[q].0 != e.0,
    ensures
        entry_index_names(seq![e] + s, seq![h] + hs, m.insert(e.0, h)),
        distinct_entry_keys(seq![e] + s),
{
    let s1 = seq![e] + s;
    let m1 = m.insert(e.0, h);
    assert forall|q: int| 0 <= q < s1.len() implies m1.contains_key(#[trigger] s1[q].0) && m1[s1[q].0]
        == (seq![h] + hs)[q] by {
        if q > 0 {
            assert(s1[q] == s[q - 1]);
        }
    }
    assert(distinct_entry_keys(s1)) by {
        assert forall|a: int, b: int| 0 <= a < b < s1.len() implies s1[a].0 != s1[b].0 by {
            assert(s1[b] == s[b - 1]);
            if a > 0 {
                assert(s1[a] == s[a - 1]);
            }
        }
    }
    assert(m1.dom() =~= entry_keys(s1).to_set()) by {
        assert forall|k: i32| m1.dom().contains(k) <==> entry_keys(s1).to_set().contains(k) by {
            if m1.dom().contains(k) && k != e.0 {
                assert(entry_keys(s).to_set().contains(k));
                let q = choose|q: int| 0 <= q < s.len() && entry_keys(s)[q] == k;
                assert(entry_keys(s1)[q + 1] == k);
            }
            if k == e.0 {
                assert(entry_keys(s1)[0] == k);
            }
            if entry_keys(s1).to_set().contains(k) && k != e.0 {
                let q = choose|q: int| 0 <= q < s1.len() && entry_keys(s1)[q] == k;
                assert(q > 0);
                assert(entry_keys(s)[q - 1] == k);
            }
        }
    }
}

/// Where the index names a key, the entry of that key is where `find_entry`
/// finds it, on the node the index names.
proof fn lemma_entry_index_find(s: Seq<TtlEntry>, hs: Seq<usize>, m: Map<i32, usize>, key: i32)
    requires
        entry_index_names(s, hs, m),
    ensures
        m.contains_key(key) <==> find_entry(s, key) is Some,
        find_entry(s, key) matches Some(p) ==> m[key] == hs[p] && 0 <= p < s.len() && s[p].0 == key,
{
    lemma_find_entry(s, key);
    if m.contains_key(key) {
        assert(entry_keys(s).to_set().contains(key));
        let q = choose|q: int| 0 <= q < s.len() && entry_keys(s)[q] == key;
        assert(s[q].0 == key);
    }
    if let Some(p) = find_entry(s, key) {
        assert(m.contains_key(s[p].0));
    }
}

pub struct LRUCache {
    capacity: usize,
    /// Time to live of an entry, in nanoseconds.
    ttl: u128,
    /// Each key's node in the list.
    map: std::collections::HashMap<i32, usize>,
    /// Entries, most recently used first.
    list: DList<TtlEntry>,
    /// The instant that times are counted from.
    origin: std::time::Instant,
    /// The latest clock reading the cache acted on.
    last_now: u128,
}

impl LRUCache {
    /// The entries, most recently used first.
    pub closed spec fn view(&self) -> Seq<TtlEntry> {
        self.list@
    }

    pub closed spec fn spec_capacity(&self) -> usize {
        self.capacity
    }

    /// Time to live of an entry, in nanoseconds.
    pub closed spec fn spec_ttl(&self) -> u128 {
        self.ttl
    }

    /// The latest clock reading that a read or write acted on (0 before any).
    pub closed spec fn spec_last_now(&self) -> u128 {
        self.last_now
    }

    /// No key is held twice, and the key index names each entry's node.
    pub closed spec fn wf(&self) -> bool {
        &&& self.ttl <= u64::MAX * 1_000_000_000
        &&& self.last_now <= u64::MAX * 1_000_000_000 + 999_999_999
        &&& self.list.wf()
        &&& distinct_entry_keys(self.list@)
        &&& entry_index_names(self.list@, self.list.handles(), self.map@)
    }

    /// A well-formed cache holds no key twice.
    pub proof fn lemma_wf_distinct(&self)
        requires
            self.wf(),
        ensures
            distinct_entry_keys(self@),
    {
    }

    /// An empty cache whose entries live `ttl_secs` seconds.
    pub fn new(capacity: usize, ttl_secs: u64) -> (c: Self)
        ensures
            c.wf(),
            c@ == Seq::<TtlEntry>::empty(),
            c.spec_capacity() == capacity,
            c.spec_ttl() == ttl_secs * 1_000_000_000,
            c.spec_last_now() == 0,
    {
        let c = LRUCache {
            capacity,
            ttl: (ttl_secs as u128) * 1_000_000_000u128,
            map: std::collections::HashMap::new(),
            list: DList::new(),
            origin: instant_now(),
            last_now: 0,
        };
        assert(entry_keys(c.list@) =~= Seq::<i32>::empty());
        assert(c.map@.dom() =~= entry_keys(c.list@).to_set());
        c
    }

    /// Whether `entry` has expired at time `now`.
    pub fn is_expired(entry: &TtlEntry, now: u128) -> (r: bool)
        ensures
            r == expired_at(*entry, now),
    {
        now > entry.2
    }

    /// Unlinks the node `h` (the entry at position `p`) from the list. The key
    /// index is left as it is: it still names the detached node.
    fn remove(&mut self, h: usize, Ghost(p): Ghost<int>)
        requires
            old(self).list.wf(),
            0 <= p < old(self).list.handles().len(),
            old(self).list.handles()[p] == h,
        ensures
            final(self).list.wf(),
            final(self)@ == old(self)@.remove(p),
            final(self).list.handles() == old(self).list.handles().remove(p),
            final(self).list.is_detached(h),
            final(self).list.value_at(h) == old(self)@[p],
            final(self).map@ == old(self).map@,
            final(self).capacity == old(self).capacity,
            final(self).ttl == old(self).ttl,
            final(self).last_now == old(self).last_now,
    {
        self.list.unlink(h, Ghost(p));
    }

    /// Links the detached node `h` in as the most recently used. The key
    /// index is left as it is.
    fn insert_at_head(&mut self, h: usize)
        requires
            old(self).list.wf(),
            old(self).list.is_detached(h),
        ensures
            final(self).list.wf(),
            final(self)@ == seq![old(self).list.value_at(h)] + old(self)@,
            final(self).list.handles() == seq![h] + old(self).list.handles(),
            final(self).map@ == old(self).map@,
            final(self).capacity == old(self).capacity,
            final(self).ttl == old(self).ttl,
            final(self).last_now == old(self).last_now,
    {
        self.list.link_front(h);
    }

    /// Drops the node `h` (the entry at position `p`): unlinks it, takes its
    /// key out of the index and frees its place.
    fn delete_node(&mut self, h: usize, Ghost(p): Ghost<int>)
        requires
            old(self).wf(),
            0 <= p < old(self)@.len(),
            old(self).list.handles()[p] == h,
        ensures
            final(self).wf(),
            final(self)@ == old(self)@.remove(p),
            final(self).capacity == old(self).capacity,
            final(self).ttl == old(self).ttl,
            final(self).last_now == old(self).last_now,
    {
        let ghost s0 = self@;
        let ghost hs0 = self.list.handles();
        let key = self.list.get(h, Ghost(p)).0;
        self.remove(h, Ghost(p));
        self.map.remove(&key);
        self.list.release(h);
        proof {
            lemma_entry_index_remove(s0, hs0, old(self).map@, p);
        }
    }

    /// The read of `key` at time `now`: the value, or -1 when the key is
    /// absent or expired (an expired entry is dropped).
    pub fn get_at(&mut self, key: i32, now: u128) -> (r: i32)
        requires
            old(self).wf(),
        ensures
            final(self).wf(),
            (r, final(self)@) == read_at(old(self)@, key, now),
            final(self).spec_capacity() == old(self).spec_capacity(),
            final(self).spec_ttl() == old(self).spec_ttl(),
            final(self).spec_last_now() == old(self).spec_last_now(),
    {
        proof {
            lemma_entry_index_find(self.list@, self.list.handles(), self.map@, key);
        }
        match self.map.get(&key) {
            Some(node) => {
                let h = *node;
                let ghost p = find_entry(self@, key)->0;
                let ghost hs0 = self.list.handles();
                let e = self.list.get(h, Ghost(p));
                if Self::is_expired(&e, now) {
                    self.delete_node(h, Ghost(p));
                    return -1;
                }
                self.remove(h, Ghost(p));
                self.insert_at_head(h);
                proof {
                    lemma_entry_index_to_front(old(self)@, hs0, self.map@, p, e);
                }
                e.1
            },
            None => -1,
        }
    }

    /// The write of `value` under `key` at time `now`.
    pub fn put_at(&mut self, key: i32, value: i32, now: u128)
        requires
            old(self).wf(),
            now + old(self).spec_ttl() <= u128::MAX,
        ensures
            final(self).wf(),
            final(self)@ == write_at(
                old(self)@,
                old(self).spec_capacity() as nat,
                old(self).spec_ttl(),
                key,
                value,
                now,
            ),
            final(self).spec_capacity() == old(self).spec_capacity(),
            final(self).spec_ttl() == old(self).spec_ttl(),
            final(self).spec_last_now() == old(self).spec_last_now(),
    {
        proof {
            lemma_entry_index_find(self.list@, self.list.handles(), self.map@, key);
            lemma_drop_expired_tail(self@, now);
        }
        let expires_at = now + self.ttl;
        if let Some(node) = self.map.get(&key) {
            let h = *node;
            let ghost p = find_entry(self@, key)->0;
            let ghost hs0 = self.list.handles();
            self.list.set(h, Ghost(p), (key, value, expires_at));
            self.remove(h, Ghost(p));
            self.insert_at_head(h);
            proof {
                lemma_entry_index_to_front(old(self)@, hs0, self.map@, p, (key, value, expires_at));
                assert(self@ =~= seq![(key, value, expires_at)] + old(self)@.remove(p));
            }
            return;
        }
        let ghost s0 = self@;
        loop
            invariant
                self.wf(),
                self.spec_capacity() == old(self).spec_capacity(),
                self.spec_ttl() == old(self).spec_ttl(),
                self.spec_last_now() == old(self).spec_last_now(),
                drop_expired_tail(self@, now) == drop_expired_tail(s0, now),
                self@ == s0.take(self@.len() as int),
                self@.len() <= s0.len(),
            ensures
                self@ == drop_expired_tail(s0, now),
                self.wf(),
                self.spec_capacity() == old(self).spec_capacity(),
                self.spec_ttl() == old(self).spec_ttl(),
                self.spec_last_now() == old(self).spec_last_now(),
                self@ == s0.take(self@.len() as int),
            decreases self@.len(),
        {
            proof {
                self.list.lemma_len();
            }
            match self.list.back() {
                Some(tail) => {
                    let ghost last = self@.len() - 1;
                    let e = self.list.get(tail, Ghost(last));
                    if Self::is_expired(&e, now) {
                        let ghost before = self@;
                        self.delete_node(tail, Ghost(last));
                        assert(self@ =~= before.drop_last());
                        assert(self@ =~= s0.take(self@.len() as int));
                    } else {
                        break;
                    }
                },
                None => {
                    break;
                },
            }
        }
        proof {
            self.lemma_index_len();
        }
        if self.map.len() == self.capacity {
            proof {
                self.list.lemma_len();
            }
            if let Some(tail) = self.list.back() {
                let ghost last = self@.len() - 1;
                let ghost before = self@;
                self.delete_node(tail, Ghost(last));
                assert(self@ =~= before.drop_last());
            }
        }
        let ghost s1 = self@;
        let ghost hs1 = self.list.handles();
        let ghost m1 = self.map@;
        proof {
            lemma_find_entry(s0, key);
            assert forall|q: int| 0 <= q < s1.len() implies s1[q].0 != key by {
                assert(s1[q] == s0[q]);
            }
        }
        let h = self.list.new_node((key, value, expires_at));
        self.insert_at_head(h);
        self.map.insert(key, h);
        proof {
            lemma_entry_index_push_front(s1, hs1, m1, (key, value, expires_at), h);
        }
    }

    /// The index holds one key per entry.
    proof fn lemma_index_len(&self)
        requires
            self.wf(),
        ensures
            self.map@.len() == self@.len(),
    {
        let ks = entry_keys(self.list@);
        assert(ks.no_duplicates()) by {
            assert forall|i: int, j: int| 0 <= i < ks.len() && 0 <= j < ks.len() && i != j implies ks[i]
                != ks[j] by {
                if i < j {
                    assert(self.list@[i].0 != self.list@[j].0);
                } else {
                    assert(self.list@[j].0 != self.list@[i].0);
                }
            }
        }
        ks.unique_seq_to_set();
    }

    /// The clock reading to act on: the time since the cache was made, in
    /// nanoseconds. The clock never runs backwards, so this is never before
    /// the latest reading acted on.
    fn read_clock(&self) -> (now: u128)
        requires
            self.wf(),
        ensures
            now >= self.spec_last_now(),
            now <= u64::MAX * 1_000_000_000 + 999_999_999,
    {
        let t = nanos_since(&self.origin);
        if t < self.last_now {
            self.last_now
        } else {
            t
        }
    }

    /// Reads `key` now: see `get_at`, at the time the clock gives, which is
    /// no earlier than any time the cache acted on before.
    pub fn get(&mut self, key: i32) -> (r: i32)
        requires
            old(self).wf(),
        ensures
            final(self).wf(),
            final(self).spec_last_now() >= old(self).spec_last_now(),
            (r, final(self)@) == read_at(old(self)@, key, final(self).spec_last_now()),
            final(self).spec_capacity() == old(self).spec_capacity(),
            final(self).spec_ttl() == old(self).spec_ttl(),
    {
        let now = self.read_clock();
        let r = self.get_at(key, now);
        self.last_now = now;
        r
    }

    /// Writes `value` under `key` now: see `put_at`, at the time the clock
    /// gives, which is no earlier than any time the cache acted on before.
    pub fn put(&mut self, key: i32, value: i32)
        requires
            old(self).wf(),
        ensures
            final(self).wf(),
            final(self).spec_last_now() >= old(self).spec_last_now(),
            final(self)@ == write_at(
                old(self)@,
                old(self).spec_capacity() as nat,
                old(self).spec_ttl(),
                key,
                value,
                final(self).spec_last_now(),
            ),
            final(self).spec_capacity() == old(self).spec_capacity(),
            final(self).spec_ttl() == old(self).spec_ttl(),
    {
        let now = self.read_clock();
        self.put_at(key, value, now);
        self.last_now = now;
    }

    /// The entries at time `now`, most recent first, as
    /// `[key:value:expired]` or `[key:value:active]`, separated by spaces.
    pub fn cache_state_at(&self, now: u128) -> (r: String)
        requires
            self.wf(),
        ensures
            r@ == ttl_state_text(self@, now),
    {
        proof {
            self.list.lemma_len();
        }
        let ghost hs = self.list.handles();
        let mut parts: Vec<String> = Vec::new();
        let mut current = self.list.front();
        let ghost mut i: int = 0;
        while current.is_some()
            invariant
                self.wf(),
                hs == self.list.handles(),
                self@.len() == hs.len(),
                0 <= i <= hs.len(),
                current == if i < hs.len() { Some(hs[i]) } else { None::<usize> },
                parts@.map_values(|p: String| p@) == self@.take(i).map_values(
                    |e: TtlEntry| ttl_entry_text(e, now),
                ),
            decreases hs.len() - i,
        {
            let h = current.unwrap();
            let ghost before = parts@.map_values(|p: String| p@);
            let e = self.list.get(h, Ghost(i));
            let part = render_ttl_entry(&e, now);
            parts.push(part);
            assert(parts@.map_values(|p: String| p@) =~= before.push(part@));
            assert(parts@.map_values(|p: String| p@) =~= self@.take(i + 1).map_values(
                |e: TtlEntry| ttl_entry_text(e, now),
            ));
            current = self.list.next(h, Ghost(i));
            proof {
                i = i + 1;
            }
        }
        assert(self@.take(i) =~= self@);
        proof {
            reveal_strlit(" ");
        }
        assert(" "@ =~= seq![' ']);
        join_strings(&parts, " ")
    }

    /// The entries as `cache_state_at` renders them, at the time the clock gives.
    pub fn cache_state(&self) -> (r: String)
        requires
            self.wf(),
        ensures
            exists|now: u128| now >= self.spec_last_now() && r@ == ttl_state_text(self@, now),
    {
        let now = self.read_clock();
        self.cache_state_at(now)
    }
}

fn render_ttl_entry(e: &TtlEntry, now: u128) -> (r: String)
    ensures
        r@ == ttl_entry_text(*e, now),
{
    let mut s = String::new();
    push_char(&mut s, '[');
    push_signed(&mut s, e.0 as i64);
    push_char(&mut s, ':');
    push_signed(&mut s, e.1 as i64);
    push_char(&mut s, ':');
    let expired = LRUCache::is_expired(e, now);
    if expired {
        s.append("expired");
        proof {
            reveal_strlit("expired");
        }
    } else {
        s.append("active");
        proof {
            reveal_strlit("active");
        }
    }
    push_char(&mut s, ']');
    assert(s@ =~= ttl_entry_text(*e, now));
    s
}

} // verus!
