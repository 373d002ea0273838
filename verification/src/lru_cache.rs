//! A least-recently-used cache of `i32` keys and values.
//!
//! The entries are kept in order of use, most recent first: a hit or a write
//! moves the entry to the front, and when the cache is full a new key evicts
//! the entry at the back.

use vstd::prelude::*;
use crate::dlist::DList;
use crate::text::{int_decimal, join, push_char, push_signed, join_strings};

verus! {

broadcast use vstd::std_specs::hash::group_hash_axioms;

/// The position of the first entry with `key`, if any.
pub open spec fn find_key(s: Seq<(i32, i32)>, key: i32) -> Option<int>
    decreases s.len(),
{
    if s.len() == 0 {
        None
    } else if s[0].0 == key {
        Some(0)
    } else {
        match find_key(s.drop_first(), key) {
            Some(i) => Some(i + 1),
            None => None,
        }
    }
}

/// No key occurs twice.
pub open spec fn distinct_keys(s: Seq<(i32, i32)>) -> bool {
    forall|i: int, j: int| 0 <= i < j < s.len() ==> s[i].0 != s[j].0
}

/// The entries after a hit on entry `i`: it moves to the front.
pub open spec fn touch(s: Seq<(i32, i32)>, i: int) -> Seq<(i32, i32)> {
    seq![s[i]] + s.remove(i)
}

/// The entries after writing `value` under `key` into a cache of capacity `cap`.
pub open spec fn after_put(s: Seq<(i32, i32)>, cap: nat, key: i32, value: i32) -> Seq<(i32, i32)> {
    match find_key(s, key) {
        Some(i) => seq![(key, value)] + s.remove(i),
        None => if s.len() == cap && s.len() > 0 {
            seq![(key, value)] + s.drop_last()
        } else {
            seq![(key, value)] + s
        },
    }
}

/// What a read of `key` returns: its value, or -1 when it is absent.
pub open spec fn read(s: Seq<(i32, i32)>, key: i32) -> i32 {
    match find_key(s, key) {
        Some(i) => s[i].1,
        None => -1i32,
    }
}

/// The entries after a read of `key`.
pub open spec fn after_get(s: Seq<(i32, i32)>, key: i32) -> Seq<(i32, i32)> {
    match find_key(s, key) {
        Some(i) => touch(s, i),
        None => s,
    }
}

/// `[key:value]`.
pub open spec fn entry_text(e: (i32, i32)) -> Seq<char> {
    seq!['['] + int_decimal(e.0 as int) + seq![':'] + int_decimal(e.1 as int) + seq![']']
}

/// The entries, most recent first, rendered and separated by spaces.
pub open spec fn state_text(s: Seq<(i32, i32)>) -> Seq<char> {
    join(s.map_values(|e: (i32, i32)| entry_text(e)), seq![' '])
}

pub proof fn lemma_find_key(s: Seq<(i32, i32)>, key: i32)
    ensures
        find_key(s, key) matches Some(i) ==> 0 <= i < s.len() && s[i].0 == key && forall|j: int|
            0 <= j < i ==> s[j].0 != key,
        find_key(s, key) is None ==> forall|j: int| 0 <= j < s.len() ==> s[j].0 != key,
    decreases s.len(),
{
    if s.len() > 0 && s[0].0 != key {
        lemma_find_key(s.drop_first(), key);
        assert forall|j: int| 1 <= j < s.len() implies s[j] == s.drop_first()[j - 1] by {}
    }
}

proof fn lemma_after_put_distinct(s: Seq<(i32, i32)>, cap: nat, key: i32, value: i32)
    requires
        distinct_keys(s),
    ensures
        distinct_keys(after_put(s, cap, key, value)),
        find_key(after_put(s, cap, key, value), key) == Some(0int),
{
    lemma_find_key(s, key);
    let r = after_put(s, cap, key, value);
    match find_key(s, key) {
        Some(i) => {
            let t = s.remove(i);
            assert forall|a: int, b: int| 0 <= a < b < r.len() implies r[a].0 != r[b].0 by {
                if a > 0 {
                    let a1 = if a - 1 < i { a - 1 } else { a };
                    let b1 = if b - 1 < i { b - 1 } else { b };
                    assert(r[a] == s[a1]);
                    assert(r[b] == s[b1]);
                } else {
                    let b1 = if b - 1 < i { b - 1 } else { b };
                    assert(r[b] == s[b1]);
                }
            }
        },
        None => {
            assert forall|a: int, b: int| 0 <= a < b < r.len() implies r[a].0 != r[b].0 by {
                assert(r[b] == s[b - 1]);
                if a > 0 {
                    assert(r[a] == s[a - 1]);
                }
            }
        },
    }
    lemma_find_key(r, key);
}

proof fn lemma_touch_distinct(s: Seq<(i32, i32)>, i: int)
    requires
        distinct_keys(s),
        0 <= i < s.len(),
    ensures
        distinct_keys(touch(s, i)),
{
    let r = touch(s, i);
    assert forall|a: int, b: int| 0 <= a < b < r.len() implies r[a].0 != r[b].0 by {
        let b1 = if b - 1 < i { b - 1 } else { b };
        assert(r[b] == s[b1]);
        if a > 0 {
            let a1 = if a - 1 < i { a - 1 } else { a };
            assert(r[a] == s[a1]);
        }
    }
}

/// Reading a key right after writing it gives back the value written.
pub proof fn lemma_read_after_put(s: Seq<(i32, i32)>, cap: nat, key: i32, value: i32)
    requires
        distinct_keys(s),
    ensures
        read(after_put(s, cap, key, value), key) == value,
        after_get(after_put(s, cap, key, value), key) == after_put(s, cap, key, value),
{
    lemma_after_put_distinct(s, cap, key, value);
    let r = after_put(s, cap, key, value);
    assert(touch(r, 0) =~= r);
}

/// Writing a key that is already held evicts nothing: the number of entries
/// stays, the written entry comes first, and every entry of another key is
/// still there.
pub proof fn lemma_put_held_keeps_others(s: Seq<(i32, i32)>, cap: nat, key: i32, value: i32)
    requires
        exists|j: int| 0 <= j < s.len() && s[j].0 == key,
    ensures
        after_put(s, cap, key, value).len() == s.len(),
        after_put(s, cap, key, value)[0] == (key, value),
        forall|j: int|
            0 <= j < s.len() && s[j].0 != key ==> #[trigger] after_put(s, cap, key, value).contains(s[j]),
{
    lemma_find_key(s, key);
    let i = find_key(s, key)->0;
    let r = after_put(s, cap, key, value);
    assert forall|j: int| 0 <= j < s.len() && s[j].0 != key implies #[trigger] r.contains(s[j]) by {
        assert(j != i);
        let q = if j < i { j + 1 } else { j };
        assert(r[q] == s[j]);
    }
}

/// Writing a new key adds it first. Into a cache that is not full (or of
/// capacity 0) every entry stays; into a full one exactly the least recent
/// entry, the last, leaves and the others stay in order.
pub proof fn lemma_put_new_key(s: Seq<(i32, i32)>, cap: nat, key: i32, value: i32)
    requires
        forall|j: int| 0 <= j < s.len() ==> s[j].0 != key,
    ensures
        after_put(s, cap, key, value)[0] == (key, value),
        s.len() != cap || cap == 0 ==> after_put(s, cap, key, value).len() == s.len() + 1
            && forall|j: int| 0 <= j < s.len() ==> #[trigger] after_put(s, cap, key, value)[j + 1] == s[j],
        s.len() == cap && cap > 0 ==> after_put(s, cap, key, value).len() == s.len()
            && forall|j: int| 0 <= j < s.len() - 1 ==> #[trigger] after_put(s, cap, key, value)[j + 1] == s[j],
{
    lemma_find_key(s, key);
}

/// A cache of capacity at least one that is within its capacity stays within it.
pub proof fn lemma_put_within_capacity(s: Seq<(i32, i32)>, cap: nat, key: i32, value: i32)
    requires
        cap >= 1,
        s.len() <= cap,
    ensures
        after_put(s, cap, key, value).len() <= cap,
{
    lemma_find_key(s, key);
}

/// Reads and writes never make a key occur twice.
pub proof fn lemma_keys_stay_distinct(s: Seq<(i32, i32)>, cap: nat, key: i32, value: i32)
    requires
        distinct_keys(s),
    ensures
        distinct_keys(after_put(s, cap, key, value)),
        distinct_keys(after_get(s, key)),
{
    lemma_after_put_distinct(s, cap, key, value);
    lemma_find_key(s, key);
    if let Some(i) = find_key(s, key) {
        lemma_touch_distinct(s, i);
    }
}

/// The keys of the entries, in order.
pub open spec fn keys_of(s: Seq<(i32, i32)>) -> Seq<i32> {
    s.map_values(|e: (i32, i32)| e.0)
}

/// The key index `m` names, for each entry of `s`, the node `hs` gives it.
pub open spec fn index_names(s: Seq<(i32, i32)>, hs: Seq<usize>, m: Map<i32, usize>) -> bool {
    &&& s.len() == hs.len()
    &&& forall|p: int| 0 <= p < s.len() ==> m.contains_key(#[trigger] s[p].0) && m[s[p].0] == hs[p]
    &&& m.dom() == keys_of(s).to_set()
}

/// Moving the entry at `p` to the front, with the same key and node, keeps
/// the index right.
proof fn lemma_index_to_front(
    s: Seq<(i32, i32)>,
    hs: Seq<usize>,
    m: Map<i32, usize>,
    p: int,
    e: (i32, i32),
)
    requires
        index_names(s, hs, m),
        distinct_keys(s),
        0 <= p < s.len(),
        e.0 == s[p].0,
    ensures
        index_names(seq![e] + s.remove(p), seq![hs[p]] + hs.remove(p), m),
        distinct_keys(seq![e] + s.remove(p)),
{
    let s1 = seq![e] + s.remove(p);
    let hs1 = seq![hs[p]] + hs.remove(p);
    assert forall|q: int| 0 <= q < s1.len() implies m.contains_key(#[trigger] s1[q].0) && m[s1[q].0]
        == hs1[q] by {
        if q > 0 {
            let q1 = if q - 1 < p { q - 1 } else { q };
            assert(s1[q] == s[q1]);
            assert(hs1[q] == hs[q1]);
        }
    }
    assert(distinct_keys(s1)) by {
        assert forall|a: int, b: int| 0 <= a < b < s1.len() implies s1[a].0 != s1[b].0 by {
            let b1 = if b - 1 < p { b - 1 } else { b };
            assert(s1[b] == s[b1]);
            if a > 0 {
                let a1 = if a - 1 < p { a - 1 } else { a };
                assert(s1[a] == s[a1]);
            }
        }
    }
    assert(m.dom() =~= keys_of(s1).to_set()) by {
        assert forall|k: i32| m.dom().contains(k) <==> keys_of(s1).to_set().contains(k) by {
            if m.dom().contains(k) {
                assert(keys_of(s).to_set().contains(k));
                let q = choose|q: int| 0 <= q < s.len() && keys_of(s)[q] == k;
                if q == p {
                    assert(keys_of(s1)[0] == k);
                } else {
                    let q2 = if q < p { q + 1 } else { q };
                    assert(s1[q2] == s[q]);
                    assert(keys_of(s1)[q2] == k);
                }
            }
            if keys_of(s1).to_set().contains(k) {
                let q = choose|q: int| 0 <= q < s1.len() && keys_of(s1)[q] == k;
                if q == 0 {
                    assert(keys_of(s)[p] == k);
                } else {
                    let q1 = if q - 1 < p { q - 1 } else { q };
                    assert(s1[q] == s[q1]);
                    assert(keys_of(s)[q1] == k);
                }
            }
        }
    }
}

/// Dropping the last entry and its key keeps the index right.
proof fn lemma_index_drop_last(s: Seq<(i32, i32)>, hs: Seq<usize>, m: Map<i32, usize>)
    requires
        index_names(s, hs, m),
        distinct_keys(s),
        s.len() > 0,
    ensures
        index_names(s.drop_last(), hs.drop_last(), m.remove(s.last().0)),
        distinct_keys(s.drop_last()),
{
    let k0 = s.last().0;
    let s1 = s.drop_last();
    let m1 = m.remove(k0);
    assert forall|q: int| 0 <= q < s1.len() implies m1.contains_key(#[trigger] s1[q].0) && m1[s1[q].0]
        == hs.drop_last()[q] by {
        assert(s1[q] == s[q]);
        assert(s[q].0 != s[s.len() - 1].0);
    }
    assert(m1.dom() =~= keys_of(s1).to_set()) by {
        assert forall|k: i32| m1.dom().contains(k) <==> keys_of(s1).to_set().contains(k) by {
            if m1.dom().contains(k) {
                assert(keys_of(s).to_set().contains(k));
                let q = choose|q: int| 0 <= q < s.len() && keys_of(s)[q] == k;
                assert(q != s.len() - 1);
                assert(keys_of(s1)[q] == k);
            }
            if keys_of(s1).to_set().contains(k) {
                let q = choose|q: int| 0 <= q < s1.len() && keys_of(s1)[q] == k;
                assert(s1[q] == s[q]);
                assert(keys_of(s)[q] == k);
                assert(s[q].0 != s[s.len() - 1].0);
            }
        }
    }
}

/// Adding an entry of a new key at the front, on node `h`, keeps the index
/// right once the key is indexed to `h`.
proof fn lemma_index_push_front(
    s: Seq<(i32, i32)>,
    hs: Seq<usize>,
    m: Map<i32, usize>,
    e: (i32, i32),
    h: usize,
)
    requires
        index_names(s, hs, m),
        distinct_keys(s),
        forall|q: int| 0 <= q < s.len() ==> s[q].0 != e.0,
    ensures
        index_names(seq![e] + s, seq![h] + hs, m.insert(e.0, h)),
        distinct_keys(seq![e] + s),
{
    let s1 = seq![e] + s;
    let m1 = m.insert(e.0, h);
    assert forall|q: int| 0 <= q < s1.len() implies m1.contains_key(#[trigger] s1[q].0) && m1[s1[q].0]
        == (seq![h] + hs)[q] by {
        if q > 0 {
            assert(s1[q] == s[q - 1]);
        }
    }
    assert(distinct_keys(s1)) by {
        assert forall|a: int, b: int| 0 <= a < b < s1.len() implies s1[a].0 != s1[b].0 by {
            assert(s1[b] == s[b - 1]);
            if a > 0 {
                assert(s1[a] == s[a - 1]);
            }
        }
    }
    assert(m1.dom() =~= keys_of(s1).to_set()) by {
        assert forall|k: i32| m1.dom().contains(k) <==> keys_of(s1).to_set().contains(k) by {
            if m1.dom().contains(k) && k != e.0 {
                assert(keys_of(s).to_set().contains(k));
                let q = choose|q: int| 0 <= q < s.len() && keys_of(s)[q] == k;
                assert(keys_of(s1)[q + 1] == k);
            }
            if k == e.0 {
                assert(keys_of(s1)[0] == k);
            }
            if keys_of(s1).to_set().contains(k) && k != e.0 {
                let q = choose|q: int| 0 <= q < s1.len() && keys_of(s1)[q] == k;
                assert(q > 0);
                assert(keys_of(s)[q - 1] == k);
            }
        }
    }
}

/// Where the index names a key, the entry of that key is where `find_key`
/// finds it, on the node the index names.
proof fn lemma_index_find(s: Seq<(i32, i32)>, hs: Seq<usize>, m: Map<i32, usize>, key: i32)
    requires
        index_names(s, hs, m),
    ensures
        m.contains_key(key) <==> find_key(s, key) is Some,
        find_key(s, key) matches Some(p) ==> m[key] == hs[p] && 0 <= p < s.len() && s[p].0 == key,
{
    lemma_find_key(s, key);
    if m.contains_key(key) {
        assert(keys_of(s).to_set().contains(key));
        let q = choose|q: int| 0 <= q < s.len() && keys_of(s)[q] == key;
        assert(s[q].0 == key);
    }
    if let Some(p) = find_key(s, key) {
        assert(m.contains_key(s[p].0));
    }
}

pub struct LRUCache {
    capacity: usize,
    /// Each key's node in the list.
    map: std::collections::HashMap<i32, usize>,
    /// Entries, most recently used first.
    list: DList<(i32, i32)>,
}

impl LRUCache {
    /// The entries, most recently used first.
    pub closed spec fn view(&self) -> Seq<(i32, i32)> {
        self.list@
    }

    pub closed spec fn spec_capacity(&self) -> usize {
        self.capacity
    }

    /// No key is held twice, and the key index names each entry's node.
    pub closed spec fn wf(&self) -> bool {
        &&& self.list.wf()
        &&& distinct_keys(self.list@)
        &&& index_names(self.list@, self.list.handles(), self.map@)
    }

    /// A well-formed cache holds no key twice.
    pub proof fn lemma_wf_distinct(&self)
        requires
            self.wf(),
        ensures
            distinct_keys(self@),
    {
    }

    proof fn lemma_wf_facts(&self)
        requires
            self.wf(),
        ensures
            self.map@.len() == self.list@.len(),
    {
        let ks = keys_of(self.list@);
        assert(ks.no_duplicates()) by {
            assert forall|i: int, j: int| 0 <= i < ks.len() && 0 <= j < ks.len() && i != j implies ks[i]
                != ks[j] by {
                if i < j {
                    assert(self.list@[i].0 != self.list@[j].0);
                } else {
                    assert(self.list@[j].0 != self.list@[i].0);
                }
            }
        }
        ks.unique_seq_to_set();
    }

    /// An empty cache; the capacity is `capacity` taken as a `usize` (a
    /// negative one wraps around).
    pub fn new(capacity: i32) -> (c: Self)
        ensures
            c.wf(),
            c@ == Seq::<(i32, i32)>::empty(),
            c.spec_capacity() == capacity as usize,
    {
        let c = LRUCache { capacity: capacity as usize, map: std::collections::HashMap::new(), list: DList::new() };
        assert(keys_of(c.list@) =~= Seq::<i32>::empty());
        assert(c.map@.dom() =~= keys_of(c.list@).to_set());
        c
    }

    /// The capacity.
    pub fn capacity(&self) -> (r: usize)
        ensures
            r == self.spec_capacity(),
    {
        self.capacity
    }

    /// Unlinks the node `h` (the entry at position `p`) from the list. The key
    /// index is left as it is: it still names the detached node.
    fn remove(&mut self, h: usize, Ghost(p): Ghost<int>)
        requires
            old(self).list.wf(),
            0 <= p < old(self).list.handles().len(),
            old(self).list.handles()[p] == h,
        ensures
            final(self).list.wf(),
            final(self)@ == old(self)@.remove(p),
            final(self).list.handles() == old(self).list.handles().remove(p),
            final(self).list.is_detached(h),
            final(self).list.value_at(h) == old(self)@[p],
            final(self).map@ == old(self).map@,
            final(self).capacity == old(self).capacity,
    {
        self.list.unlink(h, Ghost(p));
    }

    /// Links the detached node `h` in as the most recently used. The key
    /// index is left as it is.
    fn insert_at_head(&mut self, h: usize)
        requires
            old(self).list.wf(),
            old(self).list.is_detached(h),
        ensures
            final(self).list.wf(),
            final(self)@ == seq![old(self).list.value_at(h)] + old(self)@,
            final(self).list.handles() == seq![h] + old(self).list.handles(),
            final(self).map@ == old(self).map@,
            final(self).capacity == old(self).capacity,
    {
        self.list.link_front(h);
    }

    /// The value under `key`, or -1; a hit makes the entry the most recent.
    pub fn get(&mut self, key: i32) -> (r: i32)
        requires
            old(self).wf(),
        ensures
            final(self).wf(),
            r == read(old(self)@, key),
            final(self)@ == after_get(old(self)@, key),
            final(self).spec_capacity() == old(self).spec_capacity(),
    {
        proof {
            lemma_index_find(self.list@, self.list.handles(), self.map@, key);
        }
        match self.map.get(&key) {
            Some(node) => {
                let h = *node;
                let ghost p = find_key(self@, key)->0;
                let ghost hs0 = self.list.handles();
                let value = self.list.get(h, Ghost(p)).1;
                self.remove(h, Ghost(p));
                self.insert_at_head(h);
                proof {
                    lemma_index_to_front(old(self)@, hs0, self.map@, p, old(self)@[p]);
                    assert(self@ =~= touch(old(self)@, p));
                }
                value
            },
            None => -1,
        }
    }

    /// Writes `value` under `key`, making it the most recent; a new key in a
    /// full cache first evicts the least recently used entry.
    pub fn put(&mut self, key: i32, value: i32)
        requires
            old(self).wf(),
        ensures
            final(self).wf(),
            final(self)@ == after_put(old(self)@, old(self).spec_capacity() as nat, key, value),
            final(self).spec_capacity() == old(self).spec_capacity(),
    {
        proof {
            lemma_index_find(self.list@, self.list.handles(), self.map@, key);
            self.lemma_wf_facts();
        }
        if let Some(node) = self.map.get(&key) {
            let h = *node;
            let ghost p = find_key(self@, key)->0;
            let ghost hs0 = self.list.handles();
            self.list.set(h, Ghost(p), (key, value));
            self.remove(h, Ghost(p));
            self.insert_at_head(h);
            proof {
                lemma_index_to_front(old(self)@, hs0, self.map@, p, (key, value));
                assert(self@ =~= seq![(key, value)] + old(self)@.remove(p));
            }
            return;
        }
        if self.map.len() == self.capacity {
            if let Some(tail) = self.list.back() {
                let ghost last = self@.len() - 1;
                let ghost s0 = self@;
                let ghost hs0 = self.list.handles();
                let old_key = self.list.get(tail, Ghost(last)).0;
                self.remove(tail, Ghost(last));
                self.map.remove(&old_key);
                self.list.release(tail);
                proof {
                    assert(s0.remove(last) =~= s0.drop_last());
                    assert(hs0.remove(last) =~= hs0.drop_last());
                    lemma_index_drop_last(s0, hs0, old(self).map@);
                }
            }
        }
        let ghost s1 = self@;
        let ghost hs1 = self.list.handles();
        let ghost m1 = self.map@;
        assert(index_names(s1, hs1, m1) && distinct_keys(s1));
        assert(s1 == old(self)@ || s1 == old(self)@.drop_last());
        let h = self.list.new_node((key, value));
        self.insert_at_head(h);
        self.map.insert(key, h);
        proof {
            lemma_find_key(old(self)@, key);
            assert forall|q: int| 0 <= q < s1.len() implies s1[q].0 != key by {
                assert(s1[q] == old(self)@[q]);
            }
            lemma_index_push_front(s1, hs1, m1, (key, value), h);
        }
    }

    /// The entries, most recent first, as `[key:value]` separated by spaces.
    pub fn cache_state(&self) -> (r: String)
        requires
            self.wf(),
        ensures
            r@ == state_text(self@),
    {
        proof {
            self.list.lemma_len();
        }
        let ghost hs = self.list.handles();
        let mut parts: Vec<String> = Vec::new();
        let mut current = self.list.front();
        let ghost mut i: int = 0;
        while current.is_some()
            invariant
                self.wf(),
                hs == self.list.handles(),
                self@.len() == hs.len(),
                0 <= i <= hs.len(),
                current == if i < hs.len() { Some(hs[i]) } else { None::<usize> },
                parts@.map_values(|p: String| p@) == self@.take(i).map_values(|e: (i32, i32)| entry_text(e)),
            decreases hs.len() - i,
        {
            let h = current.unwrap();
            let ghost before = parts@.map_values(|p: String| p@);
            let e = self.list.get(h, Ghost(i));
            let part = render_entry(e);
            parts.push(part);
            assert(parts@.map_values(|p: String| p@) =~= before.push(part@));
            assert(parts@.map_values(|p: String| p@) =~= self@.take(i + 1).map_values(
                |e: (i32, i32)| entry_text(e),
            ));
            current = self.list.next(h, Ghost(i));
            proof {
                i = i + 1;
            }
        }
        assert(self@.take(i) =~= self@);
        proof {
            reveal_strlit(" ");
        }
        assert(" "@ =~= seq![' ']);
        join_strings(&parts, " ")
    }
}

fn render_entry(e: (i32, i32)) -> (r: String)
    ensures
        r@ == entry_text(e),
{
    let mut s = String::new();
    push_char(&mut s, '[');
    push_signed(&mut s, e.0 as i64);
    push_char(&mut s, ':');
    push_signed(&mut s, e.1 as i64);
    push_char(&mut s, ']');
    assert(s@ =~= entry_text(e));
    s
}

} // verus!
