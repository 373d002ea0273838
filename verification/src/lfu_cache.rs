//! A least-frequently-used cache of `i32` keys and values.
//!
//! Each key counts how often it was read or written. Keys of one frequency
//! sit in a list of their own, most recently touched first. When the cache is
//! full, a new key evicts the least recently touched key among those of the
//! lowest frequency.

use vstd::prelude::*;
use crate::dlist::DList;
use crate::text::{int_decimal, nat_decimal, join, push_char, push_signed, push_decimal, join_strings};

verus! {

broadcast use vstd::std_specs::hash::group_hash_axioms;

/// One cached entry and how often it was used.
#[derive(Clone, Copy, Debug, PartialEq, Eq, Structural)]
pub struct LfuNode {
    pub key: i32,
    pub value: i32,
    pub freq: usize,
}

/// The position of the first node with `key`, if any.
pub open spec fn find_node(s: Seq<LfuNode>, key: i32) -> Option<int>
    decreases s.len(),
{
    if s.len() == 0 {
        None
    } else if s[0].key == key {
        Some(0)
    } else {
        match find_node(s.drop_first(), key) {
            Some(i) => Some(i + 1),
            None => None,
        }
    }
}

/// No key occurs twice in the list.
pub open spec fn distinct_node_keys(s: Seq<LfuNode>) -> bool {
    forall|i: int, j: int| 0 <= i < j < s.len() ==> s[i].key != s[j].key
}

/// `[key:value:f=freq]`.
pub open spec fn node_text(n: LfuNode) -> Seq<char> {
    seq!['['] + int_decimal(n.key as int) + seq![':'] + int_decimal(n.value as int) + seq![
        ':',
        'f',
        '=',
    ] + nat_decimal(n.freq as nat) + seq![']']
}

/// The nodes, head first, separated by spaces.
pub open spec fn list_text(s: Seq<LfuNode>) -> Seq<char> {
    join(s.map_values(|n: LfuNode| node_text(n)), seq![' '])
}

pub proof fn lemma_find_node(s: Seq<LfuNode>, key: i32)
    ensures
        find_node(s, key) matches Some(i) ==> 0 <= i < s.len() && s[i].key == key && forall|j: int|
            0 <= j < i ==> s[j].key != key,
        find_node(s, key) is None ==> forall|j: int| 0 <= j < s.len() ==> s[j].key != key,
    decreases s.len(),
{
    if s.len() > 0 && s[0].key != key {
        lemma_find_node(s.drop_first(), key);
        assert forall|j: int| 1 <= j < s.len() implies s[j] == s.drop_first()[j - 1] by {}
    }
}

/// The nodes of one frequency, most recently touched at the head.
pub struct DoublyLinkedList {
    list: DList<LfuNode>,
}

impl DoublyLinkedList {
    /// The nodes, head first.
    pub closed spec fn view(&self) -> Seq<LfuNode> {
        self.list@
    }

    /// The links hold together.
    pub closed spec fn wf(&self) -> bool {
        self.list.wf()
    }

    pub fn new() -> (l: Self)
        ensures
            l.wf(),
            l@ == Seq::<LfuNode>::empty(),
    {
        DoublyLinkedList { list: DList::new() }
    }

    pub fn is_empty(&self) -> (r: bool)
        requires
            self.wf(),
        ensures
            r == (self@.len() == 0),
    {
        self.list.len_is_zero()
    }

    /// The handles of the nodes, head first.
    pub closed spec fn handles(&self) -> Seq<usize> {
        self.list.handles()
    }

    /// There are as many handles as nodes.
    pub proof fn lemma_len(&self)
        ensures
            self@.len() == self.handles().len(),
    {
        self.list.lemma_len();
    }

    /// Links `node` in at the head and returns its handle.
    pub fn insert_at_head(&mut self, node: LfuNode) -> (h: usize)
        requires
            old(self).wf(),
        ensures
            final(self).wf(),
            final(self)@ == seq![node] + old(self)@,
            final(self).handles() == seq![h] + old(self).handles(),
    {
        self.list.push_front(node)
    }

    /// The node with handle `h`, at position `p`.
    pub fn get(&self, h: usize, Ghost(p): Ghost<int>) -> (n: LfuNode)
        requires
            self.wf(),
            0 <= p < self.handles().len(),
            self.handles()[p] == h,
        ensures
            n == self@[p],
    {
        self.list.get(h, Ghost(p))
    }

    /// Unlinks the node with handle `h`, at position `p`, and hands it back.
    pub fn remove(&mut self, h: usize, Ghost(p): Ghost<int>) -> (n: LfuNode)
        requires
            old(self).wf(),
            0 <= p < old(self).handles().len(),
            old(self).handles()[p] == h,
        ensures
            final(self).wf(),
            n == old(self)@[p],
            final(self)@ == old(self)@.remove(p),
            final(self).handles() == old(self).handles().remove(p),
    {
        self.list.remove(h, Ghost(p))
    }

    /// Unlinks the tail node and hands it back; `None` when the list is empty.
    pub fn remove_tail(&mut self) -> (n: Option<LfuNode>)
        requires
            old(self).wf(),
        ensures
            final(self).wf(),
            old(self)@.len() == 0 ==> n is None && final(self)@ == old(self)@,
            old(self)@.len() > 0 ==> n == Some(old(self)@.last()) && final(self)@
                == old(self)@.drop_last() && final(self).handles() == old(self).handles().drop_last(),
            old(self)@.len() == 0 ==> final(self).handles() == old(self).handles(),
    {
        proof {
            self.list.lemma_len();
        }
        match self.list.back() {
            Some(tail) => {
                let ghost last = self@.len() - 1;
                let n = self.list.remove(tail, Ghost(last));
                assert(self@ =~= old(self)@.drop_last());
                assert(self.handles() =~= old(self).handles().drop_last());
                Some(n)
            },
            None => None,
        }
    }

    /// The nodes, head first, as `[key:value:f=freq]` separated by spaces.
    pub fn state(&self) -> (r: String)
        requires
            self.wf(),
        ensures
            r@ == list_text(self@),
    {
        proof {
            self.list.lemma_len();
        }
        let ghost hs = self.list.handles();
        let mut parts: Vec<String> = Vec::new();
        let mut current = self.list.front();
        let ghost mut i: int = 0;
        while current.is_some()
            invariant
                self.wf(),
                hs == self.list.handles(),
                self@.len() == hs.len(),
                0 <= i <= hs.len(),
                current == if i < hs.len() { Some(hs[i]) } else { None::<usize> },
                parts@.map_values(|p: String| p@) == self@.take(i).map_values(
                    |n: LfuNode| node_text(n),
                ),
            decreases hs.len() - i,
        {
            let h = current.unwrap();
            let ghost before = parts@.map_values(|p: String| p@);
            let part = render_node(self.list.get(h, Ghost(i)));
            parts.push(part);
            assert(parts@.map_values(|p: String| p@) =~= before.push(part@));
            assert(parts@.map_values(|p: String| p@) =~= self@.take(i + 1).map_values(
                |n: LfuNode| node_text(n),
            ));
            current = self.list.next(h, Ghost(i));
            proof {
                i = i + 1;
            }
        }
        assert(self@.take(i) =~= self@);
        proof {
            reveal_strlit(" ");
        }
        assert(" "@ =~= seq![' ']);
        join_strings(&parts, " ")
    }
}

fn render_node(n: LfuNode) -> (r: String)
    ensures
        r@ == node_text(n),
{
    let mut s = String::new();
    push_char(&mut s, '[');
    push_signed(&mut s, n.key as i64);
    push_char(&mut s, ':');
    push_signed(&mut s, n.value as i64);
    push_char(&mut s, ':');
    push_char(&mut s, 'f');
    push_char(&mut s, '=');
    push_decimal(&mut s, n.freq as u128);
    push_char(&mut s, ']');
    assert(s@ =~= node_text(n));
    s
}

/// The list of frequency `f`, or an empty one when there is none.
pub open spec fn list_or_empty(lists: Map<usize, Seq<LfuNode>>, f: usize) -> Seq<LfuNode> {
    if lists.contains_key(f) {
        lists[f]
    } else {
        Seq::empty()
    }
}

/// The cache's bookkeeping holds together:
/// every key sits once in the list of its frequency, every listed node is a
/// key of that frequency (at least 1), the lowest frequency's list is not
/// empty and no key has a lower frequency, and `freqs` names each list once.
pub open spec fn lfu_wf(
    keys: Map<i32, usize>,
    lists: Map<usize, Seq<LfuNode>>,
    min_freq: usize,
    freqs: Seq<usize>,
) -> bool {
    &&& keys.dom().finite()
    &&& forall|k: i32| #[trigger]
        keys.contains_key(k) ==> lists.contains_key(keys[k]) && find_node(lists[keys[k]], k) is Some
    &&& forall|f: usize, i: int|
        #![trigger lists[f][i]]
        lists.contains_key(f) && 0 <= i < lists[f].len() ==> lists[f][i].freq == f && f >= 1
            && keys.contains_key(lists[f][i].key) && keys[lists[f][i].key] == f
    &&& forall|f: usize| #[trigger] lists.contains_key(f) ==> distinct_node_keys(lists[f])
    &&& keys.len() > 0 ==> lists.contains_key(min_freq) && lists[min_freq].len() > 0 && forall|
        k: i32,
    | #[trigger] keys.contains_key(k) ==> keys[k] >= min_freq
    &&& freqs.no_duplicates()
    &&& forall|f: usize| lists.contains_key(f) <==> #[trigger] freqs.contains(f)
}

/// The lists after the node of `key` (in the list of frequency `f`, at `i`)
/// is touched: it leaves that list and heads the next frequency's list, with
/// `value` and its frequency one higher.
pub open spec fn touched_lists(
    lists: Map<usize, Seq<LfuNode>>,
    key: i32,
    f: usize,
    i: int,
    value: i32,
) -> Map<usize, Seq<LfuNode>> {
    let moved = LfuNode { key, value, freq: (f + 1) as usize };
    let rest = lists.insert(f, lists[f].remove(i));
    rest.insert((f + 1) as usize, seq![moved] + list_or_empty(rest, (f + 1) as usize))
}

/// The lowest frequency after a touch of a node of frequency `f` at `i`.
pub open spec fn touched_min(lists: Map<usize, Seq<LfuNode>>, f: usize, i: int, min_freq: usize) -> usize {
    if lists[f].remove(i).len() == 0 && min_freq == f {
        (min_freq + 1) as usize
    } else {
        min_freq
    }
}

/// The frequency order after a touch that moves a node to frequency `nf`.
pub open spec fn touched_freqs(lists: Map<usize, Seq<LfuNode>>, freqs: Seq<usize>, nf: usize) -> Seq<usize> {
    if lists.contains_key(nf) {
        freqs
    } else {
        freqs.push(nf)
    }
}

/// The lists after evicting from a full cache: the tail of the lowest
/// frequency's list leaves, if there is one.
pub open spec fn evicted_lists(lists: Map<usize, Seq<LfuNode>>, min_freq: usize) -> Map<usize, Seq<LfuNode>> {
    if lists.contains_key(min_freq) && lists[min_freq].len() > 0 {
        lists.insert(min_freq, lists[min_freq].drop_last())
    } else {
        lists
    }
}

/// The keys after evicting from a full cache.
pub open spec fn evicted_keys(
    keys: Map<i32, usize>,
    lists: Map<usize, Seq<LfuNode>>,
    min_freq: usize,
) -> Map<i32, usize> {
    if lists.contains_key(min_freq) && lists[min_freq].len() > 0 {
        keys.remove(lists[min_freq].last().key)
    } else {
        keys
    }
}

/// The lists after a new key is written: it heads the list of frequency 1.
pub open spec fn inserted_lists(lists: Map<usize, Seq<LfuNode>>, key: i32, value: i32) -> Map<
    usize,
    Seq<LfuNode>,
> {
    lists.insert(1, seq![LfuNode { key, value, freq: 1 }] + list_or_empty(lists, 1))
}

/// The value held under `key`, if any.
pub open spec fn lfu_lookup(keys: Map<i32, usize>, lists: Map<usize, Seq<LfuNode>>, key: i32) -> Option<i32> {
    if keys.contains_key(key) {
        let l = lists[keys[key]];
        Some(l[find_node(l, key)->0].value)
    } else {
        None
    }
}

/// Whether a write of a new key finds the cache full.
pub open spec fn put_is_full(keys: Map<i32, usize>, cap: usize) -> bool {
    keys.len() == cap
}

/// The keys' frequencies after `put(key, value)` into a cache of capacity `cap > 0`.
pub open spec fn put_keys(
    keys: Map<i32, usize>,
    lists: Map<usize, Seq<LfuNode>>,
    min_freq: usize,
    cap: usize,
    key: i32,
) -> Map<i32, usize> {
    if keys.contains_key(key) {
        keys.insert(key, (keys[key] + 1) as usize)
    } else if put_is_full(keys, cap) {
        evicted_keys(keys, lists, min_freq).insert(key, 1)
    } else {
        keys.insert(key, 1)
    }
}

/// The lists after `put(key, value)` into a cache of capacity `cap > 0`.
pub open spec fn put_lists(
    keys: Map<i32, usize>,
    lists: Map<usize, Seq<LfuNode>>,
    min_freq: usize,
    cap: usize,
    key: i32,
    value: i32,
) -> Map<usize, Seq<LfuNode>> {
    if keys.contains_key(key) {
        let f = keys[key];
        touched_lists(lists, key, f, find_node(lists[f], key)->0, value)
    } else if put_is_full(keys, cap) {
        inserted_lists(evicted_lists(lists, min_freq), key, value)
    } else {
        inserted_lists(lists, key, value)
    }
}

/// The lowest frequency after `put(key, value)` into a cache of capacity `cap > 0`.
pub open spec fn put_min(
    keys: Map<i32, usize>,
    lists: Map<usize, Seq<LfuNode>>,
    min_freq: usize,
    key: i32,
) -> usize {
    if keys.contains_key(key) {
        let f = keys[key];
        touched_min(lists, f, find_node(lists[f], key)->0, min_freq)
    } else {
        1
    }
}

/// Reading a key right after writing it into a cache of positive capacity
/// gives back the value written.
pub proof fn lemma_lfu_read_after_put(
    keys: Map<i32, usize>,
    lists: Map<usize, Seq<LfuNode>>,
    min_freq: usize,
    freqs: Seq<usize>,
    cap: usize,
    key: i32,
    value: i32,
)
    requires
        lfu_wf(keys, lists, min_freq, freqs),
        cap > 0,
        keys.contains_key(key) ==> keys[key] < usize::MAX,
    ensures
        lfu_lookup(
            put_keys(keys, lists, min_freq, cap, key),
            put_lists(keys, lists, min_freq, cap, key, value),
            key,
        ) == Some(value),
{
    let keys2 = put_keys(keys, lists, min_freq, cap, key);
    let lists2 = put_lists(keys, lists, min_freq, cap, key, value);
    let l = lists2[keys2[key]];
    assert(l[0].key == key);
    lemma_find_node(l, key);
}

/// Writing a key that is already held counts as one more use of it, as a
/// read does: its frequency rises by one, no key enters or leaves, no other
/// key's frequency changes, and its node, with the new value, heads the list
/// of its new frequency and leaves the list of its old one.
pub proof fn lemma_lfu_put_held_is_a_use(
    keys: Map<i32, usize>,
    lists: Map<usize, Seq<LfuNode>>,
    min_freq: usize,
    freqs: Seq<usize>,
    cap: usize,
    key: i32,
    value: i32,
)
    requires
        lfu_wf(keys, lists, min_freq, freqs),
        cap > 0,
        keys.contains_key(key),
        keys[key] < usize::MAX,
    ensures
        put_keys(keys, lists, min_freq, cap, key)[key] == keys[key] + 1,
        put_keys(keys, lists, min_freq, cap, key).dom() == keys.dom(),
        forall|k: i32|
            keys.contains_key(k) && k != key ==> #[trigger] put_keys(keys, lists, min_freq, cap, key)[k]
                == keys[k],
        put_lists(keys, lists, min_freq, cap, key, value)[(keys[key] + 1) as usize][0] == (LfuNode {
            key,
            value,
            freq: (keys[key] + 1) as usize,
        }),
        find_node(put_lists(keys, lists, min_freq, cap, key, value)[keys[key]], key) is None,
{
    let f = keys[key];
    lemma_find_node(lists[f], key);
    let i = find_node(lists[f], key)->0;
    let shrunk = lists[f].remove(i);
    let l2 = put_lists(keys, lists, min_freq, cap, key, value);
    assert(put_keys(keys, lists, min_freq, cap, key).dom() =~= keys.dom());
    assert(l2[f] == shrunk);
    lemma_find_node(shrunk, key);
    assert forall|j: int| 0 <= j < shrunk.len() implies shrunk[j].key != key by {
        let j1 = if j < i { j } else { j + 1 };
        assert(shrunk[j] == lists[f][j1]);
    }
}

/// A cache of positive capacity that is within its capacity stays within it.
pub proof fn lemma_lfu_within_capacity(
    keys: Map<i32, usize>,
    lists: Map<usize, Seq<LfuNode>>,
    min_freq: usize,
    freqs: Seq<usize>,
    cap: usize,
    key: i32,
)
    requires
        lfu_wf(keys, lists, min_freq, freqs),
        cap > 0,
        keys.len() <= cap,
    ensures
        put_keys(keys, lists, min_freq, cap, key).len() <= cap,
{
    if !keys.contains_key(key) && put_is_full(keys, cap) {
        let l = lists[min_freq];
        assert(l[l.len() - 1].freq == min_freq);
        let gone = l.last().key;
        assert(keys.contains_key(gone));
        assert(keys.remove(gone).len() == keys.len() - 1);
        assert(!keys.remove(gone).contains_key(key));
    }
}

/// The key that a full cache evicts has the lowest frequency of all its keys,
/// and is the least recently touched of that frequency's list.
pub proof fn lemma_lfu_evicts_least_frequent(
    keys: Map<i32, usize>,
    lists: Map<usize, Seq<LfuNode>>,
    min_freq: usize,
    freqs: Seq<usize>,
)
    requires
        lfu_wf(keys, lists, min_freq, freqs),
        keys.len() > 0,
    ensures
        lists.contains_key(min_freq) && lists[min_freq].len() > 0,
        ({
            let gone = lists[min_freq].last().key;
            &&& keys.contains_key(gone)
            &&& forall|k: i32| #[trigger] keys.contains_key(k) ==> keys[gone] <= keys[k]
            &&& evicted_keys(keys, lists, min_freq) == keys.remove(gone)
        }),
{
    let l = lists[min_freq];
    assert(l[l.len() - 1].freq == min_freq);
}

/// Touching a held key of frequency `f` keeps the bookkeeping together: the
/// key leaves list `f` and heads list `f + 1`, and the lowest frequency moves
/// up by one exactly when list `f` empties and was the lowest, so it stays
/// the lowest frequency of any key.
pub proof fn lemma_touch_wf(
    keys: Map<i32, usize>,
    lists: Map<usize, Seq<LfuNode>>,
    min_freq: usize,
    freqs: Seq<usize>,
    key: i32,
    value: i32,
)
    requires
        lfu_wf(keys, lists, min_freq, freqs),
        keys.contains_key(key),
        keys[key] < usize::MAX,
    ensures
        ({
            let f = keys[key];
            let i = find_node(lists[f], key)->0;
            let nf = (f + 1) as usize;
            lfu_wf(
                keys.insert(key, nf),
                touched_lists(lists, key, f, i, value),
                touched_min(lists, f, i, min_freq),
                touched_freqs(lists, freqs, nf),
            )
        }),
{
    let f = keys[key];
    let nf = (f + 1) as usize;
    let old_list = lists[f];
    lemma_find_node(old_list, key);
    let i = find_node(old_list, key)->0;
    let keys2 = keys.insert(key, nf);
    let lists2 = touched_lists(lists, key, f, i, value);
    let min2 = touched_min(lists, f, i, min_freq);
    let freqs2 = touched_freqs(lists, freqs, nf);
    let moved = LfuNode { key, value, freq: nf };
    let shrunk = old_list.remove(i);
    let target = list_or_empty(lists, nf);
    assert(lists2[f] == shrunk);
    assert(lists2[nf] == seq![moved] + target);
    // nodes of the target list are keys of frequency nf, so not `key`
    assert forall|j: int| 0 <= j < target.len() implies target[j].key != key by {
        assert(lists[nf][j].freq == nf);
    }
    assert forall|j: int| 0 <= j < shrunk.len() implies shrunk[j].key != key && (
    #[trigger] shrunk[j]) == old_list[if j < i { j } else { j + 1 }] by {
        let j1 = if j < i { j } else { j + 1 };
        assert(shrunk[j] == old_list[j1]);
    }
    // (a)
    assert forall|k: i32| #[trigger]
        keys2.contains_key(k) implies lists2.contains_key(keys2[k]) && find_node(
        lists2[keys2[k]],
        k,
    ) is Some by {
        if k == key {
            lemma_find_node(lists2[nf], k);
        } else {
            let g = keys[k];
            lemma_find_node(lists[g], k);
            let p = find_node(lists[g], k)->0;
            if g == f {
                let p2 = if p < i { p } else { p - 1 };
                assert(p != i);
                assert(shrunk[p2] == old_list[p]);
                lemma_find_node(shrunk, k);
            } else if g == nf {
                assert(lists2[nf][p + 1] == lists[nf][p]);
                lemma_find_node(lists2[nf], k);
            } else {
                assert(lists2[g] == lists[g]);
            }
        }
    }
    // (b)
    assert forall|g: usize, j: int|
        #![trigger lists2[g][j]]
        lists2.contains_key(g) && 0 <= j < lists2[g].len() implies lists2[g][j].freq == g && g >= 1
        && keys2.contains_key(lists2[g][j].key) && keys2[lists2[g][j].key] == g by {
        if g == nf {
            if j > 0 {
                assert(lists2[g][j] == lists[nf][j - 1]);
            }
        } else if g == f {
            let j1 = if j < i { j } else { j + 1 };
            assert(lists2[g][j] == lists[f][j1]);
        } else {
            assert(lists2[g][j] == lists[g][j]);
        }
    }
    // (c)
    assert forall|g: usize| #[trigger] lists2.contains_key(g) implies distinct_node_keys(lists2[g]) by {
        if g == nf {
            assert forall|a: int, b: int| 0 <= a < b < lists2[g].len() implies lists2[g][a].key
                != lists2[g][b].key by {
                assert(lists2[g][b] == target[b - 1]);
                if a > 0 {
                    assert(lists2[g][a] == target[a - 1]);
                    assert(lists[nf][a - 1].key != lists[nf][b - 1].key);
                }
            }
        } else if g == f {
            assert forall|a: int, b: int| 0 <= a < b < lists2[g].len() implies lists2[g][a].key
                != lists2[g][b].key by {
                let a1 = if a < i { a } else { a + 1 };
                let b1 = if b < i { b } else { b + 1 };
                assert(lists2[g][a] == old_list[a1]);
                assert(lists2[g][b] == old_list[b1]);
            }
        } else {
            assert(lists2[g] == lists[g]);
        }
    }
    // (d)
    assert(keys2.len() > 0) by {
        assert(keys2.dom() == keys.dom());
    }
    assert forall|k: i32| #[trigger] keys2.contains_key(k) implies keys2[k] >= min2 by {
        if k != key && shrunk.len() == 0 && min_freq == f {
            let g = keys[k];
            if g == f {
                lemma_find_node(lists[f], k);
                let p = find_node(lists[f], k)->0;
                assert(p != i);
                assert(false);
            }
        }
    }
    assert(lists2.contains_key(min2) && lists2[min2].len() > 0) by {
        if !(shrunk.len() == 0 && min_freq == f) {
            if min_freq != f && min_freq != nf {
                assert(lists2[min_freq] == lists[min_freq]);
            }
        }
    }
    // (e)
    assert forall|g: usize| lists2.contains_key(g) <==> #[trigger] freqs2.contains(g) by {
        if g != nf && g != f {
            assert(lists2.contains_key(g) == lists.contains_key(g));
        }
        if !lists.contains_key(nf) {
            if g == nf {
                assert(freqs2[freqs.len() as int] == nf);
            } else if freqs2.contains(g) {
                let p = choose|p: int| 0 <= p < freqs2.len() && freqs2[p] == g;
                assert(p < freqs.len());
                assert(freqs.contains(g));
            }
            if freqs.contains(g) {
                let p = choose|p: int| 0 <= p < freqs.len() && freqs[p] == g;
                assert(freqs2[p] == g);
            }
        }
    }
    assert(freqs2.no_duplicates()) by {
        if !lists.contains_key(nf) {
            assert(!freqs.contains(nf));
            assert forall|a: int, b: int| 0 <= a < freqs2.len() && 0 <= b < freqs2.len() && a != b implies freqs2[a] != freqs2[b] by {
                if a == freqs.len() {
                    assert(freqs2[b] == freqs[b]);
                } else if b == freqs.len() {
                    assert(freqs2[a] == freqs[a]);
                }
            }
        }
    }
}

/// Writing a new key into a cache (after any eviction) keeps the bookkeeping together.
proof fn lemma_put_new_wf(
    keys: Map<i32, usize>,
    lists: Map<usize, Seq<LfuNode>>,
    min_freq: usize,
    freqs: Seq<usize>,
    evict: bool,
    key: i32,
    value: i32,
)
    requires
        lfu_wf(keys, lists, min_freq, freqs),
        !keys.contains_key(key),
    ensures
        ({
            let keys1 = if evict { evicted_keys(keys, lists, min_freq) } else { keys };
            let lists1 = if evict { evicted_lists(lists, min_freq) } else { lists };
            lfu_wf(
                keys1.insert(key, 1),
                inserted_lists(lists1, key, value),
                1,
                if lists1.contains_key(1) { freqs } else { freqs.push(1) },
            )
        }),
{
    let keys1 = if evict { evicted_keys(keys, lists, min_freq) } else { keys };
    let lists1 = if evict { evicted_lists(lists, min_freq) } else { lists };
    let does_evict = evict && lists.contains_key(min_freq) && lists[min_freq].len() > 0;
    let gone = if does_evict { lists[min_freq].last().key } else { key };
    // the intermediate state: keys removed consistently with lists
    assert forall|k: i32| #[trigger]
        keys1.contains_key(k) implies lists1.contains_key(keys1[k]) && find_node(
        lists1[keys1[k]],
        k,
    ) is Some && keys1[k] >= 1 by {
        lemma_find_node(lists[keys[k]], k);
        let p = find_node(lists[keys[k]], k)->0;
        assert(lists[keys[k]][p].freq == keys[k]);
        if does_evict && keys[k] == min_freq {
            let l = lists[min_freq];
            assert(k != gone);
            assert(p != l.len() - 1);
            assert(lists1[min_freq][p] == l[p]);
            lemma_find_node(lists1[min_freq], k);
        } else {
            assert(lists1[keys1[k]] == lists[keys[k]]);
        }
    }
    assert forall|f: usize, i: int|
        #![trigger lists1[f][i]]
        lists1.contains_key(f) && 0 <= i < lists1[f].len() implies lists1[f][i].freq == f && f >= 1
        && keys1.contains_key(lists1[f][i].key) && keys1[lists1[f][i].key] == f by {
        assert(lists1[f][i] == lists[f][i]);
        if does_evict && lists1[f][i].key == gone {
            let l = lists[min_freq];
            assert(l[l.len() - 1].freq == min_freq);
            assert(f == min_freq);
            assert(i < l.len() - 1);
            assert(l[i].key != l[l.len() - 1].key);
        }
    }
    assert forall|f: usize| #[trigger] lists1.contains_key(f) implies distinct_node_keys(lists1[f]) by {
        assert forall|a: int, b: int| 0 <= a < b < lists1[f].len() implies lists1[f][a].key
            != lists1[f][b].key by {
            assert(lists1[f][a] == lists[f][a]);
            assert(lists1[f][b] == lists[f][b]);
        }
    }
    assert(!keys1.contains_key(key));
    let keys2 = keys1.insert(key, 1);
    let lists2 = inserted_lists(lists1, key, value);
    let freqs2 = if lists1.contains_key(1) { freqs } else { freqs.push(1) };
    let target = list_or_empty(lists1, 1);
    let fresh = LfuNode { key, value, freq: 1 };
    assert(lists2[1] == seq![fresh] + target);
    assert forall|k: i32| #[trigger]
        keys2.contains_key(k) implies lists2.contains_key(keys2[k]) && find_node(
        lists2[keys2[k]],
        k,
    ) is Some by {
        if k == key {
            lemma_find_node(lists2[1], k);
        } else if keys1[k] == 1 {
            lemma_find_node(lists1[1], k);
            let p = find_node(lists1[1], k)->0;
            assert(lists2[1][p + 1] == lists1[1][p]);
            lemma_find_node(lists2[1], k);
        } else {
            assert(lists2[keys2[k]] == lists1[keys1[k]]);
        }
    }
    assert forall|f: usize, i: int|
        #![trigger lists2[f][i]]
        lists2.contains_key(f) && 0 <= i < lists2[f].len() implies lists2[f][i].freq == f && f >= 1
        && keys2.contains_key(lists2[f][i].key) && keys2[lists2[f][i].key] == f by {
        if f == 1 {
            if i > 0 {
                assert(lists2[f][i] == lists1[1][i - 1]);
            }
        } else {
            assert(lists2[f][i] == lists1[f][i]);
        }
    }
    assert forall|f: usize| #[trigger] lists2.contains_key(f) implies distinct_node_keys(lists2[f]) by {
        if f == 1 {
            assert forall|a: int, b: int| 0 <= a < b < lists2[f].len() implies lists2[f][a].key
                != lists2[f][b].key by {
                assert(lists2[f][b] == target[b - 1]);
                if a > 0 {
                    assert(lists2[f][a] == target[a - 1]);
                }
            }
        } else {
            assert(lists2[f] == lists1[f]);
        }
    }
    assert(keys2.dom().finite()) by {
        assert(keys1.dom().finite());
    }
    assert forall|g: usize| lists2.contains_key(g) <==> #[trigger] freqs2.contains(g) by {
        assert(lists1.contains_key(g) == lists.contains_key(g));
        if !lists1.contains_key(1) {
            if g == 1 {
                assert(freqs2[freqs.len() as int] == 1);
            } else if freqs2.contains(g) {
                let p = choose|p: int| 0 <= p < freqs2.len() && freqs2[p] == g;
                assert(freqs.contains(g));
            }
            if freqs.contains(g) {
                let p = choose|p: int| 0 <= p < freqs.len() && freqs[p] == g;
                assert(freqs2[p] == g);
            }
        }
    }
    assert(freqs2.no_duplicates()) by {
        if !lists1.contains_key(1) {
            assert(!freqs.contains(1));
            assert forall|a: int, b: int| 0 <= a < freqs2.len() && 0 <= b < freqs2.len() && a != b implies freqs2[a] != freqs2[b] by {
                if a == freqs.len() {
                    assert(freqs2[b] == freqs[b]);
                } else if b == freqs.len() {
                    assert(freqs2[a] == freqs[a]);
                }
            }
        }
    }
}

pub struct LFUCache {
    capacity: usize,
    min_freq: usize,
    /// Each key's frequency, which names the list that holds it, and its
    /// node's handle in that list.
    map: std::collections::HashMap<i32, (usize, usize)>,
    /// The list of each frequency.
    freq_map: std::collections::HashMap<usize, DoublyLinkedList>,
    /// The frequencies that have a list, in the order the lists were made.
    freqs: Vec<usize>,
}

impl LFUCache {
    /// Each key's frequency.
    pub closed spec fn keys_view(&self) -> Map<i32, usize> {
        self.map@.map_values(|v: (usize, usize)| v.0)
    }

    /// The list of each frequency, most recently touched first.
    pub closed spec fn lists_view(&self) -> Map<usize, Seq<LfuNode>> {
        self.freq_map@.map_values(|l: DoublyLinkedList| l@)
    }

    pub closed spec fn spec_min_freq(&self) -> usize {
        self.min_freq
    }

    pub closed spec fn spec_capacity(&self) -> usize {
        self.capacity
    }

    /// The frequencies that have a list, in the order the lists were made.
    pub closed spec fn freqs_view(&self) -> Seq<usize> {
        self.freqs@
    }

    /// Every frequency's list holds together.
    pub closed spec fn lists_wf(&self) -> bool {
        &&& forall|f: usize| #[trigger] self.freq_map@.contains_key(f) ==> self.freq_map@[f].wf()
        &&& self.handles_named()
    }

    /// The key map names each listed node's handle.
    closed spec fn handles_named(&self) -> bool {
        forall|f: usize, i: int|
            #![trigger self.freq_map@[f]@[i]]
            self.freq_map@.contains_key(f) && 0 <= i < self.freq_map@[f]@.len() ==> self.map@.contains_key(
                self.freq_map@[f]@[i].key,
            ) && self.map@[self.freq_map@[f]@[i].key].1 == self.freq_map@[f].handles()[i]
    }

    pub open spec fn wf(&self) -> bool {
        &&& lfu_wf(self.keys_view(), self.lists_view(), self.spec_min_freq(), self.freqs_view())
        &&& self.lists_wf()
    }

    /// The value held under `key`, if any.
    pub open spec fn lookup(&self, key: i32) -> Option<i32> {
        lfu_lookup(self.keys_view(), self.lists_view(), key)
    }

    /// An empty cache; the capacity is `capacity` taken as a `usize`.
    pub fn new(capacity: i32) -> (c: Self)
        ensures
            c.wf(),
            c.keys_view() == Map::<i32, usize>::empty(),
            c.lists_view() == Map::<usize, Seq<LfuNode>>::empty(),
            c.spec_min_freq() == 0,
            c.spec_capacity() == capacity as usize,
    {
        let c = LFUCache {
            capacity: capacity as usize,
            min_freq: 0,
            map: std::collections::HashMap::new(),
            freq_map: std::collections::HashMap::new(),
            freqs: Vec::new(),
        };
        assert(c.lists_view() =~= Map::<usize, Seq<LfuNode>>::empty());
        assert(c.keys_view() =~= Map::<i32, usize>::empty());
        c
    }

    /// Moves the node of `key` up one frequency, with `value`.
    fn update_freq(&mut self, key: i32, value: i32)
        requires
            old(self).wf(),
            old(self).keys_view().contains_key(key),
            old(self).keys_view()[key] < usize::MAX,
        ensures
            ({
                let f = old(self).keys_view()[key];
                let i = find_node(old(self).lists_view()[f], key)->0;
                let nf = (f + 1) as usize;
                &&& final(self).keys_view() == old(self).keys_view().insert(key, nf)
                &&& final(self).lists_view() == touched_lists(old(self).lists_view(), key, f, i, value)
                &&& final(self).spec_min_freq() == touched_min(
                    old(self).lists_view(),
                    f,
                    i,
                    old(self).spec_min_freq(),
                )
                &&& final(self).freqs_view() == touched_freqs(old(self).lists_view(), old(self).freqs_view(), nf)
            }),
            final(self).wf(),
            final(self).spec_capacity() == old(self).spec_capacity(),
    {
        let ghost lists0 = self.lists_view();
        let ghost keys0 = self.keys_view();
        let ghost freqs0 = self.freqs_view();
        let ghost min0 = self.min_freq;
        let ghost map0 = self.map@;
        let ghost fm0 = self.freq_map@;
        let (old_freq, h) = *self.map.get(&key).unwrap();
        proof {
            lemma_touch_wf(keys0, lists0, min0, freqs0, key, value);
            lemma_find_node(lists0[old_freq], key);
        }
        let ghost i = find_node(lists0[old_freq], key)->0;
        proof {
            fm0[old_freq].lemma_len();
            assert(fm0[old_freq]@[i].key == key);
        }
        let mut list = self.freq_map.remove(&old_freq).unwrap();
        let _ = list.remove(h, Ghost(i));
        let emptied = list.is_empty();
        self.freq_map.insert(old_freq, list);
        if emptied && self.min_freq == old_freq {
            self.min_freq = self.min_freq + 1;
        }
        let new_freq = old_freq + 1;
        let moved = LfuNode { key, value, freq: new_freq };
        let mut target = match self.freq_map.remove(&new_freq) {
            Some(l) => l,
            None => {
                self.freqs.push(new_freq);
                DoublyLinkedList::new()
            },
        };
        let ghost tgt0 = target;
        let h2 = target.insert_at_head(moved);
        self.freq_map.insert(new_freq, target);
        self.map.insert(key, (new_freq, h2));
        assert(self.lists_view() =~= touched_lists(lists0, key, old_freq, i, value));
        assert(self.keys_view() =~= keys0.insert(key, new_freq));
        proof {
            let fm = self.freq_map@;
            assert forall|g: usize, j: int|
                #![trigger fm[g]@[j]]
                fm.contains_key(g) && 0 <= j < fm[g]@.len() implies self.map@.contains_key(fm[g]@[j].key)
                && self.map@[fm[g]@[j].key].1 == fm[g].handles()[j] by {
                if g == new_freq {
                    if j > 0 {
                        let k = tgt0@[j - 1].key;
                        assert(fm[g]@[j] == tgt0@[j - 1]);
                        fm[g].lemma_len();
                        tgt0.lemma_len();
                        assert(fm[g].handles()[j] == tgt0.handles()[j - 1]);
                        assert(fm0.contains_key(new_freq));
                        assert(tgt0 == fm0[new_freq]);
                        assert(lists0[new_freq][j - 1] == tgt0@[j - 1]);
                        assert(keys0[k] == new_freq);
                        assert(k != key);
                    }
                } else if g == old_freq {
                    let j1 = if j < i { j } else { j + 1 };
                    fm0[old_freq].lemma_len();
                    assert(fm[g]@[j] == fm0[g]@[j1]);
                    assert(fm[g].handles()[j] == fm0[g].handles()[j1]);
                    assert(lists0[g][j1] == fm0[g]@[j1]);
                    assert(fm0[g]@[j1].key != key);
                } else {
                    assert(fm[g] == fm0[g]);
                    assert(lists0[g][j] == fm0[g]@[j]);
                    assert(keys0[fm0[g]@[j].key] == g);
                }
            }
        }
    }

    /// The value under `key`, or -1; a hit raises the key's frequency.
    pub fn get(&mut self, key: i32) -> (r: i32)
        requires
            old(self).wf(),
            old(self).keys_view().contains_key(key) ==> old(self).keys_view()[key] < usize::MAX,
        ensures
            final(self).wf(),
            final(self).spec_capacity() == old(self).spec_capacity(),
            old(self).lookup(key) matches Some(v) ==> r == v && ({
                let f = old(self).keys_view()[key];
                let i = find_node(old(self).lists_view()[f], key)->0;
                &&& final(self).keys_view() == old(self).keys_view().insert(key, (f + 1) as usize)
                &&& final(self).lists_view() == touched_lists(old(self).lists_view(), key, f, i, v)
                &&& final(self).spec_min_freq() == touched_min(
                    old(self).lists_view(),
                    f,
                    i,
                    old(self).spec_min_freq(),
                )
            }),
            old(self).lookup(key) is None ==> r == -1 && final(self).keys_view() == old(self).keys_view()
                && final(self).lists_view() == old(self).lists_view() && final(self).spec_min_freq()
                == old(self).spec_min_freq(),
    {
        match self.map.get(&key) {
            Some(entry) => {
                let (f, h) = *entry;
                proof {
                    assert(self.keys_view()[key] == f);
                    lemma_find_node(self.lists_view()[f], key);
                }
                let ghost i = find_node(self.lists_view()[f], key)->0;
                let list = self.freq_map.get(&f).unwrap();
                proof {
                    list.lemma_len();
                    assert(list@[i].key == key);
                }
                let value = list.get(h, Ghost(i)).value;
                self.update_freq(key, value);
                value
            },
            None => -1,
        }
    }

    /// Writes `value` under `key`. A held key gets the value and one more use;
    /// a new key in a full cache first evicts the least recently touched key
    /// of the lowest frequency, then enters with frequency 1. A cache of
    /// capacity 0 holds nothing.
    pub fn put(&mut self, key: i32, value: i32)
        requires
            old(self).wf(),
            old(self).keys_view().contains_key(key) ==> old(self).keys_view()[key] < usize::MAX,
        ensures
            final(self).wf(),
            final(self).spec_capacity() == old(self).spec_capacity(),
            old(self).spec_capacity() == 0 ==> final(self).keys_view() == old(self).keys_view()
                && final(self).lists_view() == old(self).lists_view() && final(self).spec_min_freq()
                == old(self).spec_min_freq() && final(self).freqs_view() == old(self).freqs_view(),
            old(self).spec_capacity() > 0 ==> final(self).keys_view() == put_keys(
                old(self).keys_view(),
                old(self).lists_view(),
                old(self).spec_min_freq(),
                old(self).spec_capacity(),
                key,
            ) && final(self).lists_view() == put_lists(
                old(self).keys_view(),
                old(self).lists_view(),
                old(self).spec_min_freq(),
                old(self).spec_capacity(),
                key,
                value,
            ) && final(self).spec_min_freq() == put_min(
                old(self).keys_view(),
                old(self).lists_view(),
                old(self).spec_min_freq(),
                key,
            ),
    {
        if self.capacity == 0 {
            return;
        }
        if self.map.contains_key(&key) {
            self.update_freq(key, value);
            return;
        }
        let ghost keys0 = self.keys_view();
        let ghost lists0 = self.lists_view();
        let ghost freqs0 = self.freqs_view();
        let ghost min0 = self.min_freq;
        let ghost map0 = self.map@;
        let ghost fm0 = self.freq_map@;
        assert(keys0.dom() =~= map0.dom());
        let full = self.map.len() == self.capacity;
        proof {
            lemma_put_new_wf(keys0, lists0, min0, freqs0, full, key, value);
        }
        if full {
            let m = self.min_freq;
            if let Some(mut list) = self.freq_map.remove(&m) {
                let tail = list.remove_tail();
                self.freq_map.insert(m, list);
                if let Some(node) = tail {
                    self.map.remove(&node.key);
                }
                proof {
                    let fm = self.freq_map@;
                    if lists0[m].len() > 0 {
                        let gone = lists0[m].last().key;
                        assert(self.keys_view() =~= keys0.remove(gone));
                        assert forall|g: usize, j: int|
                            #![trigger fm[g]@[j]]
                            fm.contains_key(g) && 0 <= j < fm[g]@.len() implies self.map@.contains_key(
                                fm[g]@[j].key,
                            ) && self.map@[fm[g]@[j].key].1 == fm[g].handles()[j] by {
                            assert(lists0[m][lists0[m].len() - 1].key == gone);
                            if g == m {
                                assert(fm[g]@[j] == fm0[g]@[j]);
                                fm[g].lemma_len();
                                fm0[g].lemma_len();
                                assert(fm[g].handles()[j] == fm0[g].handles()[j]);
                                assert(lists0[g][j] == fm0[g]@[j]);
                                assert(fm0[g]@[j].key != gone);
                            } else {
                                assert(fm[g] == fm0[g]);
                                assert(lists0[g][j] == fm0[g]@[j]);
                                assert(keys0[fm0[g]@[j].key] == g);
                            }
                        }
                    } else {
                        assert(self.keys_view() =~= keys0);
                        assert forall|g: usize, j: int|
                            #![trigger fm[g]@[j]]
                            fm.contains_key(g) && 0 <= j < fm[g]@.len() implies self.map@.contains_key(
                                fm[g]@[j].key,
                            ) && self.map@[fm[g]@[j].key].1 == fm[g].handles()[j] by {
                            assert(fm[g] == fm0[g]);
                        }
                    }
                    if lists0[m].len() > 0 {
                        assert(self.lists_view() =~= evicted_lists(lists0, m));
                    } else {
                        assert(self.lists_view() =~= lists0);
                    }
                }
            }
        }
        let ghost lists1 = self.lists_view();
        let ghost keys1 = self.keys_view();
        let ghost fm1 = self.freq_map@;
        let fresh = LfuNode { key, value, freq: 1 };
        let mut target = match self.freq_map.remove(&1) {
            Some(l) => l,
            None => {
                self.freqs.push(1);
                DoublyLinkedList::new()
            },
        };
        let ghost tgt0 = target;
        let h = target.insert_at_head(fresh);
        self.freq_map.insert(1, target);
        self.map.insert(key, (1, h));
        self.min_freq = 1;
        assert(self.lists_view() =~= inserted_lists(lists1, key, value));
        assert(self.keys_view() =~= keys1.insert(key, 1));
        proof {
            let fm = self.freq_map@;
            assert forall|g: usize, j: int|
                #![trigger fm[g]@[j]]
                fm.contains_key(g) && 0 <= j < fm[g]@.len() implies self.map@.contains_key(fm[g]@[j].key)
                && self.map@[fm[g]@[j].key].1 == fm[g].handles()[j] by {
                if g == 1 {
                    if j > 0 {
                        assert(fm[g]@[j] == tgt0@[j - 1]);
                        fm[g].lemma_len();
                        tgt0.lemma_len();
                        assert(fm[g].handles()[j] == tgt0.handles()[j - 1]);
                        assert(fm1.contains_key(1));
                        assert(tgt0 == fm1[1]);
                        assert(lists1[1][j - 1] == tgt0@[j - 1]);
                        assert(keys1.contains_key(tgt0@[j - 1].key));
                    }
                } else {
                    assert(fm[g] == fm1[g]);
                    assert(lists1[g][j] == fm1[g]@[j]);
                    assert(keys1.contains_key(fm1[g]@[j].key));
                }
            }
        }
    }

    /// The lists, one line per frequency in the order the lists were made
    /// (`freq F => ...`), then the lowest frequency, between two rules.
    pub fn cache_state(&self) -> (r: String)
        requires
            self.wf(),
        ensures
            r@ == cache_text(self.freqs_view(), self.lists_view(), self.spec_min_freq()),
    {
        let mut s = String::new();
        s.append("-------------------\n");
        proof {
            reveal_strlit("-------------------\n");
            assert(self.freqs_view().take(0) =~= Seq::<usize>::empty());
            assert(s@ =~= rule() + freq_lines(self.freqs_view().take(0), self.lists_view()));
        }
        let mut i: usize = 0;
        while i < self.freqs.len()
            invariant
                self.wf(),
                i <= self.freqs_view().len(),
                s@ == rule() + freq_lines(self.freqs_view().take(i as int), self.lists_view()),
            decreases self.freqs_view().len() - i,
        {
            let f = self.freqs[i];
            proof {
                assert(self.freqs_view().contains(f));
            }
            let list = self.freq_map.get(&f).unwrap();
            s.append("freq ");
            push_decimal(&mut s, f as u128);
            s.append(" => ");
            let text = list.state();
            s.append(text.as_str());
            push_char(&mut s, '\n');
            proof {
                reveal_strlit("freq ");
                reveal_strlit(" => ");
                let fs = self.freqs_view();
                assert(fs.take(i + 1).drop_last() =~= fs.take(i as int));
                assert(s@ =~= rule() + freq_lines(fs.take(i + 1), self.lists_view()));
            }
            i = i + 1;
        }
        s.append("min_freq => ");
        push_decimal(&mut s, self.min_freq as u128);
        push_char(&mut s, '\n');
        s.append("-------------------\n");
        proof {
            reveal_strlit("-------------------\n");
            reveal_strlit("min_freq => ");
            assert(self.freqs_view().take(self.freqs_view().len() as int) =~= self.freqs_view());
            assert(s@ =~= cache_text(self.freqs_view(), self.lists_view(), self.spec_min_freq()));
        }
        s
    }
}

/// A rule line of dashes.
pub open spec fn rule() -> Seq<char> {
    seq!['-', '-', '-', '-', '-', '-', '-', '-', '-', '-', '-', '-', '-', '-', '-', '-', '-', '-', '-', '\n']
}

/// One `freq F => LIST` line per frequency of `fs`.
pub open spec fn freq_lines(fs: Seq<usize>, lists: Map<usize, Seq<LfuNode>>) -> Seq<char>
    decreases fs.len(),
{
    if fs.len() == 0 {
        Seq::empty()
    } else {
        freq_lines(fs.drop_last(), lists) + seq!['f', 'r', 'e', 'q', ' '] + nat_decimal(
            fs.last() as nat,
        ) + seq![' ', '=', '>', ' '] + list_text(lists[fs.last()]) + seq!['\n']
    }
}

/// The whole report of `cache_state`.
pub open spec fn cache_text(fs: Seq<usize>, lists: Map<usize, Seq<LfuNode>>, min_freq: usize) -> Seq<char> {
    rule() + freq_lines(fs, lists) + seq![
        'm',
        'i',
        'n',
        '_',
        'f',
        'r',
        'e',
        'q',
        ' ',
        '=',
        '>',
        ' ',
    ] + nat_decimal(min_freq as nat) + seq!['\n'] + rule()
}

} // verus!
