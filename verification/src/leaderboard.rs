//! A leaderboard of players' accumulated scores, answering the sum of the
//! `k` best scores.

use vstd::prelude::*;
use vstd::multiset::Multiset;
use crate::text::{nat_decimal, push_char, push_decimal};

verus! {

broadcast use {
    vstd::std_specs::hash::group_hash_axioms,
    vstd::seq_lib::group_to_multiset_ensures,
    vstd::seq_lib::group_filter_ensures,
    vstd::multiset::group_multiset_properties,
    vstd::multiset::group_multiset_axioms,
};

/// The sum of a sequence of scores.
pub open spec fn seq_sum(s: Seq<u32>) -> int
    decreases s.len(),
{
    if s.len() == 0 {
        0
    } else {
        seq_sum(s.drop_last()) + s.last()
    }
}

/// `top` holds `min(k, |vals|)` of the values in `vals` and `rest` the others,
/// and no value of `rest` beats one of `top`: `top` is a choice of the `k`
/// best values.
pub open spec fn is_top_k_split(vals: Seq<u32>, top: Seq<u32>, rest: Seq<u32>, k: nat) -> bool {
    &&& top.to_multiset().add(rest.to_multiset()) == vals.to_multiset()
    &&& top.len() == if k < vals.len() { k } else { vals.len() }
    &&& forall|a: int, b: int| 0 <= a < top.len() && 0 <= b < rest.len() ==> top[a] >= rest[b]
}

/// The sum of the `k` best values, for every choice of them, fits in a `u32`.
pub open spec fn top_k_fits(vals: Seq<u32>, k: nat) -> bool {
    forall|top: Seq<u32>, rest: Seq<u32>|
        #[trigger] is_top_k_split(vals, top, rest, k) ==> seq_sum(top) <= u32::MAX
}

/// `[player:score]` for each player, with nothing between.
pub open spec fn players_text(order: Seq<u32>, scores: Map<u32, u32>) -> Seq<char>
    decreases order.len(),
{
    if order.len() == 0 {
        Seq::empty()
    } else {
        players_text(order.drop_last(), scores) + seq!['['] + nat_decimal(order.last() as nat)
            + seq![':'] + nat_decimal(scores[order.last()] as nat) + seq![']']
    }
}

proof fn lemma_prefix_sum(s: Seq<u32>, j: int)
    requires
        0 <= j <= s.len(),
    ensures
        seq_sum(s.take(j)) <= seq_sum(s),
        seq_sum(s.take(j)) >= 0,
    decreases s.len() - j,
{
    if j < s.len() {
        lemma_prefix_sum(s, j + 1);
        assert(s.take(j + 1).drop_last() =~= s.take(j));
    } else {
        assert(s.take(j) =~= s);
    }
    lemma_sum_nonneg(s.take(j));
}

proof fn lemma_sum_nonneg(s: Seq<u32>)
    ensures
        seq_sum(s) >= 0,
    decreases s.len(),
{
    if s.len() > 0 {
        lemma_sum_nonneg(s.drop_last());
    }
}

pub struct Leaderboard {
    player_scores: std::collections::HashMap<u32, u32>,
    /// The players, in the order they first scored.
    order: Vec<u32>,
}

impl Leaderboard {
    /// Each player's score.
    pub closed spec fn scores_view(&self) -> Map<u32, u32> {
        self.player_scores@
    }

    /// The players, in the order they first scored.
    pub closed spec fn order_view(&self) -> Seq<u32> {
        self.order@
    }

    /// The scores, one per player, in player order.
    pub open spec fn score_values(&self) -> Seq<u32> {
        self.order_view().map_values(|p: u32| self.scores_view()[p])
    }

    /// The order names each player once.
    pub open spec fn wf(&self) -> bool {
        &&& self.order_view().no_duplicates()
        &&& forall|p: u32| #[trigger] self.scores_view().contains_key(p) <==> self.order_view().contains(p)
    }

    pub fn new() -> (l: Self)
        ensures
            l.wf(),
            l.scores_view() == Map::<u32, u32>::empty(),
            l.order_view() == Seq::<u32>::empty(),
    {
        Leaderboard { player_scores: std::collections::HashMap::new(), order: Vec::new() }
    }

    /// How many players have a score.
    pub fn player_count(&self) -> (r: usize)
        ensures
            r == self.order_view().len(),
    {
        self.order.len()
    }

    /// Adds `score` to the player's total (a new player starts at 0).
    pub fn add_score(&mut self, player_id: u32, score: u32)
        requires
            old(self).wf(),
            old(self).scores_view().contains_key(player_id) ==> old(self).scores_view()[player_id]
                + score <= u32::MAX,
        ensures
            final(self).wf(),
            final(self).scores_view() == old(self).scores_view().insert(
                player_id,
                (if old(self).scores_view().contains_key(player_id) {
                    old(self).scores_view()[player_id] + score
                } else {
                    score as int
                }) as u32,
            ),
            final(self).order_view() == if old(self).scores_view().contains_key(player_id) {
                old(self).order_view()
            } else {
                old(self).order_view().push(player_id)
            },
    {
        let current = match self.player_scores.get(&player_id) {
            Some(s) => *s,
            None => {
                self.order.push(player_id);
                proof {
                    assert forall|a: int, b: int|
                        0 <= a < self.order@.len() && 0 <= b < self.order@.len() && a != b implies self.order@[a]
                        != self.order@[b] by {
                        if b == self.order@.len() - 1 {
                            assert(self.order@[a] == old(self).order@[a]);
                            assert(old(self).order_view().contains(self.order@[a]));
                        } else if a == self.order@.len() - 1 {
                            assert(self.order@[b] == old(self).order@[b]);
                            assert(old(self).order_view().contains(self.order@[b]));
                        } else {
                            assert(self.order@[a] == old(self).order@[a]);
                            assert(self.order@[b] == old(self).order@[b]);
                        }
                    }
                }
                0
            },
        };
        self.player_scores.insert(player_id, current + score);
        proof {
            assert forall|p: u32| #[trigger] self.scores_view().contains_key(p) <==> self.order_view().contains(p) by {
                if p != player_id {
                    if old(self).order_view().contains(p) {
                        let i = choose|i: int| 0 <= i < old(self).order@.len() && old(self).order@[i] == p;
                        assert(self.order@[i] == p);
                    }
                    if self.order_view().contains(p) {
                        let i = choose|i: int| 0 <= i < self.order@.len() && self.order@[i] == p;
                        if i < old(self).order@.len() {
                            assert(old(self).order@[i] == p);
                        }
                    }
                } else {
                    if old(self).scores_view().contains_key(p) {
                        assert(old(self).order_view().contains(p));
                        let i = choose|i: int| 0 <= i < old(self).order@.len() && old(self).order@[i] == p;
                        assert(self.order@[i] == p);
                    } else {
                        assert(self.order@[self.order@.len() - 1] == p);
                    }
                }
            }
        }
    }

    /// The sum of the `k` best scores (of all of them when there are fewer).
    pub fn top_k(&self, k: usize) -> (r: u32)
        requires
            self.wf(),
            k > 0 || self.order_view().len() == 0,
            top_k_fits(self.score_values(), k as nat),
        ensures
            exists|top: Seq<u32>, rest: Seq<u32>|
                is_top_k_split(self.score_values(), top, rest, k as nat) && r == seq_sum(top),
            forall|top: Seq<u32>, rest: Seq<u32>|
                #[trigger] is_top_k_split(self.score_values(), top, rest, k as nat) ==> r == seq_sum(top),
    {
        let ghost vals = self.score_values();
        let mut k_largest: Vec<u32> = Vec::new();
        let ghost mut rest: Seq<u32> = Seq::empty();
        let mut i: usize = 0;
        assert(vals.take(0) =~= Seq::<u32>::empty());
        assert(k_largest@.to_multiset().len() == 0);
        assert(rest.to_multiset().len() == 0);
        assert(vals.take(0).to_multiset().len() == 0);
        assert(k_largest@.to_multiset().add(rest.to_multiset()) =~= vals.take(0).to_multiset());
        while i < self.order.len()
            invariant
                self.wf(),
                vals == self.score_values(),
                i <= vals.len(),
                vals.len() == self.order@.len(),
                k > 0 || vals.len() == 0,
                is_top_k_split(vals.take(i as int), k_largest@, rest, k as nat),
            decreases vals.len() - i,
        {
            let p = self.order[i];
            proof {
                assert(self.order_view().contains(p));
            }
            let score = *self.player_scores.get(&p).unwrap();
            assert(score == vals[i as int]);
            assert(vals.take(i + 1) =~= vals.take(i as int).push(score));
            let ghost old_top = k_largest@;
            let ghost old_rest = rest;
            proof {
                assert(old_top.len() + old_rest.len() == i) by {
                    assert(old_top.to_multiset().add(old_rest.to_multiset()).len() == vals.take(i as int).to_multiset().len());
                }
            }
            if k_largest.len() < k {
                k_largest.push(score);
                proof {
                    assert(old_rest.len() == 0);
                    assert(k_largest@.to_multiset() =~= old_top.to_multiset().insert(score));
                    assert(k_largest@.to_multiset().add(rest.to_multiset()) =~= vals.take(i + 1).to_multiset());
                }
            } else {
                let j = min_index(&k_largest);
                let existing_score = k_largest.remove(j);
                let larger = if score > existing_score { score } else { existing_score };
                let smaller = if score > existing_score { existing_score } else { score };
                k_largest.push(larger);
                proof {
                    rest = rest.push(smaller);
                    let shrunk = old_top.remove(j as int);
                    assert(k_largest@ =~= shrunk.push(larger));
                    assert(shrunk.to_multiset() =~= old_top.to_multiset().remove(existing_score));
                    assert(k_largest@.to_multiset().add(rest.to_multiset()) =~= vals.take(i + 1).to_multiset());
                    assert forall|a: int, b: int| 0 <= a < k_largest@.len() && 0 <= b < rest.len() implies k_largest@[a] >= rest[b] by {
                        if a < shrunk.len() {
                            let a1 = if a < j { a } else { a + 1 };
                            assert(k_largest@[a] == old_top[a1]);
                            if b < old_rest.len() {
                                assert(rest[b] == old_rest[b]);
                            }
                        } else if b < old_rest.len() {
                            assert(rest[b] == old_rest[b]);
                            assert(old_top[j as int] >= old_rest[b]);
                        }
                    }
                }
            }
            i = i + 1;
        }
        assert(vals.take(vals.len() as int) =~= vals);
        let mut sum: u32 = 0;
        let mut t: usize = 0;
        proof {
            assert(seq_sum(k_largest@) <= u32::MAX);
        }
        while t < k_largest.len()
            invariant
                t <= k_largest@.len(),
                sum == seq_sum(k_largest@.take(t as int)),
                seq_sum(k_largest@) <= u32::MAX,
            decreases k_largest@.len() - t,
        {
            proof {
                lemma_prefix_sum(k_largest@, t + 1);
                assert(k_largest@.take(t + 1).drop_last() =~= k_largest@.take(t as int));
            }
            sum = sum + k_largest[t];
            t = t + 1;
        }
        assert(k_largest@.take(k_largest@.len() as int) =~= k_largest@);
        proof {
            assert forall|top: Seq<u32>, rest2: Seq<u32>|
                #[trigger] is_top_k_split(vals, top, rest2, k as nat) implies sum == seq_sum(top) by {
                lemma_top_k_sum_unique(vals, k_largest@, rest, top, rest2, k as nat);
            }
        }
        sum
    }

    /// Drops the player and their score.
    pub fn remove(&mut self, player_id: u32)
        requires
            old(self).wf(),
        ensures
            final(self).wf(),
            final(self).scores_view() == old(self).scores_view().remove(player_id),
            final(self).order_view() == old(self).order_view().filter(|p: u32| p != player_id),
    {
        self.player_scores.remove(&player_id);
        let mut kept: Vec<u32> = Vec::new();
        let mut i: usize = 0;
        while i < self.order.len()
            invariant
                i <= self.order@.len(),
                self.order@ == old(self).order@,
                kept@ == self.order@.take(i as int).filter(|p: u32| p != player_id),
            decreases self.order@.len() - i,
        {
            let p = self.order[i];
            proof {
                reveal_with_fuel(Seq::<_>::filter, 1);
                assert(self.order@.take(i + 1).drop_last() =~= self.order@.take(i as int));
            }
            if p != player_id {
                kept.push(p);
            }
            i = i + 1;
        }
        assert(self.order@.take(self.order@.len() as int) =~= self.order@);
        self.order = kept;
        proof {
            let o = old(self).order_view();
            let f = o.filter(|p: u32| p != player_id);
            assert forall|p: u32| #[trigger] self.scores_view().contains_key(p) <==> self.order_view().contains(p) by {
                if f.contains(p) {
                    o.lemma_filter_contains_rev(|p: u32| p != player_id, p);
                    let i = choose|i: int| 0 <= i < f.len() && f[i] == p;
                    assert((|p: u32| p != player_id)(f[i]));
                }
                if p != player_id && o.contains(p) {
                    let i = choose|i: int| 0 <= i < o.len() && o[i] == p;
                    assert(f.contains(o[i]));
                }
                if p != player_id {
                    assert(old(self).scores_view().contains_key(p) <==> o.contains(p));
                    assert(self.scores_view().contains_key(p) <==> old(self).scores_view().contains_key(p));
                } else {
                    assert(!self.scores_view().contains_key(p));
                }
            }
            lemma_filter_no_dups(o, player_id);
        }
    }

    /// Each player in order as `[player:score]`, with nothing between.
    pub fn current_state(&self) -> (r: String)
        requires
            self.wf(),
        ensures
            r@ == players_text(self.order_view(), self.scores_view()),
    {
        let mut s = String::new();
        let mut i: usize = 0;
        while i < self.order.len()
            invariant
                self.wf(),
                i <= self.order@.len(),
                s@ == players_text(self.order_view().take(i as int), self.scores_view()),
            decreases self.order@.len() - i,
        {
            let p = self.order[i];
            proof {
                assert(self.order_view().contains(p));
            }
            let score = *self.player_scores.get(&p).unwrap();
            push_char(&mut s, '[');
            push_decimal(&mut s, p as u128);
            push_char(&mut s, ':');
            push_decimal(&mut s, score as u128);
            push_char(&mut s, ']');
            proof {
                let o = self.order_view();
                assert(o.take(i + 1).drop_last() =~= o.take(i as int));
                assert(s@ =~= players_text(o.take(i + 1), self.scores_view()));
            }
            i = i + 1;
        }
        assert(self.order_view().take(self.order@.len() as int) =~= self.order_view());
        s
    }
}

proof fn lemma_sum_remove(s: Seq<u32>, j: int)
    requires
        0 <= j < s.len(),
    ensures
        seq_sum(s) == seq_sum(s.remove(j)) + s[j],
    decreases s.len(),
{
    if j < s.len() - 1 {
        lemma_sum_remove(s.drop_last(), j);
        assert(s.remove(j).drop_last() =~= s.drop_last().remove(j));
        assert(s.remove(j).last() == s.last());
    } else {
        assert(s.remove(j) =~= s.drop_last());
    }
}

/// Sequences holding the same values, each as often, have the same sum.
proof fn lemma_sum_permutation(a: Seq<u32>, b: Seq<u32>)
    requires
        a.to_multiset() == b.to_multiset(),
    ensures
        seq_sum(a) == seq_sum(b),
    decreases a.len(),
{
    if a.len() == 0 {
        assert(b.to_multiset().len() == 0);
        assert(b.len() == 0);
    } else {
        let x = a.last();
        assert(a.to_multiset().count(x) > 0) by {
            assert(a.contains(x)) by {
                assert(a[a.len() - 1] == x);
            }
        }
        assert(b.contains(x));
        let j = choose|j: int| 0 <= j < b.len() && b[j] == x;
        let a1 = a.drop_last();
        let b1 = b.remove(j);
        assert(a =~= a1.push(x));
        assert(a1.to_multiset() =~= a.to_multiset().remove(x));
        assert(b1.to_multiset() =~= b.to_multiset().remove(x));
        lemma_sum_permutation(a1, b1);
        lemma_sum_remove(b, j);
    }
}

/// When `k` reaches the number of players, the `k` best scores are all of
/// them: `top_k` is the sum of every score.
pub proof fn lemma_top_k_all(vals: Seq<u32>, top: Seq<u32>, rest: Seq<u32>, k: nat)
    requires
        is_top_k_split(vals, top, rest, k),
        k >= vals.len(),
    ensures
        seq_sum(top) == seq_sum(vals),
{
    assert(top.len() + rest.len() == vals.len()) by {
        assert(top.to_multiset().add(rest.to_multiset()).len() == vals.to_multiset().len());
    }
    assert(rest.to_multiset().len() == 0);
    assert(rest.to_multiset() =~= Multiset::<u32>::empty());
    assert(top.to_multiset() =~= vals.to_multiset());
    lemma_sum_permutation(top, vals);
}

/// `s[i]` is a largest value of `s`.
spec fn is_max_at(s: Seq<u32>, i: int) -> bool {
    0 <= i < s.len() && forall|j: int| 0 <= j < s.len() ==> #[trigger] s[j] <= s[i]
}

/// A non-empty sequence has a largest value.
proof fn lemma_max_exists(s: Seq<u32>)
    requires
        s.len() > 0,
    ensures
        exists|i: int| #[trigger] is_max_at(s, i),
    decreases s.len(),
{
    if s.len() > 1 {
        let d = s.drop_last();
        lemma_max_exists(d);
        let i = choose|i: int| #[trigger] is_max_at(d, i);
        if s.last() >= d[i] {
            assert forall|j: int| 0 <= j < s.len() implies #[trigger] s[j] <= s[s.len() - 1] by {
                if j < d.len() {
                    assert(s[j] == d[j]);
                }
            }
            assert(is_max_at(s, s.len() - 1));
        } else {
            assert forall|j: int| 0 <= j < s.len() implies #[trigger] s[j] <= s[i] by {
                if j < d.len() {
                    assert(s[j] == d[j]);
                }
            }
            assert(is_max_at(s, i));
        }
    } else {
        assert forall|j: int| 0 <= j < s.len() implies #[trigger] s[j] <= s[0] by {}
        assert(is_max_at(s, 0));
    }
}

/// In a split of `vals`, some chosen value equals the largest value `m` of
/// `vals`, when anything is chosen at all.
proof fn lemma_split_holds_max(vals: Seq<u32>, top: Seq<u32>, rest: Seq<u32>, k: nat, i: int)
    requires
        is_top_k_split(vals, top, rest, k),
        top.len() > 0,
        is_max_at(vals, i),
    ensures
        top.contains(vals[i]),
{
    let m = vals[i];
    assert(vals.to_multiset().count(m) > 0) by {
        assert(vals.contains(m));
    }
    if !top.contains(m) {
        assert(top.to_multiset().count(m) == 0);
        assert(rest.to_multiset().count(m) > 0);
        assert(rest.contains(m));
        let b = choose|b: int| 0 <= b < rest.len() && rest[b] == m;
        let x = top[0];
        assert(top.contains(x));
        assert(top.to_multiset().count(x) > 0);
        assert(vals.to_multiset().count(x) > 0);
        assert(vals.contains(x));
        let j = choose|j: int| 0 <= j < vals.len() && vals[j] == x;
        assert(vals[j] <= m);
        assert(top[0] >= rest[b]);
        assert(top[0] == m);
    }
}

/// Whichever `k` best values are chosen, their sum is the same: the sum of
/// the `k` best scores is well defined.
pub proof fn lemma_top_k_sum_unique(
    vals: Seq<u32>,
    top1: Seq<u32>,
    rest1: Seq<u32>,
    top2: Seq<u32>,
    rest2: Seq<u32>,
    k: nat,
)
    requires
        is_top_k_split(vals, top1, rest1, k),
        is_top_k_split(vals, top2, rest2, k),
    ensures
        seq_sum(top1) == seq_sum(top2),
    decreases vals.len(),
{
    if top1.len() == 0 {
        assert(top2.len() == 0);
    } else {
        lemma_max_exists(vals);
        let i = choose|i: int| #[trigger] is_max_at(vals, i);
        let m = vals[i];
        lemma_split_holds_max(vals, top1, rest1, k, i);
        lemma_split_holds_max(vals, top2, rest2, k, i);
        let a1 = choose|a: int| 0 <= a < top1.len() && top1[a] == m;
        let a2 = choose|a: int| 0 <= a < top2.len() && top2[a] == m;
        let v = vals.remove(i);
        let t1 = top1.remove(a1);
        let t2 = top2.remove(a2);
        assert(v.to_multiset() =~= vals.to_multiset().remove(m));
        assert(t1.to_multiset() =~= top1.to_multiset().remove(m));
        assert(t2.to_multiset() =~= top2.to_multiset().remove(m));
        assert(top1.to_multiset().count(m) > 0);
        assert(top2.to_multiset().count(m) > 0);
        assert(t1.to_multiset().add(rest1.to_multiset()) =~= v.to_multiset());
        assert(t2.to_multiset().add(rest2.to_multiset()) =~= v.to_multiset());
        assert forall|a: int, b: int| 0 <= a < t1.len() && 0 <= b < rest1.len() implies t1[a] >= rest1[b] by {
            let a0 = if a < a1 { a } else { a + 1 };
            assert(t1[a] == top1[a0]);
        }
        assert forall|a: int, b: int| 0 <= a < t2.len() && 0 <= b < rest2.len() implies t2[a] >= rest2[b] by {
            let a0 = if a < a2 { a } else { a + 1 };
            assert(t2[a] == top2[a0]);
        }
        assert(is_top_k_split(v, t1, rest1, (k - 1) as nat));
        assert(is_top_k_split(v, t2, rest2, (k - 1) as nat));
        lemma_top_k_sum_unique(v, t1, rest1, t2, rest2, (k - 1) as nat);
        lemma_sum_remove(top1, a1);
        lemma_sum_remove(top2, a2);
    }
}

proof fn lemma_filter_no_dups(o: Seq<u32>, x: u32)
    requires
        o.no_duplicates(),
    ensures
        o.filter(|p: u32| p != x).no_duplicates(),
    decreases o.len(),
{
    reveal_with_fuel(Seq::<_>::filter, 1);
    if o.len() > 0 {
        let d = o.drop_last();
        assert(d.no_duplicates()) by {
            assert forall|a: int, b: int| 0 <= a < d.len() && 0 <= b < d.len() && a != b implies d[a] != d[b] by {
                assert(d[a] == o[a] && d[b] == o[b]);
            }
        }
        lemma_filter_no_dups(d, x);
        let fd = d.filter(|p: u32| p != x);
        if o.last() != x {
            let f = fd.push(o.last());
            assert(!d.contains(o.last())) by {
                if d.contains(o.last()) {
                    let i = choose|i: int| 0 <= i < d.len() && d[i] == o.last();
                    assert(o[i] == o[o.len() - 1]);
                }
            }
            assert forall|a: int, b: int| 0 <= a < f.len() && 0 <= b < f.len() && a != b implies f[a] != f[b] by {
                if a == fd.len() {
                    assert(fd.contains(fd[b]));
                    d.lemma_filter_contains_rev(|p: u32| p != x, fd[b]);
                } else if b == fd.len() {
                    assert(fd.contains(fd[a]));
                    d.lemma_filter_contains_rev(|p: u32| p != x, fd[a]);
                }
            }
        }
    }
}

/// The position of a smallest value of a non-empty vector.
fn min_index(v: &Vec<u32>) -> (j: usize)
    requires
        v@.len() > 0,
    ensures
        j < v@.len(),
        forall|a: int| 0 <= a < v@.len() ==> v@[j as int] <= v@[a],
{
    let mut j: usize = 0;
    let mut i: usize = 1;
    while i < v.len()
        invariant
            1 <= i <= v@.len(),
            j < i,
            forall|a: int| 0 <= a < i ==> v@[j as int] <= v@[a],
        decreases v@.len() - i,
    {
        if v[i] < v[j] {
            j = i;
        }
        i = i + 1;
    }
    j
}

} // verus!
