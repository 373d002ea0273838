//! A stack that also answers its minimum in constant time: each entry keeps
//! the minimum of itself and everything below it.

use vstd::prelude::*;

verus! {

/// The smallest of a non-empty sequence of values.
pub open spec fn seq_min(s: Seq<i32>) -> i32
    recommends
        s.len() > 0,
    decreases s.len(),
{
    if s.len() <= 1 {
        s[0]
    } else {
        let m = seq_min(s.drop_last());
        if s.last() < m {
            s.last()
        } else {
            m
        }
    }
}

proof fn lemma_seq_min(s: Seq<i32>)
    requires
        s.len() > 0,
    ensures
        s.contains(seq_min(s)),
        forall|i: int| 0 <= i < s.len() ==> seq_min(s) <= s[i],
    decreases s.len(),
{
    if s.len() > 1 {
        lemma_seq_min(s.drop_last());
        let m = seq_min(s.drop_last());
        let t = s.drop_last();
        assert(t.contains(m));
        let k = choose|k: int| 0 <= k < t.len() && t[k] == m;
        assert(s[k] == m);
        assert(s[s.len() - 1] == s.last());
        assert forall|i: int| 0 <= i < s.len() implies seq_min(s) <= s[i] by {
            if i < s.len() - 1 {
                assert(s[i] == t[i]);
            }
        }
    } else {
        assert(s[0] == s[0]);
    }
}

pub struct MinStack {
    /// Each value with the minimum of it and all values below it.
    stack: Vec<(i32, i32)>,
}

impl MinStack {
    /// The values, bottom first.
    pub closed spec fn view(&self) -> Seq<i32> {
        self.stack@.map_values(|e: (i32, i32)| e.0)
    }

    /// Each entry's minimum is the minimum of the values up to it.
    pub closed spec fn wf(&self) -> bool {
        forall|i: int|
            0 <= i < self.stack@.len() ==> #[trigger] self.stack@[i].1 == seq_min(
                self@.take(i + 1),
            )
    }

    pub fn new() -> (s: Self)
        ensures
            s.wf(),
            s@ == Seq::<i32>::empty(),
    {
        let s = MinStack { stack: Vec::new() };
        assert(s@ =~= Seq::<i32>::empty());
        s
    }

    pub fn push(&mut self, val: i32)
        requires
            old(self).wf(),
        ensures
            final(self).wf(),
            final(self)@ == old(self)@.push(val),
    {
        let ghost before = self@;
        let len = self.stack.len();
        let min = if len > 0 {
            let current_min = self.stack[len - 1].1;
            if current_min < val {
                current_min
            } else {
                val
            }
        } else {
            val
        };
        self.stack.push((val, min));
        proof {
            assert(self@ =~= before.push(val));
            assert forall|i: int| 0 <= i < self.stack@.len() implies #[trigger] self.stack@[i].1
                == seq_min(self@.take(i + 1)) by {
                if i < len {
                    assert(self@.take(i + 1) =~= before.take(i + 1));
                    assert(self.stack@[i] == old(self).stack@[i]);
                } else {
                    assert(self@.take(i + 1) =~= self@);
                    assert(self@.drop_last() =~= before);
                    if len > 0 {
                        assert(before.take(len as int) =~= before);
                        assert(old(self).stack@[len - 1].1 == seq_min(before.take(len as int)));
                    }
                }
            }
        }
    }

    /// Removes and returns the top value; `None` on an empty stack.
    pub fn pop(&mut self) -> (r: Option<i32>)
        requires
            old(self).wf(),
        ensures
            final(self).wf(),
            old(self)@.len() == 0 ==> r is None && final(self)@ == old(self)@,
            old(self)@.len() > 0 ==> r == Some(old(self)@.last()) && final(self)@
                == old(self)@.drop_last(),
    {
        let ghost before = self@;
        let r = match self.stack.pop() {
            Some(e) => Some(e.0),
            None => None,
        };
        proof {
            if before.len() > 0 {
                assert(self@ =~= before.drop_last());
                assert forall|i: int| 0 <= i < self.stack@.len() implies #[trigger] self.stack@[i].1
                    == seq_min(self@.take(i + 1)) by {
                    assert(self.stack@[i] == old(self).stack@[i]);
                    assert(self@.take(i + 1) =~= before.take(i + 1));
                }
            }
        }
        r
    }

    /// The top value; `None` on an empty stack.
    pub fn top(&self) -> (r: Option<i32>)
        ensures
            self@.len() == 0 ==> r is None,
            self@.len() > 0 ==> r == Some(self@.last()),
    {
        let len = self.stack.len();
        if len > 0 {
            Some(self.stack[len - 1].0)
        } else {
            None
        }
    }

    /// The smallest value on the stack; `None` on an empty stack.
    pub fn get_min(&self) -> (r: Option<i32>)
        requires
            self.wf(),
        ensures
            self@.len() == 0 ==> r is None,
            self@.len() > 0 ==> r == Some(seq_min(self@)),
    {
        let len = self.stack.len();
        if len > 0 {
            assert(self@.take(len as int) =~= self@);
            Some(self.stack[len - 1].1)
        } else {
            None
        }
    }
}

/// The minimum that `get_min` reports is a value on the stack, and no value
/// on the stack is smaller.
pub proof fn lemma_min_is_least(s: Seq<i32>)
    requires
        s.len() > 0,
    ensures
        s.contains(seq_min(s)),
        forall|i: int| 0 <= i < s.len() ==> seq_min(s) <= s[i],
{
    lemma_seq_min(s);
}

/// Pushing a value and popping gives the value back and restores the stack.
pub proof fn lemma_push_then_pop(s: Seq<i32>, v: i32)
    ensures
        s.push(v).len() > 0,
        s.push(v).last() == v,
        s.push(v).drop_last() == s,
{
    assert(s.push(v).drop_last() =~= s);
}
} // verus!
