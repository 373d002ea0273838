//! An ordered payload processor: payloads arrive with sequence numbers, in
//! any order, and are released in increasing sequence order starting from 1.
//!
//! Out-of-order payloads wait in a buffer; each arrival releases every
//! payload that now continues the released sequence without a gap. A payload
//! whose number was already released or is already waiting is ignored.

use vstd::prelude::*;

verus! {

broadcast use vstd::std_specs::hash::group_hash_axioms;

/// The numbers `from, from + 1, ..., from + n - 1`.
pub open spec fn number_range(from: int, n: nat) -> Set<i32> {
    Set::new(|k: i32| from <= k < from + n)
}

/// `buf` holds a run of exactly `n` numbers from `from`: each of them, and not
/// the number right after.
pub open spec fn is_run(buf: Map<i32, Seq<char>>, from: int, n: nat) -> bool {
    &&& forall|i: int| 0 <= i < n ==> #[trigger] buf.contains_key((from + i) as i32)
    &&& from + n <= i32::MAX ==> !buf.contains_key((from + n) as i32)
    &&& from + n <= i32::MAX + 1
}

/// Releasing a run from `from` would step past `i32::MAX`: every number from
/// `from` up to `i32::MAX` is held.
pub open spec fn run_reaches_max(buf: Map<i32, Seq<char>>, from: int) -> bool {
    forall|j: int| from <= j <= i32::MAX ==> #[trigger] buf.contains_key(j as i32)
}

pub struct OrderedSequence {
    next_expected: i32,
    buffer: std::collections::HashMap<i32, String>,
}

impl OrderedSequence {
    /// The next sequence number to release.
    pub closed spec fn next_view(&self) -> i32 {
        self.next_expected
    }

    /// The waiting payloads by sequence number.
    pub closed spec fn buffer_view(&self) -> Map<i32, Seq<char>> {
        self.buffer@.map_values(|p: String| p@)
    }

    /// Every waiting payload is beyond the next number to release.
    pub open spec fn wf(&self) -> bool {
        forall|k: i32| #[trigger] self.buffer_view().contains_key(k) ==> k > self.next_view()
    }

    /// Nothing released or waiting; the next number is 1.
    pub fn new() -> (s: Self)
        ensures
            s.wf(),
            s.next_view() == 1,
            s.buffer_view() == Map::<i32, Seq<char>>::empty(),
    {
        let s = OrderedSequence { next_expected: 1, buffer: std::collections::HashMap::new() };
        assert(s.buffer_view() =~= Map::<i32, Seq<char>>::empty());
        s
    }

    /// Takes payload `sequence_number` and returns the payloads released by
    /// it, in order: none when the number was already released or is already
    /// waiting; otherwise the run of waiting payloads (this one included)
    /// that starts at the next number to release.
    pub fn receive(&mut self, sequence_number: i32, payload: &str) -> (r: Vec<String>)
        requires
            old(self).wf(),
            sequence_number >= old(self).next_view() && !old(self).buffer_view().contains_key(
                sequence_number,
            ) ==> !run_reaches_max(
                old(self).buffer_view().insert(sequence_number, payload@),
                old(self).next_view() as int,
            ),
        ensures
            final(self).wf(),
            sequence_number < old(self).next_view() || old(self).buffer_view().contains_key(
                sequence_number,
            ) ==> r@.len() == 0 && final(self).next_view() == old(self).next_view()
                && final(self).buffer_view() == old(self).buffer_view(),
            sequence_number >= old(self).next_view() && !old(self).buffer_view().contains_key(
                sequence_number,
            ) ==> ({
                let buf = old(self).buffer_view().insert(sequence_number, payload@);
                let from = old(self).next_view() as int;
                let n = r@.len();
                &&& is_run(buf, from, n)
                &&& forall|i: int| 0 <= i < n ==> #[trigger] r@[i]@ == buf[(from + i) as i32]
                &&& final(self).next_view() == from + n
                &&& final(self).buffer_view() == buf.remove_keys(number_range(from, n))
            }),
    {
        if sequence_number < self.next_expected {
            return Vec::new();
        }
        if self.buffer.contains_key(&sequence_number) {
            return Vec::new();
        }
        let ghost buf = self.buffer_view().insert(sequence_number, payload@);
        let ghost from = self.next_expected as int;
        self.buffer.insert(sequence_number, String::from_str(payload));
        assert(self.buffer_view() =~= buf);
        let mut result: Vec<String> = Vec::new();
        loop
            invariant
                from == old(self).next_view(),
                buf == old(self).buffer_view().insert(sequence_number, payload@),
                !run_reaches_max(buf, from),
                forall|k: i32| #[trigger] buf.contains_key(k) ==> k >= from,
                self.next_expected as int == from + result@.len(),
                forall|i: int| 0 <= i < result@.len() ==> #[trigger] buf.contains_key((from + i) as i32),
                forall|i: int| 0 <= i < result@.len() ==> #[trigger] result@[i]@ == buf[(from + i) as i32],
                self.buffer_view() == buf.remove_keys(number_range(from, result@.len())),
            ensures
                is_run(buf, from, result@.len()),
                forall|i: int| 0 <= i < result@.len() ==> #[trigger] result@[i]@ == buf[(from + i) as i32],
                self.next_expected as int == from + result@.len(),
                self.buffer_view() == buf.remove_keys(number_range(from, result@.len())),
            decreases i32::MAX - self.next_expected,
        {
            let ghost n = result@.len();
            let ghost bv = self.buffer_view();
            let key = self.next_expected;
            match self.buffer.remove(&key) {
                Some(p) => {
                    assert(bv.contains_key(key) && bv[key] == p@);
                    assert(!number_range(from, n).contains(key));
                    assert(buf.contains_key(key));
                    if key == i32::MAX {
                        assert forall|j: int| from <= j <= i32::MAX implies #[trigger] buf.contains_key(
                            j as i32,
                        ) by {
                            assert(buf.contains_key((from + (j - from)) as i32));
                        }
                        assert(false);
                    }
                    let ghost before = result@;
                    result.push(p);
                    self.next_expected = key + 1;
                    proof {
                        assert(result@ == before.push(p));
                        assert forall|i: int| 0 <= i < result@.len() implies #[trigger] buf.contains_key(
                            (from + i) as i32,
                        ) by {
                            if i < n {
                                assert(buf.contains_key((from + i) as i32));
                            }
                        }
                        assert forall|i: int| 0 <= i < result@.len() implies #[trigger] result@[i]@
                            == buf[(from + i) as i32] by {
                            if i < n {
                                assert(result@[i] == before[i]);
                            }
                        }
                        assert(self.buffer_view() =~= bv.remove(key));
                        assert(number_range(from, n + 1) =~= number_range(from, n).insert(key));
                        assert(self.buffer_view() =~= buf.remove_keys(number_range(from, n + 1)));
                    }
                },
                None => {
                    proof {
                        assert(!bv.contains_key(key));
                        assert(!number_range(from, n).contains(key));
                        assert(!buf.contains_key(key));
                        assert(self.buffer_view() =~= bv);
                    }
                    break;
                },
            }
        }
        proof {
            assert forall|k: i32| #[trigger] self.buffer_view().contains_key(k) implies k
                > self.next_view() by {
                assert(buf.contains_key(k));
                assert(!number_range(from, result@.len()).contains(k));
                if k == self.next_view() {
                    assert(!buf.contains_key(k));
                }
            }
        }
        result
    }
}

} // verus!
