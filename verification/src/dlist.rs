//! A doubly linked list kept in an arena: nodes live in a vector and link to
//! each other by position, so unlinking a node, linking one in at the head
//! and reaching the tail take constant time. Freed positions are reused.
//!
//! A node is named by its handle (its position in the arena), which stays
//! valid until the node is removed.

use vstd::prelude::*;

verus! {

#[derive(Clone, Copy)]
struct DNode<T> {
    value: T,
    prev: Option<usize>,
    next: Option<usize>,
}

pub struct DList<T> {
    nodes: Vec<DNode<T>>,
    head: Option<usize>,
    tail: Option<usize>,
    /// Arena positions not in the list, ready for reuse.
    free: Vec<usize>,
    /// The handles of the list's nodes, head first.
    order: Ghost<Seq<usize>>,
}

/// The handle before position `p` of `order`, if any.
pub open spec fn prev_of(order: Seq<usize>, p: int) -> Option<usize> {
    if p == 0 {
        None
    } else {
        Some(order[p - 1])
    }
}

/// The handle after position `p` of `order`, if any.
pub open spec fn next_of(order: Seq<usize>, p: int) -> Option<usize> {
    if p + 1 == order.len() {
        None
    } else {
        Some(order[p + 1])
    }
}

/// The first handle, if any.
pub open spec fn first_of(order: Seq<usize>) -> Option<usize> {
    if order.len() == 0 {
        None
    } else {
        Some(order[0])
    }
}

/// The last handle, if any.
pub open spec fn last_of(order: Seq<usize>) -> Option<usize> {
    if order.len() == 0 {
        None
    } else {
        Some(order.last())
    }
}

impl<T: Copy> DList<T> {
    /// The handles of the nodes, head first.
    pub closed spec fn handles(&self) -> Seq<usize> {
        self.order@
    }

    /// The values, head first.
    pub closed spec fn view(&self) -> Seq<T> {
        self.order@.map_values(|h: usize| self.nodes@[h as int].value)
    }

    /// The links agree with the order, and free positions are outside it.
    pub closed spec fn wf(&self) -> bool {
        let order = self.order@;
        let nodes = self.nodes@;
        &&& order.no_duplicates()
        &&& forall|p: int| 0 <= p < order.len() ==> (#[trigger] order[p]) < nodes.len()
        &&& forall|p: int|
            0 <= p < order.len() ==> (#[trigger] nodes[order[p] as int]).prev == prev_of(order, p)
                && nodes[order[p] as int].next == next_of(order, p)
        &&& self.head == first_of(order)
        &&& self.tail == last_of(order)
        &&& self.free@.no_duplicates()
        &&& forall|f: int|
            0 <= f < self.free@.len() ==> (#[trigger] self.free@[f]) < nodes.len() && !order.contains(
                self.free@[f],
            )
    }

    /// There are as many values as handles.
    pub proof fn lemma_len(&self)
        ensures
            self@.len() == self.handles().len(),
    {
    }

    pub fn new() -> (l: Self)
        ensures
            l.wf(),
            l@ == Seq::<T>::empty(),
            l.handles() == Seq::<usize>::empty(),
    {
        let l = DList { nodes: Vec::new(), head: None, tail: None, free: Vec::new(), order: Ghost(Seq::empty()) };
        assert(l@ =~= Seq::<T>::empty());
        l
    }

    pub fn len_is_zero(&self) -> (r: bool)
        requires
            self.wf(),
        ensures
            r == (self@.len() == 0),
    {
        self.head.is_none()
    }

    /// The handle of the tail node, if any.
    pub fn back(&self) -> (r: Option<usize>)
        requires
            self.wf(),
        ensures
            r == last_of(self.handles()),
    {
        self.tail
    }

    /// The handle of the head node, if any.
    pub fn front(&self) -> (r: Option<usize>)
        requires
            self.wf(),
        ensures
            r == first_of(self.handles()),
    {
        self.head
    }

    /// The handle after the node at position `p` (the one with handle `h`).
    pub fn next(&self, h: usize, Ghost(p): Ghost<int>) -> (r: Option<usize>)
        requires
            self.wf(),
            0 <= p < self.handles().len(),
            self.handles()[p] == h,
        ensures
            r == next_of(self.handles(), p),
    {
        self.nodes[h].next
    }

    /// The value of the node with handle `h`, at position `p`.
    pub fn get(&self, h: usize, Ghost(p): Ghost<int>) -> (r: T)
        requires
            self.wf(),
            0 <= p < self.handles().len(),
            self.handles()[p] == h,
        ensures
            r == self@[p],
    {
        self.nodes[h].value
    }

    /// The value held by the node with handle `h`, linked or not.
    pub closed spec fn value_at(&self, h: usize) -> T {
        self.nodes@[h as int].value
    }

    /// The node with handle `h` exists but is neither linked in nor free:
    /// it was unlinked and may be linked in again or released.
    pub closed spec fn is_detached(&self, h: usize) -> bool {
        h < self.nodes@.len() && !self.order@.contains(h) && !self.free@.contains(h)
    }

    /// Replaces the value of the node with handle `h`, at position `p`.
    pub fn set(&mut self, h: usize, Ghost(p): Ghost<int>, v: T)
        requires
            old(self).wf(),
            0 <= p < old(self).handles().len(),
            old(self).handles()[p] == h,
        ensures
            final(self).wf(),
            final(self)@ == old(self)@.update(p, v),
            final(self).handles() == old(self).handles(),
    {
        let ghost order = self.order@;
        let mut node = self.nodes[h];
        node.value = v;
        self.nodes.set(h, node);
        proof {
            assert forall|a: int| 0 <= a < order.len() && a != p implies order[a] != h by {}
            assert(self@ =~= old(self)@.update(p, v)) by {
                assert forall|q: int| 0 <= q < order.len() && q != p implies self.nodes@[order[q] as int]
                    == old(self).nodes@[order[q] as int] by {}
            }
            assert forall|f: int| 0 <= f < self.free@.len() implies (#[trigger] self.free@[f]) < self.nodes@.len()
                && !order.contains(self.free@[f]) by {}
        }
    }

    /// Unlinks the node with handle `h`, at position `p`. The node stays,
    /// detached, with its value; its own links are cleared.
    pub fn unlink(&mut self, h: usize, Ghost(p): Ghost<int>)
        requires
            old(self).wf(),
            0 <= p < old(self).handles().len(),
            old(self).handles()[p] == h,
        ensures
            final(self).wf(),
            final(self)@ == old(self)@.remove(p),
            final(self).handles() == old(self).handles().remove(p),
            final(self).is_detached(h),
            final(self).value_at(h) == old(self)@[p],
    {
        let ghost order = self.order@;
        let ghost nodes0 = self.nodes@;
        let node = self.nodes[h];
        assert(node.prev == prev_of(order, p) && node.next == next_of(order, p));
        match node.prev {
            Some(pv) => {
                let mut pn = self.nodes[pv];
                pn.next = node.next;
                self.nodes.set(pv, pn);
            },
            None => {
                self.head = node.next;
            },
        }
        match node.next {
            Some(nx) => {
                let mut nn = self.nodes[nx];
                nn.prev = node.prev;
                self.nodes.set(nx, nn);
            },
            None => {
                self.tail = node.prev;
            },
        }
        let cleared = DNode { value: node.value, prev: None, next: None };
        self.nodes.set(h, cleared);
        self.order = Ghost(order.remove(p));
        proof {
            let o2 = self.order@;
            let n2 = self.nodes@;
            assert(order[p] == h);
            assert forall|a: int| 0 <= a < order.len() && a != p implies order[a] != h by {}
            assert(o2.no_duplicates()) by {
                assert forall|a: int, b: int| 0 <= a < o2.len() && 0 <= b < o2.len() && a != b implies o2[a]
                    != o2[b] by {
                    let a1 = if a < p { a } else { a + 1 };
                    let b1 = if b < p { b } else { b + 1 };
                    assert(o2[a] == order[a1] && o2[b] == order[b1]);
                }
            }
            assert forall|q: int| 0 <= q < o2.len() implies (#[trigger] o2[q]) < n2.len() by {
                let q1 = if q < p { q } else { q + 1 };
                assert(o2[q] == order[q1]);
            }
            assert forall|q: int| 0 <= q < o2.len() implies (#[trigger] n2[o2[q] as int]).prev == prev_of(o2, q)
                && n2[o2[q] as int].next == next_of(o2, q) by {
                let q1 = if q < p { q } else { q + 1 };
                let x = order[q1];
                assert(o2[q] == x);
                assert(x != h);
                assert(nodes0[x as int].prev == prev_of(order, q1));
                assert(nodes0[x as int].next == next_of(order, q1));
                if q1 == p - 1 {
                    assert(n2[x as int].next == next_of(order, p));
                    if q1 > 0 {
                        assert(order[q1 - 1] != x);
                    }
                    if p + 1 < order.len() {
                        assert(order[p + 1] != x);
                    }
                } else if q1 == p + 1 {
                    assert(n2[x as int].prev == prev_of(order, p));
                    if p > 0 {
                        assert(order[p - 1] != x);
                    }
                } else {
                    if p > 0 {
                        assert(order[p - 1] != x);
                    }
                    if p + 1 < order.len() {
                        assert(order[p + 1] != x);
                    }
                    assert(n2[x as int] == nodes0[x as int]);
                }
            }
            assert(self.head == first_of(o2)) by {
                if p == 0 {
                    if order.len() > 1 {
                        assert(o2[0] == order[1]);
                    }
                } else {
                    assert(o2[0] == order[0]);
                }
            }
            assert(self.tail == last_of(o2)) by {
                if p == order.len() - 1 {
                    if order.len() > 1 {
                        assert(o2.last() == order[p - 1]);
                    }
                } else {
                    assert(o2.last() == order.last());
                }
            }
            assert forall|f: int| 0 <= f < self.free@.len() implies (#[trigger] self.free@[f]) < n2.len()
                && !o2.contains(self.free@[f]) by {
                if o2.contains(self.free@[f]) {
                    let q = choose|q: int| 0 <= q < o2.len() && o2[q] == self.free@[f];
                    let q1 = if q < p { q } else { q + 1 };
                    assert(order[q1] == self.free@[f]);
                }
            }
            assert(!o2.contains(h)) by {
                if o2.contains(h) {
                    let q = choose|q: int| 0 <= q < o2.len() && o2[q] == h;
                    let q1 = if q < p { q } else { q + 1 };
                    assert(order[q1] == h);
                }
            }
            assert(!self.free@.contains(h)) by {
                if self.free@.contains(h) {
                    let f = choose|f: int| 0 <= f < self.free@.len() && self.free@[f] == h;
                    assert(!order.contains(self.free@[f]));
                    assert(order.contains(h));
                }
            }
            assert(self@ =~= old(self)@.remove(p)) by {
                assert forall|q: int| 0 <= q < o2.len() implies n2[o2[q] as int].value == old(self)@.remove(p)[q] by {
                    let q1 = if q < p { q } else { q + 1 };
                    let x = order[q1];
                    assert(o2[q] == x);
                    assert(n2[x as int].value == nodes0[x as int].value);
                }
            }
        }
    }

    /// Links the detached node with handle `h` in at the head.
    pub fn link_front(&mut self, h: usize)
        requires
            old(self).wf(),
            old(self).is_detached(h),
        ensures
            final(self).wf(),
            final(self)@ == seq![old(self).value_at(h)] + old(self)@,
            final(self).handles() == seq![h] + old(self).handles(),
    {
        let ghost order = self.order@;
        let ghost nodes0 = self.nodes@;
        let ghost v = self.nodes@[h as int].value;
        let mut node = self.nodes[h];
        node.prev = None;
        node.next = self.head;
        self.nodes.set(h, node);
        if let Some(old_head) = self.head {
            let mut hn = self.nodes[old_head];
            hn.prev = Some(h);
            self.nodes.set(old_head, hn);
        } else {
            self.tail = Some(h);
        }
        self.head = Some(h);
        self.order = Ghost(seq![h] + order);
        proof {
            let o2 = self.order@;
            let n2 = self.nodes@;
            assert(o2.no_duplicates()) by {
                assert forall|a: int, b: int| 0 <= a < o2.len() && 0 <= b < o2.len() && a != b implies o2[a]
                    != o2[b] by {
                    if a == 0 {
                        assert(order.contains(o2[b]));
                    } else if b == 0 {
                        assert(order.contains(o2[a]));
                    } else {
                        assert(o2[a] == order[a - 1] && o2[b] == order[b - 1]);
                    }
                }
            }
            assert forall|p: int| 0 <= p < o2.len() implies (#[trigger] o2[p]) < n2.len() by {
                if p > 0 {
                    assert(o2[p] == order[p - 1]);
                }
            }
            assert forall|p: int| 0 <= p < o2.len() implies (#[trigger] n2[o2[p] as int]).prev == prev_of(o2, p)
                && n2[o2[p] as int].next == next_of(o2, p) by {
                if p == 0 {
                    assert(o2[0] == h);
                    if order.len() > 0 {
                        assert(order[0] != h);
                    }
                } else {
                    let q = p - 1;
                    assert(o2[p] == order[q]);
                    assert(order[q] != h);
                    assert(nodes0[order[q] as int].prev == prev_of(order, q));
                    assert(nodes0[order[q] as int].next == next_of(order, q));
                    if q == 0 {
                        assert(n2[order[q] as int].prev == Some(h));
                    } else {
                        assert(order[q] != order[0]);
                        assert(n2[order[q] as int] == nodes0[order[q] as int]);
                    }
                }
            }
            assert forall|f: int| 0 <= f < self.free@.len() implies (#[trigger] self.free@[f]) < n2.len()
                && !o2.contains(self.free@[f]) by {
                assert(self.free@[f] != h);
                if o2.contains(self.free@[f]) {
                    let p = choose|p: int| 0 <= p < o2.len() && o2[p] == self.free@[f];
                    assert(p > 0);
                    assert(order[p - 1] == self.free@[f]);
                }
            }
            assert(self@ =~= seq![v] + old(self)@) by {
                assert forall|p: int| 0 <= p < o2.len() implies n2[o2[p] as int].value == (seq![v] + old(self)@)[p] by {
                    if p > 0 {
                        assert(o2[p] == order[p - 1]);
                        assert(order[p - 1] != h);
                        assert(n2[order[p - 1] as int].value == nodes0[order[p - 1] as int].value);
                    }
                }
            }
        }
    }

    /// Gives the place of the detached node with handle `h` back for reuse.
    pub fn release(&mut self, h: usize)
        requires
            old(self).wf(),
            old(self).is_detached(h),
        ensures
            final(self).wf(),
            final(self)@ == old(self)@,
            final(self).handles() == old(self).handles(),
    {
        self.free.push(h);
        proof {
            let fr = self.free@;
            let fr0 = old(self).free@;
            assert(fr.no_duplicates()) by {
                assert forall|a: int, b: int| 0 <= a < fr.len() && 0 <= b < fr.len() && a != b implies fr[a] != fr[b] by {
                    if a == fr0.len() {
                        assert(fr0.contains(fr[b]));
                    } else if b == fr0.len() {
                        assert(fr0.contains(fr[a]));
                    } else {
                        assert(fr[a] == fr0[a] && fr[b] == fr0[b]);
                    }
                }
            }
            assert forall|f: int| 0 <= f < fr.len() implies (#[trigger] fr[f]) < self.nodes@.len()
                && !self.order@.contains(fr[f]) by {
                if f < fr0.len() {
                    assert(fr[f] == fr0[f]);
                }
            }
        }
    }

    /// Makes a detached node holding `v`, reusing a freed place if there is
    /// one, and returns its handle.
    pub fn new_node(&mut self, v: T) -> (h: usize)
        requires
            old(self).wf(),
        ensures
            final(self).wf(),
            final(self)@ == old(self)@,
            final(self).handles() == old(self).handles(),
            final(self).is_detached(h),
            final(self).value_at(h) == v,
    {
        let ghost order = self.order@;
        let ghost nodes0 = self.nodes@;
        let node = DNode { value: v, prev: None, next: None };
        let h = match self.free.pop() {
            Some(f) => {
                proof {
                    assert(self.free@ =~= old(self).free@.drop_last());
                    assert(old(self).free@[old(self).free@.len() - 1] == f);
                    assert(!self.free@.contains(f)) by {
                        if self.free@.contains(f) {
                            let k = choose|k: int| 0 <= k < self.free@.len() && self.free@[k] == f;
                            assert(old(self).free@[k] == old(self).free@[old(self).free@.len() - 1]);
                        }
                    }
                }
                self.nodes.set(f, node);
                f
            },
            None => {
                self.nodes.push(node);
                proof {
                    assert forall|p: int| 0 <= p < order.len() implies order[p] != nodes0.len() by {
                        assert(order[p] < nodes0.len());
                    }
                    assert forall|f: int| 0 <= f < self.free@.len() implies self.free@[f] != nodes0.len() by {
                        assert(self.free@[f] < nodes0.len());
                    }
                }
                self.nodes.len() - 1
            },
        };
        proof {
            assert(!order.contains(h));
            assert forall|p: int| 0 <= p < order.len() implies (#[trigger] self.nodes@[order[p] as int])
                == nodes0[order[p] as int] by {
                assert(order[p] != h);
            }
            assert(self@ =~= old(self)@);
            assert forall|p: int| 0 <= p < order.len() implies (#[trigger] order[p]) < self.nodes@.len() by {}
            assert forall|f: int| 0 <= f < self.free@.len() implies (#[trigger] self.free@[f]) < self.nodes@.len()
                && !order.contains(self.free@[f]) by {
                assert(self.free@[f] == old(self).free@[f]);
            }
        }
        h
    }

    /// Links a node holding `v` in at the head and returns its handle.
    pub fn push_front(&mut self, v: T) -> (h: usize)
        requires
            old(self).wf(),
        ensures
            final(self).wf(),
            final(self)@ == seq![v] + old(self)@,
            final(self).handles() == seq![h] + old(self).handles(),
            !old(self).handles().contains(h),
    {
        let h = self.new_node(v);
        self.link_front(h);
        h
    }

    /// Unlinks the node with handle `h`, at position `p`, frees its place and
    /// returns its value.
    pub fn remove(&mut self, h: usize, Ghost(p): Ghost<int>) -> (v: T)
        requires
            old(self).wf(),
            0 <= p < old(self).handles().len(),
            old(self).handles()[p] == h,
        ensures
            final(self).wf(),
            v == old(self)@[p],
            final(self)@ == old(self)@.remove(p),
            final(self).handles() == old(self).handles().remove(p),
    {
        let v = self.nodes[h].value;
        self.unlink(h, Ghost(p));
        self.release(h);
        v
    }
}

} // verus!
