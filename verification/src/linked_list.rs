//! A singly linked list of `i32` values: appending at the back, reversing in
//! place, and rendering.

use vstd::prelude::*;
use crate::text::{int_decimal, push_signed};

verus! {

pub struct Node {
    pub value: i32,
    pub next: Option<Box<Node>>,
}

/// The values from a link onward, in list order.
pub open spec fn link_values(link: Option<Box<Node>>) -> Seq<i32>
    decreases link,
{
    match link {
        None => Seq::empty(),
        Some(node) => seq![node.value] + link_values(node.next),
    }
}

/// `v -> ` for each value, then `None`.
pub open spec fn chain_text(values: Seq<i32>) -> Seq<char>
    decreases values.len(),
{
    if values.len() == 0 {
        seq!['N', 'o', 'n', 'e']
    } else {
        int_decimal(values[0] as int) + seq![' ', '-', '>', ' '] + chain_text(values.drop_first())
    }
}

pub struct LinkedList {
    head: Option<Box<Node>>,
}

fn push_back_at(link: &mut Option<Box<Node>>, value: i32)
    ensures
        link_values(*final(link)) == link_values(*old(link)).push(value),
    decreases *old(link),
{
    match link.take() {
        None => {
            *link = Some(Box::new(Node { value, next: None }));
            assert(link_values(None::<Box<Node>>) =~= Seq::<i32>::empty());
            assert(link_values(*link) =~= seq![value] + link_values(None::<Box<Node>>));
            assert(link_values(*link) =~= link_values(*old(link)).push(value));
        },
        Some(mut node) => {
            push_back_at(&mut node.next, value);
            *link = Some(node);
            assert(link_values(*link) =~= link_values(*old(link)).push(value));
        },
    }
}

impl LinkedList {
    /// The values, front first.
    pub closed spec fn view(&self) -> Seq<i32> {
        link_values(self.head)
    }

    pub fn new() -> (l: Self)
        ensures
            l@ == Seq::<i32>::empty(),
    {
        LinkedList { head: None }
    }

    /// Appends `value` at the back.
    pub fn push_back(&mut self, value: i32)
        ensures
            final(self)@ == old(self)@.push(value),
    {
        push_back_at(&mut self.head, value);
    }

    /// Reverses the list in place.
    pub fn reverse(&mut self)
        ensures
            final(self)@ == old(self)@.reverse(),
    {
        let ghost orig = self@;
        let mut prev: Option<Box<Node>> = None;
        let mut current = self.head.take();
        while current.is_some()
            invariant
                link_values(current) == orig.skip(orig.len() - link_values(current).len()),
                link_values(prev) == orig.take(orig.len() - link_values(current).len()).reverse(),
                link_values(current).len() <= orig.len(),
            decreases link_values(current).len(),
        {
            let mut node = current.unwrap();
            let ghost k = orig.len() - link_values(Some(node)).len();
            let next = node.next.take();
            node.next = prev;
            proof {
                assert(link_values(Some(node)) =~= seq![node.value] + link_values(node.next));
                assert(orig[k] == node.value) by {
                    assert(orig.skip(k)[0] == orig[k]);
                }
                assert(link_values(next) =~= orig.skip(k + 1)) by {
                    assert(orig.skip(k).drop_first() =~= orig.skip(k + 1));
                }
                assert(orig.take(k + 1).reverse() =~= seq![orig[k]] + orig.take(k).reverse());
            }
            prev = Some(node);
            current = next;
        }
        self.head = prev;
        assert(orig.take(orig.len() as int) =~= orig);
    }

    /// The values as `v -> ` each, then `None`.
    pub fn render(&self) -> (r: String)
        ensures
            r@ == chain_text(self@),
    {
        let mut s = String::new();
        let mut current = &self.head;
        while current.is_some()
            invariant
                s@ + chain_text(link_values(*current)) == chain_text(self@),
            decreases link_values(*current).len(),
        {
            let node = current.as_ref().unwrap();
            let ghost before = s@;
            push_signed(&mut s, node.value as i64);
            s.append(" -> ");
            proof {
                reveal_strlit(" -> ");
                assert(link_values(*current).drop_first() =~= link_values(node.next));
                assert(s@ =~= before + int_decimal(node.value as int) + seq![' ', '-', '>', ' ']);
            }
            current = &node.next;
        }
        s.append("None");
        proof {
            reveal_strlit("None");
        }
        s
    }
}

/// Reversing twice gives the list back.
pub proof fn lemma_reverse_twice(s: Seq<i32>)
    ensures
        s.reverse().reverse() == s,
{
    assert(s.reverse().reverse() =~= s);
}

/// A value appended at the back comes first after a reverse.
pub proof fn lemma_pushed_value_leads_reverse(s: Seq<i32>, v: i32)
    ensures
        s.push(v).reverse()[0] == v,
        s.push(v).reverse().len() == s.len() + 1,
{
}
} // verus!
