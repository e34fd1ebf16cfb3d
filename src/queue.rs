//! A priority queue over items that carry their own total order of priority.
use vstd::prelude::*;

verus! {

/// Items with a total preorder of priority: `a.ranks_before(b)` means that `a`
/// may leave a queue no later than `b`.
pub trait Prioritized: Sized {
    spec fn ranks_before_spec(&self, other: &Self) -> bool;

    fn ranks_before(&self, other: &Self) -> (r: bool)
        ensures
            r == self.ranks_before_spec(other),
    ;

    proof fn lemma_total(a: &Self, b: &Self)
        ensures
            a.ranks_before_spec(b) || b.ranks_before_spec(a),
    ;

    proof fn lemma_transitive(a: &Self, b: &Self, c: &Self)
        requires
            a.ranks_before_spec(b),
            b.ranks_before_spec(c),
        ensures
            a.ranks_before_spec(c),
    ;
}

/// Items waiting to be taken out highest priority first.
#[derive(Debug)]
pub struct PriorityQueue<T> {
    items: Vec<T>,
}

impl<T> View for PriorityQueue<T> {
    type V = Seq<T>;

    closed spec fn view(&self) -> Seq<T> {
        self.items@
    }
}

/// `s[i]` ranks before every item of `s`.
pub open spec fn is_top<T: Prioritized>(s: Seq<T>, i: int) -> bool {
    &&& 0 <= i < s.len()
    &&& forall|j: int| 0 <= j < s.len() ==> (#[trigger] s[i]).ranks_before_spec(&s[j])
}

impl<T: Prioritized> PriorityQueue<T> {
    pub fn new() -> (r: PriorityQueue<T>)
        ensures
            r@ == Seq::<T>::empty(),
    {
        PriorityQueue { items: Vec::new() }
    }

    pub fn len(&self) -> (r: usize)
        ensures
            r == self@.len(),
    {
        self.items.len()
    }

    pub fn is_empty(&self) -> (r: bool)
        ensures
            r == (self@.len() == 0),
    {
        self.items.len() == 0
    }

    pub fn push(&mut self, item: T)
        ensures
            final(self)@ == old(self)@.push(item),
    {
        self.items.push(item);
    }

    /// Index of an item that ranks before all others; the first such one.
    fn top_index(&self) -> (r: usize)
        requires
            self@.len() > 0,
        ensures
            is_top(self@, r as int),
    {
        let mut best: usize = 0;
        let mut k: usize = 1;
        proof {
            T::lemma_total(&self.items@[0], &self.items@[0]);
        }
        while k < self.items.len()
            invariant
                1 <= k <= self.items@.len(),
                best < k,
                forall|j: int| 0 <= j < k ==> self.items@[best as int].ranks_before_spec(&self.items@[j]),
            decreases self.items@.len() - k,
        {
            if !self.items[best].ranks_before(&self.items[k]) {
                proof {
                    let s = self.items@;
                    T::lemma_total(&s[best as int], &s[k as int]);
                    assert forall|j: int| 0 <= j < k + 1 implies s[k as int].ranks_before_spec(&s[j]) by {
                        if j < k {
                            T::lemma_transitive(&s[k as int], &s[best as int], &s[j]);
                        } else {
                            T::lemma_total(&s[k as int], &s[k as int]);
                        }
                    }
                }
                best = k;
            } else {
                proof {
                    assert(self.items@[best as int].ranks_before_spec(&self.items@[k as int]));
                }
            }
            k = k + 1;
        }
        best
    }

    /// Removes and returns an item that ranks before every item in the queue;
    /// `None` when the queue is empty.
    pub fn pop(&mut self) -> (r: Option<T>)
        ensures
            old(self)@.len() == 0 ==> r.is_none() && final(self)@ == old(self)@,
            old(self)@.len() > 0 ==> r.is_some() && exists|i: int|
                is_top(old(self)@, i) && r.unwrap() == old(self)@[i] && final(self)@ == old(
                    self,
                )@.remove(i),
    {
        if self.items.len() == 0 {
            return None;
        }
        let i = self.top_index();
        let item = self.items.remove(i);
        proof {
            assert(is_top(old(self)@, i as int));
        }
        Some(item)
    }
}

} // verus!
