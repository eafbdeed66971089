//! A first-in, first-out queue of the outputs a component has produced and
//! its driver has not yet carried out.
use std::collections::VecDeque;
use vstd::prelude::*;
use vstd::std_specs::cmp::PartialEqSpec;
use vstd::std_specs::iter::IteratorSpec;

verus! {

pub struct Outbox<T>(VecDeque<T>);

impl<T> View for Outbox<T> {
    type V = Seq<T>;

    closed spec fn view(&self) -> Seq<T> {
        self.0@
    }
}

impl<T> Outbox<T> {
    pub fn new() -> (r: Self)
        ensures
            r@ == Seq::<T>::empty(),
    {
        Outbox(VecDeque::new())
    }

    pub fn is_empty(&self) -> (r: bool)
        ensures
            r == (self@.len() == 0),
    {
        self.0.len() == 0
    }

    pub fn len(&self) -> (r: usize)
        ensures
            r == self@.len(),
    {
        self.0.len()
    }

    pub fn clear(&mut self)
        ensures
            final(self)@ == Seq::<T>::empty(),
    {
        self.0.clear()
    }

    pub fn push_back(&mut self, item: T)
        ensures
            final(self)@ == old(self)@.push(item),
    {
        self.0.push_back(item)
    }

    pub fn pop_front(&mut self) -> (r: Option<T>)
        ensures
            old(self)@.len() == 0 ==> r is None && final(self)@ == old(self)@,
            old(self)@.len() > 0 ==> r == Some(old(self)@[0]) && final(self)@ == old(self)@.drop_first(),
    {
        self.0.pop_front()
    }

    /// The items, front to back.
    pub fn iter(&self) -> (r: std::collections::vec_deque::Iter<'_, T>)
        ensures
            IteratorSpec::remaining(&r) == self@.as_ref(),
    {
        proof { broadcast use vstd::std_specs::vecdeque::group_vec_dequeue_axioms; }
        self.0.iter()
    }

    /// The item at `index`, counting from the front.
    pub fn get(&self, index: usize) -> (r: Option<&T>)
        ensures
            index < self@.len() ==> r == Some(&self@[index as int]),
            index >= self@.len() ==> r is None,
    {
        if index < self.0.len() {
            Some(&self.0[index])
        } else {
            None
        }
    }

    /// Empty the outbox, handing back what it held.
    pub fn take(&mut self) -> (r: Self)
        ensures
            r@ == old(self)@,
            final(self)@ == Seq::<T>::empty(),
    {
        let mut other: VecDeque<T> = VecDeque::new();
        std::mem::swap(&mut self.0, &mut other);
        Outbox(other)
    }

    /// Append every item of `items`, in order.
    pub fn extend(&mut self, items: Vec<T>)
        ensures
            final(self)@ == old(self)@ + items@,
    {
        let mut items = items;
        let ghost all = items@;
        let mut rest: Vec<T> = Vec::new();
        // Reverse once so that popping yields the items front first.
        while items.len() > 0
            invariant
                all == items@ + rest@.reverse(),
            decreases items.len(),
        {
            let x = items.pop().unwrap();
            let ghost before = rest@;
            rest.push(x);
            assert(rest@.reverse() =~= seq![x] + before.reverse());
        }
        let ghost start = self@;
        while rest.len() > 0
            invariant
                start + all == self@ + rest@.reverse(),
            decreases rest.len(),
        {
            let x = rest.pop().unwrap();
            let ghost before = rest@;
            self.0.push_back(x);
            assert(before.push(x).reverse() =~= seq![x] + before.reverse());
            assert(self@ + rest@.reverse() =~= start + all);
        }
        assert(rest@.reverse() =~= Seq::<T>::empty());
    }

    /// The items, front first.
    pub fn into_vec(self) -> (r: Vec<T>)
        ensures
            r@ == self@,
    {
        let mut q = self.0;
        let mut r: Vec<T> = Vec::new();
        let ghost all = q@;
        while q.len() > 0
            invariant
                all == r@ + q@,
            decreases q.len(),
        {
            let x = q.pop_front().unwrap();
            let ghost before = q@;
            r.push(x);
            assert(all =~= r@ + q@);
        }
        assert(q@ =~= Seq::<T>::empty());
        r
    }
}

impl<T: PartialEq> Outbox<T> {
    /// Whether some queued item equals `item`.
    pub fn contains(&self, item: &T) -> (r: bool)
        requires
            T::obeys_eq_spec(),
        ensures
            r <==> exists|i: int| 0 <= i < self@.len() && item.eq_spec(&self@[i]),
    {
        let mut i: usize = 0;
        while i < self.0.len()
            invariant
                T::obeys_eq_spec(),
                0 <= i <= self@.len(),
                forall|j: int| 0 <= j < i ==> !item.eq_spec(#[trigger] &self@[j]),
            decreases self@.len() - i,
        {
            if *item == self.0[i] {
                return true;
            }
            i += 1;
        }
        false
    }
}

} // verus!
