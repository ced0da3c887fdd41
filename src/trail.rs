//! A fixed-capacity FIFO: pushing onto a full trail evicts its oldest entry.

use vstd::prelude::*;

verus! {

/// How many entries a trail keeps.
pub const MAX_HIST: usize = 5;

/// `s` with `x` appended, cut down to its newest `MAX_HIST` entries.
pub open spec fn push_bounded<T>(s: Seq<T>, x: T) -> Seq<T> {
    keep_newest(s.push(x))
}

/// The newest `MAX_HIST` entries of `s` (all of them when it is short enough).
pub open spec fn keep_newest<T>(s: Seq<T>) -> Seq<T> {
    if s.len() > MAX_HIST {
        s.subrange(s.len() - MAX_HIST, s.len() as int)
    } else {
        s
    }
}

/// An ordered sequence of at most `MAX_HIST` entries, oldest first.
pub struct Trail<T> {
    items: Vec<T>,
}

impl<T> View for Trail<T> {
    type V = Seq<T>;

    closed spec fn view(&self) -> Seq<T> {
        self.items@
    }
}

impl<T> Trail<T> {
    #[verifier::type_invariant]
    spec fn bounded(&self) -> bool {
        self.items@.len() <= MAX_HIST
    }

    pub fn new() -> (r: Trail<T>)
        ensures
            r@ == Seq::<T>::empty(),
    {
        Trail { items: Vec::new() }
    }

    /// Keeps the newest `MAX_HIST` entries of `v`, in order.
    pub fn from_vec(v: Vec<T>) -> (r: Trail<T>)
        ensures
            r@ == keep_newest(v@),
            r@.len() <= MAX_HIST,
    {
        let mut v = v;
        if v.len() > MAX_HIST {
            let cut = v.len() - MAX_HIST;
            let newest = v.split_off(cut);
            Trail { items: newest }
        } else {
            Trail { items: v }
        }
    }

    pub fn len(&self) -> (r: usize)
        ensures
            r == self@.len(),
            r <= MAX_HIST,
    {
        proof {
            use_type_invariant(self);
        }
        self.items.len()
    }

    pub fn is_empty(&self) -> (r: bool)
        ensures
            r <==> self@.len() == 0,
    {
        self.items.len() == 0
    }

    pub fn get(&self, i: usize) -> (r: &T)
        requires
            i < self@.len(),
        ensures
            *r == self@[i as int],
    {
        &self.items[i]
    }

    /// The entries, oldest first.
    pub fn as_vec(&self) -> (r: &Vec<T>)
        ensures
            r@ == self@,
    {
        &self.items
    }
}

impl<T: Copy> Trail<T> {
    /// Appends `x`; when the trail was full its oldest entry is dropped.
    pub fn push(&mut self, x: T)
        ensures
            final(self)@ == push_bounded(old(self)@, x),
            final(self)@.len() <= MAX_HIST,
    {
        proof {
            use_type_invariant(&*self);
        }
        let n = self.items.len();
        let first: usize = if n >= MAX_HIST {
            n + 1 - MAX_HIST
        } else {
            0
        };
        let mut items: Vec<T> = Vec::new();
        let mut i: usize = first;
        while i < n
            invariant
                first <= i <= n,
                n == self.items@.len(),
                items@ == self.items@.subrange(first as int, i as int),
            decreases n - i,
        {
            items.push(self.items[i]);
            i += 1;
            assert(items@ =~= self.items@.subrange(first as int, i as int));
        }
        items.push(x);
        assert(items@ =~= push_bounded(self.items@, x));
        *self = Trail { items };
    }

    /// A second trail with the same entries.
    pub fn copied(&self) -> (r: Trail<T>)
        ensures
            r@ == self@,
    {
        proof {
            use_type_invariant(self);
        }
        let mut items: Vec<T> = Vec::new();
        let mut i: usize = 0;
        while i < self.items.len()
            invariant
                i <= self.items@.len(),
                items@ == self.items@.subrange(0, i as int),
            decreases self.items@.len() - i,
        {
            items.push(self.items[i]);
            i += 1;
            assert(items@ =~= self.items@.subrange(0, i as int));
        }
        assert(items@ =~= self.items@);
        Trail { items }
    }
}

} // verus!
