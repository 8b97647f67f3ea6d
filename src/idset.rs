use vstd::prelude::*;

verus! {

/// A set of node indices, kept as a list without repeats.
pub struct IdSet {
    pub items: Vec<usize>,
}

impl View for IdSet {
    type V = Set<usize>;

    open spec fn view(&self) -> Set<usize> {
        Set::new(|x: usize| self.items@.contains(x))
    }
}

impl IdSet {
    pub open spec fn wf(&self) -> bool {
        self.items@.no_duplicates()
    }

    pub proof fn lemma_finite(&self)
        ensures
            self@.finite(),
    {
        assert(self@ =~= self.items@.to_set());
        vstd::seq_lib::seq_to_set_is_finite(self.items@);
    }

    pub fn new() -> (s: IdSet)
        ensures
            s.wf(),
            s@ == Set::<usize>::empty(),
    {
        let s = IdSet { items: Vec::new() };
        assert(s@ =~= Set::<usize>::empty());
        s
    }

    fn position(&self, x: usize) -> (k: Option<usize>)
        ensures
            k is None ==> !self.items@.contains(x),
            k matches Some(i) ==> i < self.items@.len() && self.items@[i as int] == x,
    {
        let mut i: usize = 0;
        while i < self.items.len()
            invariant
                i <= self.items@.len(),
                forall|j: int| 0 <= j < i ==> self.items@[j] != x,
            decreases self.items@.len() - i,
        {
            if self.items[i] == x {
                return Some(i);
            }
            i += 1;
        }
        None
    }

    pub fn contains(&self, x: usize) -> (b: bool)
        ensures
            b == self@.contains(x),
    {
        self.position(x).is_some()
    }

    pub fn is_empty(&self) -> (b: bool)
        ensures
            b == (self@ == Set::<usize>::empty()),
    {
        if self.items.len() == 0 {
            assert(self@ =~= Set::<usize>::empty());
            true
        } else {
            assert(self@.contains(self.items@[0]));
            false
        }
    }

    /// Some element of a set that is not empty.
    pub fn pick(&self) -> (x: Option<usize>)
        ensures
            x is None <==> self@ == Set::<usize>::empty(),
            x matches Some(v) ==> self@.contains(v),
    {
        if self.items.len() == 0 {
            assert(self@ =~= Set::<usize>::empty());
            None
        } else {
            assert(self.items@.contains(self.items@[0]));
            assert(self@.contains(self.items@[0]));
            Some(self.items[0])
        }
    }

    pub fn insert(&mut self, x: usize)
        requires
            old(self).wf(),
        ensures
            final(self).wf(),
            final(self)@ == old(self)@.insert(x),
    {
        if !self.contains(x) {
            let ghost s0 = self.items@;
            self.items.push(x);
            proof {
                crate::arena::lemma_push_contains(s0, x);
                crate::arena::lemma_push_parts(s0, x);
            }
        }
        assert(self@ =~= old(self)@.insert(x));
    }

    pub fn remove(&mut self, x: usize)
        requires
            old(self).wf(),
        ensures
            final(self).wf(),
            final(self)@ == old(self)@.remove(x),
    {
        match self.position(x) {
            None => {
                assert(self@ =~= old(self)@.remove(x));
            },
            Some(k) => {
                let ghost s0 = self.items@;
                self.items.remove(k);
                assert(self.items@ == s0.remove(k as int));
                assert forall|y: usize| self.items@.contains(y) <==> (s0.contains(y) && y != x) by {
                    if self.items@.contains(y) {
                        let j = choose|j: int| 0 <= j < self.items@.len() && self.items@[j] == y;
                        let j2 = if j < k { j } else { j + 1 };
                        assert(s0[j2] == y);
                        assert(j2 != k);
                    }
                    if s0.contains(y) && y != x {
                        let j = choose|j: int| 0 <= j < s0.len() && s0[j] == y;
                        assert(j != k);
                        if j < k {
                            assert(self.items@[j] == y);
                        } else {
                            assert(self.items@[j - 1] == y);
                        }
                    }
                }
                assert forall|a: int, b: int|
                    0 <= a < self.items@.len() && 0 <= b < self.items@.len() && a != b implies self.items@[a]
                    != self.items@[b] by {
                    let a2 = if a < k { a } else { a + 1 };
                    let b2 = if b < k { b } else { b + 1 };
                    assert(s0[a2] != s0[b2]);
                }
                assert(self@ =~= old(self)@.remove(x));
            },
        }
    }
}

} // verus!
