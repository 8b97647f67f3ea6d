use vstd::prelude::*;

verus! {

/// The binding between widget nodes and render nodes, kept in both
/// directions so that each render node has at most one widget.
pub struct Relationship {
    pub w2r: Vec<Option<usize>>,
    pub r2w: Vec<Option<usize>>,
}

impl View for Relationship {
    type V = Map<usize, usize>;

    open spec fn view(&self) -> Map<usize, usize> {
        Map::new(
            |w: usize| w < self.w2r@.len() && self.w2r@[w as int] is Some,
            |w: usize| self.w2r@[w as int].unwrap(),
        )
    }
}

impl Relationship {
    /// Both directions agree.
    pub open spec fn wf(&self) -> bool {
        &&& forall|w: usize|
            w < self.w2r@.len() && (#[trigger] self.w2r@[w as int]) is Some ==> {
                let r = self.w2r@[w as int].unwrap();
                r < self.r2w@.len() && self.r2w@[r as int] == Some(w)
            }
        &&& forall|r: usize|
            r < self.r2w@.len() && (#[trigger] self.r2w@[r as int]) is Some ==> {
                let w = self.r2w@[r as int].unwrap();
                w < self.w2r@.len() && self.w2r@[w as int] == Some(r)
            }
    }

    /// The widget bound to render node `r`, if any.
    pub open spec fn widget_of(&self, r: usize) -> Option<usize> {
        if r < self.r2w@.len() {
            self.r2w@[r as int]
        } else {
            None
        }
    }

    pub proof fn lemma_widget_of(&self, r: usize)
        requires
            self.wf(),
        ensures
            self.widget_of(r) matches Some(w) ==> self@.contains_key(w) && self@[w] == r,
            self.widget_of(r) is None ==> forall|w: usize|
                #![trigger self@[w]]
                self@.contains_key(w) ==> self@[w] != r,
    {
        if self.widget_of(r) is None {
            assert forall|w: usize| #![trigger self@[w]] self@.contains_key(w) implies self@[w]
                != r by {
                assert(self.w2r@[w as int] is Some);
            }
        }
    }

    pub fn new() -> (rel: Relationship)
        ensures
            rel.wf(),
            rel@ == Map::<usize, usize>::empty(),
    {
        let rel = Relationship { w2r: Vec::new(), r2w: Vec::new() };
        assert(rel@ =~= Map::<usize, usize>::empty());
        rel
    }

    pub fn widget_to_render(&self, w: usize) -> (r: Option<usize>)
        ensures
            r == (if self@.contains_key(w) {
                Some(self@[w])
            } else {
                None
            }),
    {
        if w < self.w2r.len() {
            self.w2r[w]
        } else {
            None
        }
    }

    pub fn render_to_widget(&self, r: usize) -> (w: Option<usize>)
        ensures
            w == self.widget_of(r),
    {
        if r < self.r2w.len() {
            self.r2w[r]
        } else {
            None
        }
    }

    pub fn is_empty(&self) -> (b: bool)
        ensures
            b == (self@ == Map::<usize, usize>::empty()),
    {
        let mut i: usize = 0;
        while i < self.w2r.len()
            invariant
                i <= self.w2r@.len(),
                forall|j: int| 0 <= j < i ==> self.w2r@[j] is None,
            decreases self.w2r@.len() - i,
        {
            if self.w2r[i].is_some() {
                assert(self@.contains_key(i));
                return false;
            }
            i += 1;
        }
        assert(self@ =~= Map::<usize, usize>::empty());
        true
    }

    /// Binds `w` to `r`. Binding a pair again changes nothing; a widget
    /// bound elsewhere, or a render node bound to another widget, is refused
    /// by the precondition.
    pub fn bind(&mut self, w: usize, r: usize)
        requires
            old(self).wf(),
            w < usize::MAX,
            r < usize::MAX,
            old(self)@.contains_key(w) ==> old(self)@[w] == r,
            old(self).widget_of(r) matches Some(v) ==> v == w,
        ensures
            final(self).wf(),
            final(self)@ == old(self)@.insert(w, r),
            forall|x: usize| x != r ==> #[trigger] final(self).widget_of(x) == old(self).widget_of(x),
            final(self).widget_of(r) == Some(w),
    {
        while self.w2r.len() <= w
            invariant
                old(self).w2r@.len() <= self.w2r@.len(),
                forall|i: int| 0 <= i < old(self).w2r@.len() ==> self.w2r@[i] == old(self).w2r@[i],
                forall|i: int| old(self).w2r@.len() <= i < self.w2r@.len() ==> self.w2r@[i] is None,
                self.r2w@ == old(self).r2w@,
                w < usize::MAX,
            decreases w + 1 - self.w2r@.len(),
        {
            self.w2r.push(None);
        }
        let ghost w2r1 = self.w2r@;
        while self.r2w.len() <= r
            invariant
                self.w2r@ == w2r1,
                old(self).r2w@.len() <= self.r2w@.len(),
                forall|i: int| 0 <= i < old(self).r2w@.len() ==> self.r2w@[i] == old(self).r2w@[i],
                forall|i: int| old(self).r2w@.len() <= i < self.r2w@.len() ==> self.r2w@[i] is None,
                r < usize::MAX,
            decreases r + 1 - self.r2w@.len(),
        {
            self.r2w.push(None);
        }
        let ghost r2w1 = self.r2w@;
        self.w2r.set(w, Some(r));
        self.r2w.set(r, Some(w));
        proof {
            assert forall|v: usize|
                v < self.w2r@.len() && (#[trigger] self.w2r@[v as int]) is Some implies {
                let x = self.w2r@[v as int].unwrap();
                x < self.r2w@.len() && self.r2w@[x as int] == Some(v)
            } by {
                if v != w {
                    let x = self.w2r@[v as int].unwrap();
                    assert(w2r1[v as int] == self.w2r@[v as int]);
                    assert(v < old(self).w2r@.len());
                    assert(old(self).w2r@[v as int] == Some(x));
                    assert(old(self).r2w@[x as int] == Some(v));
                    if x == r {
                        assert(old(self).widget_of(r) == Some(v));
                    }
                    assert(r2w1[x as int] == Some(v));
                }
            }
            assert forall|x: usize|
                x < self.r2w@.len() && (#[trigger] self.r2w@[x as int]) is Some implies {
                let v = self.r2w@[x as int].unwrap();
                v < self.w2r@.len() && self.w2r@[v as int] == Some(x)
            } by {
                if x != r {
                    let v = self.r2w@[x as int].unwrap();
                    assert(r2w1[x as int] == self.r2w@[x as int]);
                    assert(x < old(self).r2w@.len());
                    assert(old(self).widget_of(x) == Some(v));
                    assert(w2r1[v as int] == Some(x));
                    if v == w {
                        assert(old(self)@.contains_key(w));
                    }
                }
            }
            assert forall|x: usize| x != r implies #[trigger] self.widget_of(x) == old(self).widget_of(x) by {
                if x < r2w1.len() {
                    assert(self.r2w@[x as int] == r2w1[x as int]);
                }
            }
            assert forall|v: usize| #[trigger] self@.contains_key(v) == old(self)@.insert(w, r).contains_key(v)
                && (self@.contains_key(v) ==> self@[v] == old(self)@.insert(w, r)[v]) by {
                if v < w2r1.len() && v != w {
                    assert(self.w2r@[v as int] == w2r1[v as int]);
                }
            }
            assert(self@ =~= old(self)@.insert(w, r));
        }
    }

    /// Removes the binding of `w`; a widget with none is left as it is.
    pub fn unbind(&mut self, w: usize)
        requires
            old(self).wf(),
        ensures
            final(self).wf(),
            final(self)@ == old(self)@.remove(w),
            forall|x: usize|
                #![trigger final(self).widget_of(x)]
                (old(self)@.contains_key(w) && x == old(self)@[w]) ==> final(self).widget_of(x)
                    is None,
            forall|x: usize|
                #![trigger final(self).widget_of(x)]
                !(old(self)@.contains_key(w) && x == old(self)@[w]) ==> final(self).widget_of(x)
                    == old(self).widget_of(x),
    {
        if w < self.w2r.len() {
            match self.w2r[w] {
                None => {},
                Some(r) => {
                    self.w2r.set(w, None);
                    self.r2w.set(r, None);
                },
            }
        }
        assert(self@ =~= old(self)@.remove(w));
    }
}

} // verus!
