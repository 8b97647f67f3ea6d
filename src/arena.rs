use vstd::prelude::*;

verus! {

/// A sequence of distinct indices below `n` holds at most `n` of them.
pub proof fn lemma_distinct_below(s: Seq<usize>, n: nat)
    requires
        s.no_duplicates(),
        forall|k: int| 0 <= k < s.len() ==> (#[trigger] s[k]) < n,
    ensures
        s.len() <= n,
    decreases n,
{
    if n == 0 {
        if s.len() > 0 {
            assert(s[0] < n);
        }
    } else if exists|k: int| 0 <= k < s.len() && s[k] == n - 1 {
        let k = choose|k: int| 0 <= k < s.len() && s[k] == n - 1;
        let t = s.remove(k);
        assert forall|a: int, b: int| 0 <= a < t.len() && 0 <= b < t.len() && a != b implies t[a]
            != t[b] by {
            let a2 = if a < k { a } else { a + 1 };
            let b2 = if b < k { b } else { b + 1 };
            assert(s[a2] != s[b2]);
        }
        assert forall|j: int| 0 <= j < t.len() implies (#[trigger] t[j]) < n - 1 by {
            let j2 = if j < k { j } else { j + 1 };
            assert(s[j2] != s[k]);
        }
        lemma_distinct_below(t, (n - 1) as nat);
    } else {
        assert forall|j: int| 0 <= j < s.len() implies (#[trigger] s[j]) < n - 1 by {
            assert(s[j] != n - 1);
        }
        lemma_distinct_below(s, (n - 1) as nat);
    }
}

/// An arena of nodes linked into a forest by parent and child indices.
///
/// Nodes are never reused: a node that leaves the structure for good is
/// marked dead and its index is never handed out again.
pub struct Tree<T> {
    pub parent: Vec<Option<usize>>,
    pub children: Vec<Vec<usize>>,
    pub live: Vec<bool>,
    pub data: Vec<T>,
}

impl<T> Tree<T> {
    pub open spec fn len(&self) -> nat {
        self.data@.len()
    }

    pub open spec fn parent_of(&self, i: int) -> Option<usize> {
        self.parent@[i]
    }

    pub open spec fn children_of(&self, i: int) -> Seq<usize> {
        self.children@[i]@
    }

    pub open spec fn is_live(&self, i: int) -> bool {
        0 <= i < self.len() && self.live@[i]
    }

    pub open spec fn data_of(&self, i: int) -> T {
        self.data@[i]
    }

    /// Parent and child links agree, a parent always has a smaller index than
    /// its children (so the links hold no cycle), and liveness is shared by a
    /// node and its parent.
    pub open spec fn wf(&self) -> bool {
        &&& self.len() <= usize::MAX
        &&& self.parent@.len() == self.len()
        &&& self.children@.len() == self.len()
        &&& self.live@.len() == self.len()
        &&& forall|i: int|
            0 <= i < self.len() && (#[trigger] self.parent@[i]) is Some ==> {
                let p = self.parent@[i].unwrap() as int;
                &&& p < i
                &&& self.children@[p]@.contains(i as usize)
                &&& self.live@[i] == self.live@[p]
            }
        &&& forall|i: int, j: int|
            0 <= i < self.len() && 0 <= j < self.children@[i]@.len() ==> {
                let c = (#[trigger] self.children@[i]@[j]) as int;
                &&& i < c < self.len()
                &&& self.parent@[c] == Some(i as usize)
            }
        &&& forall|i: int| 0 <= i < self.len() ==> (#[trigger] self.children@[i]@).no_duplicates()
    }

    /// `x` is `r` or one of its descendants.
    pub open spec fn in_subtree(&self, r: int, x: int) -> bool
        decreases x,
    {
        if x == r {
            true
        } else if 0 <= x < self.len() && self.parent@[x] is Some && self.parent@[x].unwrap() < x {
            self.in_subtree(r, self.parent@[x].unwrap() as int)
        } else {
            false
        }
    }

    /// The links of two arenas agree on every index that both hold.
    pub open spec fn same_links(&self, other: &Tree<T>) -> bool {
        &&& self.len() <= other.len()
        &&& forall|i: int| 0 <= i < self.len() ==> #[trigger] other.parent@[i] == self.parent@[i]
        &&& forall|i: int| 0 <= i < self.len() ==> #[trigger] other.children@[i] == self.children@[i]
    }

    pub proof fn lemma_subtree_bounds(&self, r: int, x: int)
        requires
            self.in_subtree(r, x),
        ensures
            r <= x,
        decreases x,
    {
        if x != r {
            self.lemma_subtree_bounds(r, self.parent@[x].unwrap() as int);
        }
    }

    /// A strict descendant of `r` lies under one of the children of `r`.
    pub proof fn lemma_subtree_child(&self, r: int, x: int)
        requires
            self.wf(),
            0 <= r < self.len(),
            self.in_subtree(r, x),
            x != r,
        ensures
            exists|c: usize| #[trigger]
                self.children@[r]@.contains(c) && self.in_subtree(c as int, x),
        decreases x,
    {
        let p = self.parent@[x].unwrap() as int;
        if p == r {
            assert(self.children@[r]@.contains(x as usize));
            assert(self.in_subtree((x as usize) as int, x));
        } else {
            self.lemma_subtree_child(r, p);
            let c = choose|c: usize| #[trigger]
                self.children@[r]@.contains(c) && self.in_subtree(c as int, p);
            assert(self.in_subtree(c as int, x));
        }
    }

    /// The parent links of two arenas agree on every index of the first.
    pub open spec fn same_parents(&self, other: &Tree<T>) -> bool {
        &&& self.len() <= other.len()
        &&& forall|i: int| 0 <= i < self.len() ==> #[trigger] other.parent@[i] == self.parent@[i]
    }

    /// `x` under `y` under `r` is under `r`.
    pub proof fn lemma_subtree_trans(&self, r: int, y: int, x: int)
        requires
            self.in_subtree(r, y),
            self.in_subtree(y, x),
        ensures
            self.in_subtree(r, x),
        decreases x,
    {
        if x != y {
            self.lemma_subtree_trans(r, y, self.parent@[x].unwrap() as int);
        }
    }

    /// Subtree membership reads only the parent links.
    pub proof fn lemma_subtree_frame(&self, other: &Tree<T>, r: int, x: int)
        requires
            self.same_parents(other),
        ensures
            0 <= x < self.len() ==> (self.in_subtree(r, x) == other.in_subtree(r, x)),
        decreases x,
    {
        if 0 <= x < self.len() && x != r && self.parent@[x] is Some && self.parent@[x].unwrap()
            < x {
            self.lemma_subtree_frame(other, r, self.parent@[x].unwrap() as int);
        }
    }

    /// Membership in the subtree of `x` does not read the parent link of `x`.
    pub proof fn lemma_subtree_frame_but(&self, other: &Tree<T>, x: int, y: int)
        requires
            self.len() <= other.len(),
            forall|i: int| 0 <= i < self.len() && i != x ==> #[trigger] other.parent@[i] == self.parent@[i],
            0 <= y < self.len(),
        ensures
            self.in_subtree(x, y) == other.in_subtree(x, y),
        decreases y,
    {
        if y != x && self.parent@[y] is Some && self.parent@[y].unwrap() < y {
            self.lemma_subtree_frame_but(other, x, self.parent@[y].unwrap() as int);
        }
    }

    /// Two siblings share no descendant.
    pub proof fn lemma_sibling_disjoint(&self, a: int, b: int, x: int)
        requires
            self.wf(),
            0 <= a < self.len(),
            0 <= b < self.len(),
            self.parent@[a] is Some,
            self.parent@[a] == self.parent@[b],
            self.in_subtree(a, x),
            self.in_subtree(b, x),
        ensures
            a == b,
        decreases x,
    {
        let p = self.parent@[a].unwrap() as int;
        if x == a {
            if b != a {
                self.lemma_subtree_bounds(b, p);
            }
        } else if x == b {
            self.lemma_subtree_bounds(a, p);
        } else {
            self.lemma_sibling_disjoint(a, b, self.parent@[x].unwrap() as int);
        }
    }

    /// Liveness is shared by a whole subtree.
    pub proof fn lemma_subtree_live(&self, r: int, x: int)
        requires
            self.wf(),
            0 <= x < self.len(),
            self.in_subtree(r, x),
        ensures
            self.live@[x] == self.live@[r],
        decreases x,
    {
        if x != r {
            self.lemma_subtree_live(r, self.parent@[x].unwrap() as int);
        }
    }

    pub fn new() -> (t: Tree<T>)
        ensures
            t.wf(),
            t.len() == 0,
    {
        Tree { parent: Vec::new(), children: Vec::new(), live: Vec::new(), data: Vec::new() }
    }

    pub fn len_exec(&self) -> (n: usize)
        requires
            self.wf(),
        ensures
            n == self.len(),
    {
        self.data.len()
    }

    /// Adds a live node with no parent and no children.
    pub fn add_node(&mut self, value: T) -> (id: usize)
        requires
            old(self).wf(),
            old(self).len() < usize::MAX,
        ensures
            final(self).wf(),
            id == old(self).len(),
            final(self).len() == old(self).len() + 1,
            final(self).parent@ == old(self).parent@.push(None),
            final(self).children@.len() == old(self).children@.len() + 1,
            forall|i: int|
                0 <= i < old(self).len() ==> #[trigger] final(self).children@[i]
                    == old(self).children@[i],
            final(self).children_of(id as int).len() == 0,
            final(self).live@ == old(self).live@.push(true),
            final(self).data@ == old(self).data@.push(value),
            old(self).same_links(&*final(self)),
            old(self).same_parents(&*final(self)),
    {
        let id = self.data.len();
        self.parent.push(None);
        self.children.push(Vec::new());
        self.live.push(true);
        self.data.push(value);
        assert forall|i: int, j: int|
            0 <= i < self.len() && 0 <= j < self.children@[i]@.len() implies {
            let c = (#[trigger] self.children@[i]@[j]) as int;
            &&& i < c < self.len()
            &&& self.parent@[c] == Some(i as usize)
        } by {
            assert(i < id);
            assert(old(self).children@[i]@[j] < id);
        }
        id
    }

    pub fn parent(&self, id: usize) -> (p: Option<usize>)
        requires
            self.wf(),
            id < self.len(),
        ensures
            p == self.parent_of(id as int),
    {
        self.parent[id]
    }

    pub fn is_alive(&self, id: usize) -> (b: bool)
        requires
            self.wf(),
        ensures
            b == self.is_live(id as int),
    {
        id < self.live.len() && self.live[id]
    }

    pub fn get(&self, id: usize) -> (v: &T)
        requires
            self.wf(),
            id < self.len(),
        ensures
            *v == self.data_of(id as int),
    {
        &self.data[id]
    }

    pub fn children_ref(&self, id: usize) -> (c: &Vec<usize>)
        requires
            self.wf(),
            id < self.len(),
        ensures
            c@ == self.children_of(id as int),
    {
        &self.children[id]
    }

    pub fn first_child(&self, id: usize) -> (c: Option<usize>)
        requires
            self.wf(),
            id < self.len(),
        ensures
            c == (if self.children_of(id as int).len() == 0 {
                None
            } else {
                Some(self.children_of(id as int)[0])
            }),
    {
        if self.children[id].len() == 0 {
            None
        } else {
            Some(self.children[id][0])
        }
    }

    /// The position of `id` in its parent's list of children.
    fn position(&self, p: usize, id: usize) -> (k: usize)
        requires
            self.wf(),
            p < self.len(),
            self.children_of(p as int).contains(id),
        ensures
            k < self.children_of(p as int).len(),
            self.children_of(p as int)[k as int] == id,
    {
        let ch = &self.children[p];
        let mut k: usize = 0;
        while k < ch.len()
            invariant
                k <= ch@.len(),
                ch@ == self.children_of(p as int),
                ch@.contains(id),
                forall|j: int| 0 <= j < k ==> ch@[j] != id,
            decreases ch@.len() - k,
        {
            if ch[k] == id {
                return k;
            }
            k += 1;
        }
        proof {
            let j = choose|j: int| 0 <= j < ch@.len() && ch@[j] == id;
            assert(ch@[j] != id);
        }
        0
    }

    pub fn next_sibling(&self, id: usize) -> (s: Option<usize>)
        requires
            self.wf(),
            id < self.len(),
        ensures
            self.parent_of(id as int) is None ==> s is None,
            self.parent_of(id as int) matches Some(p) ==> {
                let sib = self.children_of(p as int);
                exists|k: int|
                    0 <= k < sib.len() && #[trigger] sib[k] == id && s == (if k + 1 < sib.len() {
                        Some(sib[k + 1])
                    } else {
                        None
                    })
            },
    {
        match self.parent[id] {
            None => None,
            Some(p) => {
                assert(self.children_of(p as int).contains(id));
                let k = self.position(p, id);
                if k < self.children[p].len() - 1 {
                    Some(self.children[p][k + 1])
                } else {
                    None
                }
            },
        }
    }

    /// Replaces the value held by a node; the links stay as they are.
    pub fn set_data(&mut self, id: usize, value: T)
        requires
            old(self).wf(),
            id < old(self).len(),
        ensures
            final(self).wf(),
            final(self).parent@ == old(self).parent@,
            final(self).children@ == old(self).children@,
            final(self).live@ == old(self).live@,
            final(self).data@ == old(self).data@.update(id as int, value),
    {
        self.data.set(id, value);
    }

    /// Makes the parentless node `c` the last child of `p`.
    pub fn append_child(&mut self, p: usize, c: usize)
        requires
            old(self).wf(),
            p < c < old(self).len(),
            old(self).parent_of(c as int) is None,
            old(self).live@[p as int] == old(self).live@[c as int],
        ensures
            final(self).wf(),
            final(self).len() == old(self).len(),
            final(self).parent@ == old(self).parent@.update(c as int, Some(p)),
            final(self).children@.len() == old(self).children@.len(),
            final(self).children_of(p as int) == old(self).children_of(p as int).push(c),
            forall|i: int|
                0 <= i < old(self).len() && i != p ==> #[trigger] final(self).children@[i]
                    == old(self).children@[i],
            final(self).live@ == old(self).live@,
            final(self).data@ == old(self).data@,
    {
        proof {
            if self.children_of(p as int).contains(c) {
                let j = choose|j: int|
                    0 <= j < self.children_of(p as int).len() && self.children_of(p as int)[j]
                        == c;
                assert(self.children@[p as int]@[j] == c);
            }
        }
        self.children[p].push(c);
        self.parent.set(c, Some(p));
        assert forall|i: int| 0 <= i < self.len() && (#[trigger] self.parent@[i]) is Some implies {
            let q = self.parent@[i].unwrap() as int;
            &&& q < i
            &&& self.children@[q]@.contains(i as usize)
            &&& self.live@[i] == self.live@[q]
        } by {
            if i != c {
                let q = self.parent@[i].unwrap() as int;
                assert(old(self).children@[q]@.contains(i as usize));
                if q == p {
                    let j = choose|j: int|
                        0 <= j < old(self).children@[q]@.len() && old(self).children@[q]@[j] == i;
                    assert(self.children@[q]@[j] == i);
                }
            } else {
                assert(self.children@[p as int]@[self.children@[p as int]@.len() - 1] == c);
            }
        }
        assert forall|i: int, j: int|
            0 <= i < self.len() && 0 <= j < self.children@[i]@.len() implies {
            let x = (#[trigger] self.children@[i]@[j]) as int;
            &&& i < x < self.len()
            &&& self.parent@[x] == Some(i as usize)
        } by {
            if i == p && j == self.children@[i]@.len() - 1 {
            } else {
                assert(old(self).children@[i]@[j] == self.children@[i]@[j]);
                assert(old(self).children@[i]@[j] != c);
            }
        }
    }

    /// Takes `id` out of its parent's children; it keeps its own subtree.
    pub fn detach(&mut self, id: usize)
        requires
            old(self).wf(),
            id < old(self).len(),
        ensures
            final(self).wf(),
            final(self).len() == old(self).len(),
            final(self).parent@ == old(self).parent@.update(id as int, None),
            final(self).children@.len() == old(self).children@.len(),
            old(self).parent_of(id as int) is None ==> final(self).children@ == old(
                self,
            ).children@,
            old(self).parent_of(id as int) matches Some(p) ==> {
                &&& exists|k: int|
                    0 <= k < old(self).children_of(p as int).len() && old(self).children_of(
                        p as int,
                    )[k] == id && final(self).children_of(p as int) == old(self).children_of(
                        p as int,
                    ).remove(k)
                &&& forall|i: int|
                    0 <= i < old(self).len() && i != p ==> #[trigger] final(self).children@[i]
                        == old(self).children@[i]
            },
            final(self).live@ == old(self).live@,
            final(self).data@ == old(self).data@,
    {
        match self.parent[id] {
            None => {},
            Some(p) => {
                assert(self.children_of(p as int).contains(id));
                let k = self.position(p, id);
                let ghost before = self.children_of(p as int);
                self.children[p].remove(k);
                self.parent.set(id, None);
                assert(self.children_of(p as int) == before.remove(k as int));
                assert forall|i: int|
                    0 <= i < self.len() && (#[trigger] self.parent@[i]) is Some implies {
                    let q = self.parent@[i].unwrap() as int;
                    &&& q < i
                    &&& self.children@[q]@.contains(i as usize)
                    &&& self.live@[i] == self.live@[q]
                } by {
                    let q = self.parent@[i].unwrap() as int;
                    assert(old(self).children@[q]@.contains(i as usize));
                    if q == p {
                        let j = choose|j: int| 0 <= j < before.len() && before[j] == i;
                        assert(i != id);
                        assert(j != k);
                        if j < k {
                            assert(self.children@[q]@[j] == i);
                        } else {
                            assert(self.children@[q]@[j - 1] == i);
                        }
                    }
                }
                assert forall|i: int, j: int|
                    0 <= i < self.len() && 0 <= j < self.children@[i]@.len() implies {
                    let x = (#[trigger] self.children@[i]@[j]) as int;
                    &&& i < x < self.len()
                    &&& self.parent@[x] == Some(i as usize)
                } by {
                    if i == p {
                        let j2 = if j < k { j } else { j + 1 };
                        assert(self.children@[i]@[j] == before[j2]);
                        assert(before[j2] != before[k as int]);
                    } else {
                        assert(old(self).children@[i]@[j] == self.children@[i]@[j]);
                    }
                }
                assert forall|i: int| 0 <= i < self.len() implies (
                #[trigger] self.children@[i]@).no_duplicates() by {
                    if i == p {
                        assert forall|a: int, b: int|
                            0 <= a < self.children@[i]@.len() && 0 <= b
                                < self.children@[i]@.len() && a != b implies self.children@[i]@[a]
                            != self.children@[i]@[b] by {
                            let a2 = if a < k { a } else { a + 1 };
                            let b2 = if b < k { b } else { b + 1 };
                            assert(before[a2] != before[b2]);
                        }
                    }
                }
            },
        }
    }

    /// Pushes the children of `n`, in order, onto `stack`.
    fn push_children(&self, n: usize, stack: &mut Vec<usize>)
        requires
            self.wf(),
            n < self.len(),
            old(stack)@.no_duplicates(),
            forall|c: usize| #[trigger]
                self.children_of(n as int).contains(c) ==> !old(stack)@.contains(c),
        ensures
            final(stack)@ == old(stack)@ + self.children_of(n as int),
            final(stack)@.no_duplicates(),
            forall|x: usize| #[trigger]
                final(stack)@.contains(x) <==> (old(stack)@.contains(x) || self.children_of(
                    n as int,
                ).contains(x)),
    {
        let ch = &self.children[n];
        let ghost s0 = stack@;
        let mut j: usize = 0;
        while j < ch.len()
            invariant
                self.wf(),
                n < self.len(),
                ch@ == self.children_of(n as int),
                j <= ch@.len(),
                s0.no_duplicates(),
                forall|c: usize| #[trigger] ch@.contains(c) ==> !s0.contains(c),
                stack@ == s0 + ch@.subrange(0, j as int),
                stack@.no_duplicates(),
                forall|x: usize| #[trigger]
                    stack@.contains(x) <==> (s0.contains(x) || ch@.subrange(0, j as int).contains(x)),
            decreases ch@.len() - j,
        {
            let c = ch[j];
            let ghost st = stack@;
            proof {
                assert(ch@.contains(c));
                if ch@.subrange(0, j as int).contains(c) {
                    let a = choose|a: int| 0 <= a < j && #[trigger] ch@.subrange(0, j as int)[a] == c;
                    assert(self.children@[n as int]@[a] == self.children@[n as int]@[j as int]);
                }
                lemma_push_contains(st, c);
                lemma_push_parts(st, c);
                assert(ch@.subrange(0, j + 1) == ch@.subrange(0, j as int).push(c));
                lemma_push_contains(ch@.subrange(0, j as int), c);
            }
            stack.push(c);
            j += 1;
        }
        assert(ch@.subrange(0, j as int) == ch@);
    }

    /// Marks the parentless node `id` and its whole subtree dead, and returns
    /// that subtree. The links stay, so the dead part is never reached from a
    /// live node again.
    pub fn kill_subtree(&mut self, id: usize) -> (s: Vec<usize>)
        requires
            old(self).wf(),
            id < old(self).len(),
            old(self).parent_of(id as int) is None,
        ensures
            final(self).wf(),
            final(self).parent@ == old(self).parent@,
            final(self).children@ == old(self).children@,
            final(self).data@ == old(self).data@,
            final(self).live@.len() == old(self).live@.len(),
            forall|i: int|
                0 <= i < old(self).len() ==> #[trigger] final(self).live@[i] == (old(self).live@[i]
                    && !old(self).in_subtree(id as int, i)),
            s@.no_duplicates(),
            s@.len() > 0,
            s@[0] == id,
            forall|x: usize| #[trigger]
                s@.contains(x) <==> (x < old(self).len() && old(self).in_subtree(
                    id as int,
                    x as int,
                )),
    {
        let s = self.subtree(id);
        let mut k: usize = 0;
        while k < s.len()
            invariant
                k <= s@.len(),
                self.parent@ == old(self).parent@,
                self.children@ == old(self).children@,
                self.data@ == old(self).data@,
                self.live@.len() == old(self).live@.len(),
                old(self).wf(),
                forall|x: usize| #[trigger]
                    s@.contains(x) <==> (x < old(self).len() && old(self).in_subtree(
                        id as int,
                        x as int,
                    )),
                forall|i: int|
                    0 <= i < old(self).len() ==> #[trigger] self.live@[i] == (old(self).live@[i]
                        && !s@.subrange(0, k as int).contains(i as usize)),
            decreases s@.len() - k,
        {
            let x = s[k];
            assert(s@.contains(x));
            self.live.set(x, false);
            proof {
                assert forall|i: int| 0 <= i < old(self).len() implies #[trigger] self.live@[i] == (
                old(self).live@[i] && !s@.subrange(0, k + 1).contains(i as usize)) by {
                    assert(s@.subrange(0, k + 1) == s@.subrange(0, k as int).push(x));
                    lemma_push_contains(s@.subrange(0, k as int), x);
                }
            }
            k += 1;
        }
        proof {
            assert(s@.subrange(0, k as int) == s@);
            assert forall|i: int| 0 <= i < old(self).len() implies #[trigger] self.live@[i] == (
            old(self).live@[i] && !old(self).in_subtree(id as int, i)) by {
                assert(s@.contains(i as usize) == old(self).in_subtree(id as int, i));
            }
            assert forall|i: int|
                0 <= i < self.len() && (#[trigger] self.parent@[i]) is Some implies {
                let p = self.parent@[i].unwrap() as int;
                &&& p < i
                &&& self.children@[p]@.contains(i as usize)
                &&& self.live@[i] == self.live@[p]
            } by {
                let p = self.parent@[i].unwrap() as int;
                assert(i != id);
                assert(old(self).in_subtree(id as int, i) == old(self).in_subtree(id as int, p));
                assert(self.live@[p] == (old(self).live@[p] && !old(self).in_subtree(id as int, p)));
            }
        }
        s
    }

    /// A node above `a[j]` on an ancestor chain `a` appears on it after `j`.
    pub proof fn lemma_on_chain(&self, a: Seq<usize>, j: int, y: int)
        requires
            0 <= j < a.len(),
            forall|k: int| 0 <= k < a.len() - 1 ==> self.parent_of(#[trigger] a[k] as int) == Some(a[k + 1]),
            self.parent_of(a[a.len() - 1] as int) is None,
            self.in_subtree(y, a[j] as int),
        ensures
            exists|q: int| j <= q < a.len() && a[q] == y,
        decreases a.len() - j,
    {
        if a[j] as int != y {
            if j == a.len() - 1 {
            } else {
                assert(self.parent_of(a[j] as int) == Some(a[j + 1]));
                self.lemma_on_chain(a, j + 1, y);
            }
        } else {
            assert(a[j] == y);
        }
    }

    /// `id`, its parent, and so on up to the node with no parent.
    pub fn ancestors(&self, id: usize) -> (a: Vec<usize>)
        requires
            self.wf(),
            id < self.len(),
        ensures
            a@.len() > 0,
            a@[0] == id,
            forall|k: int|
                0 <= k < a@.len() - 1 ==> self.parent_of(#[trigger] a@[k] as int) == Some(
                    a@[k + 1],
                ),
            self.parent_of(a@[a@.len() - 1] as int) is None,
            forall|k: int| 0 <= k < a@.len() ==> (#[trigger] a@[k] as int) < self.len(),
    {
        let mut a: Vec<usize> = Vec::new();
        a.push(id);
        let mut cur = id;
        while self.parent[cur].is_some()
            invariant
                self.wf(),
                cur < self.len(),
                a@.len() > 0,
                a@[0] == id,
                a@[a@.len() - 1] == cur,
                forall|k: int|
                    0 <= k < a@.len() - 1 ==> self.parent_of(#[trigger] a@[k] as int) == Some(
                        a@[k + 1],
                    ),
                forall|k: int| 0 <= k < a@.len() ==> (#[trigger] a@[k] as int) < self.len(),
            decreases cur,
        {
            let p = self.parent[cur].unwrap();
            a.push(p);
            proof {
                assert forall|k: int| 0 <= k < a@.len() - 1 implies self.parent_of(
                    #[trigger] a@[k] as int,
                ) == Some(a@[k + 1]) by {
                    if k == a@.len() - 2 {
                    } else {
                        assert(a@[k] == a@.drop_last()[k]);
                    }
                }
            }
            cur = p;
        }
        a
    }

    /// Replaces the child list of `p` by another order of the same nodes.
    pub fn set_children(&mut self, p: usize, order: Vec<usize>)
        requires
            old(self).wf(),
            p < old(self).len(),
            order@.no_duplicates(),
            forall|x: usize| #[trigger]
                order@.contains(x) <==> old(self).children_of(p as int).contains(x),
        ensures
            final(self).wf(),
            final(self).parent@ == old(self).parent@,
            final(self).live@ == old(self).live@,
            final(self).data@ == old(self).data@,
            final(self).children@.len() == old(self).children@.len(),
            final(self).children_of(p as int) == order@,
            forall|i: int|
                0 <= i < old(self).len() && i != p ==> #[trigger] final(self).children@[i]
                    == old(self).children@[i],
    {
        let ghost before = self.children_of(p as int);
        self.children.set(p, order);
        assert forall|i: int| 0 <= i < self.len() && (#[trigger] self.parent@[i]) is Some implies {
            let q = self.parent@[i].unwrap() as int;
            &&& q < i
            &&& self.children@[q]@.contains(i as usize)
            &&& self.live@[i] == self.live@[q]
        } by {
            let q = self.parent@[i].unwrap() as int;
            assert(old(self).children@[q]@.contains(i as usize));
        }
        assert forall|i: int, j: int|
            0 <= i < self.len() && 0 <= j < self.children@[i]@.len() implies {
            let x = (#[trigger] self.children@[i]@[j]) as int;
            &&& i < x < self.len()
            &&& self.parent@[x] == Some(i as usize)
        } by {
            if i == p {
                let x = self.children@[i]@[j];
                assert(self.children_of(p as int).contains(x));
                assert(before.contains(x));
                let k = choose|k: int| 0 <= k < before.len() && before[k] == x;
                assert(old(self).children@[i]@[k] == x);
            } else {
                assert(old(self).children@[i]@[j] == self.children@[i]@[j]);
            }
        }
    }

    /// The nodes of the subtree under `id`, `id` first, each once.
    pub fn subtree(&self, id: usize) -> (s: Vec<usize>)
        requires
            self.wf(),
            id < self.len(),
        ensures
            s@.no_duplicates(),
            s@.len() > 0,
            s@[0] == id,
            forall|x: usize| #[trigger]
                s@.contains(x) <==> (x < self.len() && self.in_subtree(id as int, x as int)),
    {
        let mut out: Vec<usize> = Vec::new();
        let mut stack: Vec<usize> = Vec::new();
        stack.push(id);
        proof {
            lemma_push_contains(Seq::<usize>::empty(), id);
            assert(stack@[0] == id);
        }
        while stack.len() > 0
            invariant
                self.wf(),
                id < self.len(),
                out@.len() > 0 ==> out@[0] == id,
                out@.len() == 0 ==> stack@ == seq![id],
                out@.no_duplicates(),
                stack@.no_duplicates(),
                forall|x: usize| #[trigger] out@.contains(x) ==> !stack@.contains(x),
                forall|x: usize| #[trigger]
                    out@.contains(x) ==> x < self.len() && self.in_subtree(id as int, x as int),
                forall|x: usize| #[trigger]
                    stack@.contains(x) ==> x < self.len() && self.in_subtree(id as int, x as int),
                forall|x: usize| #[trigger]
                    out@.contains(x) && x != id ==> self.parent@[x as int] is Some
                        && out@.contains(self.parent@[x as int].unwrap()),
                forall|x: usize| #[trigger]
                    stack@.contains(x) && x != id ==> self.parent@[x as int] is Some
                        && out@.contains(self.parent@[x as int].unwrap()),
                forall|x: usize|
                    x < self.len() && self.in_subtree(id as int, x as int) && !out@.contains(x)
                        ==> exists|k: int|
                        0 <= k < stack@.len() && self.in_subtree(
                            #[trigger] stack@[k] as int,
                            x as int,
                        ),
            decreases self.len() - out@.len(),
        {
            let ghost out0 = out@;
            let ghost stack0 = stack@;
            let n = stack.pop().unwrap();
            let ghost stack1 = stack@;
            proof {
                assert(stack0 == stack1.push(n));
                lemma_push_parts(stack1, n);
                assert(stack0.contains(n));
                assert(!out0.contains(n));
                lemma_push_contains(out0, n);
                lemma_push_parts(out0, n);
            }
            out.push(n);
            proof {
                assert forall|k: int| 0 <= k < out@.len() implies (#[trigger] out@[k]) < self.len() by {
                    assert(out@.contains(out@[k]));
                }
                lemma_distinct_below(out@, self.len());
            }
            proof {
                lemma_push_contains(stack1, n);
                assert(out@ == out0.push(n));
                assert forall|c: usize| #[trigger] self.children_of(n as int).contains(c) implies !stack@.contains(c)
                    && !out@.contains(c) by {
                    let a = choose|a: int| 0 <= a < self.children_of(n as int).len() && self.children_of(n as int)[a] == c;
                    assert(self.children@[n as int]@[a] == c);
                    assert(self.parent@[c as int] == Some(n));
                    self.lemma_subtree_bounds(id as int, n as int);
                    assert(c != id);
                    assert(c != n);
                    if stack1.contains(c) {
                        assert(stack0.contains(c));
                        assert(out0.contains(n));
                    }
                    if out0.contains(c) {
                        assert(out0.contains(n));
                    }
                }
            }
            self.push_children(n, &mut stack);
            let ghost ch = self.children_of(n as int);
            proof {
                assert forall|x: usize| #[trigger] stack@.contains(x) implies x < self.len() && self.in_subtree(id as int, x as int)
                    && !out@.contains(x) && (x != id ==> self.parent@[x as int] is Some
                        && out@.contains(self.parent@[x as int].unwrap())) by {
                    if ch.contains(x) {
                        let a = choose|a: int| 0 <= a < ch.len() && ch[a] == x;
                        assert(self.children@[n as int]@[a] == x);
                        assert(self.parent@[x as int] == Some(n));
                        self.lemma_subtree_bounds(id as int, n as int);
                        assert(out@.contains(n));
                    } else {
                        assert(stack1.contains(x));
                        assert(stack0.contains(x));
                        assert(!out0.contains(x));
                        assert(x != n);
                        if x != id {
                            assert(out0.contains(self.parent@[x as int].unwrap()));
                        }
                    }
                }
            }
            proof {
                assert forall|x: usize|
                    x < self.len() && self.in_subtree(id as int, x as int) && !out@.contains(
                        x,
                    ) implies exists|k: int|
                    0 <= k < stack@.len() && self.in_subtree(#[trigger] stack@[k] as int, x as int) by {
                    assert(!out0.contains(x));
                    let k0 = choose|k: int|
                        0 <= k < stack0.len() && self.in_subtree(
                            #[trigger] stack0[k] as int,
                            x as int,
                        );
                    if k0 < stack1.len() {
                        assert(stack@[k0] == stack1[k0]);
                    } else {
                        assert(x != n);
                        self.lemma_subtree_child(n as int, x as int);
                        let c = choose|c: usize| #[trigger]
                            self.children@[n as int]@.contains(c) && self.in_subtree(
                                c as int,
                                x as int,
                            );
                        let jj = choose|jj: int| 0 <= jj < ch.len() && ch[jj] == c;
                        assert(stack@[stack1.len() + jj] == c);
                    }
                }
            }
        }
        out
    }
}

/// What `push` leaves in a sequence.
pub proof fn lemma_push_contains<A>(s: Seq<A>, c: A)
    ensures
        forall|x: A| #[trigger] s.push(c).contains(x) <==> (s.contains(x) || x == c),
{
    assert forall|x: A| #[trigger] s.push(c).contains(x) <==> (s.contains(x) || x == c) by {
        if s.contains(x) {
            let k = choose|k: int| 0 <= k < s.len() && s[k] == x;
            assert(s.push(c)[k] == x);
        }
        if x == c {
            assert(s.push(c)[s.len() as int] == c);
        }
        if s.push(c).contains(x) {
            let k = choose|k: int| 0 <= k < s.len() + 1 && s.push(c)[k] == x;
            if k < s.len() {
                assert(s[k] == x);
            }
        }
    }
}

/// What removing one element of a sequence without repeats leaves in it.
pub proof fn lemma_remove_contains<A>(s: Seq<A>, k: int)
    requires
        s.no_duplicates(),
        0 <= k < s.len(),
    ensures
        s.remove(k).no_duplicates(),
        forall|x: A| #[trigger] s.remove(k).contains(x) <==> (s.contains(x) && x != s[k]),
{
    let t = s.remove(k);
    assert forall|a: int, b: int| 0 <= a < t.len() && 0 <= b < t.len() && a != b implies t[a] != t[b] by {
        let a2 = if a < k { a } else { a + 1 };
        let b2 = if b < k { b } else { b + 1 };
        assert(s[a2] != s[b2]);
    }
    assert forall|x: A| #[trigger] t.contains(x) <==> (s.contains(x) && x != s[k]) by {
        if t.contains(x) {
            let j = choose|j: int| 0 <= j < t.len() && t[j] == x;
            let j2 = if j < k { j } else { j + 1 };
            assert(s[j2] == x);
            assert(j2 != k);
        }
        if s.contains(x) && x != s[k] {
            let j = choose|j: int| 0 <= j < s.len() && s[j] == x;
            if j < k {
                assert(t[j] == x);
            } else {
                assert(t[j - 1] == x);
            }
        }
    }
}

/// A sequence without repeats, split into its front and its last element.
pub proof fn lemma_push_parts<A>(s: Seq<A>, c: A)
    ensures
        s.push(c).no_duplicates() <==> (s.no_duplicates() && !s.contains(c)),
{
    let t = s.push(c);
    if t.no_duplicates() {
        assert forall|a: int, b: int| 0 <= a < s.len() && 0 <= b < s.len() && a != b implies s[a]
            != s[b] by {
            assert(t[a] != t[b]);
        }
        if s.contains(c) {
            let k = choose|k: int| 0 <= k < s.len() && s[k] == c;
            assert(t[k] == t[s.len() as int]);
        }
    }
    if s.no_duplicates() && !s.contains(c) {
        assert forall|a: int, b: int| 0 <= a < t.len() && 0 <= b < t.len() && a != b implies t[a]
            != t[b] by {
            if a < s.len() && b < s.len() {
                assert(s[a] != s[b]);
            } else if a < s.len() {
                assert(s.contains(s[a]));
            } else if b < s.len() {
                assert(s.contains(s[b]));
            }
        }
    }
}

} // verus!
