//! A set of 32-bit values kept as a strictly increasing vector, and the least superset
//! of a seed set that is closed under a finite list of edges.
use vstd::prelude::*;

verus! {

/// A deduplicated, sorted set of addresses (or function indices).
#[derive(Clone, Debug)]
pub struct AddressSet {
    pub items: Vec<u32>,
}

pub open spec fn strictly_increasing(s: Seq<u32>) -> bool {
    forall|i: int, j: int| 0 <= i < j < s.len() ==> s[i] < s[j]
}

/// `s` is closed under the edges: the target of every edge whose source is in `s` is in `s`.
pub open spec fn closed_under(s: Set<u32>, edges: Seq<(u32, u32)>) -> bool {
    forall|i: int| 0 <= i < edges.len() && s.contains(#[trigger] edges[i].0) ==> s.contains(edges[i].1)
}

/// `(a, b)` is one of the edges.
pub open spec fn has_edge(edges: Seq<(u32, u32)>, a: u32, b: u32) -> bool {
    exists|j: int| 0 <= j < edges.len() && #[trigger] edges[j] == (a, b)
}

/// `x` lies in every set that holds the seeds and is closed under the edges.
pub open spec fn in_closure(seeds: Set<u32>, edges: Seq<(u32, u32)>, x: u32) -> bool {
    forall|l: Set<u32>| seeds.subset_of(l) && closed_under(l, edges) ==> #[trigger] l.contains(x)
}

/// The number of edges whose target is not in `s`.
pub open spec fn open_edges(edges: Seq<(u32, u32)>, s: Set<u32>) -> nat
    decreases edges.len(),
{
    if edges.len() == 0 {
        0
    } else {
        open_edges(edges.drop_last(), s) + if s.contains(edges.last().1) { 0nat } else { 1nat }
    }
}

proof fn lemma_open_edges_monotone(edges: Seq<(u32, u32)>, s: Set<u32>, t: Set<u32>)
    requires
        s.subset_of(t),
    ensures
        open_edges(edges, t) <= open_edges(edges, s),
    decreases edges.len(),
{
    if edges.len() > 0 {
        lemma_open_edges_monotone(edges.drop_last(), s, t);
    }
}

proof fn lemma_open_edges_strict(edges: Seq<(u32, u32)>, s: Set<u32>, t: Set<u32>, i: int)
    requires
        s.subset_of(t),
        0 <= i < edges.len(),
        !s.contains(edges[i].1),
        t.contains(edges[i].1),
    ensures
        open_edges(edges, t) < open_edges(edges, s),
    decreases edges.len(),
{
    if i == edges.len() - 1 {
        lemma_open_edges_monotone(edges.drop_last(), s, t);
    } else {
        lemma_open_edges_strict(edges.drop_last(), s, t, i);
    }
}

impl AddressSet {
    pub open spec fn view(&self) -> Set<u32> {
        Set::new(|a: u32| self.items@.contains(a))
    }

    pub open spec fn wf(&self) -> bool {
        strictly_increasing(self.items@)
    }

    pub fn new() -> (r: AddressSet)
        ensures
            r.wf(),
            r.view() == Set::<u32>::empty(),
    {
        let r = AddressSet { items: Vec::new() };
        assert(r.view() =~= Set::<u32>::empty());
        r
    }

    pub fn contains(&self, a: u32) -> (r: bool)
        requires
            self.wf(),
        ensures
            r == self.view().contains(a),
    {
        let mut i: usize = 0;
        while i < self.items.len()
            invariant
                i <= self.items.len(),
                forall|j: int| 0 <= j < i ==> self.items@[j] != a,
            decreases self.items.len() - i,
        {
            if self.items[i] == a {
                return true;
            }
            i = i + 1;
        }
        false
    }

    /// Adds `a`, keeping the items sorted and free of duplicates.
    pub fn insert(&mut self, a: u32)
        requires
            old(self).wf(),
        ensures
            final(self).wf(),
            final(self).view() == old(self).view().insert(a),
    {
        let mut i: usize = 0;
        while i < self.items.len() && self.items[i] < a
            invariant
                i <= self.items.len(),
                self.wf(),
                self.items@ == old(self).items@,
                forall|j: int| 0 <= j < i ==> self.items@[j] < a,
            decreases self.items.len() - i,
        {
            i = i + 1;
        }
        if i < self.items.len() && self.items[i] == a {
            assert(self.view() =~= self.view().insert(a));
            return;
        }
        let ghost before = self.items@;
        self.items.insert(i, a);
        assert(strictly_increasing(self.items@)) by {
            assert forall|p: int, q: int| 0 <= p < q < self.items@.len() implies self.items@[p] < self.items@[q] by {
                if q < i {
                } else if q == i {
                } else if p < i {
                    assert(before[i as int] > a);
                } else if p == i {
                    assert(before[i as int] > a);
                } else {
                }
            }
        }
        assert(self.view() =~= old(self).view().insert(a)) by {
            assert forall|x: u32| self.items@.contains(x) <==> (before.contains(x) || x == a) by {
                if self.items@.contains(x) {
                    let k = choose|k: int| 0 <= k < self.items@.len() && self.items@[k] == x;
                    if k < i {
                        assert(before[k] == x);
                    } else if k > i {
                        assert(before[k - 1] == x);
                    }
                }
                if before.contains(x) {
                    let k = choose|k: int| 0 <= k < before.len() && before[k] == x;
                    if k < i {
                        assert(self.items@[k] == x);
                    } else {
                        assert(self.items@[k + 1] == x);
                    }
                }
                if x == a {
                    assert(self.items@[i as int] == x);
                }
            }
            assert(before == old(self).items@);
            assert forall|x: u32| self.view().contains(x) == old(self).view().insert(a).contains(x) by {
                assert(self.items@.contains(x) <==> (before.contains(x) || x == a));
            }
        }
    }

    /// The least superset of `self` closed under `edges`.
    pub fn close(self, edges: &Vec<(u32, u32)>) -> (r: AddressSet)
        requires
            self.wf(),
        ensures
            r.wf(),
            self.view().subset_of(r.view()),
            closed_under(r.view(), edges@),
            forall|x: u32| r.view().contains(x) ==> in_closure(self.view(), edges@, x),
    {
        let ghost seeds = self.view();
        let mut s = self;
        loop
            invariant
                s.wf(),
                seeds.subset_of(s.view()),
                forall|x: u32| s.view().contains(x) ==> in_closure(seeds, edges@, x),
            ensures
                closed_under(s.view(), edges@),
            decreases open_edges(edges@, s.view()),
        {
            let ghost start = s.view();
            let mut changed = false;
            let mut i: usize = 0;
            while i < edges.len()
                invariant
                    i <= edges.len(),
                    s.wf(),
                    seeds.subset_of(s.view()),
                    start.subset_of(s.view()),
                    forall|x: u32| s.view().contains(x) ==> in_closure(seeds, edges@, x),
                    !changed ==> s.view() == start,
                    !changed ==> forall|j: int| 0 <= j < i && s.view().contains(#[trigger] edges@[j].0)
                        ==> s.view().contains(edges@[j].1),
                    changed ==> open_edges(edges@, s.view()) < open_edges(edges@, start),
                decreases edges.len() - i,
            {
                let (a, b) = edges[i];
                if s.contains(a) && !s.contains(b) {
                    let ghost prev = s.view();
                    s.insert(b);
                    proof {
                        assert forall|l: Set<u32>| seeds.subset_of(l) && closed_under(l, edges@)
                            implies #[trigger] l.contains(b) by {
                            assert(in_closure(seeds, edges@, a));
                            assert(l.contains(a));
                            assert(l.contains(edges@[i as int].0));
                        }
                        assert forall|x: u32| s.view().contains(x) implies in_closure(seeds, edges@, x) by {
                            if x != b {
                                assert(prev.contains(x));
                            }
                        }
                        lemma_open_edges_monotone(edges@, start, prev);
                        lemma_open_edges_strict(edges@, prev, s.view(), i as int);
                    }
                    changed = true;
                }
                i = i + 1;
            }
            if !changed {
                break;
            }
        }
        s
    }
}

/// Two strictly increasing sequences with the same members are equal.
pub proof fn lemma_sorted_unique(s: Seq<u32>, t: Seq<u32>)
    requires
        strictly_increasing(s),
        strictly_increasing(t),
        forall|x: u32| s.contains(x) <==> t.contains(x),
    ensures
        s == t,
    decreases s.len(),
{
    if s.len() == 0 {
        if t.len() > 0 {
            assert(t.contains(t[0]));
        }
        assert(s =~= t);
    } else {
        assert(s.contains(s[0]));
        assert(t.len() > 0);
        assert(t.contains(t[0]));
        let k = choose|k: int| 0 <= k < t.len() && t[k] == s[0];
        let q = choose|q: int| 0 <= q < s.len() && s[q] == t[0];
        if k > 0 {
            assert(t[0] < t[k]);
            if q > 0 {
                assert(s[0] < s[q]);
            }
        }
        assert(s[0] == t[0]);
        let s1 = s.subrange(1, s.len() as int);
        let t1 = t.subrange(1, t.len() as int);
        assert forall|x: u32| s1.contains(x) <==> t1.contains(x) by {
            if s1.contains(x) {
                let i = choose|i: int| 0 <= i < s1.len() && s1[i] == x;
                assert(s[i + 1] == x);
                assert(s.contains(x));
                let j = choose|j: int| 0 <= j < t.len() && t[j] == x;
                if j == 0 {
                    assert(s[0] < s[i + 1]);
                }
                assert(t1[j - 1] == x);
            }
            if t1.contains(x) {
                let i = choose|i: int| 0 <= i < t1.len() && t1[i] == x;
                assert(t[i + 1] == x);
                assert(t.contains(x));
                let j = choose|j: int| 0 <= j < s.len() && s[j] == x;
                if j == 0 {
                    assert(t[0] < t[i + 1]);
                }
                assert(s1[j - 1] == x);
            }
        }
        lemma_sorted_unique(s1, t1);
        assert(s =~= t) by {
            assert forall|i: int| 0 <= i < s.len() implies s[i] == t[i] by {
                if i > 0 {
                    assert(s1[i - 1] == t1[i - 1]);
                }
            }
        }
    }
}

} // verus!
