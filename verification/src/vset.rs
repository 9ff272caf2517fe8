//! Sets of commits, kept deduplicated and in canonical order: descending
//! index order, which is the graph's "most recent first" topological order.
//!
//! Sets are materialized vectors, not lazy: laziness is a resource-use
//! concern of the external index this model stands in for, and the values
//! a query yields are the same either way.

use vstd::prelude::*;

verus! {

/// A set of commits, as strictly descending indices into the commit store.
pub struct VertexSet {
    pub items: Vec<usize>,
}

impl VertexSet {
    /// Strictly descending: deduplicated and canonically ordered.
    pub open spec fn wf(self) -> bool {
        forall|i: int, j: int|
            0 <= i < j < self.items.len() ==> #[trigger] self.items@[i] > #[trigger] self.items@[j]
    }

    /// Membership, over mathematical integers.
    pub open spec fn has(self, v: int) -> bool {
        exists|k: int| 0 <= k < self.items.len() && self.items@[k] == v
    }

    /// Every member is below `n`.
    pub open spec fn bounded(self, n: int) -> bool {
        forall|k: int| 0 <= k < self.items.len() ==> (#[trigger] self.items@[k]) < n
    }

    /// The empty set.
    pub fn empty() -> (r: VertexSet)
        ensures
            r.wf(),
            forall|v: int| !r.has(v),
            r.items@.len() == 0,
    {
        VertexSet { items: Vec::new() }
    }

    /// How many commits the set holds.
    pub fn len(&self) -> (r: usize)
        ensures
            r == self.items@.len(),
    {
        self.items.len()
    }

    /// The member at position `k`, most recent first.
    pub fn at(&self, k: usize) -> (r: usize)
        requires
            k < self.items@.len(),
        ensures
            r == self.items@[k as int],
            self.has(r as int),
    {
        let r = self.items[k];
        proof {
            assert(self.items@[k as int] == r);
        }
        r
    }

    /// A copy of this set.
    pub fn duplicate(&self) -> (r: VertexSet)
        ensures
            r.items@ == self.items@,
    {
        let mut items: Vec<usize> = Vec::new();
        let mut k: usize = 0;
        while k < self.items.len()
            invariant
                k <= self.items@.len(),
                items@ == self.items@.subrange(0, k as int),
            decreases self.items@.len() - k,
        {
            items.push(self.items[k]);
            proof {
                assert(items@ =~= self.items@.subrange(0, k + 1));
            }
            k = k + 1;
        }
        proof {
            assert(items@ =~= self.items@);
        }
        VertexSet { items }
    }

    /// Membership, executably.
    pub fn contains(&self, v: usize) -> (r: bool)
        ensures
            r == self.has(v as int),
    {
        let mut k: usize = 0;
        while k < self.items.len()
            invariant
                k <= self.items@.len(),
                forall|k2: int| 0 <= k2 < k as int ==> self.items@[k2] != v,
            decreases self.items@.len() - k,
        {
            if self.items[k] == v {
                return true;
            }
            k = k + 1;
        }
        false
    }

    /// Membership marks: `r[v]` says whether `v` is in the set.
    pub fn to_marks(&self, n: usize) -> (r: Vec<bool>)
        requires
            self.bounded(n as int),
        ensures
            r@.len() == n,
            forall|v: int| 0 <= v < n ==> #[trigger] r@[v] == self.has(v),
    {
        let mut marks: Vec<bool> = Vec::new();
        let mut v: usize = 0;
        while v < n
            invariant
                v <= n,
                marks@.len() == v,
                forall|v2: int| 0 <= v2 < v as int ==> #[trigger] marks@[v2] == self.has(v2),
            decreases n - v,
        {
            marks.push(self.contains(v));
            v = v + 1;
        }
        marks
    }

    /// The set of the marked indices, in canonical order.
    pub fn from_marks(marks: &Vec<bool>) -> (r: VertexSet)
        ensures
            r.wf(),
            r.bounded(marks@.len() as int),
            forall|v: int| r.has(v) <==> 0 <= v < marks@.len() && marks@[v],
    {
        let mut items: Vec<usize> = Vec::new();
        let mut v: usize = marks.len();
        while v > 0
            invariant
                v <= marks@.len(),
                forall|i: int, j: int|
                    0 <= i < j < items@.len() ==> #[trigger] items@[i] > #[trigger] items@[j],
                forall|k: int| 0 <= k < items@.len() ==> v as int <= #[trigger] items@[k]
                    < marks@.len(),
                forall|u: int|
                    v as int <= u < marks@.len() ==> (marks@[u] == exists|k: int|
                        0 <= k < items@.len() && items@[k] == u),
            decreases v,
        {
            v = v - 1;
            if marks[v] {
                let ghost before = items@;
                items.push(v);
                proof {
                    assert forall|i: int, j: int|
                        0 <= i < j < items@.len() implies #[trigger] items@[i]
                        > #[trigger] items@[j] by {
                        if j == items@.len() - 1 {
                            assert(items@[i] == before[i]);
                            assert(before[i] >= v as int + 1);
                        }
                    }
                    assert forall|u: int|
                        v as int <= u < marks@.len() implies (marks@[u] == exists|k: int|
                        0 <= k < items@.len() && items@[k] == u) by {
                        if u == v as int {
                            assert(items@[items@.len() - 1] == u);
                        } else {
                            if marks@[u] {
                                let k = choose|k: int|
                                    0 <= k < before.len() && before[k] == u;
                                assert(items@[k] == u);
                            } else {
                                assert forall|k: int|
                                    0 <= k < items@.len() implies items@[k] != u by {
                                    if k < items@.len() - 1 {
                                        assert(items@[k] == before[k]);
                                    }
                                }
                            }
                        }
                    }
                }
            } else {
                proof {
                    assert forall|u: int|
                        v as int <= u < marks@.len() implies (marks@[u] == exists|k: int|
                        0 <= k < items@.len() && items@[k] == u) by {
                        if u == v as int {
                            assert forall|k: int|
                                0 <= k < items@.len() implies items@[k] != u by {
                                assert(items@[k] >= v as int + 1);
                            }
                        }
                    }
                }
            }
        }
        let r = VertexSet { items };
        proof {
            assert forall|v2: int| r.has(v2) implies 0 <= v2 < marks@.len() && marks@[v2] by {}
        }
        r
    }

    /// The most recent member: the first, which is the largest index.
    pub fn first(&self) -> (r: Option<usize>)
        requires
            self.wf(),
        ensures
            match r {
                Some(v) => self.has(v as int) && forall|u: int| self.has(u) ==> u <= v as int,
                None => forall|v: int| !self.has(v),
            },
    {
        if self.items.len() == 0 {
            None
        } else {
            let v = self.items[0];
            proof {
                assert(self.items@[0] == v);
                assert forall|u: int| self.has(u) implies u <= v as int by {
                    let k = choose|k: int|
                        0 <= k < self.items@.len() && self.items@[k] == u;
                    if k > 0 {
                        assert(self.items@[0] > self.items@[k]);
                    }
                }
            }
            Some(v)
        }
    }

    /// The oldest member: the last, which is the smallest index.
    pub fn last(&self) -> (r: Option<usize>)
        requires
            self.wf(),
        ensures
            match r {
                Some(v) => self.has(v as int) && forall|u: int| self.has(u) ==> u >= v as int,
                None => forall|v: int| !self.has(v),
            },
    {
        if self.items.len() == 0 {
            None
        } else {
            let v = self.items[self.items.len() - 1];
            proof {
                assert(self.items@[self.items@.len() - 1] == v);
                assert forall|u: int| self.has(u) implies u >= v as int by {
                    let k = choose|k: int|
                        0 <= k < self.items@.len() && self.items@[k] == u;
                    if k < self.items@.len() - 1 {
                        assert(self.items@[k] > self.items@[self.items@.len() - 1]);
                    }
                }
            }
            Some(v)
        }
    }

    /// A singleton set.
    pub fn single(v: usize) -> (r: VertexSet)
        ensures
            r.wf(),
            r.items@ == seq![v],
            forall|u: int| r.has(u) <==> u == v as int,
    {
        let mut items: Vec<usize> = Vec::new();
        items.push(v);
        let r = VertexSet { items };
        proof {
            assert(r.items@[0] == v);
        }
        r
    }
}

/// The union of two sets, canonically ordered.
#[verifier::loop_isolation(false)]
pub fn set_union(a: &VertexSet, b: &VertexSet, n: usize) -> (r: VertexSet)
    requires
        a.bounded(n as int),
        b.bounded(n as int),
    ensures
        r.wf(),
        r.bounded(n as int),
        forall|v: int| r.has(v) <==> a.has(v) || b.has(v),
{
    let am = a.to_marks(n);
    let bm = b.to_marks(n);
    let mut marks: Vec<bool> = Vec::new();
    let mut v: usize = 0;
    while v < n
        invariant
            v <= n,
            am@.len() == n,
            bm@.len() == n,
            marks@.len() == v,
            forall|u: int| 0 <= u < v as int ==> #[trigger] marks@[u] == (a.has(u) || b.has(u)),
        decreases n - v,
    {
        marks.push(am[v] || bm[v]);
        proof {
            assert(marks@[v as int] == (am@[v as int] || bm@[v as int]));
            assert(am@[v as int] == a.has(v as int));
            assert(bm@[v as int] == b.has(v as int));
        }
        v = v + 1;
    }
    VertexSet::from_marks(&marks)
}

/// The intersection of two sets, canonically ordered.
#[verifier::loop_isolation(false)]
pub fn set_intersect(a: &VertexSet, b: &VertexSet, n: usize) -> (r: VertexSet)
    requires
        a.bounded(n as int),
        b.bounded(n as int),
    ensures
        r.wf(),
        r.bounded(n as int),
        forall|v: int| r.has(v) <==> a.has(v) && b.has(v),
{
    let am = a.to_marks(n);
    let bm = b.to_marks(n);
    let mut marks: Vec<bool> = Vec::new();
    let mut v: usize = 0;
    while v < n
        invariant
            v <= n,
            am@.len() == n,
            bm@.len() == n,
            marks@.len() == v,
            forall|u: int| 0 <= u < v as int ==> #[trigger] marks@[u] == (a.has(u) && b.has(u)),
        decreases n - v,
    {
        marks.push(am[v] && bm[v]);
        proof {
            assert(marks@[v as int] == (am@[v as int] && bm@[v as int]));
            assert(am@[v as int] == a.has(v as int));
            assert(bm@[v as int] == b.has(v as int));
        }
        v = v + 1;
    }
    VertexSet::from_marks(&marks)
}

/// The difference of two sets, canonically ordered.
#[verifier::loop_isolation(false)]
pub fn set_difference(a: &VertexSet, b: &VertexSet, n: usize) -> (r: VertexSet)
    requires
        a.bounded(n as int),
        b.bounded(n as int),
    ensures
        r.wf(),
        r.bounded(n as int),
        forall|v: int| r.has(v) <==> a.has(v) && !b.has(v),
{
    let am = a.to_marks(n);
    let bm = b.to_marks(n);
    let mut marks: Vec<bool> = Vec::new();
    let mut v: usize = 0;
    while v < n
        invariant
            v <= n,
            am@.len() == n,
            bm@.len() == n,
            marks@.len() == v,
            forall|u: int| 0 <= u < v as int ==> #[trigger] marks@[u] == (a.has(u) && !b.has(u)),
        decreases n - v,
    {
        marks.push(am[v] && !bm[v]);
        proof {
            assert(marks@[v as int] == (am@[v as int] && !bm@[v as int]));
            assert(am@[v as int] == a.has(v as int));
            assert(bm@[v as int] == b.has(v as int));
        }
        v = v + 1;
    }
    VertexSet::from_marks(&marks)
}

/// Sort arbitrary indices into a canonical set: deduplicated, descending.
#[verifier::loop_isolation(false)]
pub fn set_from_indices(items: &Vec<usize>, n: usize) -> (r: VertexSet)
    requires
        forall|k: int| 0 <= k < items@.len() ==> (#[trigger] items@[k]) < n,
    ensures
        r.wf(),
        r.bounded(n as int),
        forall|v: int|
            r.has(v) <==> exists|k: int| 0 <= k < items@.len() && #[trigger] items@[k] == v,
{
    let mut marks: Vec<bool> = Vec::new();
    let mut v: usize = 0;
    while v < n
        invariant
            v <= n,
            marks@.len() == v,
            forall|u: int| 0 <= u < v as int ==> !(#[trigger] marks@[u]),
        decreases n - v,
    {
        marks.push(false);
        v = v + 1;
    }
    let mut k: usize = 0;
    while k < items.len()
        invariant
            k <= items@.len(),
            marks@.len() == n,
            forall|k2: int| 0 <= k2 < items@.len() ==> (#[trigger] items@[k2]) < n,
            forall|u: int|
                0 <= u < n ==> (#[trigger] marks@[u] == exists|k2: int|
                    0 <= k2 < k as int && items@[k2] == u),
        decreases items@.len() - k,
    {
        let ghost before = marks@;
        marks.set(items[k], true);
        proof {
            assert forall|u: int|
                0 <= u < n implies #[trigger] marks@[u] == exists|k2: int|
                0 <= k2 < k + 1 && items@[k2] == u by {
                if u == items@[k as int] {
                    assert(items@[k as int] == u);
                } else {
                    assert(marks@[u] == before[u]);
                }
            }
        }
        k = k + 1;
    }
    VertexSet::from_marks(&marks)
}

} // verus!
