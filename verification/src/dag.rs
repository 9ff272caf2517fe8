//! Reachability over the commit graph: the ancestor relation, and the
//! verified set operations the evaluator is built on.

use crate::repo::GraphV;
use crate::repo::Repo;
use crate::vset::VertexSet;
use vstd::prelude::*;

verus! {

/// The parent indices of commit `v`.
pub open spec fn pars(g: GraphV, v: int) -> Seq<int> {
    g.commits[v].parents
}

/// Whether `a` is `d` or an ancestor of `d`: reachable over parent edges.
pub open spec fn reaches(g: GraphV, d: int, a: int) -> bool
    decreases d,
{
    if d == a {
        true
    } else {
        exists|k: int|
            0 <= k < pars(g, d).len() && 0 <= #[trigger] pars(g, d)[k] < d && reaches(
                g,
                pars(g, d)[k],
                a,
            )
    }
}

/// Membership in `ancestors(S)`: some member of `S` reaches `v`.
pub open spec fn in_ancestors(g: GraphV, s: Set<int>, v: int) -> bool {
    exists|u: int| s.contains(u) && reaches(g, u, v)
}

/// Membership in the full set of descendants of `S`: `v` reaches into `S`.
pub open spec fn in_descendants(g: GraphV, s: Set<int>, v: int) -> bool {
    exists|u: int| s.contains(u) && reaches(g, v, u)
}

/// Membership in `parents(S)`.
pub open spec fn in_parents(g: GraphV, s: Set<int>, v: int) -> bool {
    exists|u: int| s.contains(u) && pars(g, u).contains(v)
}

/// Membership in `children(S)`: a parent of `v` lies in `S`.
pub open spec fn in_children(g: GraphV, s: Set<int>, v: int) -> bool {
    exists|k: int| 0 <= k < pars(g, v).len() && s.contains(#[trigger] pars(g, v)[k])
}

/// The set a `VertexSet` denotes.
pub open spec fn setof(s: VertexSet) -> Set<int> {
    Set::new(|v: int| s.has(v))
}

/// The heads of a set: members of which no member is a parent.
pub open spec fn heads_of(g: GraphV, s: Set<int>) -> Set<int> {
    Set::new(|v: int| s.contains(v) && !in_parents(g, s, v))
}

/// The roots of a set: members none of whose parents is a member.
pub open spec fn roots_of(g: GraphV, s: Set<int>) -> Set<int> {
    Set::new(|v: int| s.contains(v) && !in_children(g, s, v))
}

/// Ancestor membership, stated from the child side: `v` is in `S`, or some
/// child chain above `v` is. This is what the marking pass computes.
pub open spec fn anc_from(g: GraphV, s: Set<int>, v: int) -> bool
    decreases g.n() - v,
{
    s.contains(v) || exists|c: int|
        v < c < g.n() && (#[trigger] pars(g, c)).contains(v) && anc_from(g, s, c)
}

/// Descendant membership, stated from the parent side.
pub open spec fn desc_from(g: GraphV, s: Set<int>, v: int) -> bool
    decreases v,
{
    s.contains(v) || exists|k: int|
        0 <= k < pars(g, v).len() && 0 <= #[trigger] pars(g, v)[k] < v && desc_from(
            g,
            s,
            pars(g, v)[k],
        )
}

/// A commit reaches each of its parents.
pub proof fn lemma_reaches_parent(g: GraphV, d: int, k: int)
    requires
        g.wf(),
        0 <= d < g.n(),
        0 <= k < pars(g, d).len(),
    ensures
        reaches(g, d, pars(g, d)[k]),
{
    let p = pars(g, d)[k];
    assert(0 <= p < d);
    assert(reaches(g, p, p));
}

/// `reaches` is transitive.
pub proof fn lemma_reaches_trans(g: GraphV, a: int, b: int, c: int)
    requires
        reaches(g, a, b),
        reaches(g, b, c),
    ensures
        reaches(g, a, c),
    decreases a,
{
    if a != b {
        let k = choose|k: int|
            0 <= k < pars(g, a).len() && 0 <= #[trigger] pars(g, a)[k] < a && reaches(
                g,
                pars(g, a)[k],
                b,
            );
        lemma_reaches_trans(g, pars(g, a)[k], b, c);
    }
}

/// Reached vertices lie at or below the start, inside the graph.
pub proof fn lemma_reaches_bounds(g: GraphV, d: int, a: int)
    requires
        reaches(g, d, a),
        d != a,
    ensures
        0 <= a < d,
    decreases d,
{
    let k = choose|k: int|
        0 <= k < pars(g, d).len() && 0 <= #[trigger] pars(g, d)[k] < d && reaches(
            g,
            pars(g, d)[k],
            a,
        );
    if pars(g, d)[k] != a {
        lemma_reaches_bounds(g, pars(g, d)[k], a);
    }
}

/// If `c` reaches `v` and `c` is in the ancestor closure, so is `v`.
proof fn lemma_anc_from_step(g: GraphV, s: Set<int>, c: int, v: int)
    requires
        g.wf(),
        0 <= c < g.n(),
        reaches(g, c, v),
        anc_from(g, s, c),
    ensures
        anc_from(g, s, v),
    decreases c,
{
    if c != v {
        let k = choose|k: int|
            0 <= k < pars(g, c).len() && 0 <= #[trigger] pars(g, c)[k] < c && reaches(
                g,
                pars(g, c)[k],
                v,
            );
        let p = pars(g, c)[k];
        assert(pars(g, c).contains(p));
        assert(anc_from(g, s, p));
        lemma_anc_from_step(g, s, p, v);
    }
}

/// The marking pass computes exactly ancestor membership.
pub proof fn lemma_anc_from_iff(g: GraphV, s: Set<int>, v: int)
    requires
        g.wf(),
        0 <= v < g.n(),
        forall|u: int| s.contains(u) ==> 0 <= u < g.n(),
    ensures
        anc_from(g, s, v) <==> in_ancestors(g, s, v),
    decreases g.n() - v,
{
    if anc_from(g, s, v) {
        if s.contains(v) {
            assert(reaches(g, v, v));
            assert(in_ancestors(g, s, v));
        } else {
            let c = choose|c: int|
                v < c < g.n() && (#[trigger] pars(g, c)).contains(v) && anc_from(g, s, c);
            lemma_anc_from_iff(g, s, c);
            let u = choose|u: int| s.contains(u) && reaches(g, u, c);
            let k = choose|k: int| 0 <= k < pars(g, c).len() && pars(g, c)[k] == v;
            lemma_reaches_parent(g, c, k);
            lemma_reaches_trans(g, u, c, v);
            assert(in_ancestors(g, s, v));
        }
    }
    if in_ancestors(g, s, v) {
        let u = choose|u: int| s.contains(u) && reaches(g, u, v);
        assert(anc_from(g, s, u));
        lemma_anc_from_step(g, s, u, v);
    }
}

/// The ascending pass computes exactly descendant membership.
pub proof fn lemma_desc_from_iff(g: GraphV, s: Set<int>, v: int)
    requires
        g.wf(),
        0 <= v < g.n(),
        forall|u: int| s.contains(u) ==> 0 <= u < g.n(),
    ensures
        desc_from(g, s, v) <==> in_descendants(g, s, v),
    decreases v,
{
    if desc_from(g, s, v) {
        if s.contains(v) {
            assert(reaches(g, v, v));
            assert(in_descendants(g, s, v));
        } else {
            let k = choose|k: int|
                0 <= k < pars(g, v).len() && 0 <= #[trigger] pars(g, v)[k] < v && desc_from(
                    g,
                    s,
                    pars(g, v)[k],
                );
            let p = pars(g, v)[k];
            lemma_desc_from_iff(g, s, p);
            let u = choose|u: int| s.contains(u) && reaches(g, p, u);
            assert(reaches(g, v, u));
            assert(in_descendants(g, s, v));
        }
    }
    if in_descendants(g, s, v) {
        let u = choose|u: int| s.contains(u) && reaches(g, v, u);
        if v == u {
            assert(desc_from(g, s, v));
        } else {
            let k = choose|k: int|
                0 <= k < pars(g, v).len() && 0 <= #[trigger] pars(g, v)[k] < v && reaches(
                    g,
                    pars(g, v)[k],
                    u,
                );
            let p = pars(g, v)[k];
            assert(reaches(g, p, u));
            assert(s.contains(u) && reaches(g, p, u));
            assert(in_descendants(g, s, p)) by {
                assert(exists|u2: int| s.contains(u2) && reaches(g, p, u2));
            }
            lemma_desc_from_iff(g, s, p);
        }
    }
}

/// Both closures are reflexive: every vertex is an ancestor and a
/// descendant of any set that holds it.
pub proof fn lemma_closures_reflexive(g: GraphV, s: Set<int>, x: int)
    requires
        s.contains(x),
    ensures
        in_ancestors(g, s, x),
        in_descendants(g, s, x),
{
    assert(reaches(g, x, x));
}

/// A vertex reached from `d`, other than `d` itself, is reached through a
/// final parent edge from some intermediate vertex.
pub proof fn lemma_reaches_last_edge(g: GraphV, d: int, v: int)
    requires
        g.wf(),
        0 <= d < g.n(),
        reaches(g, d, v),
        d != v,
    ensures
        exists|c: int|
            0 <= c < g.n() && reaches(g, d, c) && (#[trigger] pars(g, c)).contains(v),
    decreases d,
{
    let k = choose|k: int|
        0 <= k < pars(g, d).len() && 0 <= #[trigger] pars(g, d)[k] < d && reaches(
            g,
            pars(g, d)[k],
            v,
        );
    let p = pars(g, d)[k];
    if p == v {
        assert(reaches(g, d, d));
        assert(pars(g, d).contains(v));
    } else {
        lemma_reaches_last_edge(g, p, v);
        let c = choose|c: int|
            0 <= c < g.n() && reaches(g, p, c) && (#[trigger] pars(g, c)).contains(v);
        lemma_reaches_parent(g, d, k);
        lemma_reaches_trans(g, d, p, c);
    }
}

/// Every member of a finite set is reached from one of the set's heads.
pub proof fn lemma_member_under_head(g: GraphV, s: Set<int>, v: int)
    requires
        g.wf(),
        forall|u: int| s.contains(u) ==> 0 <= u < g.n(),
        s.contains(v),
    ensures
        exists|h: int| #[trigger] heads_of(g, s).contains(h) && reaches(g, h, v),
    decreases g.n() - v,
{
    if heads_of(g, s).contains(v) {
        assert(reaches(g, v, v));
    } else {
        assert(in_parents(g, s, v));
        let u = choose|u: int| s.contains(u) && pars(g, u).contains(v);
        assert(0 <= v < u) by {
            let k = choose|k: int| 0 <= k < pars(g, u).len() && pars(g, u)[k] == v;
        }
        lemma_member_under_head(g, s, u);
        let h = choose|h: int| #[trigger] heads_of(g, s).contains(h) && reaches(g, h, u);
        let k = choose|k: int| 0 <= k < pars(g, u).len() && pars(g, u)[k] == v;
        lemma_reaches_parent(g, u, k);
        lemma_reaches_trans(g, h, u, v);
    }
}

impl Repo {
    /// Number of commits, executably.
    pub fn n_commits(&self) -> (r: usize)
        ensures
            r == self.gv().n(),
    {
        proof {
            assert(self.gv().commits.len() == self.commits@.len());
        }
        self.commits.len()
    }

    /// The parents of the commit at `v`, as a vector of indices.
    fn parents_vec(&self, v: usize) -> (r: &Vec<usize>)
        requires
            v < self.gv().n(),
        ensures
            r@.map_values(|p: usize| p as int) == pars(self.gv(), v as int),
    {
        proof {
            assert(self.gv().commits[v as int] == self.commits@[v as int]@);
        }
        &self.commits[v].parents
    }

    /// `ancestors(s)`: every commit some member of `s` reaches.
    #[verifier::loop_isolation(false)]
    pub fn ancestors_of(&self, s: &VertexSet) -> (r: VertexSet)
        requires
            self.gv().wf(),
            s.bounded(self.gv().n()),
        ensures
            r.wf(),
            r.bounded(self.gv().n()),
            forall|v: int|
                r.has(v) <==> 0 <= v < self.gv().n() && in_ancestors(self.gv(), setof(*s), v),
    {
        let ghost g = self.gv();
        let ghost sv = setof(*s);
        let n = self.n_commits();
        let mut marks = s.to_marks(n);
        proof {
            assert forall|u: int| sv.contains(u) implies 0 <= u < n as int by {}
        }
        let mut i: usize = n;
        while i > 0
            invariant
                i <= n,
                marks@.len() == n,
                forall|v: int| i as int <= v < n as int ==> #[trigger] marks@[v] == anc_from(
                    g,
                    sv,
                    v,
                ),
                forall|v: int|
                    0 <= v < i as int ==> #[trigger] marks@[v] == (sv.contains(v) || exists|c: int|
                        i as int <= c < n as int && (#[trigger] pars(g, c)).contains(v)
                            && anc_from(g, sv, c)),
            decreases i,
        {
            i = i - 1;
            proof {
                assert(marks@[i as int] == anc_from(g, sv, i as int)) by {
                    assert(marks@[i as int] == (sv.contains(i as int) || exists|c: int|
                        i + 1 <= c < n as int && (#[trigger] pars(g, c)).contains(i as int)
                            && anc_from(g, sv, c)));
                }
            }
            if marks[i] {
                let ps = self.parents_vec(i);
                let ghost pre = marks@;
                let mut k: usize = 0;
                while k < ps.len()
                    invariant
                        k <= ps@.len(),
                        marks@.len() == n,
                        forall|v: int|
                            0 <= v < n as int ==> #[trigger] marks@[v] == (pre[v] || exists|
                                k2: int,
                            |
                                0 <= k2 < k as int && pars(g, i as int)[k2] == v),
                    decreases ps@.len() - k,
                {
                    let p = ps[k];
                    proof {
                        assert(pars(g, i as int)[k as int] == p as int);
                        assert(0 <= p < n);
                    }
                    let ghost mid = marks@;
                    marks.set(p, true);
                    proof {
                        assert forall|v: int|
                            0 <= v < n as int implies #[trigger] marks@[v] == (pre[v] || exists|
                            k2: int,
                        |
                            0 <= k2 < k + 1 && pars(g, i as int)[k2] == v) by {
                            if v == p as int {
                                assert(pars(g, i as int)[k as int] == v);
                            } else {
                                assert(marks@[v] == mid[v]);
                            }
                        }
                    }
                    k = k + 1;
                }
                proof {
                    assert forall|v: int|
                        0 <= v < i as int implies #[trigger] marks@[v] == (sv.contains(v)
                        || exists|c: int|
                        i as int <= c < n as int && (#[trigger] pars(g, c)).contains(v)
                            && anc_from(g, sv, c)) by {
                        if marks@[v] {
                            if !pre[v] {
                                let k2 = choose|k2: int|
                                    0 <= k2 < pars(g, i as int).len() && pars(g, i as int)[k2]
                                        == v;
                                assert(pars(g, i as int).contains(v));
                                assert(anc_from(g, sv, i as int));
                            }
                        } else {
                            assert(!pre[v]);
                            if sv.contains(v) {
                                assert(pre[v]);
                            }
                            if exists|c: int|
                                i as int <= c < n as int && (#[trigger] pars(g, c)).contains(v)
                                    && anc_from(g, sv, c) {
                                let c = choose|c: int|
                                    i as int <= c < n as int && (#[trigger] pars(g, c)).contains(
                                        v,
                                    ) && anc_from(g, sv, c);
                                if c == i as int {
                                    let k2 = choose|k2: int|
                                        0 <= k2 < pars(g, c).len() && pars(g, c)[k2] == v;
                                    assert(marks@[v]);
                                } else {
                                    assert(pre[v]);
                                }
                            }
                        }
                    }
                    assert forall|v: int|
                        i as int <= v < n as int implies #[trigger] marks@[v] == anc_from(
                        g,
                        sv,
                        v,
                    ) by {
                        if v == i as int {
                            assert(marks@[v] == pre[v]);
                        } else {
                            assert(marks@[v] == pre[v]) by {
                                if !pre[v] && marks@[v] {
                                    let k2 = choose|k2: int|
                                        0 <= k2 < pars(g, i as int).len() && pars(g, i as int)[k2]
                                            == v;
                                    assert(0 <= pars(g, i as int)[k2] < i as int);
                                }
                            }
                        }
                    }
                }
            } else {
                proof {
                    assert forall|v: int|
                        0 <= v < i as int implies #[trigger] marks@[v] == (sv.contains(v)
                        || exists|c: int|
                        i as int <= c < n as int && (#[trigger] pars(g, c)).contains(v)
                            && anc_from(g, sv, c)) by {
                        if !marks@[v] {
                            if exists|c: int|
                                i as int <= c < n as int && (#[trigger] pars(g, c)).contains(v)
                                    && anc_from(g, sv, c) {
                                let c = choose|c: int|
                                    i as int <= c < n as int && (#[trigger] pars(g, c)).contains(
                                        v,
                                    ) && anc_from(g, sv, c);
                                assert(c != i as int);
                            }
                        }
                    }
                }
            }
        }
        let r = VertexSet::from_marks(&marks);
        proof {
            assert forall|v: int|
                r.has(v) <==> 0 <= v < g.n() && in_ancestors(g, sv, v) by {
                if 0 <= v < g.n() {
                    lemma_anc_from_iff(g, sv, v);
                }
            }
        }
        r
    }

    /// The full descendants of `s` over the whole store.
    #[verifier::loop_isolation(false)]
    pub fn descendants_of(&self, s: &VertexSet) -> (r: VertexSet)
        requires
            self.gv().wf(),
            s.bounded(self.gv().n()),
        ensures
            r.wf(),
            r.bounded(self.gv().n()),
            forall|v: int|
                r.has(v) <==> 0 <= v < self.gv().n() && in_descendants(self.gv(), setof(*s), v),
    {
        let ghost g = self.gv();
        let ghost sv = setof(*s);
        let n = self.n_commits();
        let mut marks: Vec<bool> = Vec::new();
        proof {
            assert forall|u: int| sv.contains(u) implies 0 <= u < n as int by {}
        }
        let mut i: usize = 0;
        while i < n
            invariant
                i <= n,
                marks@.len() == i,
                forall|v: int| 0 <= v < i as int ==> #[trigger] marks@[v] == desc_from(g, sv, v),
            decreases n - i,
        {
            let mut hit = s.contains(i);
            let ps = self.parents_vec(i);
            let mut k: usize = 0;
            while k < ps.len()
                invariant
                    k <= ps@.len(),
                    marks@.len() == i < n,
                    hit == (sv.contains(i as int) || exists|k2: int|
                        0 <= k2 < k as int && 0 <= pars(g, i as int)[k2] < i as int && desc_from(
                            g,
                            sv,
                            pars(g, i as int)[k2],
                        )),
                decreases ps@.len() - k,
            {
                proof {
                    assert(pars(g, i as int)[k as int] == ps@[k as int] as int);
                    assert(0 <= pars(g, i as int)[k as int] < i as int);
                }
                if !hit && marks[ps[k]] {
                    hit = true;
                }
                k = k + 1;
            }
            marks.push(hit);
            proof {
                assert(marks@[i as int] == hit);
                assert(hit == desc_from(g, sv, i as int));
            }
            i = i + 1;
        }
        let r = VertexSet::from_marks(&marks);
        proof {
            assert forall|v: int|
                r.has(v) <==> 0 <= v < g.n() && in_descendants(g, sv, v) by {
                if 0 <= v < g.n() {
                    lemma_desc_from_iff(g, sv, v);
                }
            }
        }
        r
    }

    /// The set of all parents of members of `s`.
    #[verifier::loop_isolation(false)]
    pub fn parents_of(&self, s: &VertexSet) -> (r: VertexSet)
        requires
            self.gv().wf(),
            s.bounded(self.gv().n()),
        ensures
            r.wf(),
            r.bounded(self.gv().n()),
            forall|v: int|
                r.has(v) <==> 0 <= v < self.gv().n() && in_parents(self.gv(), setof(*s), v),
    {
        let ghost g = self.gv();
        let ghost sv = setof(*s);
        let n = self.n_commits();
        let mut marks: Vec<bool> = Vec::new();
        let mut v: usize = 0;
        while v < n
            invariant
                v <= n,
                marks@.len() == v,
                forall|u: int| 0 <= u < v as int ==> !(#[trigger] marks@[u]),
            decreases n - v,
        {
            marks.push(false);
            v = v + 1;
        }
        let mut j: usize = 0;
        while j < s.len()
            invariant
                j <= s.items@.len(),
                marks@.len() == n,
                forall|u: int|
                    0 <= u < n as int ==> (#[trigger] marks@[u] == exists|j2: int|
                        0 <= j2 < j as int && pars(g, s.items@[j2] as int).contains(u)),
            decreases s.items@.len() - j,
        {
            let m = s.at(j);
            let ps = self.parents_vec(m);
            let ghost pre = marks@;
            let mut k: usize = 0;
            while k < ps.len()
                invariant
                    k <= ps@.len(),
                    marks@.len() == n,
                    m == s.items@[j as int],
                    (m as int) < n as int,
                    forall|u: int|
                        0 <= u < n as int ==> (#[trigger] marks@[u] == (pre[u] || exists|k2: int|
                            0 <= k2 < k as int && pars(g, m as int)[k2] == u)),
                decreases ps@.len() - k,
            {
                let p = ps[k];
                proof {
                    assert(pars(g, m as int)[k as int] == p as int);
                    assert(0 <= p < n);
                }
                let ghost mid = marks@;
                marks.set(p, true);
                proof {
                    assert forall|u: int|
                        0 <= u < n as int implies (#[trigger] marks@[u] == (pre[u] || exists|
                        k2: int,
                    |
                        0 <= k2 < k + 1 && pars(g, m as int)[k2] == u)) by {
                        if u == p as int {
                            assert(pars(g, m as int)[k as int] == u);
                        } else {
                            assert(marks@[u] == mid[u]);
                        }
                    }
                }
                k = k + 1;
            }
            proof {
                assert forall|u: int|
                    0 <= u < n as int implies (#[trigger] marks@[u] == exists|j2: int|
                    0 <= j2 < j + 1 && pars(g, s.items@[j2] as int).contains(u)) by {
                    if marks@[u] {
                        if pre[u] {
                            let j2 = choose|j2: int|
                                0 <= j2 < j as int && pars(g, s.items@[j2] as int).contains(u);
                            assert(pars(g, s.items@[j2] as int).contains(u));
                        } else {
                            let k2 = choose|k2: int|
                                0 <= k2 < pars(g, m as int).len() && pars(g, m as int)[k2] == u;
                            assert(pars(g, s.items@[j as int] as int).contains(u));
                        }
                    } else {
                        if exists|j2: int|
                            0 <= j2 < j + 1 && pars(g, s.items@[j2] as int).contains(u) {
                            let j2 = choose|j2: int|
                                0 <= j2 < j + 1 && pars(g, s.items@[j2] as int).contains(u);
                            if j2 == j as int {
                                let k2 = choose|k2: int|
                                    0 <= k2 < pars(g, m as int).len() && pars(g, m as int)[k2]
                                        == u;
                                assert(marks@[u]);
                            } else {
                                assert(pre[u]);
                            }
                        }
                    }
                }
            }
            j = j + 1;
        }
        let r = VertexSet::from_marks(&marks);
        proof {
            assert forall|v2: int|
                r.has(v2) <==> 0 <= v2 < g.n() && in_parents(g, sv, v2) by {
                if 0 <= v2 < g.n() {
                    if marks@[v2] {
                        let j2 = choose|j2: int|
                            0 <= j2 < s.items@.len() && pars(g, s.items@[j2] as int).contains(
                                v2,
                            );
                        assert(sv.contains(s.items@[j2] as int));
                    }
                    if in_parents(g, sv, v2) {
                        let u = choose|u: int| sv.contains(u) && pars(g, u).contains(v2);
                        let j2 = choose|j2: int|
                            0 <= j2 < s.items@.len() && s.items@[j2] == u;
                        assert(pars(g, s.items@[j2] as int).contains(v2));
                    }
                }
            }
        }
        r
    }

    /// The set of all children of members of `s`, over the whole store.
    #[verifier::loop_isolation(false)]
    pub fn children_of(&self, s: &VertexSet) -> (r: VertexSet)
        requires
            self.gv().wf(),
            s.bounded(self.gv().n()),
        ensures
            r.wf(),
            r.bounded(self.gv().n()),
            forall|v: int|
                r.has(v) <==> 0 <= v < self.gv().n() && in_children(self.gv(), setof(*s), v),
    {
        let ghost g = self.gv();
        let ghost sv = setof(*s);
        let n = self.n_commits();
        let mut marks: Vec<bool> = Vec::new();
        let mut i: usize = 0;
        while i < n
            invariant
                i <= n,
                marks@.len() == i,
                forall|v: int| 0 <= v < i as int ==> #[trigger] marks@[v] == in_children(
                    g,
                    sv,
                    v,
                ),
            decreases n - i,
        {
            let mut hit = false;
            let ps = self.parents_vec(i);
            let mut k: usize = 0;
            while k < ps.len()
                invariant
                    k <= ps@.len(),
                    i < n,
                    hit == (exists|k2: int|
                        0 <= k2 < k as int && sv.contains(#[trigger] pars(g, i as int)[k2])),
                decreases ps@.len() - k,
            {
                proof {
                    assert(pars(g, i as int)[k as int] == ps@[k as int] as int);
                }
                if !hit && s.contains(ps[k]) {
                    hit = true;
                }
                k = k + 1;
            }
            marks.push(hit);
            proof {
                assert(marks@[i as int] == hit);
            }
            i = i + 1;
        }
        VertexSet::from_marks(&marks)
    }

    /// `heads(s)`: members of `s` of which no member of `s` is a parent.
    pub fn heads_of_set(&self, s: &VertexSet) -> (r: VertexSet)
        requires
            self.gv().wf(),
            s.wf(),
            s.bounded(self.gv().n()),
        ensures
            r.wf(),
            r.bounded(self.gv().n()),
            forall|v: int| r.has(v) <==> heads_of(self.gv(), setof(*s)).contains(v),
    {
        let n = self.n_commits();
        let ps = self.parents_of(s);
        let r = crate::vset::set_difference(s, &ps, n);
        proof {
            assert forall|v: int|
                r.has(v) <==> heads_of(self.gv(), setof(*s)).contains(v) by {
                if s.has(v) {
                    assert(0 <= v < self.gv().n());
                }
            }
        }
        r
    }

    /// `roots(s)`: members of `s` none of whose parents is in `s`.
    pub fn roots_of_set(&self, s: &VertexSet) -> (r: VertexSet)
        requires
            self.gv().wf(),
            s.wf(),
            s.bounded(self.gv().n()),
        ensures
            r.wf(),
            r.bounded(self.gv().n()),
            forall|v: int| r.has(v) <==> roots_of(self.gv(), setof(*s)).contains(v),
    {
        let n = self.n_commits();
        let cs = self.children_of(s);
        let r = crate::vset::set_difference(s, &cs, n);
        proof {
            assert forall|v: int|
                r.has(v) <==> roots_of(self.gv(), setof(*s)).contains(v) by {
                if s.has(v) {
                    assert(0 <= v < self.gv().n());
                }
            }
        }
        r
    }
}

} // verus!
