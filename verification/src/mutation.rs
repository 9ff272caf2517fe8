//! The heuristic rewrite-history engine: it scans the operation logs of
//! local branch references for amend and rebase entries and reconstructs a
//! best-effort "replaced by" relation between old and new commits.
//!
//! The result is advisory: two unrelated commits that share a content tree
//! or an (author time, message) pair can be attributed as a rewrite.

use crate::repo::GraphV;
use crate::repo::LogEntryV;
use crate::repo::Repo;
use crate::text::has_prefix;
use vstd::prelude::*;

verus! {

broadcast use vstd::seq::axiom_seq_index_decreases, vstd::std_specs::vec::axiom_vec_index_decreases, vstd::seq::axiom_seq_subrange_decreases;

/// The inferred rewrite relation: `old_of[v]` is the commit that `v`
/// replaced, if the scan attributed one to it. Each commit replaces at most
/// one other; chains arise when a commit is rewritten repeatedly.
pub struct MutationDag {
    pub old_of: Vec<Option<usize>>,
}

/// The index of the commit with identity `id`, if any. Identities are
/// distinct in a well-formed graph, so the first match is the match.
pub open spec fn idx_of(g: GraphV, id: Seq<u8>, i: int) -> Option<int>
    decreases g.n() - i,
{
    if i < 0 || i >= g.n() {
        None
    } else if g.commits[i].id == id {
        Some(i)
    } else {
        idx_of(g, id, i + 1)
    }
}

/// The first parent of `v`, if any.
pub open spec fn first_parent(g: GraphV, v: int) -> Option<int> {
    if crate::dag::pars(g, v).len() > 0 {
        Some(crate::dag::pars(g, v)[0])
    } else {
        None
    }
}

/// One step of the candidate-stack walk: push the current commit of a side
/// if unseen, then advance that side to its first parent.
pub open spec fn walk_once(g: GraphV, cur: int, seen: Set<int>, stack: Seq<int>) -> (
    int,
    Set<int>,
    Seq<int>,
) {
    if seen.contains(cur) {
        (cur, seen, stack)
    } else {
        let nxt = match first_parent(g, cur) {
            Some(p) => p,
            None => cur,
        };
        (nxt, seen.insert(cur), stack.push(cur))
    }
}

/// The two candidate stacks after walking both sides up to `k` more steps,
/// stopping early when the sides converge.
pub open spec fn walk(
    g: GraphV,
    o: int,
    nw: int,
    seen: Set<int>,
    os: Seq<int>,
    ns: Seq<int>,
    k: nat,
) -> (Seq<int>, Seq<int>)
    decreases k,
{
    if k == 0 || o == nw {
        (os, ns)
    } else {
        let (o2, seen2, os2) = walk_once(g, o, seen, os);
        let (n2, seen3, ns2) = walk_once(g, nw, seen2, ns);
        walk(g, o2, n2, seen3, os2, ns2, (k - 1) as nat)
    }
}

/// How deep the walk looks into either parent chain.
pub open spec fn max_walk() -> nat {
    50
}

/// How many members of `stack`, from `k` on, have the given content tree.
pub open spec fn count_tree(g: GraphV, stack: Seq<int>, key: Seq<u8>, k: int) -> int
    decreases stack.len() - k,
{
    if k < 0 || k >= stack.len() {
        0
    } else {
        count_tree(g, stack, key, k + 1) + if g.commits[stack[k]].tree == key {
            1int
        } else {
            0int
        }
    }
}

/// The first member of `stack`, from `k` on, with the given content tree.
pub open spec fn find_tree(g: GraphV, stack: Seq<int>, key: Seq<u8>, k: int) -> Option<int>
    decreases stack.len() - k,
{
    if k < 0 || k >= stack.len() {
        None
    } else if g.commits[stack[k]].tree == key {
        Some(stack[k])
    } else {
        find_tree(g, stack, key, k + 1)
    }
}

/// How many members of `stack`, from `k` on, share author time `t` and
/// message `m`.
pub open spec fn count_msg(g: GraphV, stack: Seq<int>, t: int, m: Seq<char>, k: int) -> int
    decreases stack.len() - k,
{
    if k < 0 || k >= stack.len() {
        0
    } else {
        count_msg(g, stack, t, m, k + 1) + if g.commits[stack[k]].author_time == t
            && g.commits[stack[k]].message == m {
            1int
        } else {
            0int
        }
    }
}

/// The first member of `stack`, from `k` on, with author time `t` and
/// message `m`.
pub open spec fn find_msg(g: GraphV, stack: Seq<int>, t: int, m: Seq<char>, k: int) -> Option<int>
    decreases stack.len() - k,
{
    if k < 0 || k >= stack.len() {
        None
    } else if g.commits[stack[k]].author_time == t && g.commits[stack[k]].message == m {
        Some(stack[k])
    } else {
        find_msg(g, stack, t, m, k + 1)
    }
}

/// The commit that `nw` replaced according to one analysed rewrite: the old
/// commit that alone shares `nw`'s (author time, message) pair, else the one
/// that alone shares `nw`'s content tree. A bucket counts on both sides: it
/// must hold exactly one old and one new entry.
pub open spec fn pair_old_of(g: GraphV, os: Seq<int>, ns: Seq<int>, nw: int) -> Option<int> {
    let t = g.commits[nw].author_time;
    let m = g.commits[nw].message;
    let tr = g.commits[nw].tree;
    if count_msg(g, os, t, m, 0) == 1 && count_msg(g, ns, t, m, 0) == 1 {
        find_msg(g, os, t, m, 0)
    } else if count_tree(g, os, tr, 0) == 1 && count_tree(g, ns, tr, 0) == 1 {
        find_tree(g, os, tr, 0)
    } else {
        None
    }
}

/// What one qualifying log entry says `nw` replaced, if anything.
pub open spec fn entry_old_of(g: GraphV, e: LogEntryV, nw: int) -> Option<int> {
    match (idx_of(g, e.old_id, 0), idx_of(g, e.new_id, 0)) {
        (Some(o0), Some(n0)) => {
            let (os, ns) = walk(g, o0, n0, Set::empty(), Seq::empty(), Seq::empty(), max_walk());
            if ns.contains(nw) && pair_old_of(g, os, ns, nw) is Some && pair_old_of(g, os, ns, nw)
                != Some(nw) {
                pair_old_of(g, os, ns, nw)
            } else {
                None
            }
        },
        _ => None,
    }
}

/// Whether a log entry records a rewrite of the branch head.
pub open spec fn rewrite_entry(e: LogEntryV) -> bool {
    has_prefix(e.message, "commit (amend):"@) || has_prefix(e.message, "rebase -i (finish):"@)
}

/// Whether a reference's operation log is scanned: local branches only.
pub open spec fn scanned_ref(name: Seq<char>) -> bool {
    !has_prefix(name, "refs/remotes/"@) && has_prefix(name, "refs/heads/"@)
}

/// What the entries from `k` on of one log say `v` replaced: the earliest
/// qualifying entry wins. Logs are held oldest first, so this mirrors the
/// original's newest-first reflog iteration, where each later-processed
/// (older) entry overwrote the aggregate.
pub open spec fn entries_old_of(g: GraphV, entries: Seq<LogEntryV>, k: int, v: int) -> Option<int>
    decreases entries.len() - k,
{
    if k < 0 || k >= entries.len() {
        None
    } else {
        let e = entries[k];
        if rewrite_entry(e) && entry_old_of(g, e, v) is Some {
            entry_old_of(g, e, v)
        } else {
            entries_old_of(g, entries, k + 1, v)
        }
    }
}

/// What the first `j` operation logs say `v` replaced; a later log wins, a
/// deterministic stand-in for the original's unordered walk over the
/// reference map.
pub open spec fn logs_old_of(g: GraphV, j: int, v: int) -> Option<int>
    decreases j,
{
    if j <= 0 || j > g.reflogs.len() {
        None
    } else {
        let log = g.reflogs[j - 1];
        if scanned_ref(log.refname) && entries_old_of(g, log.entries, 0, v) is Some {
            entries_old_of(g, log.entries, 0, v)
        } else {
            logs_old_of(g, j - 1, v)
        }
    }
}

/// The whole inferred relation: what the repository's operation logs say
/// each commit replaced.
pub open spec fn mutation_old_of(g: GraphV, v: int) -> Option<int> {
    logs_old_of(g, g.reflogs.len() as int, v)
}

proof fn lemma_entry_old_of_bound(g: GraphV, e: LogEntryV, v: int)
    requires
        g.wf(),
    ensures
        match entry_old_of(g, e, v) {
            Some(o) => 0 <= o < g.n(),
            None => true,
        },
{
    lemma_idx_of_bound(g, e.old_id, 0);
    lemma_idx_of_bound(g, e.new_id, 0);
    match (idx_of(g, e.old_id, 0), idx_of(g, e.new_id, 0)) {
        (Some(o0), Some(n0)) => {
            let (os, ns) = walk(g, o0, n0, Set::empty(), Seq::empty(), Seq::empty(), max_walk());
            lemma_walk_bounds(g, o0, n0, Set::empty(), Seq::empty(), Seq::empty(), max_walk());
            lemma_find_tree_member(g, os, g.commits[v].tree, 0);
            lemma_find_msg_member(g, os, g.commits[v].author_time, g.commits[v].message, 0);
        },
        _ => {},
    }
}

proof fn lemma_entries_old_of_bound(g: GraphV, entries: Seq<LogEntryV>, k: int, v: int)
    requires
        g.wf(),
    ensures
        match entries_old_of(g, entries, k, v) {
            Some(o) => 0 <= o < g.n(),
            None => true,
        },
    decreases entries.len() - k,
{
    if 0 <= k < entries.len() {
        lemma_entry_old_of_bound(g, entries[k], v);
        lemma_entries_old_of_bound(g, entries, k + 1, v);
    }
}

/// Every inferred edge points at a commit of the store.
pub proof fn lemma_logs_old_of_bound(g: GraphV, j: int, v: int)
    requires
        g.wf(),
    ensures
        match logs_old_of(g, j, v) {
            Some(o) => 0 <= o < g.n(),
            None => true,
        },
    decreases j,
{
    if 0 < j <= g.reflogs.len() {
        lemma_entries_old_of_bound(g, g.reflogs[j - 1].entries, 0, v);
        lemma_logs_old_of_bound(g, j - 1, v);
    }
}

/// Whether the edge out of `x` closes a chain back to `x`.
pub open spec fn edge_closes_cycle(rel: Seq<Option<int>>, x: int) -> bool {
    match rel[x] {
        Some(w) => exists|k: nat|
            k <= rel.len() && #[trigger] mut_iter(rel, w, k) == Some(x),
        None => false,
    }
}

/// An acyclic relation: no commit's chain of "replaced" edges returns to
/// where it started.
pub open spec fn rel_acyclic(rel: Seq<Option<int>>) -> bool {
    forall|x: int| 0 <= x < rel.len() ==> !edge_closes_cycle(rel, x)
}

/// The cycle-breaking pass, from `u` on: walking the sources in ascending
/// order, an edge is dropped when its target's chain at that point leads
/// back to the source.
pub open spec fn cut_from(rel: Seq<Option<int>>, u: int) -> Seq<Option<int>>
    decreases rel.len() - u,
{
    if u < 0 || u >= rel.len() {
        rel
    } else {
        let rel2 = if edge_closes_cycle(rel, u) {
            rel.update(u, None)
        } else {
            rel
        };
        cut_from(rel2, u + 1)
    }
}

/// The relation the operation logs define, before cycle breaking.
pub open spec fn mut_rel_raw(g: GraphV) -> Seq<Option<int>> {
    Seq::new(g.n() as nat, |v: int| mutation_old_of(g, v))
}

/// The final inferred relation: the logs' edges with cycles broken.
pub open spec fn mut_rel_broken(g: GraphV) -> Seq<Option<int>> {
    cut_from(mut_rel_raw(g), 0)
}

/// A chain present in a sub-relation is present in the full relation.
proof fn lemma_mut_iter_mono(a: Seq<Option<int>>, b: Seq<Option<int>>, v: int, k: nat)
    requires
        a.len() == b.len(),
        forall|x: int| 0 <= x < a.len() ==> ((#[trigger] a[x]) is Some ==> b[x] == a[x]),
        mut_iter(a, v, k) is Some,
    ensures
        mut_iter(b, v, k) == mut_iter(a, v, k),
    decreases k,
{
    if k > 0 {
        lemma_mut_iter_mono(a, b, v, (k - 1) as nat);
    }
}

/// The pass only removes edges, and what it leaves is acyclic.
pub proof fn lemma_cut_from_props(rel: Seq<Option<int>>, u: int)
    requires
        0 <= u <= rel.len(),
        forall|x: int| 0 <= x < u ==> !edge_closes_cycle(rel, x),
    ensures
        cut_from(rel, u).len() == rel.len(),
        forall|x: int|
            0 <= x < rel.len() ==> ((#[trigger] cut_from(rel, u)[x]) is Some ==> cut_from(
                rel,
                u,
            )[x] == rel[x]),
        rel_acyclic(cut_from(rel, u)),
    decreases rel.len() - u,
{
    if u < rel.len() {
        let rel2 = if edge_closes_cycle(rel, u) {
            rel.update(u, None)
        } else {
            rel
        };
        assert forall|x: int| 0 <= x < rel.len() implies ((#[trigger] rel2[x]) is Some
            ==> rel2[x] == rel[x]) by {}
        assert forall|x: int| 0 <= x < u + 1 implies !edge_closes_cycle(rel2, x) by {
            if rel2[x] is Some {
                if edge_closes_cycle(rel2, x) {
                    let w = rel2[x]->0;
                    let k = choose|k: nat|
                        k <= rel2.len() && #[trigger] mut_iter(rel2, w, k) == Some(x);
                    lemma_mut_iter_mono(rel2, rel, w, k);
                    assert(rel[x] == rel2[x]);
                    assert(edge_closes_cycle(rel, x));
                    if x == u as int {
                        assert(!edge_closes_cycle(rel, u));
                    }
                }
            }
        }
        lemma_cut_from_props(rel2, u + 1);
        assert(cut_from(rel, u) == cut_from(rel2, u + 1));
    }
}

impl MutationDag {
    /// Sized to the commit store, with every edge inside it, holding
    /// exactly the cycle-broken relation the operation logs of `g` define,
    /// and therefore acyclic.
    pub open spec fn matches(self, g: GraphV) -> bool {
        &&& self.old_of@.len() == g.n()
        &&& forall|v: int|
            0 <= v < g.n() ==> (#[trigger] self.old_of@[v]) == (match mut_rel_broken(g)[v] {
                Some(o) => Some(o as usize),
                None => None,
            })
        &&& forall|v: int|
            0 <= v < g.n() ==> match #[trigger] self.old_of@[v] {
                Some(o) => 0 <= o < g.n(),
                None => true,
            }
        &&& rel_acyclic(relv(self))
    }
}

/// Integer views of an index vector.
pub open spec fn ivec(s: Seq<usize>) -> Seq<int> {
    s.map_values(|x: usize| x as int)
}

/// Integer view of a vector of optional indices.
pub open spec fn optv(s: Seq<Option<usize>>) -> Seq<Option<int>> {
    s.map_values(
        |o: Option<usize>|
            match o {
                Some(x) => Some(x as int),
                None => None,
            },
    )
}

/// The relation a `MutationDag` holds, over mathematical integers.
pub open spec fn relv(md: MutationDag) -> Seq<Option<int>> {
    optv(md.old_of@)
}

proof fn lemma_idx_of_found(g: GraphV, id: Seq<u8>, j: int, i: int)
    requires
        g.wf(),
        0 <= j <= i < g.n(),
        g.commits[i].id == id,
    ensures
        idx_of(g, id, j) == Some(i),
    decreases i - j,
{
    if j < i {
        assert(g.commits[j].id != g.commits[i].id);
        lemma_idx_of_found(g, id, j + 1, i);
    }
}

proof fn lemma_idx_of_bound(g: GraphV, id: Seq<u8>, j: int)
    ensures
        match idx_of(g, id, j) {
            Some(i) => j <= i < g.n() && 0 <= i,
            None => true,
        },
    decreases g.n() - j,
{
    if 0 <= j < g.n() && g.commits[j].id != id {
        lemma_idx_of_bound(g, id, j + 1);
    }
}

proof fn lemma_idx_of_none(g: GraphV, id: Seq<u8>, j: int)
    requires
        forall|k: int| 0 <= k < g.n() ==> (#[trigger] g.commits[k].id) != id,
        0 <= j,
    ensures
        idx_of(g, id, j) is None,
    decreases g.n() - j,
{
    if j < g.n() {
        lemma_idx_of_none(g, id, j + 1);
    }
}

proof fn lemma_find_tree_member(g: GraphV, stack: Seq<int>, key: Seq<u8>, k: int)
    ensures
        match find_tree(g, stack, key, k) {
            Some(x) => exists|i: int| k <= i < stack.len() && stack[i] == x,
            None => true,
        },
    decreases stack.len() - k,
{
    if 0 <= k < stack.len() {
        if g.commits[stack[k]].tree == key {
            assert(stack[k] == stack[k]);
        } else {
            lemma_find_tree_member(g, stack, key, k + 1);
        }
    }
}

proof fn lemma_find_msg_member(g: GraphV, stack: Seq<int>, t: int, m: Seq<char>, k: int)
    ensures
        match find_msg(g, stack, t, m, k) {
            Some(x) => exists|i: int| k <= i < stack.len() && stack[i] == x,
            None => true,
        },
    decreases stack.len() - k,
{
    if 0 <= k < stack.len() {
        if g.commits[stack[k]].author_time == t && g.commits[stack[k]].message == m {
        } else {
            lemma_find_msg_member(g, stack, t, m, k + 1);
        }
    }
}

proof fn lemma_walk_bounds(
    g: GraphV,
    o: int,
    nw: int,
    seen: Set<int>,
    os: Seq<int>,
    ns: Seq<int>,
    k: nat,
)
    requires
        g.wf(),
        0 <= o < g.n(),
        0 <= nw < g.n(),
        forall|i: int| 0 <= i < os.len() ==> 0 <= #[trigger] os[i] < g.n(),
        forall|i: int| 0 <= i < ns.len() ==> 0 <= #[trigger] ns[i] < g.n(),
    ensures
        forall|i: int|
            0 <= i < walk(g, o, nw, seen, os, ns, k).0.len() ==> 0 <= #[trigger] walk(
                g,
                o,
                nw,
                seen,
                os,
                ns,
                k,
            ).0[i] < g.n(),
        forall|i: int|
            0 <= i < walk(g, o, nw, seen, os, ns, k).1.len() ==> 0 <= #[trigger] walk(
                g,
                o,
                nw,
                seen,
                os,
                ns,
                k,
            ).1[i] < g.n(),
    decreases k,
{
    if k != 0 && o != nw {
        let (o2, seen2, os2) = walk_once(g, o, seen, os);
        let (n2, seen3, ns2) = walk_once(g, nw, seen2, ns);
        assert(0 <= o2 < g.n());
        assert(0 <= n2 < g.n());
        assert(os2 == os || os2 == os.push(o));
        assert(ns2 == ns || ns2 == ns.push(nw));
        assert forall|i: int| 0 <= i < os2.len() implies 0 <= #[trigger] os2[i] < g.n() by {
            if os2 == os.push(o) && i == os.len() {
                assert(os2[i] == o);
            } else {
                assert(os2[i] == os[i]);
            }
        }
        assert forall|i: int| 0 <= i < ns2.len() implies 0 <= #[trigger] ns2[i] < g.n() by {
            if ns2 == ns.push(nw) && i == ns.len() {
                assert(ns2[i] == nw);
            } else {
                assert(ns2[i] == ns[i]);
            }
        }
        lemma_walk_bounds(g, o2, n2, seen3, os2, ns2, (k - 1) as nat);
        assert(walk(g, o, nw, seen, os, ns, k) == walk(g, o2, n2, seen3, os2, ns2, (k - 1) as nat));
    }
}

impl Repo {
    /// `idx_of`, executably: the index of the commit with identity `id`.
    fn resolve_id(&self, id: &crate::error::Vertex) -> (r: Option<usize>)
        requires
            self.gv().wf(),
        ensures
            r == match idx_of(self.gv(), id@, 0) {
                Some(i) => Some(i as usize),
                None => None::<usize>,
            },
            r matches Some(i) ==> (i as int) < self.gv().n(),
    {
        let r = self.lookup_id(id);
        proof {
            match r {
                Some(i) => lemma_idx_of_found(self.gv(), id@, 0, i as int),
                None => lemma_idx_of_none(self.gv(), id@, 0),
            }
        }
        r
    }

    /// The first parent of `v`, executably.
    fn first_parent_of(&self, v: usize) -> (r: Option<usize>)
        requires
            self.gv().wf(),
            v < self.gv().n(),
        ensures
            r == match first_parent(self.gv(), v as int) {
                Some(p) => Some(p as usize),
                None => None::<usize>,
            },
            r matches Some(p) ==> (p as int) < v as int,
    {
        proof {
            assert(self.gv().commits[v as int] == self.commits@[v as int]@);
        }
        let ps = &self.commits[v].parents;
        if ps.len() > 0 {
            proof {
                assert(crate::dag::pars(self.gv(), v as int)[0] == ps@[0] as int);
            }
            Some(ps[0])
        } else {
            None
        }
    }

    /// Both candidate stacks of one analysed rewrite.
    #[verifier::loop_isolation(false)]
    fn walk_stacks(&self, o0: usize, n0: usize) -> (r: (Vec<usize>, Vec<usize>))
        requires
            self.gv().wf(),
            o0 < self.gv().n(),
            n0 < self.gv().n(),
        ensures
            ivec(r.0@) == walk(
                self.gv(),
                o0 as int,
                n0 as int,
                Set::empty(),
                Seq::empty(),
                Seq::empty(),
                max_walk(),
            ).0,
            ivec(r.1@) == walk(
                self.gv(),
                o0 as int,
                n0 as int,
                Set::empty(),
                Seq::empty(),
                Seq::empty(),
                max_walk(),
            ).1,
            forall|i: int| 0 <= i < r.0@.len() ==> (#[trigger] r.0@[i] as int) < self.gv().n(),
            forall|i: int| 0 <= i < r.1@.len() ==> (#[trigger] r.1@[i] as int) < self.gv().n(),
    {
        let ghost g = self.gv();
        let n = self.n_commits();
        let mut seen: Vec<bool> = Vec::new();
        let mut t: usize = 0;
        while t < n
            invariant
                t <= n,
                seen@.len() == t,
                forall|u: int| 0 <= u < t as int ==> !(#[trigger] seen@[u]),
            decreases n - t,
        {
            seen.push(false);
            t = t + 1;
        }
        let ghost seen_set = Set::<int>::empty();
        proof {
            assert forall|u: int| 0 <= u < n as int implies #[trigger] seen@[u] == seen_set.contains(
                u,
            ) by {}
        }
        let mut o = o0;
        let mut nw = n0;
        let mut os: Vec<usize> = Vec::new();
        let mut ns: Vec<usize> = Vec::new();
        let mut k: usize = 50;
        proof {
            assert(ivec(os@) =~= Seq::<int>::empty());
            assert(ivec(ns@) =~= Seq::<int>::empty());
        }
        while k > 0 && o != nw
            invariant
                k <= 50,
                o < n,
                nw < n,
                seen@.len() == n,
                forall|u: int| 0 <= u < n as int ==> #[trigger] seen@[u] == seen_set.contains(u),
                forall|i: int| 0 <= i < os@.len() ==> (#[trigger] os@[i] as int) < n as int,
                forall|i: int| 0 <= i < ns@.len() ==> (#[trigger] ns@[i] as int) < n as int,
                walk(g, o as int, nw as int, seen_set, ivec(os@), ivec(ns@), k as nat) == walk(
                    g,
                    o0 as int,
                    n0 as int,
                    Set::empty(),
                    Seq::empty(),
                    Seq::empty(),
                    max_walk(),
                ),
            decreases k,
        {
            let ghost pre = (o, nw, seen_set, ivec(os@), ivec(ns@), k as nat);
            // Old side: push if unseen, then advance.
            if !seen[o] {
                let ghost old_os = ivec(os@);
                seen.set(o, true);
                os.push(o);
                proof {
                    seen_set = seen_set.insert(o as int);
                    assert(ivec(os@) =~= old_os.push(o as int));
                }
                match self.first_parent_of(o) {
                    Some(p) => {
                        o = p;
                    },
                    None => {},
                }
            }
            proof {
                let (o2, seen2, os2) = walk_once(g, pre.0 as int, pre.2, pre.3);
                assert(o as int == o2);
                assert(seen_set =~= seen2);
                assert(ivec(os@) =~= os2);
            }
            // New side: push if unseen, then advance.
            if !seen[nw] {
                let ghost old_ns = ivec(ns@);
                seen.set(nw, true);
                ns.push(nw);
                proof {
                    seen_set = seen_set.insert(nw as int);
                    assert(ivec(ns@) =~= old_ns.push(nw as int));
                }
                match self.first_parent_of(nw) {
                    Some(p) => {
                        nw = p;
                    },
                    None => {},
                }
            }
            proof {
                let (o2, seen2, os2) = walk_once(g, pre.0 as int, pre.2, pre.3);
                let (n2, seen3, ns2) = walk_once(g, pre.1 as int, seen2, pre.4);
                assert(nw as int == n2);
                assert(seen_set =~= seen3);
                assert(ivec(ns@) =~= ns2);
            }
            k = k - 1;
        }
        proof {
            assert(walk(g, o as int, nw as int, seen_set, ivec(os@), ivec(ns@), k as nat) == (
            ivec(os@),
            ivec(ns@),
            ));
        }
        (os, ns)
    }

    /// `count_tree`, executably.
    #[verifier::loop_isolation(false)]
    fn count_tree_in(&self, stack: &Vec<usize>, key: &Vec<u8>) -> (r: usize)
        requires
            self.gv().wf(),
            forall|i: int| 0 <= i < stack@.len() ==> (#[trigger] stack@[i] as int) < self.gv().n(),
        ensures
            r as int == count_tree(self.gv(), ivec(stack@), key@, 0),
    {
        let ghost g = self.gv();
        let mut cnt: usize = 0;
        let mut k: usize = stack.len();
        while k > 0
            invariant
                k <= stack@.len(),
                cnt <= stack@.len() - k,
                cnt as int == count_tree(g, ivec(stack@), key@, k as int),
            decreases k,
        {
            k = k - 1;
            proof {
                assert(g.commits[ivec(stack@)[k as int]] == self.commits@[stack@[k as int] as int]@);
            }
            if crate::text::bytes_eq(&self.commits[stack[k]].tree, key) {
                cnt = cnt + 1;
            }
        }
        cnt
    }

    /// `find_tree`, executably.
    #[verifier::loop_isolation(false)]
    fn find_tree_in(&self, stack: &Vec<usize>, key: &Vec<u8>) -> (r: Option<usize>)
        requires
            self.gv().wf(),
            forall|i: int| 0 <= i < stack@.len() ==> (#[trigger] stack@[i] as int) < self.gv().n(),
        ensures
            r == match find_tree(self.gv(), ivec(stack@), key@, 0) {
                Some(x) => Some(x as usize),
                None => None::<usize>,
            },
    {
        let ghost g = self.gv();
        let mut k: usize = 0;
        while k < stack.len()
            invariant
                k <= stack@.len(),
                find_tree(g, ivec(stack@), key@, 0) == find_tree(g, ivec(stack@), key@, k as int),
            decreases stack@.len() - k,
        {
            proof {
                assert(g.commits[ivec(stack@)[k as int]] == self.commits@[stack@[k as int] as int]@);
            }
            if crate::text::bytes_eq(&self.commits[stack[k]].tree, key) {
                return Some(stack[k]);
            }
            k = k + 1;
        }
        None
    }

    /// `count_msg`, executably.
    #[verifier::loop_isolation(false)]
    fn count_msg_in(&self, stack: &Vec<usize>, t: i64, m: &String) -> (r: usize)
        requires
            self.gv().wf(),
            forall|i: int| 0 <= i < stack@.len() ==> (#[trigger] stack@[i] as int) < self.gv().n(),
        ensures
            r as int == count_msg(self.gv(), ivec(stack@), t as int, m@, 0),
    {
        let ghost g = self.gv();
        let mut cnt: usize = 0;
        let mut k: usize = stack.len();
        while k > 0
            invariant
                k <= stack@.len(),
                cnt <= stack@.len() - k,
                cnt as int == count_msg(g, ivec(stack@), t as int, m@, k as int),
            decreases k,
        {
            k = k - 1;
            proof {
                assert(g.commits[ivec(stack@)[k as int]] == self.commits@[stack@[k as int] as int]@);
            }
            if self.commits[stack[k]].author_time == t && crate::text::str_eq(
                self.commits[stack[k]].message.as_str(),
                m.as_str(),
            ) {
                cnt = cnt + 1;
            }
        }
        cnt
    }

    /// `find_msg`, executably.
    #[verifier::loop_isolation(false)]
    fn find_msg_in(&self, stack: &Vec<usize>, t: i64, m: &String) -> (r: Option<usize>)
        requires
            self.gv().wf(),
            forall|i: int| 0 <= i < stack@.len() ==> (#[trigger] stack@[i] as int) < self.gv().n(),
        ensures
            r == match find_msg(self.gv(), ivec(stack@), t as int, m@, 0) {
                Some(x) => Some(x as usize),
                None => None::<usize>,
            },
    {
        let ghost g = self.gv();
        let mut k: usize = 0;
        while k < stack.len()
            invariant
                k <= stack@.len(),
                find_msg(g, ivec(stack@), t as int, m@, 0) == find_msg(
                    g,
                    ivec(stack@),
                    t as int,
                    m@,
                    k as int,
                ),
            decreases stack@.len() - k,
        {
            proof {
                assert(g.commits[ivec(stack@)[k as int]] == self.commits@[stack@[k as int] as int]@);
            }
            if self.commits[stack[k]].author_time == t && crate::text::str_eq(
                self.commits[stack[k]].message.as_str(),
                m.as_str(),
            ) {
                return Some(stack[k]);
            }
            k = k + 1;
        }
        None
    }

    /// `pair_old_of`, executably.
    fn pair_old_for(&self, os: &Vec<usize>, ns: &Vec<usize>, nw: usize) -> (r: Option<usize>)
        requires
            self.gv().wf(),
            nw < self.gv().n(),
            forall|i: int| 0 <= i < os@.len() ==> (#[trigger] os@[i] as int) < self.gv().n(),
            forall|i: int| 0 <= i < ns@.len() ==> (#[trigger] ns@[i] as int) < self.gv().n(),
        ensures
            r == match pair_old_of(self.gv(), ivec(os@), ivec(ns@), nw as int) {
                Some(x) => Some(x as usize),
                None => None::<usize>,
            },
    {
        let ghost g = self.gv();
        proof {
            assert(g.commits[nw as int] == self.commits@[nw as int]@);
        }
        let t = self.commits[nw].author_time;
        let m = self.commits[nw].message.clone();
        let tr = self.commits[nw].tree.clone();
        if self.count_msg_in(os, t, &m) == 1 && self.count_msg_in(ns, t, &m) == 1 {
            self.find_msg_in(os, t, &m)
        } else if self.count_tree_in(os, &tr) == 1 && self.count_tree_in(ns, &tr) == 1 {
            self.find_tree_in(os, &tr)
        } else {
            None
        }
    }
}

/// Whether the chain from `w` reaches `target` within `n` steps,
/// executably.
#[verifier::loop_isolation(false)]
fn chain_reaches(rel: &Vec<Option<usize>>, w: usize, target: usize, n: usize) -> (r: bool)
    requires
        rel@.len() == n,
        w < n,
        forall|x: int|
            0 <= x < n as int ==> match #[trigger] rel@[x] {
                Some(o) => (o as int) < n as int,
                None => true,
            },
    ensures
        r == exists|k: nat|
            k <= n && #[trigger] mut_iter(optv(rel@), w as int, k) == Some(target as int),
{
    let ghost orel = optv(rel@);
    let mut hit = w == target;
    let ghost stopped = false;
    proof {
        assert(mut_iter(orel, w as int, 0) == Some(w as int));
        if !hit {
            assert forall|k2: nat|
                k2 <= 0 implies mut_iter(orel, w as int, k2) != Some(target as int) by {}
        }
    }
    let mut cur = w;
    let mut k: usize = 0;
    while k < n && !hit
        invariant
            k <= n,
            cur < n,
            mut_iter(orel, w as int, k as nat) == Some(cur as int),
            hit ==> k as nat <= n && mut_iter(orel, w as int, k as nat) == Some(
                target as int,
            ),
            !hit ==> forall|k2: nat|
                k2 <= k as nat ==> mut_iter(orel, w as int, k2) != Some(target as int),
        decreases n - k,
    {
        match rel[cur] {
            Some(nx) => {
                proof {
                    assert(orel[cur as int] == Some(nx as int));
                    assert(mut_iter(orel, w as int, (k + 1) as nat) == Some(nx as int));
                }
                cur = nx;
                k = k + 1;
                if cur == target {
                    hit = true;
                } else {
                    proof {
                        assert forall|k2: nat|
                            k2 <= k as nat implies mut_iter(orel, w as int, k2) != Some(
                            target as int,
                        ) by {
                            if k2 == k as nat {
                                assert(mut_iter(orel, w as int, k2) == Some(cur as int));
                            }
                        }
                    }
                }
            },
            None => {
                proof {
                    assert(mut_iter(orel, w as int, (k + 1) as nat) is None);
                    if !hit {
                        assert forall|k2: nat|
                            k2 <= n implies mut_iter(orel, w as int, k2) != Some(
                            target as int,
                        ) by {
                            if k2 > k as nat {
                                lemma_mut_iter_none(orel, w as int, (k + 1) as nat, k2);
                            }
                        }
                        stopped = true;
                    }
                }
                break ;
            },
        }
    }
    proof {
        if !hit && !stopped {
            assert(k == n);
            assert forall|k2: nat|
                k2 <= n implies mut_iter(orel, w as int, k2) != Some(target as int) by {}
        }
        if hit {
            assert(exists|k2: nat|
                k2 <= n && #[trigger] mut_iter(orel, w as int, k2) == Some(target as int))
                by {
                assert(mut_iter(orel, w as int, k as nat) == Some(target as int));
            }
        }
    }
    hit
}

impl Repo {
    /// Scan the operation logs and infer the whole rewrite relation.
    #[verifier::loop_isolation(false)]
    #[verifier::rlimit(50)]
    pub fn infer_mutation(&self) -> (r: MutationDag)
        requires
            self.gv().wf(),
        ensures
            r.matches(self.gv()),
    {
        let ghost g = self.gv();
        let n = self.n_commits();
        let mut rel: Vec<Option<usize>> = Vec::new();
        let mut t: usize = 0;
        while t < n
            invariant
                t <= n,
                rel@.len() == t,
                forall|v: int| 0 <= v < t as int ==> (#[trigger] rel@[v]) is None,
            decreases n - t,
        {
            rel.push(None);
            t = t + 1;
        }
        let mut j: usize = 0;
        while j < self.reflogs.len()
            invariant
                j <= self.reflogs@.len(),
                rel@.len() == n,
                forall|v: int|
                    0 <= v < n as int ==> (#[trigger] rel@[v]) == (match logs_old_of(
                        g,
                        j as int,
                        v,
                    ) {
                        Some(o) => Some(o as usize),
                        None => None::<usize>,
                    }),
                forall|v: int|
                    0 <= v < n as int ==> match #[trigger] rel@[v] {
                        Some(o) => (o as int) < n as int,
                        None => true,
                    },
            decreases self.reflogs@.len() - j,
        {
            proof {
                assert(g.reflogs[j as int] == self.reflogs@[j as int]@);
            }
            let refname = &self.reflogs[j].refname;
            let scanned = !crate::text::str_has_prefix(refname.as_str(), "refs/remotes/")
                && crate::text::str_has_prefix(refname.as_str(), "refs/heads/");
            if scanned {
                let ghost log_base = rel@;
                let entries = &self.reflogs[j].entries;
                let mut ej: usize = entries.len();
                while ej > 0
                    invariant
                        ej <= entries@.len(),
                        rel@.len() == n,
                        g.reflogs[j as int].entries =~= entries@.map_values(
                            |e: crate::repo::LogEntry| e@,
                        ),
                        forall|v: int|
                            0 <= v < n as int ==> (#[trigger] rel@[v]) == (match entries_old_of(
                                g,
                                g.reflogs[j as int].entries,
                                ej as int,
                                v,
                            ) {
                                Some(o) => Some(o as usize),
                                None => log_base[v],
                            }),
                        forall|v: int|
                            0 <= v < n as int ==> (#[trigger] log_base[v]) == (match logs_old_of(
                                g,
                                j as int,
                                v,
                            ) {
                                Some(o) => Some(o as usize),
                                None => None::<usize>,
                            }),
                        forall|v: int|
                            0 <= v < n as int ==> match #[trigger] rel@[v] {
                                Some(o) => (o as int) < n as int,
                                None => true,
                            },
                    decreases ej,
                {
                    ej = ej - 1;
                    let ghost ev = g.reflogs[j as int].entries[ej as int];
                    proof {
                        assert(ev == entries@[ej as int]@);
                    }
                    let msg = &entries[ej].message;
                    let is_rewrite = crate::text::str_has_prefix(msg.as_str(), "commit (amend):")
                        || crate::text::str_has_prefix(msg.as_str(), "rebase -i (finish):");
                    let ghost before_entry = rel@;
                    if is_rewrite {
                        let ro = self.resolve_id(&entries[ej].old_id);
                        let rn = self.resolve_id(&entries[ej].new_id);
                        match (ro, rn) {
                            (Some(o0), Some(n0)) => {
                                proof {
                                    lemma_idx_of_bound(g, ev.old_id, 0);
                                    lemma_idx_of_bound(g, ev.new_id, 0);
                                    assert(idx_of(g, ev.old_id, 0) == Some(o0 as int));
                                    assert(idx_of(g, ev.new_id, 0) == Some(n0 as int));
                                }
                                let (os, ns) = self.walk_stacks(o0, n0);
                                let ghost osv = ivec(os@);
                                let ghost nsv = ivec(ns@);
                                let mut tt: usize = 0;
                                while tt < ns.len()
                                    invariant
                                        tt <= ns@.len(),
                                        rel@.len() == n,
                                        osv == ivec(os@),
                                        nsv == ivec(ns@),
                                        forall|i: int|
                                            0 <= i < os@.len() ==> (#[trigger] os@[i] as int)
                                                < n as int,
                                        forall|i: int|
                                            0 <= i < ns@.len() ==> (#[trigger] ns@[i] as int)
                                                < n as int,
                                        (osv, nsv) == walk(
                                            g,
                                            o0 as int,
                                            n0 as int,
                                            Set::empty(),
                                            Seq::empty(),
                                            Seq::empty(),
                                            max_walk(),
                                        ),
                                        idx_of(g, ev.old_id, 0) == Some(o0 as int),
                                        idx_of(g, ev.new_id, 0) == Some(n0 as int),
                                        forall|v: int|
                                            0 <= v < n as int ==> (#[trigger] rel@[v]) == (
                                            if (exists|t2: int|
                                                0 <= t2 < tt as int && nsv[t2] == v)
                                                && entry_old_of(g, ev, v) is Some {
                                                match entry_old_of(g, ev, v) {
                                                    Some(o) => Some(o as usize),
                                                    None => None::<usize>,
                                                }
                                            } else {
                                                before_entry[v]
                                            }),
                                        forall|v: int|
                                            0 <= v < n as int ==> match #[trigger] rel@[v] {
                                                Some(o) => (o as int) < n as int,
                                                None => true,
                                            },
                                    decreases ns@.len() - tt,
                                {
                                    let nw = ns[tt];
                                    let po = self.pair_old_for(&os, &ns, nw);
                                    proof {
                                        assert(nsv[tt as int] == nw as int);
                                        assert(nsv.contains(nw as int));
                                        lemma_find_tree_member(g, osv, g.commits[nw as int].tree, 0);
                                        lemma_find_msg_member(
                                            g,
                                            osv,
                                            g.commits[nw as int].author_time,
                                            g.commits[nw as int].message,
                                            0,
                                        );
                                    }
                                    let ghost pre_write = rel@;
                                    match po {
                                        Some(o) => {
                                            if o != nw {
                                                rel.set(nw, Some(o));
                                            }
                                        },
                                        None => {},
                                    }
                                    proof {
                                        assert forall|v: int|
                                            0 <= v < n as int implies (#[trigger] rel@[v]) == (
                                        if (exists|t2: int| 0 <= t2 < tt + 1 && nsv[t2] == v)
                                            && entry_old_of(g, ev, v) is Some {
                                            match entry_old_of(g, ev, v) {
                                                Some(o) => Some(o as usize),
                                                None => None::<usize>,
                                            }
                                        } else {
                                            before_entry[v]
                                        }) by {
                                            if v == nw as int {
                                                assert(nsv[tt as int] == v);
                                            } else {
                                                assert(rel@[v] == pre_write[v]);
                                                if exists|t2: int|
                                                    0 <= t2 < tt + 1 && nsv[t2] == v {
                                                    let t2 = choose|t2: int|
                                                        0 <= t2 < tt + 1 && nsv[t2] == v;
                                                    assert(t2 < tt as int);
                                                }
                                            }
                                        }
                                    }
                                    tt = tt + 1;
                                }
                                proof {
                                    assert forall|v: int|
                                        0 <= v < n as int implies (#[trigger] rel@[v]) == (
                                    match entries_old_of(
                                        g,
                                        g.reflogs[j as int].entries,
                                        ej as int,
                                        v,
                                    ) {
                                        Some(o) => Some(o as usize),
                                        None => log_base[v],
                                    }) by {
                                        if entry_old_of(g, ev, v) is Some {
                                            assert(nsv.contains(v));
                                            let t2 = choose|t2: int|
                                                0 <= t2 < nsv.len() && nsv[t2] == v;
                                            assert(exists|t3: int|
                                                0 <= t3 < ns@.len() as int && nsv[t3] == v);
                                        }
                                    }
                                }
                            },
                            _ => {
                                proof {
                                    assert forall|v: int|
                                        0 <= v < n as int implies entry_old_of(g, ev, v)
                                        is None by {}
                                }
                            },
                        }
                    }
                }
                proof {
                    assert forall|v: int|
                        0 <= v < n as int implies (#[trigger] rel@[v]) == (match logs_old_of(
                        g,
                        j + 1,
                        v,
                    ) {
                        Some(o) => Some(o as usize),
                        None => None::<usize>,
                    }) by {
                        assert(scanned_ref(g.reflogs[j as int].refname));
                    }
                }
            } else {
                proof {
                    assert(!scanned_ref(g.reflogs[j as int].refname));
                }
            }
            j = j + 1;
        }
        let ghost raw = optv(rel@);
        proof {
            assert(raw =~= mut_rel_raw(g)) by {
                assert forall|v: int| 0 <= v < n as int implies raw[v] == mut_rel_raw(g)[v] by {
                    lemma_logs_old_of_bound(g, g.reflogs.len() as int, v);
                }
            }
        }
        // Break cycles: walking sources in ascending order, drop each edge
        // whose target's chain leads back to the source.
        let mut u: usize = 0;
        while u < n
            invariant
                u <= n,
                rel@.len() == n,
                forall|x: int|
                    0 <= x < n as int ==> match #[trigger] rel@[x] {
                        Some(o) => (o as int) < n as int,
                        None => true,
                    },
                cut_from(optv(rel@), u as int) == cut_from(raw, 0),
            decreases n - u,
        {
            let ghost pre = optv(rel@);
            let cut = match rel[u] {
                Some(w) => chain_reaches(&rel, w, u, n),
                None => false,
            };
            proof {
                assert(cut == edge_closes_cycle(pre, u as int)) by {
                    match rel@[u as int] {
                        Some(w) => {
                            assert(pre[u as int] == Some(w as int));
                        },
                        None => {
                            assert(pre[u as int] is None);
                        },
                    }
                }
            }
            if cut {
                rel.set(u, None);
            }
            proof {
                let cur = optv(rel@);
                if cut {
                    assert(cur =~= pre.update(u as int, None));
                } else {
                    assert(cur =~= pre);
                }
                assert(cut_from(pre, u as int) == cut_from(cur, u + 1));
            }
            u = u + 1;
        }
        proof {
            let fin = optv(rel@);
            assert(cut_from(fin, n as int) == fin);
            assert(fin == cut_from(raw, 0));
            assert(fin == mut_rel_broken(g)) by {
                assert(cut_from(raw, 0) == cut_from(mut_rel_raw(g), 0));
            }
            lemma_cut_from_props(mut_rel_raw(g), 0);
            assert forall|v: int|
                0 <= v < g.n() implies (#[trigger] rel@[v]) == (match mut_rel_broken(g)[v] {
                Some(o) => Some(o as usize),
                None => None::<usize>,
            }) by {
                assert(fin[v] == mut_rel_broken(g)[v]);
                match rel@[v] {
                    Some(o) => {
                        assert(fin[v] == Some(o as int));
                    },
                    None => {
                        assert(fin[v] is None);
                    },
                }
            }
            assert(rel_acyclic(fin));
        }
        MutationDag { old_of: rel }
    }
}

/// Iterating the relation `k` times from `u`.
pub open spec fn mut_iter(rel: Seq<Option<int>>, u: int, k: nat) -> Option<int>
    decreases k,
{
    if k == 0 {
        if 0 <= u < rel.len() {
            Some(u)
        } else {
            None
        }
    } else {
        match mut_iter(rel, u, (k - 1) as nat) {
            Some(v) => if 0 <= v < rel.len() {
                rel[v]
            } else {
                None
            },
            None => None,
        }
    }
}

/// The commits that belong to the rewrite structure: either side of an edge.
pub open spec fn mut_all(rel: Seq<Option<int>>) -> Set<int> {
    Set::new(
        |v: int|
            0 <= v < rel.len() && (rel[v] is Some || exists|u: int|
                0 <= u < rel.len() && #[trigger] rel[u] == Some(v)),
    )
}

/// Everything some member of `s` rewrote, transitively, members included.
pub open spec fn mut_pred_closure(rel: Seq<Option<int>>, s: Set<int>) -> Set<int> {
    Set::new(
        |v: int|
            exists|u: int, k: nat|
                s.contains(u) && k <= rel.len() && #[trigger] mut_iter(rel, u, k) == Some(v),
    )
}

/// Everything that rewrote some member of `s`, transitively, members included.
pub open spec fn mut_succ_closure(rel: Seq<Option<int>>, s: Set<int>) -> Set<int> {
    Set::new(
        |v: int|
            exists|u: int, k: nat|
                #![trigger s.contains(u), mut_iter(rel, v, k)]
                s.contains(u) && k <= rel.len() && mut_iter(rel, v, k) == Some(u),
    )
}

/// Whether the chain from `v` hits a member of `sv` after exactly `k` steps.
pub open spec fn chain_hits(rel: Seq<Option<int>>, sv: Set<int>, v: int, k: nat) -> bool {
    match mut_iter(rel, v, k) {
        Some(x) => sv.contains(x),
        None => false,
    }
}

proof fn lemma_mut_iter_none(rel: Seq<Option<int>>, u: int, k1: nat, k2: nat)
    requires
        k1 <= k2,
        mut_iter(rel, u, k1) is None,
    ensures
        mut_iter(rel, u, k2) is None,
    decreases k2,
{
    if k2 > k1 {
        lemma_mut_iter_none(rel, u, k1, (k2 - 1) as nat);
    }
}

/// Whether every edge of `rel` stays inside `0 .. n`.
pub open spec fn rel_bounded(rel: Seq<Option<int>>, n: int) -> bool {
    rel.len() == n && forall|v: int|
        0 <= v < n ==> match #[trigger] rel[v] {
            Some(o) => 0 <= o < n,
            None => true,
        }
}

impl MutationDag {
    /// Everything members of `s` rewrote, transitively, members included.
    #[verifier::loop_isolation(false)]
    pub fn pred_closure(&self, s: &crate::vset::VertexSet, n: usize) -> (r: crate::vset::VertexSet)
        requires
            rel_bounded(relv(*self), n as int),
            s.bounded(n as int),
        ensures
            r.wf(),
            r.bounded(n as int),
            forall|v: int| r.has(v) <==> mut_pred_closure(relv(*self), crate::dag::setof(*s)).contains(v),
    {
        let ghost rel = relv(*self);
        let ghost sv = crate::dag::setof(*s);
        let mut marks: Vec<bool> = Vec::new();
        let mut t: usize = 0;
        while t < n
            invariant
                t <= n,
                marks@.len() == t,
                forall|u: int| 0 <= u < t as int ==> !(#[trigger] marks@[u]),
            decreases n - t,
        {
            marks.push(false);
            t = t + 1;
        }
        let mut j: usize = 0;
        while j < s.len()
            invariant
                j <= s.items@.len(),
                marks@.len() == n,
                forall|x: int|
                    0 <= x < n as int ==> (#[trigger] marks@[x] == exists|j2: int, k: nat|
                        0 <= j2 < j as int && k <= rel.len() && mut_iter(
                            rel,
                            s.items@[j2] as int,
                            k,
                        ) == Some(x)),
            decreases s.items@.len() - j,
        {
            let u = s.at(j);
            let ghost pre = marks@;
            let mut cur = u;
            let ghost mid0 = marks@;
            marks.set(cur, true);
            proof {
                assert(mut_iter(rel, u as int, 0) == Some(u as int));
                assert forall|x: int|
                    0 <= x < n as int implies (#[trigger] marks@[x] == (pre[x] || exists|k2: nat|
                    k2 <= 0 && mut_iter(rel, u as int, k2) == Some(x))) by {
                    if x == cur as int {
                        assert(mut_iter(rel, u as int, 0) == Some(x));
                    } else {
                        assert(marks@[x] == mid0[x]);
                    }
                }
            }
            let mut k: usize = 0;
            let ghost stopped = false;
            while k < n
                invariant
                    k <= n,
                    cur < n,
                    marks@.len() == n,
                    mut_iter(rel, u as int, k as nat) == Some(cur as int),
                    forall|x: int|
                        0 <= x < n as int ==> (#[trigger] marks@[x] == (pre[x] || exists|k2: nat|
                            k2 <= k as nat && mut_iter(rel, u as int, k2) == Some(x))),
                decreases n - k,
            {
                match self.old_of[cur] {
                    Some(nx) => {
                        proof {
                            assert(rel[cur as int] == Some(nx as int));
                            assert(mut_iter(rel, u as int, (k + 1) as nat) == Some(nx as int));
                        }
                        cur = nx;
                        let ghost mid = marks@;
                        marks.set(cur, true);
                        k = k + 1;
                        proof {
                            assert forall|x: int|
                                0 <= x < n as int implies (#[trigger] marks@[x] == (pre[x]
                                || exists|k2: nat|
                                k2 <= k as nat && mut_iter(rel, u as int, k2) == Some(x))) by {
                                if x == cur as int {
                                    assert(mut_iter(rel, u as int, k as nat) == Some(x));
                                } else {
                                    assert(marks@[x] == mid[x]);
                                    if exists|k2: nat|
                                        k2 <= k as nat && mut_iter(rel, u as int, k2) == Some(
                                            x,
                                        ) {
                                        let k2 = choose|k2: nat|
                                            k2 <= k as nat && mut_iter(rel, u as int, k2)
                                                == Some(x);
                                        assert(k2 <= (k - 1) as nat);
                                    }
                                }
                            }
                        }
                    },
                    None => {
                        proof {
                            assert(rel[cur as int] is None);
                            assert(mut_iter(rel, u as int, (k + 1) as nat) is None);
                            assert forall|x: int|
                                0 <= x < n as int implies (#[trigger] marks@[x] == (pre[x]
                                || exists|k2: nat|
                                k2 <= rel.len() && mut_iter(rel, u as int, k2) == Some(
                                    x,
                                ))) by {
                                if !marks@[x] {
                                    if exists|k2: nat|
                                        k2 <= rel.len() && mut_iter(rel, u as int, k2) == Some(
                                            x,
                                        ) {
                                        let k2 = choose|k2: nat|
                                            k2 <= rel.len() && mut_iter(rel, u as int, k2)
                                                == Some(x);
                                        if k2 > k as nat {
                                            lemma_mut_iter_none(rel, u as int, (k + 1) as nat, k2);
                                        }
                                    }
                                }
                            }
                            stopped = true;
                        }
                        break ;
                    },
                }
            }
            proof {
                if !stopped {
                    assert(k == n);
                    assert forall|x: int|
                        0 <= x < n as int implies (#[trigger] marks@[x] == (pre[x] || exists|
                        k2: nat,
                    |
                        k2 <= rel.len() && mut_iter(rel, u as int, k2) == Some(x))) by {}
                }
                assert forall|x: int|
                    0 <= x < n as int implies (#[trigger] marks@[x] == exists|j2: int, k2: nat|
                    0 <= j2 < j + 1 && k2 <= rel.len() && mut_iter(rel, s.items@[j2] as int, k2)
                        == Some(x)) by {
                    if marks@[x] {
                        if pre[x] {
                            let (j2, k2): (int, nat) = choose|j2: int, k2: nat|
                                0 <= j2 < j as int && k2 <= rel.len() && mut_iter(
                                    rel,
                                    s.items@[j2] as int,
                                    k2,
                                ) == Some(x);
                            assert(mut_iter(rel, s.items@[j2] as int, k2) == Some(x));
                        } else {
                            let k2 = choose|k2: nat|
                                k2 <= rel.len() && mut_iter(rel, u as int, k2) == Some(x);
                            assert(s.items@[j as int] == u);
                            assert(mut_iter(rel, s.items@[j as int] as int, k2) == Some(x));
                        }
                    } else {
                        if exists|j2: int, k2: nat|
                            0 <= j2 < j + 1 && k2 <= rel.len() && mut_iter(
                                rel,
                                s.items@[j2] as int,
                                k2,
                            ) == Some(x) {
                            let (j2, k2): (int, nat) = choose|j2: int, k2: nat|
                                0 <= j2 < j + 1 && k2 <= rel.len() && mut_iter(
                                    rel,
                                    s.items@[j2] as int,
                                    k2,
                                ) == Some(x);
                            if j2 == j as int {
                                assert(marks@[x]);
                            }
                        }
                    }
                }
            }
            j = j + 1;
        }
        let r = crate::vset::VertexSet::from_marks(&marks);
        proof {
            assert forall|v: int|
                r.has(v) <==> mut_pred_closure(rel, sv).contains(v) by {
                if mut_pred_closure(rel, sv).contains(v) {
                    let (u, k): (int, nat) = choose|u: int, k: nat|
                        sv.contains(u) && k <= rel.len() && #[trigger] mut_iter(rel, u, k)
                            == Some(v);
                    let j2 = choose|j2: int|
                        0 <= j2 < s.items@.len() && s.items@[j2] == u;
                    assert(mut_iter(rel, s.items@[j2] as int, k) == Some(v));
                    lemma_mut_iter_in_range(rel, u, k);
                }
                if r.has(v) {
                    let (j2, k): (int, nat) = choose|j2: int, k: nat|
                        0 <= j2 < s.items@.len() && k <= rel.len() && mut_iter(
                            rel,
                            s.items@[j2] as int,
                            k,
                        ) == Some(v);
                    assert(sv.contains(s.items@[j2] as int));
                    assert(mut_iter(rel, s.items@[j2] as int, k) == Some(v));
                }
            }
        }
        r
    }

    /// Everything that rewrote some member of `s`, transitively.
    #[verifier::loop_isolation(false)]
    pub fn succ_closure(&self, s: &crate::vset::VertexSet, n: usize) -> (r: crate::vset::VertexSet)
        requires
            rel_bounded(relv(*self), n as int),
            s.bounded(n as int),
        ensures
            r.wf(),
            r.bounded(n as int),
            forall|v: int| r.has(v) <==> mut_succ_closure(relv(*self), crate::dag::setof(*s)).contains(v),
    {
        let ghost rel = relv(*self);
        let ghost sv = crate::dag::setof(*s);
        let mut marks: Vec<bool> = Vec::new();
        let mut v: usize = 0;
        while v < n
            invariant
                v <= n,
                marks@.len() == v,
                forall|x: int| 0 <= x < v as int ==> (#[trigger] marks@[x]
                    == mut_succ_closure(rel, sv).contains(x)),
            decreases n - v,
        {
            let mut hit = s.contains(v);
            let ghost stopped = false;
            proof {
                assert(mut_iter(rel, v as int, 0) == Some(v as int));
                if hit {
                    assert(sv.contains(v as int));
                    assert(chain_hits(rel, sv, v as int, 0));
                } else {
                    assert forall|k2: nat| k2 <= 0 implies !chain_hits(rel, sv, v as int, k2) by {}
                }
            }
            let mut cur = v;
            let mut k: usize = 0;
            while k < n && !hit
                invariant
                    k <= n,
                    cur < n,
                    mut_iter(rel, v as int, k as nat) == Some(cur as int),
                    hit ==> chain_hits(rel, sv, v as int, k as nat) && k as nat <= rel.len(),
                    !hit ==> forall|k2: nat| k2 <= k as nat ==> !chain_hits(rel, sv, v as int, k2),
                decreases n - k,
            {
                match self.old_of[cur] {
                    Some(nx) => {
                        proof {
                            assert(rel[cur as int] == Some(nx as int));
                            assert(mut_iter(rel, v as int, (k + 1) as nat) == Some(nx as int));
                        }
                        cur = nx;
                        k = k + 1;
                        if s.contains(cur) {
                            hit = true;
                            proof {
                                assert(sv.contains(cur as int));
                                assert(chain_hits(rel, sv, v as int, k as nat));
                            }
                        } else {
                            proof {
                                assert forall|k2: nat|
                                    k2 <= k as nat implies !chain_hits(rel, sv, v as int, k2) by {
                                    if k2 == k as nat {
                                        assert(mut_iter(rel, v as int, k2) == Some(cur as int));
                                        assert(!sv.contains(cur as int));
                                    }
                                }
                            }
                        }
                    },
                    None => {
                        proof {
                            assert(mut_iter(rel, v as int, (k + 1) as nat) is None);
                            if !hit {
                                assert forall|k2: nat|
                                    k2 <= rel.len() implies !chain_hits(rel, sv, v as int, k2) by {
                                    if k2 > k as nat {
                                        lemma_mut_iter_none(rel, v as int, (k + 1) as nat, k2);
                                    }
                                }
                                stopped = true;
                            }
                        }
                        break ;
                    },
                }
            }
            proof {
                if !hit {
                    if !stopped {
                        assert(k == n);
                        assert forall|k2: nat|
                            k2 <= rel.len() implies !chain_hits(rel, sv, v as int, k2) by {}
                    }
                    assert(!mut_succ_closure(rel, sv).contains(v as int)) by {
                        if mut_succ_closure(rel, sv).contains(v as int) {
                            let (u, k2): (int, nat) = choose|u: int, k2: nat|
                                #![trigger sv.contains(u), mut_iter(rel, v as int, k2)]
                                sv.contains(u) && k2 <= rel.len() && mut_iter(rel, v as int, k2)
                                    == Some(u);
                            assert(chain_hits(rel, sv, v as int, k2));
                        }
                    }
                } else {
                    let ghost kh = k as nat;
                    assert(chain_hits(rel, sv, v as int, kh));
                    assert(mut_succ_closure(rel, sv).contains(v as int)) by {
                        let u = mut_iter(rel, v as int, kh)->0;
                        assert(sv.contains(u) && kh <= rel.len() && mut_iter(rel, v as int, kh)
                            == Some(u));
                    }
                }
            }
            marks.push(hit);
            proof {
                assert(marks@[v as int] == hit);
            }
            v = v + 1;
        }
        let r = crate::vset::VertexSet::from_marks(&marks);
        proof {
            assert forall|x: int|
                r.has(x) <==> mut_succ_closure(rel, sv).contains(x) by {
                if !(0 <= x < n as int) {
                    assert(!r.has(x));
                    if mut_succ_closure(rel, sv).contains(x) {
                        let (u, k2): (int, nat) = choose|u: int, k2: nat|
                            #![trigger sv.contains(u), mut_iter(rel, x, k2)]
                            sv.contains(u) && k2 <= rel.len() && mut_iter(rel, x, k2) == Some(u);
                        lemma_mut_iter_out(rel, x, k2);
                    }
                }
            }
        }
        r
    }

    /// The direct "replaced" commits of members of `s`.
    #[verifier::loop_isolation(false)]
    pub fn parents_step(&self, s: &crate::vset::VertexSet, n: usize) -> (r: crate::vset::VertexSet)
        requires
            rel_bounded(relv(*self), n as int),
            s.bounded(n as int),
        ensures
            r.wf(),
            r.bounded(n as int),
            forall|v: int| r.has(v) <==> mut_parents(relv(*self), crate::dag::setof(*s)).contains(v),
    {
        let ghost rel = relv(*self);
        let ghost sv = crate::dag::setof(*s);
        let mut marks: Vec<bool> = Vec::new();
        let mut t: usize = 0;
        while t < n
            invariant
                t <= n,
                marks@.len() == t,
                forall|u: int| 0 <= u < t as int ==> !(#[trigger] marks@[u]),
            decreases n - t,
        {
            marks.push(false);
            t = t + 1;
        }
        let mut j: usize = 0;
        while j < s.len()
            invariant
                j <= s.items@.len(),
                marks@.len() == n,
                forall|x: int|
                    0 <= x < n as int ==> (#[trigger] marks@[x] == exists|j2: int|
                        0 <= j2 < j as int && rel[s.items@[j2] as int] == Some(x)),
            decreases s.items@.len() - j,
        {
            let u = s.at(j);
            let ghost pre = marks@;
            match self.old_of[u] {
                Some(o) => {
                    proof {
                        assert(rel[u as int] == Some(o as int));
                    }
                    marks.set(o, true);
                    proof {
                        assert forall|x: int|
                            0 <= x < n as int implies (#[trigger] marks@[x] == exists|j2: int|
                            0 <= j2 < j + 1 && rel[s.items@[j2] as int] == Some(x)) by {
                            if x == o as int {
                                assert(rel[s.items@[j as int] as int] == Some(x));
                            } else {
                                assert(marks@[x] == pre[x]);
                                if exists|j2: int|
                                    0 <= j2 < j + 1 && rel[s.items@[j2] as int] == Some(x) {
                                    let j2 = choose|j2: int|
                                        0 <= j2 < j + 1 && rel[s.items@[j2] as int] == Some(x);
                                    assert(j2 < j as int);
                                }
                            }
                        }
                    }
                },
                None => {
                    proof {
                        assert forall|x: int|
                            0 <= x < n as int implies (#[trigger] marks@[x] == exists|j2: int|
                            0 <= j2 < j + 1 && rel[s.items@[j2] as int] == Some(x)) by {
                            if !marks@[x] {
                                if exists|j2: int|
                                    0 <= j2 < j + 1 && rel[s.items@[j2] as int] == Some(x) {
                                    let j2 = choose|j2: int|
                                        0 <= j2 < j + 1 && rel[s.items@[j2] as int] == Some(x);
                                    assert(j2 != j as int);
                                }
                            }
                        }
                    }
                },
            }
            j = j + 1;
        }
        let r = crate::vset::VertexSet::from_marks(&marks);
        proof {
            assert forall|v: int|
                r.has(v) <==> mut_parents(rel, sv).contains(v) by {
                if mut_parents(rel, sv).contains(v) {
                    let u = choose|u: int|
                        sv.contains(u) && 0 <= u < rel.len() && #[trigger] rel[u] == Some(v);
                    let j2 = choose|j2: int|
                        0 <= j2 < s.items@.len() && s.items@[j2] == u;
                    assert(rel[s.items@[j2] as int] == Some(v));
                }
                if r.has(v) {
                    let j2 = choose|j2: int|
                        0 <= j2 < s.items@.len() && rel[s.items@[j2] as int] == Some(v);
                    assert(sv.contains(s.items@[j2] as int));
                }
            }
        }
        r
    }

    /// The commits on either side of an inferred edge.
    #[verifier::loop_isolation(false)]
    pub fn all_members(&self, n: usize) -> (r: crate::vset::VertexSet)
        requires
            rel_bounded(relv(*self), n as int),
        ensures
            r.wf(),
            r.bounded(n as int),
            forall|v: int| r.has(v) <==> mut_all(relv(*self)).contains(v),
    {
        let ghost rel = relv(*self);
        let mut marks: Vec<bool> = Vec::new();
        let mut t: usize = 0;
        while t < n
            invariant
                t <= n,
                marks@.len() == t,
                forall|u: int| 0 <= u < t as int ==> !(#[trigger] marks@[u]),
            decreases n - t,
        {
            marks.push(false);
            t = t + 1;
        }
        let mut u: usize = 0;
        while u < n
            invariant
                u <= n,
                marks@.len() == n,
                forall|x: int|
                    0 <= x < n as int ==> (#[trigger] marks@[x] == ((x < u as int && rel[x]
                        is Some) || exists|w: int| 0 <= w < u as int && rel[w] == Some(x))),
            decreases n - u,
        {
            match self.old_of[u] {
                Some(o) => {
                    proof {
                        assert(rel[u as int] == Some(o as int));
                    }
                    let ghost m1 = marks@;
                    marks.set(u, true);
                    let ghost m2 = marks@;
                    marks.set(o, true);
                    proof {
                        assert forall|x: int|
                            0 <= x < n as int implies (#[trigger] marks@[x] == ((x < u + 1 && rel[x]
                            is Some) || exists|w: int| 0 <= w < u + 1 && rel[w] == Some(x))) by {
                            if x == o as int {
                                assert(rel[u as int] == Some(x));
                            } else if x == u as int {
                                assert(marks@[x]);
                                assert(rel[x] is Some);
                            } else {
                                assert(marks@[x] == m1[x]);
                                if exists|w: int| 0 <= w < u + 1 && rel[w] == Some(x) {
                                    let w = choose|w: int| 0 <= w < u + 1 && rel[w] == Some(x);
                                    assert(w != u as int);
                                }
                            }
                        }
                    }
                },
                None => {
                    proof {
                        assert(rel[u as int] is None);
                        assert forall|x: int|
                            0 <= x < n as int implies (#[trigger] marks@[x] == ((x < u + 1 && rel[x]
                            is Some) || exists|w: int| 0 <= w < u + 1 && rel[w] == Some(x))) by {
                            if !marks@[x] {
                                if exists|w: int| 0 <= w < u + 1 && rel[w] == Some(x) {
                                    let w = choose|w: int| 0 <= w < u + 1 && rel[w] == Some(x);
                                    assert(w != u as int);
                                }
                            }
                        }
                    }
                },
            }
            u = u + 1;
        }
        let r = crate::vset::VertexSet::from_marks(&marks);
        proof {
            assert forall|v: int| r.has(v) <==> mut_all(rel).contains(v) by {
                if r.has(v) {
                    if !(rel[v] is Some) {
                        let w = choose|w: int| 0 <= w < n as int && rel[w] == Some(v);
                        assert(rel[w] == Some(v));
                    }
                }
                if mut_all(rel).contains(v) {
                    if !(rel[v] is Some) {
                        let w = choose|w: int| 0 <= w < rel.len() && #[trigger] rel[w] == Some(v);
                        assert(rel[w] == Some(v));
                    }
                }
            }
        }
        r
    }
}

proof fn lemma_mut_iter_in_range(rel: Seq<Option<int>>, u: int, k: nat)
    requires
        forall|v: int|
            0 <= v < rel.len() ==> match #[trigger] rel[v] {
                Some(o) => 0 <= o < rel.len(),
                None => true,
            },
    ensures
        match mut_iter(rel, u, k) {
            Some(v) => 0 <= v < rel.len(),
            None => true,
        },
    decreases k,
{
    if k > 0 {
        lemma_mut_iter_in_range(rel, u, (k - 1) as nat);
    }
}

proof fn lemma_mut_iter_out(rel: Seq<Option<int>>, v: int, k: nat)
    requires
        !(0 <= v < rel.len()),
    ensures
        mut_iter(rel, v, k) is None,
    decreases k,
{
    if k > 0 {
        lemma_mut_iter_out(rel, v, (k - 1) as nat);
    }
}

/// The direct "replaced" commits of members of `s`.
pub open spec fn mut_parents(rel: Seq<Option<int>>, s: Set<int>) -> Set<int> {
    Set::new(
        |v: int| exists|u: int| s.contains(u) && 0 <= u < rel.len() && #[trigger] rel[u] == Some(v),
    )
}

} // verus!
