//! The evaluator: walks an expression against a repository and a context,
//! producing a set of commits or an error.

use crate::ast::Expr;
use crate::ast::ExprV;
use crate::ast::print_expr;
use crate::ast::replace_expr;
use crate::dag::heads_of;
use crate::dag::in_ancestors;
use crate::dag::in_children;
use crate::dag::in_descendants;
use crate::dag::in_parents;
use crate::dag::pars;
use crate::dag::reaches;
use crate::dag::setof;
use crate::error::Error;
use crate::error::ErrorV;
use crate::mutation::mut_all;
use crate::mutation::mut_parents;
use crate::mutation::mut_pred_closure;
use crate::mutation::mut_succ_closure;
use crate::repo::GraphV;
use crate::repo::Repo;
use crate::text::has_substring;
use crate::vset::VertexSet;
use vstd::prelude::*;
use vstd::string::StrSliceExecFns;
use vstd::string::StringExecFns;

verus! {

broadcast use vstd::seq::axiom_seq_index_decreases, vstd::std_specs::vec::axiom_vec_index_decreases, vstd::seq::axiom_seq_subrange_decreases;

/// Extra context for `eval`: extra name bindings, and alias templates that
/// take priority over builtin functions of the same name.
pub struct Context {
    /// Extra pre-computed sets: a name bound here shadows references.
    pub names: Vec<(String, VertexSet)>,
    /// Alias templates: `f` bound to a template makes `f(a, b)` evaluate the
    /// template with `$1`, `$2` replaced by the raw argument expressions.
    /// Bindings are templates, not arbitrary callables: templates are what
    /// the configuration's alias layer produces, and they keep every
    /// user-defined function inside the verified semantics.
    pub fns: Vec<(String, Expr)>,
}

/// The mathematical shape of a context.
pub struct CtxV {
    pub names: Seq<(Seq<char>, Set<int>)>,
    pub fns: Seq<(Seq<char>, ExprV)>,
}

impl Context {
    pub open spec fn view(&self) -> CtxV {
        CtxV {
            names: self.names@.map_values(|p: (String, VertexSet)| (p.0@, setof(p.1))),
            fns: self.fns@.map_values(|p: (String, Expr)| (p.0@, p.1@)),
        }
    }

    /// An empty context.
    pub fn new() -> (r: Context)
        ensures
            r@.names.len() == 0,
            r@.fns.len() == 0,
    {
        Context { names: Vec::new(), fns: Vec::new() }
    }
}

/// Every set a context binds lies inside the commit store.
pub open spec fn ctx_ok(c: CtxV, n: int) -> bool {
    forall|k: int, v: int|
        0 <= k < c.names.len() && (#[trigger] c.names[k].1.contains(v)) ==> 0 <= v < n
}

/// What evaluating an expression yields: a set, an error, or a value that
/// depends on the clock (date-range filters), of which nothing more is said.
pub enum EvalV {
    Val(Set<int>),
    Fail(ErrorV),
    Open,
}

/// Evaluating an argument list, left to right.
pub enum ListV {
    LVals(Seq<Set<int>>),
    LFail(ErrorV),
    LOpen,
}

/// The first binding of `s` among the context names, from position `k` on.
pub open spec fn ctx_name_find_from(
    names: Seq<(Seq<char>, Set<int>)>,
    s: Seq<char>,
    k: int,
) -> Option<Set<int>>
    decreases names.len() - k,
{
    if k < 0 || k >= names.len() {
        None
    } else if names[k].0 == s {
        Some(names[k].1)
    } else {
        ctx_name_find_from(names, s, k + 1)
    }
}

/// The first binding of `s` among the context names.
pub open spec fn ctx_name_find(names: Seq<(Seq<char>, Set<int>)>, s: Seq<char>) -> Option<
    Set<int>,
> {
    ctx_name_find_from(names, s, 0)
}

/// The first alias template bound to `s`, from position `k` on.
pub open spec fn ctx_fn_find_from(fns: Seq<(Seq<char>, ExprV)>, s: Seq<char>, k: int) -> Option<
    ExprV,
>
    decreases fns.len() - k,
{
    if k < 0 || k >= fns.len() {
        None
    } else if fns[k].0 == s {
        Some(fns[k].1)
    } else {
        ctx_fn_find_from(fns, s, k + 1)
    }
}

/// The first alias template bound to `s`.
pub open spec fn ctx_fn_find(fns: Seq<(Seq<char>, ExprV)>, s: Seq<char>) -> Option<ExprV> {
    ctx_fn_find_from(fns, s, 0)
}

/// The target of the reference named exactly `full`, from position `k` on.
pub open spec fn ref_target_from(g: GraphV, full: Seq<char>, k: int) -> Option<int>
    decreases g.refs.len() - k,
{
    if k < 0 || k >= g.refs.len() {
        None
    } else if g.refs[k].name == full {
        Some(g.refs[k].target)
    } else {
        ref_target_from(g, full, k + 1)
    }
}

/// The reference lookup order for a bare name: `refs/{s}`, `refs/heads/{s}`,
/// `refs/tags/{s}`, `refs/remotes/{s}`; the first match wins.
pub open spec fn lookup_ref_sem(g: GraphV, s: Seq<char>) -> Option<int> {
    match ref_target_from(g, "refs/"@ + s, 0) {
        Some(t) => Some(t),
        None => match ref_target_from(g, "refs/heads/"@ + s, 0) {
            Some(t) => Some(t),
            None => match ref_target_from(g, "refs/tags/"@ + s, 0) {
                Some(t) => Some(t),
                None => ref_target_from(g, "refs/remotes/"@ + s, 0),
            },
        },
    }
}

/// Lower-cased hex bytes of `s`, or `None` if a character is no hex digit.
pub open spec fn hex_norm(s: Seq<char>) -> Option<Seq<u8>>
    decreases s.len(),
{
    if s.len() == 0 {
        Some(Seq::empty())
    } else {
        match hex_norm(s.drop_last()) {
            Some(p) => {
                let c = s.last();
                if '0' <= c && c <= '9' || 'a' <= c && c <= 'f' {
                    Some(p.push(c as u8))
                } else if 'A' <= c && c <= 'F' {
                    Some(p.push((c as u8 + 32) as u8))
                } else {
                    None
                }
            },
            None => None,
        }
    }
}

/// The `t`-th lower-case hex character of an identity, as a byte.
pub open spec fn hex_digit_of(id: Seq<u8>, t: int) -> u8 {
    let b = id[t / 2];
    let nib = if t % 2 == 0 {
        b / 16
    } else {
        b % 16
    };
    if nib < 10 {
        (48 + nib) as u8
    } else {
        (87 + nib) as u8
    }
}

/// Whether the hex string `h` is a prefix of the identity's hex form.
pub open spec fn id_matches_hex(id: Seq<u8>, h: Seq<u8>) -> bool {
    h.len() <= 2 * id.len() && forall|t: int| 0 <= t < h.len() ==> #[trigger] h[t] == hex_digit_of(
        id,
        t,
    )
}

/// The commits below `i` whose identity starts with `h`, most recent first.
pub open spec fn match_list(g: GraphV, h: Seq<u8>, i: int) -> Seq<int>
    decreases i,
{
    if i <= 0 {
        Seq::empty()
    } else if id_matches_hex(g.commits[i - 1].id, h) {
        seq![i - 1] + match_list(g, h, i - 1)
    } else {
        match_list(g, h, i - 1)
    }
}

/// The hex prefix a query must supply at least.
pub open spec fn min_hex_len() -> int {
    3
}

/// `match_list` holds exactly the commits whose identity starts with `h`,
/// each exactly once, most recent first.
pub proof fn lemma_match_list_elems(g: GraphV, h: Seq<u8>, i: int)
    ensures
        forall|t: int|
            0 <= t < match_list(g, h, i).len() ==> 0 <= #[trigger] match_list(g, h, i)[t] < i
                && id_matches_hex(g.commits[match_list(g, h, i)[t]].id, h),
        forall|v: int|
            0 <= v < i && id_matches_hex(g.commits[v].id, h) ==> match_list(g, h, i).contains(
                v,
            ),
        forall|t1: int, t2: int|
            0 <= t1 < t2 < match_list(g, h, i).len() ==> match_list(g, h, i)[t1] > match_list(
                g,
                h,
                i,
            )[t2],
    decreases i,
{
    if i > 0 {
        lemma_match_list_elems(g, h, i - 1);
        let tail = match_list(g, h, i - 1);
        let ml = match_list(g, h, i);
        if id_matches_hex(g.commits[i - 1].id, h) {
            assert(ml == seq![i - 1] + tail);
            assert forall|t: int|
                0 <= t < ml.len() implies 0 <= #[trigger] ml[t] < i && id_matches_hex(
                g.commits[ml[t]].id,
                h,
            ) by {
                if t > 0 {
                    assert(ml[t] == tail[t - 1]);
                }
            }
            assert forall|v: int|
                0 <= v < i && id_matches_hex(g.commits[v].id, h) implies ml.contains(v) by {
                if v == i - 1 {
                    assert(ml[0] == v);
                } else {
                    assert(tail.contains(v));
                    let t = choose|t: int| 0 <= t < tail.len() && tail[t] == v;
                    assert(ml[t + 1] == v);
                }
            }
            assert forall|t1: int, t2: int|
                0 <= t1 < t2 < ml.len() implies ml[t1] > ml[t2] by {
                if t1 > 0 {
                    assert(ml[t1] == tail[t1 - 1]);
                    assert(ml[t2] == tail[t2 - 1]);
                } else {
                    assert(ml[0] == i - 1);
                    assert(ml[t2] == tail[t2 - 1]);
                }
            }
        } else {
            assert(ml == tail);
            assert forall|v: int|
                0 <= v < i && id_matches_hex(g.commits[v].id, h) implies ml.contains(v) by {
                assert(v != i - 1);
                assert(tail.contains(v));
            }
        }
    }
}

/// The ambiguity rule: a hex prefix of at least three digits that several
/// commits share resolves to `AmbiguousPrefix` carrying exactly those
/// commits' identities, most recent first, and nothing else.
pub proof fn lemma_ambiguous_prefix(g: GraphV, s: Seq<char>)
    requires
        !(s == "."@ || s == "@"@ || s == "HEAD"@),
        hex_norm(s) is Some,
        hex_norm(s)->0.len() >= min_hex_len(),
        match_list(g, hex_norm(s)->0, g.n()).len() >= 2,
    ensures
        rev_sem(g, s) == EvalV::Fail(
            ErrorV::AmbiguousPrefix(
                match_list(g, hex_norm(s)->0, g.n()).map_values(|v: int| g.commits[v].id),
            ),
        ),
        forall|t: int|
            0 <= t < match_list(g, hex_norm(s)->0, g.n()).len() ==> {
                let v = #[trigger] match_list(g, hex_norm(s)->0, g.n())[t];
                0 <= v < g.n() && id_matches_hex(g.commits[v].id, hex_norm(s)->0)
            },
        forall|v: int|
            0 <= v < g.n() && id_matches_hex(g.commits[v].id, hex_norm(s)->0) ==> match_list(
                g,
                hex_norm(s)->0,
                g.n(),
            ).contains(v),
        forall|t1: int, t2: int|
            0 <= t1 < t2 < match_list(g, hex_norm(s)->0, g.n()).len() ==> match_list(
                g,
                hex_norm(s)->0,
                g.n(),
            )[t1] > match_list(g, hex_norm(s)->0, g.n())[t2],
{
    lemma_match_list_elems(g, hex_norm(s)->0, g.n());
}

/// Resolving a commit by name: `.`, `@` and `HEAD` name the checkout; any
/// other name must be a hex prefix of at least three digits matching exactly
/// one commit. Several matches are ambiguous and carried in the error.
pub open spec fn rev_sem(g: GraphV, s: Seq<char>) -> EvalV {
    if s == "."@ || s == "@"@ || s == "HEAD"@ {
        match g.checkout {
            Some(c) => EvalV::Val(Set::empty().insert(c)),
            None => EvalV::Fail(ErrorV::UnresolvedName(s)),
        }
    } else {
        match hex_norm(s) {
            Some(h) => if h.len() >= min_hex_len() {
                let ms = match_list(g, h, g.n());
                if ms.len() == 0 {
                    EvalV::Fail(ErrorV::UnresolvedName(s))
                } else if ms.len() == 1 {
                    EvalV::Val(Set::empty().insert(ms[0]))
                } else {
                    EvalV::Fail(
                        ErrorV::AmbiguousPrefix(ms.map_values(|v: int| g.commits[v].id)),
                    )
                }
            } else {
                EvalV::Fail(ErrorV::UnresolvedName(s))
            },
            None => EvalV::Fail(ErrorV::UnresolvedName(s)),
        }
    }
}

/// Resolving a bare name: context bindings first, then references, then
/// commit hashes.
pub open spec fn lookup_sem(g: GraphV, c: CtxV, s: Seq<char>) -> EvalV {
    match ctx_name_find(c.names, s) {
        Some(vs) => EvalV::Val(vs),
        None => match lookup_ref_sem(g, s) {
            Some(t) => EvalV::Val(Set::empty().insert(t)),
            None => rev_sem(g, s),
        },
    }
}

/// The targets of all references.
pub open spec fn ref_targets(g: GraphV) -> Set<int> {
    Set::new(
        |v: int| exists|k: int| 0 <= k < g.refs.len() && (#[trigger] g.refs[k]).target == v,
    )
}

/// `head()`: the heads among the reference targets.
pub open spec fn head_set(g: GraphV) -> Set<int> {
    heads_of(g, ref_targets(g))
}

/// `all()`: the visible commits, the ancestors of `head()`.
pub open spec fn visible(g: GraphV) -> Set<int> {
    Set::new(|v: int| 0 <= v < g.n() && in_ancestors(g, head_set(g), v))
}

/// Whether globset accepts the fixed pattern the public heads are found by.
pub open spec fn remotes_glob_ok() -> bool {
    crate::shim::glob_pat_ok("refs/remotes/**"@)
}

/// Whether a user glob pattern is taken to the engine at all: it must stay
/// under the length bound and the engine must accept it.
pub open spec fn glob_accepted(pat: Seq<char>) -> bool {
    pat.len() <= crate::shim::MAX_GLOB_PATTERN_LEN && crate::shim::glob_pat_ok(pat)
}

/// `publichead()`: targets of references matching the glob `remotes/**`.
pub open spec fn publichead_set(g: GraphV) -> Set<int> {
    Set::new(
        |v: int|
            exists|k: int|
                0 <= k < g.refs.len() && (#[trigger] g.refs[k]).target == v
                    && crate::shim::glob_matches("refs/remotes/**"@, g.refs[k].name),
    )
}

/// `drafthead()`: `head()` minus `publichead()`.
pub open spec fn drafthead_set(g: GraphV) -> Set<int> {
    head_set(g).difference(publichead_set(g))
}

/// `public()`: the ancestors of `publichead()`.
pub open spec fn public_set(g: GraphV) -> Set<int> {
    Set::new(|v: int| 0 <= v < g.n() && in_ancestors(g, publichead_set(g), v))
}

/// `draft()`: the ancestors of `drafthead()`, minus `public()`.
pub open spec fn draft_set(g: GraphV) -> Set<int> {
    Set::new(
        |v: int|
            0 <= v < g.n() && in_ancestors(g, drafthead_set(g), v) && !public_set(g).contains(v),
    )
}

/// The position of the first newline at or after `i`.
pub open spec fn nl_pos(m: Seq<char>, i: int) -> int
    decreases m.len() - i,
{
    if 0 <= i < m.len() && m[i] != '\n' {
        nl_pos(m, i + 1)
    } else {
        i
    }
}

/// The first line of a commit message: its summary.
pub open spec fn summary_of(m: Seq<char>) -> Seq<char> {
    m.subrange(0, nl_pos(m, 0))
}

/// Case-sensitive substring match against author name or email.
pub open spec fn author_match(c: crate::repo::CommitV, t: Seq<char>) -> bool {
    has_substring(c.author_name, t) || has_substring(c.author_email, t)
}

/// Case-sensitive substring match against committer name or email.
pub open spec fn committer_match(c: crate::repo::CommitV, t: Seq<char>) -> bool {
    has_substring(c.committer_name, t) || has_substring(c.committer_email, t)
}

/// Substring match against the commit summary.
pub open spec fn desc_match(c: crate::repo::CommitV, t: Seq<char>) -> bool {
    has_substring(summary_of(c.message), t)
}

/// The common ancestors of every member of `u`.
pub open spec fn common_anc(g: GraphV, u: Set<int>) -> Set<int> {
    Set::new(|v: int| 0 <= v < g.n() && forall|w: int| u.contains(w) ==> reaches(g, w, v))
}

/// The inferred rewrite relation of the whole repository: the edges the
/// operation logs define, with cycles broken.
pub open spec fn mut_rel(g: GraphV) -> Seq<Option<int>> {
    crate::mutation::mut_rel_broken(g)
}

/// The decimal digits of `i`.
pub open spec fn dec_str(i: int) -> Seq<char>
    decreases i,
{
    if i < 0 {
        Seq::empty()
    } else if i < 10 {
        seq![((48 + i) as u8) as char]
    } else {
        dec_str(i / 10).push(((48 + i % 10) as u8) as char)
    }
}

/// The placeholder name of the `i`-th positional argument: `$i`.
pub open spec fn dollar(i: int) -> Seq<char> {
    seq!['$'] + dec_str(i)
}

/// The template with `$1 .. $k` replaced by the raw argument expressions,
/// from argument `i` on.
pub open spec fn subst_args(t: ExprV, args: Seq<ExprV>, i: int) -> ExprV
    decreases args.len() - i,
{
    if i < 0 || i >= args.len() {
        t
    } else {
        subst_args(replace_expr(t, dollar(i + 1), args[i]), args, i + 1)
    }
}

/// The string a function argument must literally be, or an `ExpectString`
/// error carrying the argument's canonical text.
pub open spec fn as_string(e: ExprV) -> Result<Seq<char>, ErrorV> {
    match e {
        ExprV::Name(s) => Ok(s),
        _ => Err(ErrorV::ExpectString(print_expr(e))),
    }
}

/// Evaluate an expression. `fuel` bounds alias and `apply` expansion.
pub open spec fn sem(g: GraphV, c: CtxV, e: ExprV, fuel: nat) -> EvalV
    decreases fuel, e, 2int,
{
    match e {
        ExprV::Name(s) => lookup_sem(g, c, s),
        ExprV::Fn(name, args) => {
            proof {
                assert(decreases_to!(e => args));
            }
            match ctx_fn_find(c.fns, name) {
                Some(template) => if fuel == 0 {
                    EvalV::Fail(ErrorV::RecursionLimit)
                } else {
                    sem(g, c, subst_args(template, args, 0), (fuel - 1) as nat)
                },
                None => sem_builtin(g, c, name, args, fuel),
            }
        },
    }
}

/// Evaluate the arguments `i ..`, left to right, stopping at the first
/// error or clock-dependent value.
pub open spec fn sem_list(g: GraphV, c: CtxV, args: Seq<ExprV>, i: int, fuel: nat) -> ListV
    decreases fuel, args, 3int, args.len() - i,
{
    if i < 0 || i >= args.len() {
        ListV::LVals(Seq::empty())
    } else {
        proof {
            assert(decreases_to!(args => args[i]));
        }
        match sem(g, c, args[i], fuel) {
            EvalV::Val(s) => match sem_list(g, c, args, i + 1, fuel) {
                ListV::LVals(rest) => ListV::LVals(seq![s] + rest),
                other => other,
            },
            EvalV::Fail(err) => ListV::LFail(err),
            EvalV::Open => ListV::LOpen,
        }
    }
}

/// `first(...)`: evaluate arguments left to right; the first non-empty
/// one's most recent member wins, later arguments stay unevaluated.
pub open spec fn sem_first(g: GraphV, c: CtxV, args: Seq<ExprV>, i: int, fuel: nat) -> EvalV
    decreases fuel, args, 3int, args.len() - i,
{
    if i < 0 || i >= args.len() {
        EvalV::Val(Set::empty())
    } else {
        proof {
            assert(decreases_to!(args => args[i]));
        }
        match sem(g, c, args[i], fuel) {
            EvalV::Val(s) => if s =~= Set::<int>::empty() {
                sem_first(g, c, args, i + 1, fuel)
            } else {
                EvalV::Val(Set::empty().insert(max_of(s)))
            },
            other => other,
        }
    }
}

/// The largest member of a non-empty set of commit indices: the most
/// recent one in canonical order.
pub open spec fn max_of(s: Set<int>) -> int {
    choose|v: int| s.contains(v) && forall|u: int| s.contains(u) ==> u <= v
}

/// The smallest member: the oldest one.
pub open spec fn min_of(s: Set<int>) -> int {
    choose|v: int| s.contains(v) && forall|u: int| s.contains(u) ==> u >= v
}

/// The union of the values of all arguments.
pub open spec fn union_of_list(vals: Seq<Set<int>>) -> Set<int>
    decreases vals.len(),
{
    if vals.len() == 0 {
        Set::empty()
    } else {
        union_of_list(vals.drop_last()).union(vals.last())
    }
}

/// The glob branch of `ref` and `tag`: targets of references whose full
/// name matches the pattern.
pub open spec fn glob_ref_set(g: GraphV, pat: Seq<char>) -> Set<int> {
    Set::new(
        |v: int|
            exists|k: int|
                0 <= k < g.refs.len() && (#[trigger] g.refs[k]).target == v
                    && crate::shim::glob_matches(pat, g.refs[k].name),
    )
}

/// The targets of the references in the tags namespace.
pub open spec fn tag_targets(g: GraphV) -> Set<int> {
    Set::new(
        |v: int|
            exists|k: int|
                0 <= k < g.refs.len() && (#[trigger] g.refs[k]).target == v
                    && crate::text::has_prefix(g.refs[k].name, "refs/tags/"@),
    )
}

/// A builtin function applied to unevaluated arguments.
pub open spec fn sem_builtin(
    g: GraphV,
    c: CtxV,
    name: Seq<char>,
    args: Seq<ExprV>,
    fuel: nat,
) -> EvalV
    decreases fuel, args, 4int,
{
    let n = g.n();
    if name == "date"@ || name == "committerdate"@ {
        match sem_string(name, args) {
            Ok(_t) => EvalV::Open,
            Err(err) => EvalV::Fail(err),
        }
    } else if name == "present"@ {
        match sem_single(g, c, name, args, fuel) {
            EvalV::Fail(ErrorV::UnresolvedName(_)) => EvalV::Val(Set::empty()),
            other => other,
        }
    } else if name == "parents"@ {
        match sem_single(g, c, name, args, fuel) {
            EvalV::Val(s) => EvalV::Val(Set::new(|v: int| 0 <= v < n && in_parents(g, s, v))),
            other => other,
        }
    } else if name == "children"@ {
        match sem_single(g, c, name, args, fuel) {
            EvalV::Val(s) => EvalV::Val(
                Set::new(|v: int| visible(g).contains(v) && in_children(g, s, v)),
            ),
            other => other,
        }
    } else if name == "ancestors"@ {
        match sem_single(g, c, name, args, fuel) {
            EvalV::Val(s) => EvalV::Val(Set::new(|v: int| 0 <= v < n && in_ancestors(g, s, v))),
            other => other,
        }
    } else if name == "descendants"@ {
        match sem_single(g, c, name, args, fuel) {
            EvalV::Val(s) => EvalV::Val(
                Set::new(
                    |v: int|
                        (visible(g).contains(v) && in_descendants(g, s, v)) || s.contains(v),
                ),
            ),
            other => other,
        }
    } else if name == "heads"@ {
        match sem_single(g, c, name, args, fuel) {
            EvalV::Val(s) => EvalV::Val(heads_of(g, s)),
            other => other,
        }
    } else if name == "roots"@ {
        match sem_single(g, c, name, args, fuel) {
            EvalV::Val(s) => EvalV::Val(crate::dag::roots_of(g, s)),
            other => other,
        }
    } else if name == "range"@ {
        match sem_double(g, c, name, args, fuel) {
            ListV::LVals(vals) => EvalV::Val(
                Set::new(
                    |v: int|
                        0 <= v < n && in_descendants(g, vals[0], v) && in_ancestors(
                            g,
                            vals[1],
                            v,
                        ),
                ),
            ),
            ListV::LFail(err) => EvalV::Fail(err),
            ListV::LOpen => EvalV::Open,
        }
    } else if name == "only"@ {
        match sem_double(g, c, name, args, fuel) {
            ListV::LVals(vals) => EvalV::Val(
                Set::new(
                    |v: int|
                        0 <= v < n && in_ancestors(g, vals[0], v) && !in_ancestors(
                            g,
                            vals[1],
                            v,
                        ),
                ),
            ),
            ListV::LFail(err) => EvalV::Fail(err),
            ListV::LOpen => EvalV::Open,
        }
    } else if name == "ancestor"@ || name == "gca"@ {
        match sem_list(g, c, args, 0, fuel) {
            ListV::LVals(vals) => {
                let u = union_of_list(vals);
                if u =~= Set::<int>::empty() {
                    EvalV::Val(Set::empty())
                } else {
                    EvalV::Val(heads_of(g, common_anc(g, u)))
                }
            },
            ListV::LFail(err) => EvalV::Fail(err),
            ListV::LOpen => EvalV::Open,
        }
    } else if name == "intersection"@ {
        match sem_double(g, c, name, args, fuel) {
            ListV::LVals(vals) => EvalV::Val(vals[0].intersect(vals[1])),
            ListV::LFail(err) => EvalV::Fail(err),
            ListV::LOpen => EvalV::Open,
        }
    } else if name == "union"@ {
        match sem_double(g, c, name, args, fuel) {
            ListV::LVals(vals) => EvalV::Val(vals[0].union(vals[1])),
            ListV::LFail(err) => EvalV::Fail(err),
            ListV::LOpen => EvalV::Open,
        }
    } else if name == "difference"@ {
        match sem_double(g, c, name, args, fuel) {
            ListV::LVals(vals) => EvalV::Val(vals[0].difference(vals[1])),
            ListV::LFail(err) => EvalV::Fail(err),
            ListV::LOpen => EvalV::Open,
        }
    } else if name == "negate"@ {
        match sem_single(g, c, name, args, fuel) {
            EvalV::Val(s) => EvalV::Val(visible(g).difference(s)),
            other => other,
        }
    } else if name == "first"@ {
        sem_first(g, c, args, 0, fuel)
    } else if name == "last"@ {
        match sem_single(g, c, name, args, fuel) {
            EvalV::Val(s) => if s =~= Set::<int>::empty() {
                EvalV::Val(Set::empty())
            } else {
                EvalV::Val(Set::empty().insert(min_of(s)))
            },
            other => other,
        }
    } else if name == "head"@ {
        if args.len() != 0 {
            EvalV::Fail(ErrorV::MismatchedArguments(name, 0, args.len() as int))
        } else {
            EvalV::Val(head_set(g))
        }
    } else if name == "all"@ {
        if args.len() != 0 {
            EvalV::Fail(ErrorV::MismatchedArguments(name, 0, args.len() as int))
        } else {
            EvalV::Val(visible(g))
        }
    } else if name == "publichead"@ {
        if args.len() != 0 {
            EvalV::Fail(ErrorV::MismatchedArguments(name, 0, args.len() as int))
        } else if !remotes_glob_ok() {
            EvalV::Fail(ErrorV::UnresolvedName("remotes/**"@))
        } else {
            EvalV::Val(publichead_set(g))
        }
    } else if name == "drafthead"@ {
        if args.len() != 0 {
            EvalV::Fail(ErrorV::MismatchedArguments(name, 0, args.len() as int))
        } else if !remotes_glob_ok() {
            EvalV::Fail(ErrorV::UnresolvedName("remotes/**"@))
        } else {
            EvalV::Val(drafthead_set(g))
        }
    } else if name == "public"@ {
        if args.len() != 0 {
            EvalV::Fail(ErrorV::MismatchedArguments(name, 0, args.len() as int))
        } else if !remotes_glob_ok() {
            EvalV::Fail(ErrorV::UnresolvedName("remotes/**"@))
        } else {
            EvalV::Val(public_set(g))
        }
    } else if name == "draft"@ {
        if args.len() != 0 {
            EvalV::Fail(ErrorV::MismatchedArguments(name, 0, args.len() as int))
        } else if !remotes_glob_ok() {
            EvalV::Fail(ErrorV::UnresolvedName("remotes/**"@))
        } else {
            EvalV::Val(draft_set(g))
        }
    } else if name == "author"@ {
        match sem_string(name, args) {
            Ok(t) => EvalV::Val(
                Set::new(|v: int| visible(g).contains(v) && author_match(g.commits[v], t)),
            ),
            Err(err) => EvalV::Fail(err),
        }
    } else if name == "committer"@ {
        match sem_string(name, args) {
            Ok(t) => EvalV::Val(
                Set::new(|v: int| visible(g).contains(v) && committer_match(g.commits[v], t)),
            ),
            Err(err) => EvalV::Fail(err),
        }
    } else if name == "desc"@ {
        match sem_string(name, args) {
            Ok(t) => EvalV::Val(
                Set::new(|v: int| visible(g).contains(v) && desc_match(g.commits[v], t)),
            ),
            Err(err) => EvalV::Fail(err),
        }
    } else if name == "predecessors"@ {
        match sem_single(g, c, name, args, fuel) {
            EvalV::Val(s) => EvalV::Val(
                s.union(
                    mut_pred_closure(mut_rel(g), s.intersect(mut_all(mut_rel(g)))).intersect(
                        visible(g),
                    ),
                ),
            ),
            other => other,
        }
    } else if name == "successors"@ {
        match sem_single(g, c, name, args, fuel) {
            EvalV::Val(s) => EvalV::Val(
                s.union(
                    mut_succ_closure(mut_rel(g), s.intersect(mut_all(mut_rel(g)))).intersect(
                        visible(g),
                    ),
                ),
            ),
            other => other,
        }
    } else if name == "obsolete"@ {
        if args.len() != 0 {
            EvalV::Fail(ErrorV::MismatchedArguments(name, 0, args.len() as int))
        } else if !remotes_glob_ok() {
            EvalV::Fail(ErrorV::UnresolvedName("remotes/**"@))
        } else {
            EvalV::Val(
                mut_parents(mut_rel(g), draft_set(g).intersect(mut_all(mut_rel(g)))).intersect(
                    draft_set(g),
                ),
            )
        }
    } else if name == "rev"@ || name == "commit"@ || name == "id"@ {
        match sem_string(name, args) {
            Ok(t) => rev_sem(g, t),
            Err(err) => EvalV::Fail(err),
        }
    } else if name == "ref"@ {
        if args.len() == 0 {
            EvalV::Val(ref_targets(g))
        } else {
            match sem_string(name, args) {
                Ok(t) => match lookup_ref_sem(g, t) {
                    Some(tgt) => EvalV::Val(Set::empty().insert(tgt)),
                    None => if t.contains('*') && glob_accepted("refs/"@ + t) {
                        EvalV::Val(glob_ref_set(g, "refs/"@ + t))
                    } else {
                        EvalV::Fail(ErrorV::UnresolvedName(t))
                    },
                },
                Err(err) => EvalV::Fail(err),
            }
        }
    } else if name == "tag"@ {
        if args.len() == 0 {
            EvalV::Val(tag_targets(g))
        } else {
            match sem_string(name, args) {
                Ok(t) => match ref_target_from(g, "refs/tags/"@ + t, 0) {
                    Some(tgt) => EvalV::Val(Set::empty().insert(tgt)),
                    None => if t.contains('*') && glob_accepted("refs/tags/"@ + t) {
                        EvalV::Val(glob_ref_set(g, "refs/tags/"@ + t))
                    } else {
                        EvalV::Fail(ErrorV::UnresolvedName(t))
                    },
                },
                Err(err) => EvalV::Fail(err),
            }
        }
    } else if name == "empty"@ {
        if args.len() != 0 {
            EvalV::Fail(ErrorV::MismatchedArguments(name, 0, args.len() as int))
        } else {
            EvalV::Val(Set::empty())
        }
    } else if name == "apply"@ {
        if args.len() < 1 {
            EvalV::Fail(ErrorV::MismatchedArguments(name, 1, 0))
        } else if fuel == 0 {
            EvalV::Fail(ErrorV::RecursionLimit)
        } else {
            sem(g, c, subst_args(args[0], args.drop_first(), 0), (fuel - 1) as nat)
        }
    } else {
        EvalV::Fail(ErrorV::UnresolvedName(name))
    }
}

/// Whether the caches a repository holds agree with its data.
pub open spec fn cache_ok(r: &Repo) -> bool {
    &&& match r.cached_all {
        Some(s) => s.wf() && s.bounded(r.gv().n()) && forall|v: int|
            s.has(v) <==> visible(r.gv()).contains(v),
        None => true,
    }
    &&& match r.cached_publichead {
        Some(s) => remotes_glob_ok() && s.wf() && s.bounded(r.gv().n()) && forall|v: int|
            s.has(v) <==> publichead_set(r.gv()).contains(v),
        None => true,
    }
    &&& match r.cached_drafthead {
        Some(s) => remotes_glob_ok() && s.wf() && s.bounded(r.gv().n()) && forall|v: int|
            s.has(v) <==> drafthead_set(r.gv()).contains(v),
        None => true,
    }
    &&& match r.cached_public {
        Some(s) => remotes_glob_ok() && s.wf() && s.bounded(r.gv().n()) && forall|v: int|
            s.has(v) <==> public_set(r.gv()).contains(v),
        None => true,
    }
    &&& match r.cached_draft {
        Some(s) => remotes_glob_ok() && s.wf() && s.bounded(r.gv().n()) && forall|v: int|
            s.has(v) <==> draft_set(r.gv()).contains(v),
        None => true,
    }
    &&& match r.cached_mutation {
        Some(m) => m.matches(r.gv()),
        None => true,
    }
}

/// Every set a context binds is canonically ordered and inside the store.
pub open spec fn ctx_wf(ctx: &Context, n: int) -> bool {
    forall|k: int|
        0 <= k < ctx.names@.len() ==> (#[trigger] ctx.names@[k]).1.wf() && ctx.names@[
            k
        ].1.bounded(n)
}

/// The first context binding of `name`, executably.
#[verifier::loop_isolation(false)]
fn ctx_find_name(ctx: &Context, name: &String, n: usize) -> (r: Option<VertexSet>)
    requires
        ctx_wf(ctx, n as int),
    ensures
        (r is Some) == (ctx_name_find(ctx@.names, name@) is Some),
        r matches Some(out) ==> out.wf() && out.bounded(n as int) && setof(out)
            == ctx_name_find(ctx@.names, name@)->0,
{
    let mut k: usize = 0;
    while k < ctx.names.len()
        invariant
            k <= ctx.names@.len(),
            ctx_name_find_from(ctx@.names, name@, 0) == ctx_name_find_from(
                ctx@.names,
                name@,
                k as int,
            ),
        decreases ctx.names@.len() - k,
    {
        proof {
            assert(ctx@.names[k as int] == (ctx.names@[k as int].0@, setof(
                ctx.names@[k as int].1,
            )));
        }
        if crate::text::string_eq(&ctx.names[k].0, name.as_str()) {
            let out = ctx.names[k].1.duplicate();
            proof {
                let orig = ctx.names@[k as int].1;
                assert(orig.wf() && orig.bounded(n as int));
                assert(setof(out) =~= setof(orig));
                assert forall|i: int, j: int|
                    0 <= i < j < out.items@.len() implies #[trigger] out.items@[i]
                    > #[trigger] out.items@[j] by {
                    assert(out.items@[i] == orig.items@[i]);
                    assert(out.items@[j] == orig.items@[j]);
                }
                assert forall|i: int|
                    0 <= i < out.items@.len() implies (#[trigger] out.items@[i] as int)
                    < n as int by {
                    assert(out.items@[i] == orig.items@[i]);
                }
            }
            return Some(out);
        }
        k = k + 1;
    }
    None
}

/// The first alias template bound to `name`, executably.
#[verifier::loop_isolation(false)]
fn ctx_find_fn(ctx: &Context, name: &String) -> (r: Option<Expr>)
    ensures
        (r is Some) == (ctx_fn_find(ctx@.fns, name@) is Some),
        r matches Some(out) ==> out@ == ctx_fn_find(ctx@.fns, name@)->0,
{
    let mut k: usize = 0;
    while k < ctx.fns.len()
        invariant
            k <= ctx.fns@.len(),
            ctx_fn_find_from(ctx@.fns, name@, 0) == ctx_fn_find_from(
                ctx@.fns,
                name@,
                k as int,
            ),
        decreases ctx.fns@.len() - k,
    {
        proof {
            assert(ctx@.fns[k as int] == (ctx.fns@[k as int].0@, ctx.fns@[k as int].1@));
        }
        if crate::text::string_eq(&ctx.fns[k].0, name.as_str()) {
            return Some(ctx.fns[k].1.duplicate());
        }
        k = k + 1;
    }
    None
}

/// The targets of all references, as a set.
#[verifier::loop_isolation(false)]
fn ref_targets_set(repo: &Repo) -> (r: VertexSet)
    requires
        repo.gv().wf(),
    ensures
        r.wf(),
        r.bounded(repo.gv().n()),
        forall|v: int| r.has(v) <==> ref_targets(repo.gv()).contains(v),
{
    let ghost g = repo.gv();
    let n = repo.n_commits();
    let mut items: Vec<usize> = Vec::new();
    let mut k: usize = 0;
    while k < repo.refs.len()
        invariant
            k <= repo.refs@.len(),
            items@.len() == k,
            forall|k2: int|
                0 <= k2 < k as int ==> (#[trigger] items@[k2]) as int == g.refs[k2].target,
            forall|k2: int| 0 <= k2 < k as int ==> (#[trigger] items@[k2]) < n,
        decreases repo.refs@.len() - k,
    {
        proof {
            assert(g.refs[k as int] == repo.refs@[k as int]@);
            assert(g.refs[k as int].target == repo.refs@[k as int].target as int);
            assert(0 <= g.refs[k as int].target < g.n());
        }
        items.push(repo.refs[k].target);
        k = k + 1;
    }
    let r = crate::vset::set_from_indices(&items, n);
    proof {
        assert forall|v: int| r.has(v) <==> ref_targets(g).contains(v) by {
            if r.has(v) {
                let k2 = choose|k2: int| 0 <= k2 < items@.len() && #[trigger] items@[k2] == v;
                assert(g.refs[k2].target == v);
            }
            if ref_targets(g).contains(v) {
                let k2 = choose|k2: int|
                    0 <= k2 < g.refs.len() && (#[trigger] g.refs[k2]).target == v;
                assert(items@[k2] == v);
            }
        }
    }
    r
}

impl Repo {
    /// `all()`: the visible commits, computed once and cached.
    pub fn all_set(&mut self) -> (r: VertexSet)
        requires
            old(self).gv().wf(),
            cache_ok(old(self)),
        ensures
            final(self).gv() == old(self).gv(),
            cache_ok(final(self)),
            r.wf(),
            r.bounded(old(self).gv().n()),
            forall|v: int| r.has(v) <==> visible(old(self).gv()).contains(v),
    {
        if let Some(s) = &self.cached_all {
            let out = s.duplicate();
            proof {
                lemma_same_items(out, *s);
            }
            return out;
        }
        let rt = ref_targets_set(self);
        let ghost rtv = setof(rt);
        let hs = self.heads_of_set(&rt);
        proof {
            assert(setof(rt) =~= ref_targets(self.gv()));
            assert(setof(hs) =~= head_set(self.gv()));
        }
        let vis = self.ancestors_of(&hs);
        proof {
            assert forall|v: int| vis.has(v) <==> visible(self.gv()).contains(v) by {}
        }
        let out = vis.duplicate();
        proof {
            lemma_same_items(out, vis);
        }
        self.cached_all = Some(vis);
        proof {
            assert(self.gv() == old(self).gv());
        }
        out
    }

    /// `publichead()`: reference targets matching `remotes/**`, cached.
    /// Fails as an unresolved name where the glob engine refuses the pattern.
    pub fn publichead_set_x(&mut self) -> (r: Result<VertexSet, Error>)
        requires
            old(self).gv().wf(),
            cache_ok(old(self)),
        ensures
            final(self).gv() == old(self).gv(),
            cache_ok(final(self)),
            match r {
                Ok(s) => remotes_glob_ok() && s.wf() && s.bounded(old(self).gv().n()) && forall|v: int|
                    s.has(v) <==> publichead_set(old(self).gv()).contains(v),
                Err(e) => !remotes_glob_ok() && e@ == ErrorV::UnresolvedName("remotes/**"@),
            },
    {
        if let Some(s) = &self.cached_publichead {
            let out = s.duplicate();
            proof {
                lemma_same_items(out, *s);
            }
            return Ok(out);
        }
        let ghost g = self.gv();
        let n = self.n_commits();
        proof {
            reveal_strlit("refs/remotes/**");
            assert("refs/remotes/**"@.len() == 15);
        }
        match crate::shim::glob_is_match("refs/remotes/**", "") {
            None => {
                return Err(
                    Error::UnresolvedName(String::from_str("remotes/**")),
                );
            },
            Some(_) => {},
        }
        let mut marks: Vec<bool> = Vec::new();
        let mut v: usize = 0;
        while v < n
            invariant
                v <= n,
                marks@.len() == v,
                forall|u: int| 0 <= u < v as int ==> !(#[trigger] marks@[u]),
            decreases n - v,
        {
            marks.push(false);
            v = v + 1;
        }
        let mut k: usize = 0;
        while k < self.refs.len()
            invariant
                "refs/remotes/**"@.len() <= crate::shim::MAX_GLOB_PATTERN_LEN,
                remotes_glob_ok(),
                k <= self.refs@.len(),
                marks@.len() == n,
                g == self.gv(),
                g.wf(),
                n as int == g.n(),
                forall|u: int|
                    0 <= u < n as int ==> (#[trigger] marks@[u] == exists|k2: int|
                        0 <= k2 < k as int && (#[trigger] g.refs[k2]).target == u
                            && crate::shim::glob_matches(
                            "refs/remotes/**"@,
                            g.refs[k2].name,
                        )),
            decreases self.refs@.len() - k,
        {
            proof {
                assert(g.refs[k as int] == self.refs@[k as int]@);
            }
            let m = crate::shim::glob_is_match("refs/remotes/**", self.refs[k].name.as_str());
            let ghost pre = marks@;
            let matched = match m {
                Some(b) => b,
                None => false,
            };
            proof {
                assert(m is Some);
                assert(matched == crate::shim::glob_matches(
                    "refs/remotes/**"@,
                    g.refs[k as int].name,
                ));
            }
            if matched {
                let tgt = self.refs[k].target;
                proof {
                    assert(g.refs[k as int].target == tgt as int);
                    assert(0 <= tgt < n);
                }
                marks.set(tgt, true);
            }
            proof {
                assert forall|u: int|
                    0 <= u < n as int implies (#[trigger] marks@[u] == exists|k2: int|
                    0 <= k2 < k + 1 && (#[trigger] g.refs[k2]).target == u
                        && crate::shim::glob_matches(
                        "refs/remotes/**"@,
                        g.refs[k2].name,
                    )) by {
                    if matched && u == g.refs[k as int].target {
                        assert(g.refs[k as int].target == u);
                        assert(marks@[u]);
                    } else {
                        assert(marks@[u] == pre[u]);
                        if exists|k2: int|
                            0 <= k2 < k + 1 && (#[trigger] g.refs[k2]).target == u
                                && crate::shim::glob_matches(
                                "refs/remotes/**"@,
                                g.refs[k2].name,
                            ) {
                            let k2 = choose|k2: int|
                                0 <= k2 < k + 1 && (#[trigger] g.refs[k2]).target == u
                                    && crate::shim::glob_matches(
                                    "refs/remotes/**"@,
                                    g.refs[k2].name,
                                );
                            assert(k2 < k as int);
                        }
                    }
                }
            }
            k = k + 1;
        }
        let s = VertexSet::from_marks(&marks);
        proof {
            assert forall|v2: int| s.has(v2) <==> publichead_set(g).contains(v2) by {}
        }
        let out = s.duplicate();
        proof {
            lemma_same_items(out, s);
        }
        self.cached_publichead = Some(s);
        Ok(out)
    }

    /// `drafthead()`: `head()` minus `publichead()`, cached.
    pub fn drafthead_set_x(&mut self) -> (r: Result<VertexSet, Error>)
        requires
            old(self).gv().wf(),
            cache_ok(old(self)),
        ensures
            final(self).gv() == old(self).gv(),
            cache_ok(final(self)),
            match r {
                Ok(s) => remotes_glob_ok() && s.wf() && s.bounded(old(self).gv().n()) && forall|v: int|
                    s.has(v) <==> drafthead_set(old(self).gv()).contains(v),
                Err(e) => !remotes_glob_ok() && e@ == ErrorV::UnresolvedName("remotes/**"@),
            },
    {
        if let Some(s) = &self.cached_drafthead {
            let out = s.duplicate();
            proof {
                lemma_same_items(out, *s);
            }
            return Ok(out);
        }
        let ph = match self.publichead_set_x() {
            Ok(ph) => ph,
            Err(e) => {
                return Err(e);
            },
        };
        let rt = ref_targets_set(self);
        let hs = self.heads_of_set(&rt);
        proof {
            assert(setof(rt) =~= ref_targets(self.gv()));
            assert(setof(hs) =~= head_set(self.gv()));
        }
        let n = self.n_commits();
        let s = crate::vset::set_difference(&hs, &ph, n);
        proof {
            assert forall|v: int| s.has(v) <==> drafthead_set(self.gv()).contains(v) by {}
        }
        let out = s.duplicate();
        proof {
            lemma_same_items(out, s);
        }
        self.cached_drafthead = Some(s);
        Ok(out)
    }

    /// `public()`: the ancestors of the public heads, cached.
    pub fn public_set_x(&mut self) -> (r: Result<VertexSet, Error>)
        requires
            old(self).gv().wf(),
            cache_ok(old(self)),
        ensures
            final(self).gv() == old(self).gv(),
            cache_ok(final(self)),
            match r {
                Ok(s) => remotes_glob_ok() && s.wf() && s.bounded(old(self).gv().n()) && forall|v: int|
                    s.has(v) <==> public_set(old(self).gv()).contains(v),
                Err(e) => !remotes_glob_ok() && e@ == ErrorV::UnresolvedName("remotes/**"@),
            },
    {
        if let Some(s) = &self.cached_public {
            let out = s.duplicate();
            proof {
                lemma_same_items(out, *s);
            }
            return Ok(out);
        }
        let ph = match self.publichead_set_x() {
            Ok(ph) => ph,
            Err(e) => {
                return Err(e);
            },
        };
        proof {
            assert(setof(ph) =~= publichead_set(self.gv()));
        }
        let s = self.ancestors_of(&ph);
        proof {
            assert forall|v: int| s.has(v) <==> public_set(self.gv()).contains(v) by {}
        }
        let out = s.duplicate();
        proof {
            lemma_same_items(out, s);
        }
        self.cached_public = Some(s);
        Ok(out)
    }

    /// `draft()`: ancestors of the draft heads, minus `public()`, cached.
    pub fn draft_set_x(&mut self) -> (r: Result<VertexSet, Error>)
        requires
            old(self).gv().wf(),
            cache_ok(old(self)),
        ensures
            final(self).gv() == old(self).gv(),
            cache_ok(final(self)),
            match r {
                Ok(s) => remotes_glob_ok() && s.wf() && s.bounded(old(self).gv().n()) && forall|v: int|
                    s.has(v) <==> draft_set(old(self).gv()).contains(v),
                Err(e) => !remotes_glob_ok() && e@ == ErrorV::UnresolvedName("remotes/**"@),
            },
    {
        if let Some(s) = &self.cached_draft {
            let out = s.duplicate();
            proof {
                lemma_same_items(out, *s);
            }
            return Ok(out);
        }
        let dh = match self.drafthead_set_x() {
            Ok(dh) => dh,
            Err(e) => {
                return Err(e);
            },
        };
        let pb = match self.public_set_x() {
            Ok(pb) => pb,
            Err(e) => {
                return Err(e);
            },
        };
        proof {
            assert(setof(dh) =~= drafthead_set(self.gv()));
        }
        let da = self.ancestors_of(&dh);
        let n = self.n_commits();
        let s = crate::vset::set_difference(&da, &pb, n);
        proof {
            assert forall|v: int| s.has(v) <==> draft_set(self.gv()).contains(v) by {}
        }
        let out = s.duplicate();
        proof {
            lemma_same_items(out, s);
        }
        self.cached_draft = Some(s);
        Ok(out)
    }

    /// The inferred rewrite relation, computed once and cached.
    pub fn mutation_dag(&mut self) -> (r: crate::mutation::MutationDag)
        requires
            old(self).gv().wf(),
            cache_ok(old(self)),
        ensures
            final(self).gv() == old(self).gv(),
            cache_ok(final(self)),
            r.matches(old(self).gv()),
    {
        if let Some(m) = &self.cached_mutation {
            let mut old_of: Vec<Option<usize>> = Vec::new();
            let mut k: usize = 0;
            while k < m.old_of.len()
                invariant
                    k <= m.old_of@.len(),
                    old_of@ == m.old_of@.subrange(0, k as int),
                decreases m.old_of@.len() - k,
            {
                old_of.push(m.old_of[k]);
                proof {
                    assert(old_of@ =~= m.old_of@.subrange(0, k + 1));
                }
                k = k + 1;
            }
            proof {
                assert(old_of@ =~= m.old_of@);
            }
            return crate::mutation::MutationDag { old_of };
        }
        let m = self.infer_mutation();
        let mut old_of: Vec<Option<usize>> = Vec::new();
        let mut k: usize = 0;
        while k < m.old_of.len()
            invariant
                k <= m.old_of@.len(),
                old_of@ == m.old_of@.subrange(0, k as int),
            decreases m.old_of@.len() - k,
        {
            old_of.push(m.old_of[k]);
            proof {
                assert(old_of@ =~= m.old_of@.subrange(0, k + 1));
            }
            k = k + 1;
        }
        proof {
            assert(old_of@ =~= m.old_of@);
        }
        self.cached_mutation = Some(m);
        crate::mutation::MutationDag { old_of }
    }
}

/// Lower-case the hex digits of `s` into bytes; `None` on any other
/// character.
pub fn normalize_hex(s: &str) -> (r: Option<Vec<u8>>)
    ensures
        (r is Some) == (hex_norm(s@) is Some),
        r matches Some(h) ==> hex_norm(s@) == Some(h@),
{
    let n = s.unicode_len();
    let mut out: Vec<u8> = Vec::new();
    let mut i: usize = 0;
    while i < n
        invariant
            i <= n,
            n == s@.len(),
            hex_norm(s@.subrange(0, i as int)) == Some(out@),
        decreases n - i,
    {
        let c = s.get_char(i);
        let ghost pre = out@;
        if '0' <= c && c <= '9' || 'a' <= c && c <= 'f' {
            out.push(c as u8);
        } else if 'A' <= c && c <= 'F' {
            out.push(c as u8 + 32);
        } else {
            proof {
                lemma_hex_norm_extend_none(s@, i as int);
            }
            return None;
        }
        proof {
            let sub = s@.subrange(0, i + 1);
            assert(sub.drop_last() =~= s@.subrange(0, i as int));
            assert(sub.last() == s@[i as int]);
        }
        i = i + 1;
    }
    proof {
        assert(s@.subrange(0, n as int) =~= s@);
    }
    Some(out)
}

/// A non-hex character anywhere makes the whole string reject.
proof fn lemma_hex_norm_extend_none(s: Seq<char>, i: int)
    requires
        0 <= i < s.len(),
        !('0' <= s[i] && s[i] <= '9' || 'a' <= s[i] && s[i] <= 'f' || 'A' <= s[i] && s[i]
            <= 'F'),
    ensures
        hex_norm(s) is None,
    decreases s.len(),
{
    if i == s.len() - 1 {
        assert(s.last() == s[i]);
    } else {
        assert(s.drop_last()[i] == s[i]);
        lemma_hex_norm_extend_none(s.drop_last(), i);
    }
}

/// The commits whose identity starts with the hex prefix `h`.
#[verifier::loop_isolation(false)]
fn hex_matches(repo: &Repo, h: &Vec<u8>) -> (r: Vec<usize>)
    requires
        repo.gv().wf(),
    ensures
        crate::mutation::ivec(r@) == match_list(repo.gv(), h@, repo.gv().n()),
        forall|k: int| 0 <= k < r@.len() ==> (#[trigger] r@[k] as int) < repo.gv().n(),
{
    let ghost g = repo.gv();
    let n = repo.n_commits();
    let mut out: Vec<usize> = Vec::new();
    let mut i: usize = n;
    proof {
        assert(crate::mutation::ivec(out@) =~= Seq::<int>::empty());
        assert(crate::mutation::ivec(out@) + match_list(g, h@, i as int) =~= match_list(
            g,
            h@,
            n as int,
        ));
    }
    while i > 0
        invariant
            i <= n,
            crate::mutation::ivec(out@) + match_list(g, h@, i as int) =~= match_list(
                g,
                h@,
                n as int,
            ),
            forall|k: int| 0 <= k < out@.len() ==> (#[trigger] out@[k] as int) < n as int,
        decreases i,
    {
        i = i - 1;
        let ghost pre = out@;
        if matches_prefix(repo, i, h) {
            out.push(i);
            proof {
                assert(crate::mutation::ivec(out@) =~= crate::mutation::ivec(pre).push(i as int));
                assert(match_list(g, h@, i + 1) =~= seq![i as int] + match_list(g, h@, i as int));
                assert(crate::mutation::ivec(out@) + match_list(g, h@, i as int) =~= crate::mutation::ivec(
                    pre,
                ) + match_list(g, h@, i + 1));
            }
        } else {
            proof {
                assert(match_list(g, h@, i + 1) =~= match_list(g, h@, i as int));
            }
        }
    }
    proof {
        assert(match_list(g, h@, 0int) =~= Seq::<int>::empty());
        assert(crate::mutation::ivec(out@) =~= match_list(g, h@, n as int));
    }
    out
}

/// Whether the identity of commit `v` starts with the hex prefix `h`.
#[verifier::loop_isolation(false)]
fn matches_prefix(repo: &Repo, v: usize, h: &Vec<u8>) -> (r: bool)
    requires
        repo.gv().wf(),
        v < repo.gv().n(),
    ensures
        r == id_matches_hex(repo.gv().commits[v as int].id, h@),
{
    let ghost g = repo.gv();
    proof {
        assert(g.commits[v as int] == repo.commits@[v as int]@);
    }
    let id = &repo.commits[v].id;
    if h.len() / 2 + h.len() % 2 > id.len() {
        proof {
            assert(h@.len() > 2 * id@.len());
        }
        return false;
    }
    proof {
        assert(h@.len() <= 2 * id@.len());
    }
    let mut t: usize = 0;
    while t < h.len()
        invariant
            t <= h@.len(),
            h@.len() <= 2 * id@.len(),
            forall|t2: int| 0 <= t2 < t as int ==> #[trigger] h@[t2] == hex_digit_of(id@, t2),
        decreases h@.len() - t,
    {
        let b = id[t / 2];
        let nib: u8 = if t % 2 == 0 {
            b / 16
        } else {
            b % 16
        };
        let d: u8 = if nib < 10 {
            48 + nib
        } else {
            87 + nib
        };
        if h[t] != d {
            proof {
                assert(hex_digit_of(id@, t as int) == d);
            }
            return false;
        }
        proof {
            assert(hex_digit_of(id@, t as int) == d);
        }
        t = t + 1;
    }
    true
}

/// Resolve a commit by name or hex prefix, as `rev`, `commit` and `id` do.
#[verifier::loop_isolation(false)]
fn rev_resolve(repo: &Repo, s: &String) -> (r: Result<VertexSet, Error>)
    requires
        repo.gv().wf(),
    ensures
        res_matches(repo.gv(), r, rev_sem(repo.gv(), s@)),
        r matches Ok(out) ==> out.wf() && out.bounded(repo.gv().n()),
{
    let ghost g = repo.gv();
    if crate::text::string_eq(s, ".") || crate::text::string_eq(s, "@") || crate::text::string_eq(
        s,
        "HEAD",
    ) {
        match repo.checkout {
            Some(c) => {
                proof {
                    assert(g.checkout == Some(c as int));
                }
                let out = VertexSet::single(c);
                proof {
                    assert forall|u: int|
                        out.has(u) <==> Set::empty().insert(c as int).contains(u) by {}
                    assert(out.bounded(g.n())) by {
                        assert(out.items@ =~= seq![c]);
                        assert(out.items@[0] == c);
                    }
                }
                Ok(out)
            },
            None => Err(Error::UnresolvedName(s.clone())),
        }
    } else {
        match normalize_hex(s.as_str()) {
            Some(h) => {
                if h.len() >= 3 {
                    let ms = hex_matches(repo, &h);
                    let ghost msv = match_list(g, h@, g.n());
                    if ms.len() == 0 {
                        Err(Error::UnresolvedName(s.clone()))
                    } else if ms.len() == 1 {
                        let out = VertexSet::single(ms[0]);
                        proof {
                            assert(crate::mutation::ivec(ms@)[0] == msv[0]);
                            assert forall|u: int|
                                out.has(u) <==> Set::empty().insert(msv[0]).contains(u) by {}
                            assert(out.bounded(g.n())) by {
                                assert(out.items@[0] == ms@[0]);
                            }
                        }
                        Ok(out)
                    } else {
                        let mut ids: Vec<crate::error::Vertex> = Vec::new();
                        let mut k: usize = 0;
                        while k < ms.len()
                            invariant
                                k <= ms@.len(),
                                ids@.len() == k,
                                forall|k2: int|
                                    0 <= k2 < k as int ==> (#[trigger] ids@[k2])@ == g.commits[
                                        crate::mutation::ivec(ms@)[k2]
                                    ].id,
                            decreases ms@.len() - k,
                        {
                            proof {
                                assert(crate::mutation::ivec(ms@)[k as int] == ms@[k as int] as int);
                            }
                            let idb = repo.vertex_name(ms[k]);
                            ids.push(idb);
                            k = k + 1;
                        }
                        proof {
                            assert(ids.deep_view() =~= msv.map_values(|v: int| g.commits[v].id))
                                by {
                                assert(ids.deep_view().len() == msv.len());
                                assert forall|k2: int|
                                    0 <= k2 < msv.len() implies ids.deep_view()[k2] == msv.map_values(
                                    |v: int| g.commits[v].id,
                                )[k2] by {
                                    assert(ids@[k2]@ == g.commits[crate::mutation::ivec(ms@)[k2]].id);
                                    assert(ids.deep_view()[k2] =~= ids@[k2]@);
                                }
                            }
                        }
                        Err(Error::AmbiguousPrefix(ids))
                    }
                } else {
                    Err(Error::UnresolvedName(s.clone()))
                }
            },
            None => Err(Error::UnresolvedName(s.clone())),
        }
    }
}

/// How an exec outcome realises a spec outcome; a clock-dependent value
/// realises anything.
pub open spec fn res_matches(g: GraphV, r: Result<VertexSet, Error>, s: EvalV) -> bool {
    match s {
        EvalV::Val(vs) => r matches Ok(out) && out.wf() && out.bounded(g.n()) && forall|v: int|
            out.has(v) <==> vs.contains(v),
        EvalV::Fail(err) => r matches Err(e2) && e2@ == err,
        EvalV::Open => true,
    }
}

/// The target of the reference named exactly `full`, executably.
#[verifier::loop_isolation(false)]
fn ref_find(repo: &Repo, full: &str) -> (r: Option<usize>)
    requires
        repo.gv().wf(),
    ensures
        r == match ref_target_from(repo.gv(), full@, 0) {
            Some(t) => Some(t as usize),
            None => None::<usize>,
        },
        r matches Some(t) ==> (t as int) < repo.gv().n() && ref_target_from(repo.gv(), full@, 0)
            == Some(t as int),
{
    let ghost g = repo.gv();
    let mut k: usize = 0;
    while k < repo.refs.len()
        invariant
            k <= repo.refs@.len(),
            ref_target_from(g, full@, 0) == ref_target_from(g, full@, k as int),
        decreases repo.refs@.len() - k,
    {
        proof {
            assert(g.refs[k as int] == repo.refs@[k as int]@);
        }
        if crate::text::string_eq(&repo.refs[k].name, full) {
            proof {
                assert(g.refs[k as int].target == repo.refs@[k as int].target as int);
                assert(0 <= g.refs[k as int].target < g.n());
            }
            return Some(repo.refs[k].target);
        }
        k = k + 1;
    }
    None
}

/// The candidate reference lookup for a bare name, executably.
fn lookup_ref(repo: &Repo, s: &String) -> (r: Option<usize>)
    requires
        repo.gv().wf(),
    ensures
        r == match lookup_ref_sem(repo.gv(), s@) {
            Some(t) => Some(t as usize),
            None => None::<usize>,
        },
        r matches Some(t) ==> (t as int) < repo.gv().n() && lookup_ref_sem(repo.gv(), s@)
            == Some(t as int),
{
    let c1 = String::from_str("refs/").concat(s.as_str());
    if let Some(t) = ref_find(repo, c1.as_str()) {
        return Some(t);
    }
    let c2 = String::from_str("refs/heads/").concat(s.as_str());
    if let Some(t) = ref_find(repo, c2.as_str()) {
        return Some(t);
    }
    let c3 = String::from_str("refs/tags/").concat(s.as_str());
    if let Some(t) = ref_find(repo, c3.as_str()) {
        return Some(t);
    }
    let c4 = String::from_str("refs/remotes/").concat(s.as_str());
    ref_find(repo, c4.as_str())
}

/// The targets of the references whose name matches the glob `pat`, or
/// `None` where the glob engine refuses the pattern.
#[verifier::loop_isolation(false)]
fn glob_ref_collect(repo: &Repo, pat: &String) -> (r: Option<VertexSet>)
    requires
        repo.gv().wf(),
    ensures
        (r is Some) == glob_accepted(pat@),
        r matches Some(out) ==> out.wf() && out.bounded(repo.gv().n()) && forall|v: int|
            out.has(v) <==> glob_ref_set(repo.gv(), pat@).contains(v),
{
    let ghost g = repo.gv();
    let n = repo.n_commits();
    if pat.as_str().unicode_len() > crate::shim::MAX_GLOB_PATTERN_LEN {
        return None;
    }
    match crate::shim::glob_is_match(pat.as_str(), "") {
        None => {
            return None;
        },
        Some(_) => {},
    }
    let mut marks: Vec<bool> = Vec::new();
    let mut v: usize = 0;
    while v < n
        invariant
            v <= n,
            marks@.len() == v,
            forall|u: int| 0 <= u < v as int ==> !(#[trigger] marks@[u]),
        decreases n - v,
    {
        marks.push(false);
        v = v + 1;
    }
    let mut k: usize = 0;
    while k < repo.refs.len()
        invariant
            pat@.len() <= crate::shim::MAX_GLOB_PATTERN_LEN,
            crate::shim::glob_pat_ok(pat@),
            k <= repo.refs@.len(),
            marks@.len() == n,
            forall|u: int|
                0 <= u < n as int ==> (#[trigger] marks@[u] == exists|k2: int|
                    0 <= k2 < k as int && (#[trigger] g.refs[k2]).target == u
                        && crate::shim::glob_matches(pat@, g.refs[k2].name)),
        decreases repo.refs@.len() - k,
    {
        proof {
            assert(g.refs[k as int] == repo.refs@[k as int]@);
        }
        let m = crate::shim::glob_is_match(pat.as_str(), repo.refs[k].name.as_str());
        let ghost pre = marks@;
        let matched = match m {
            Some(b) => b,
            None => false,
        };
        proof {
            assert(m is Some);
            assert(matched == crate::shim::glob_matches(pat@, g.refs[k as int].name));
        }
        if matched {
            let tgt = repo.refs[k].target;
            proof {
                assert(g.refs[k as int].target == tgt as int);
                assert(0 <= tgt < n);
            }
            marks.set(tgt, true);
        }
        proof {
            assert forall|u: int|
                0 <= u < n as int implies (#[trigger] marks@[u] == exists|k2: int|
                0 <= k2 < k + 1 && (#[trigger] g.refs[k2]).target == u
                    && crate::shim::glob_matches(pat@, g.refs[k2].name)) by {
                if matched && u == g.refs[k as int].target {
                    assert(g.refs[k as int].target == u);
                    assert(marks@[u]);
                } else {
                    assert(marks@[u] == pre[u]);
                    if exists|k2: int|
                        0 <= k2 < k + 1 && (#[trigger] g.refs[k2]).target == u
                            && crate::shim::glob_matches(pat@, g.refs[k2].name) {
                        let k2 = choose|k2: int|
                            0 <= k2 < k + 1 && (#[trigger] g.refs[k2]).target == u
                                && crate::shim::glob_matches(pat@, g.refs[k2].name);
                        assert(k2 < k as int);
                    }
                }
            }
        }
        k = k + 1;
    }
    let s = VertexSet::from_marks(&marks);
    proof {
        assert forall|v2: int| s.has(v2) <==> glob_ref_set(g, pat@).contains(v2) by {}
    }
    Some(s)
}

/// The targets of the references in the tags namespace, executably.
#[verifier::loop_isolation(false)]
fn tag_targets_set(repo: &Repo) -> (r: VertexSet)
    requires
        repo.gv().wf(),
    ensures
        r.wf(),
        r.bounded(repo.gv().n()),
        forall|v: int| r.has(v) <==> tag_targets(repo.gv()).contains(v),
{
    let ghost g = repo.gv();
    let n = repo.n_commits();
    let mut marks: Vec<bool> = Vec::new();
    let mut v: usize = 0;
    while v < n
        invariant
            v <= n,
            marks@.len() == v,
            forall|u: int| 0 <= u < v as int ==> !(#[trigger] marks@[u]),
        decreases n - v,
    {
        marks.push(false);
        v = v + 1;
    }
    let mut k: usize = 0;
    while k < repo.refs.len()
        invariant
            k <= repo.refs@.len(),
            marks@.len() == n,
            forall|u: int|
                0 <= u < n as int ==> (#[trigger] marks@[u] == exists|k2: int|
                    0 <= k2 < k as int && (#[trigger] g.refs[k2]).target == u
                        && crate::text::has_prefix(g.refs[k2].name, "refs/tags/"@)),
        decreases repo.refs@.len() - k,
    {
        proof {
            assert(g.refs[k as int] == repo.refs@[k as int]@);
        }
        let matched = crate::text::str_has_prefix(repo.refs[k].name.as_str(), "refs/tags/");
        let ghost pre = marks@;
        if matched {
            let tgt = repo.refs[k].target;
            proof {
                assert(g.refs[k as int].target == tgt as int);
                assert(0 <= tgt < n);
            }
            marks.set(tgt, true);
        }
        proof {
            assert forall|u: int|
                0 <= u < n as int implies (#[trigger] marks@[u] == exists|k2: int|
                0 <= k2 < k + 1 && (#[trigger] g.refs[k2]).target == u
                    && crate::text::has_prefix(g.refs[k2].name, "refs/tags/"@)) by {
                if matched && u == g.refs[k as int].target {
                    assert(marks@[u]);
                } else {
                    assert(marks@[u] == pre[u]);
                    if exists|k2: int|
                        0 <= k2 < k + 1 && (#[trigger] g.refs[k2]).target == u
                            && crate::text::has_prefix(g.refs[k2].name, "refs/tags/"@) {
                        let k2 = choose|k2: int|
                            0 <= k2 < k + 1 && (#[trigger] g.refs[k2]).target == u
                                && crate::text::has_prefix(g.refs[k2].name, "refs/tags/"@);
                        assert(k2 < k as int);
                    }
                }
            }
        }
        k = k + 1;
    }
    VertexSet::from_marks(&marks)
}

/// The position of the first newline in `m`, executably.
fn nl_index(m: &str) -> (r: usize)
    ensures
        r as int == nl_pos(m@, 0),
        r <= m@.len(),
{
    let n = m.unicode_len();
    let mut i: usize = 0;
    while i < n && m.get_char(i) != '\n'
        invariant
            i <= n,
            n == m@.len(),
            nl_pos(m@, 0) == nl_pos(m@, i as int),
        decreases n - i,
    {
        proof {
            assert(nl_pos(m@, i as int) == nl_pos(m@, i + 1));
        }
        i = i + 1;
    }
    proof {
        assert(nl_pos(m@, i as int) == i);
    }
    i
}

/// The decimal digits of `i`, executably.
fn dec_chars(i: usize) -> (r: Vec<char>)
    ensures
        r@ == dec_str(i as int),
    decreases i,
{
    if i < 10 {
        let c = (48 + i as u8) as char;
        let mut out: Vec<char> = Vec::new();
        out.push(c);
        proof {
            assert(out@ =~= seq![((48 + i as int) as u8) as char]);
        }
        out
    } else {
        let mut out = dec_chars(i / 10);
        let c = (48 + (i % 10) as u8) as char;
        out.push(c);
        proof {
            assert(out@ =~= dec_str((i / 10) as int).push(((48 + (i as int) % 10) as u8) as char));
        }
        out
    }
}

/// The placeholder `$i`, executably.
fn dollar_text(i: usize) -> (r: String)
    ensures
        r@ == dollar(i as int),
{
    let mut cs: Vec<char> = Vec::new();
    cs.push('$');
    let ds = dec_chars(i);
    let mut k: usize = 0;
    while k < ds.len()
        invariant
            k <= ds@.len(),
            cs@ == seq!['$'] + ds@.subrange(0, k as int),
        decreases ds@.len() - k,
    {
        cs.push(ds[k]);
        proof {
            assert(cs@ =~= seq!['$'] + ds@.subrange(0, k + 1));
        }
        k = k + 1;
    }
    proof {
        assert(ds@.subrange(0, ds@.len() as int) =~= ds@);
        assert(cs@ =~= seq!['$'] + ds@);
    }
    crate::text::chars_to_string(&cs)
}

/// The alias template with `$1 ..` replaced by the call's raw arguments.
#[verifier::loop_isolation(false)]
fn subst_template(t: &Expr, args: &Vec<Expr>) -> (r: Expr)
    ensures
        r@ == subst_args(t@, crate::ast::view_args(args@), 0),
{
    let ghost argv = crate::ast::view_args(args@);
    proof {
        crate::ast::lemma_view_args(args@);
    }
    let mut cur = t.duplicate();
    let mut i: usize = 0;
    while i < args.len()
        invariant
            i <= args@.len(),
            subst_args(t@, argv, 0) == subst_args(cur@, argv, i as int),
        decreases args@.len() - i,
    {
        let ph = dollar_text(i + 1);
        let nxt = cur.replace(ph.as_str(), &args[i]);
        proof {
            assert(argv[i as int] == args@[i as int]@);
            assert(nxt@ == replace_expr(cur@, dollar(i + 1), argv[i as int]));
        }
        cur = nxt;
        i = i + 1;
    }
    cur
}

/// The commits every member of the non-empty set `s` reaches.
#[verifier::loop_isolation(false)]
fn common_anc_set(repo: &Repo, s: &VertexSet) -> (r: VertexSet)
    requires
        repo.gv().wf(),
        s.wf(),
        s.bounded(repo.gv().n()),
        s.items@.len() > 0,
    ensures
        r.wf(),
        r.bounded(repo.gv().n()),
        forall|v: int| r.has(v) <==> common_anc(repo.gv(), setof(*s)).contains(v),
{
    let ghost g = repo.gv();
    let n = repo.n_commits();
    let first = VertexSet::single(s.at(0));
    proof {
        assert(first.bounded(g.n())) by {
            assert(first.items@[0] == s.items@[0]);
        }
    }
    let mut acc = repo.ancestors_of(&first);
    let mut j: usize = 1;
    proof {
        assert forall|v: int|
            acc.has(v) <==> 0 <= v < g.n() && (forall|j2: int|
                0 <= j2 < 1 ==> reaches(g, s.items@[j2] as int, v)) by {
            if acc.has(v) {
                let u = choose|u: int| setof(first).contains(u) && reaches(g, u, v);
                assert(u == s.items@[0] as int);
            }
            if 0 <= v < g.n() && (forall|j2: int|
                0 <= j2 < 1 ==> reaches(g, s.items@[j2] as int, v)) {
                assert(reaches(g, s.items@[0] as int, v));
                assert(setof(first).contains(s.items@[0] as int));
                assert(in_ancestors(g, setof(first), v));
            }
        }
    }
    while j < s.len()
        invariant
            1 <= j <= s.items@.len(),
            acc.wf(),
            acc.bounded(g.n()),
            forall|v: int|
                acc.has(v) <==> 0 <= v < g.n() && (forall|j2: int|
                    0 <= j2 < j as int ==> reaches(g, s.items@[j2] as int, v)),
        decreases s.items@.len() - j,
    {
        let nxt = VertexSet::single(s.at(j));
        proof {
            assert(nxt.bounded(g.n())) by {
                assert(nxt.items@[0] == s.items@[j as int]);
            }
        }
        let na = repo.ancestors_of(&nxt);
        let merged = crate::vset::set_intersect(&acc, &na, n);
        proof {
            assert forall|v: int|
                merged.has(v) <==> 0 <= v < g.n() && (forall|j2: int|
                    0 <= j2 < j + 1 ==> reaches(g, s.items@[j2] as int, v)) by {
                if merged.has(v) {
                    assert(acc.has(v) && na.has(v));
                    let u = choose|u: int| setof(nxt).contains(u) && reaches(g, u, v);
                    assert(u == s.items@[j as int] as int);
                    assert forall|j2: int|
                        0 <= j2 < j + 1 implies reaches(g, s.items@[j2] as int, v) by {
                        if j2 < j as int {
                            assert(reaches(g, s.items@[j2] as int, v));
                        }
                    }
                }
                if 0 <= v < g.n() && (forall|j2: int|
                    0 <= j2 < j + 1 ==> reaches(g, s.items@[j2] as int, v)) {
                    assert(reaches(g, s.items@[j as int] as int, v));
                    assert(setof(nxt).contains(s.items@[j as int] as int));
                    assert(in_ancestors(g, setof(nxt), v));
                    assert(acc.has(v));
                }
            }
        }
        acc = merged;
        j = j + 1;
    }
    proof {
        assert forall|v: int| acc.has(v) <==> common_anc(g, setof(*s)).contains(v) by {
            if acc.has(v) {
                assert forall|w: int| setof(*s).contains(w) implies reaches(g, w, v) by {
                    let j2 = choose|j2: int|
                        0 <= j2 < s.items@.len() && s.items@[j2] == w;
                    assert(reaches(g, s.items@[j2] as int, v));
                }
            }
            if common_anc(g, setof(*s)).contains(v) {
                assert forall|j2: int|
                    0 <= j2 < s.items@.len() implies reaches(g, s.items@[j2] as int, v) by {
                    assert(setof(*s).contains(s.items@[j2] as int));
                }
            }
        }
    }
    acc
}

/// Filter the visible commits by author name or email substring.
#[verifier::loop_isolation(false)]
pub fn filter_author(repo: &mut Repo, text: &str) -> (r: VertexSet)
    requires
        old(repo).gv().wf(),
        cache_ok(old(repo)),
    ensures
        final(repo).gv() == old(repo).gv(),
        cache_ok(final(repo)),
        r.wf(),
        r.bounded(old(repo).gv().n()),
        forall|v: int|
            r.has(v) <==> visible(old(repo).gv()).contains(v) && author_match(
                old(repo).gv().commits[v],
                text@,
            ),
{
    let ghost g = repo.gv();
    let vis = repo.all_set();
    let n = repo.n_commits();
    let mut marks: Vec<bool> = Vec::new();
    let mut v: usize = 0;
    while v < n
        invariant
            v <= n,
            marks@.len() == v,
            g == repo.gv(),
            forall|u: int|
                0 <= u < v as int ==> (#[trigger] marks@[u] == (visible(g).contains(u)
                    && author_match(g.commits[u], text@))),
        decreases n - v,
    {
        proof {
            assert(g.commits[v as int] == repo.commits@[v as int]@);
        }
        let hit = vis.contains(v) && (crate::text::str_has_substring(
            repo.commits[v].author_name.as_str(),
            text,
        ) || crate::text::str_has_substring(repo.commits[v].author_email.as_str(), text));
        marks.push(hit);
        proof {
            assert(marks@[v as int] == hit);
        }
        v = v + 1;
    }
    VertexSet::from_marks(&marks)
}

/// Filter the visible commits by committer name or email substring.
#[verifier::loop_isolation(false)]
pub fn filter_committer(repo: &mut Repo, text: &str) -> (r: VertexSet)
    requires
        old(repo).gv().wf(),
        cache_ok(old(repo)),
    ensures
        final(repo).gv() == old(repo).gv(),
        cache_ok(final(repo)),
        r.wf(),
        r.bounded(old(repo).gv().n()),
        forall|v: int|
            r.has(v) <==> visible(old(repo).gv()).contains(v) && committer_match(
                old(repo).gv().commits[v],
                text@,
            ),
{
    let ghost g = repo.gv();
    let vis = repo.all_set();
    let n = repo.n_commits();
    let mut marks: Vec<bool> = Vec::new();
    let mut v: usize = 0;
    while v < n
        invariant
            v <= n,
            marks@.len() == v,
            g == repo.gv(),
            forall|u: int|
                0 <= u < v as int ==> (#[trigger] marks@[u] == (visible(g).contains(u)
                    && committer_match(g.commits[u], text@))),
        decreases n - v,
    {
        proof {
            assert(g.commits[v as int] == repo.commits@[v as int]@);
        }
        let hit = vis.contains(v) && (crate::text::str_has_substring(
            repo.commits[v].committer_name.as_str(),
            text,
        ) || crate::text::str_has_substring(repo.commits[v].committer_email.as_str(), text));
        marks.push(hit);
        proof {
            assert(marks@[v as int] == hit);
        }
        v = v + 1;
    }
    VertexSet::from_marks(&marks)
}

/// Filter the visible commits by a substring of the commit summary.
#[verifier::loop_isolation(false)]
pub fn filter_desc(repo: &mut Repo, text: &str) -> (r: VertexSet)
    requires
        old(repo).gv().wf(),
        cache_ok(old(repo)),
    ensures
        final(repo).gv() == old(repo).gv(),
        cache_ok(final(repo)),
        r.wf(),
        r.bounded(old(repo).gv().n()),
        forall|v: int|
            r.has(v) <==> visible(old(repo).gv()).contains(v) && desc_match(
                old(repo).gv().commits[v],
                text@,
            ),
{
    let ghost g = repo.gv();
    let vis = repo.all_set();
    let n = repo.n_commits();
    let mut marks: Vec<bool> = Vec::new();
    let mut v: usize = 0;
    while v < n
        invariant
            v <= n,
            marks@.len() == v,
            g == repo.gv(),
            forall|u: int|
                0 <= u < v as int ==> (#[trigger] marks@[u] == (visible(g).contains(u)
                    && desc_match(g.commits[u], text@))),
        decreases n - v,
    {
        proof {
            assert(g.commits[v as int] == repo.commits@[v as int]@);
        }
        let msg = repo.commits[v].message.as_str();
        let k = nl_index(msg);
        let sub = msg.substring_char(0, k);
        proof {
            assert(sub@ == summary_of(g.commits[v as int].message));
        }
        let hit = vis.contains(v) && crate::text::str_has_substring(sub, text);
        marks.push(hit);
        proof {
            assert(marks@[v as int] == hit);
        }
        v = v + 1;
    }
    VertexSet::from_marks(&marks)
}

/// The author or committer timestamp the date filters read.
pub open spec fn commit_time(g: GraphV, v: int, use_committer: bool) -> int {
    if use_committer {
        g.commits[v].committer_time
    } else {
        g.commits[v].author_time
    }
}

/// Whether `out` is exactly the visible commits whose timestamp lies in the
/// inclusive interval `lo ..= hi`.
pub open spec fn date_filtered(
    g: GraphV,
    out: VertexSet,
    lo: int,
    hi: int,
    use_committer: bool,
) -> bool {
    forall|v: int|
        #[trigger] out.has(v) <==> visible(g).contains(v) && lo <= commit_time(
            g,
            v,
            use_committer,
        ) <= hi
}

/// What the date functions may return once their argument string is in
/// hand: an inclusive-interval filter of the visible commits, or a
/// `ParseError` naming the invalid date. Nothing else.
pub open spec fn date_outcome(
    g: GraphV,
    r: Result<VertexSet, Error>,
    t: Seq<char>,
    use_committer: bool,
) -> bool {
    match r {
        Ok(out) => exists|lo: int, hi: int| date_filtered(g, out, lo, hi, use_committer),
        Err(e) => match e {
            Error::ParseError(m, _pos) => m@ == "invalid date: "@ + t,
            _ => false,
        },
    }
}

/// Filter the visible commits by a timestamp range, inclusive on both ends:
/// the verified half of the `date` and `committerdate` functions. The range
/// itself comes from the date-parsing wrapper.
#[verifier::loop_isolation(false)]
pub fn filter_by_date(repo: &mut Repo, lo: i64, hi: i64, use_committer: bool) -> (r: VertexSet)
    requires
        old(repo).gv().wf(),
        cache_ok(old(repo)),
    ensures
        final(repo).gv() == old(repo).gv(),
        cache_ok(final(repo)),
        r.wf(),
        r.bounded(old(repo).gv().n()),
        forall|v: int|
            r.has(v) <==> visible(old(repo).gv()).contains(v) && {
                let t = if use_committer {
                    old(repo).gv().commits[v].committer_time
                } else {
                    old(repo).gv().commits[v].author_time
                };
                lo as int <= t <= hi as int
            },
{
    let ghost g = repo.gv();
    let vis = repo.all_set();
    let n = repo.n_commits();
    let mut marks: Vec<bool> = Vec::new();
    let mut v: usize = 0;
    while v < n
        invariant
            v <= n,
            marks@.len() == v,
            g == repo.gv(),
            forall|u: int|
                0 <= u < v as int ==> (#[trigger] marks@[u] == (visible(g).contains(u) && {
                    let t = if use_committer {
                        g.commits[u].committer_time
                    } else {
                        g.commits[u].author_time
                    };
                    lo as int <= t <= hi as int
                })),
        decreases n - v,
    {
        proof {
            assert(g.commits[v as int] == repo.commits@[v as int]@);
        }
        let t = if use_committer {
            repo.commits[v].committer_time
        } else {
            repo.commits[v].author_time
        };
        let hit = vis.contains(v) && lo <= t && t <= hi;
        marks.push(hit);
        proof {
            assert(marks@[v as int] == hit);
        }
        v = v + 1;
    }
    VertexSet::from_marks(&marks)
}

/// `date(spec)` and `committerdate(spec)` once the argument string is in
/// hand: parse the spec through the date wrapper, then filter. Exactly one
/// of two outcomes: a `ParseError` naming the invalid date, or an
/// inclusive-interval filter of the visible commits. Which interval a valid
/// spec denotes can depend on the clock, so only its shape is stated.
pub fn eval_date_filter(repo: &mut Repo, t: &String, use_committer: bool) -> (r: Result<
    VertexSet,
    Error,
>)
    requires
        old(repo).gv().wf(),
        cache_ok(old(repo)),
    ensures
        final(repo).gv() == old(repo).gv(),
        cache_ok(final(repo)),
        r matches Ok(out) ==> out.wf() && out.bounded(old(repo).gv().n()),
        date_outcome(old(repo).gv(), r, t@, use_committer),
{
    let ghost g = repo.gv();
    let r: Result<VertexSet, Error> = match crate::shim::parse_date_range(t.as_str()) {
        Some((lo, hi)) => {
            let out = filter_by_date(repo, lo, hi, use_committer);
            proof {
                assert(date_filtered(g, out, lo as int, hi as int, use_committer));
            }
            Ok(out)
        },
        None => {
            let msg = String::from_str("invalid date: ").concat(t.as_str());
            proof {
                assert(msg@ == "invalid date: "@ + t@);
            }
            Err(Error::ParseError(msg, 0))
        },
    };
    proof {
        assert(date_outcome(g, r, t@, use_committer)) by {
            match r {
                Ok(out) => {
                    assert(exists|lo2: int, hi2: int|
                        date_filtered(g, out, lo2, hi2, use_committer));
                },
                Err(e) => {},
            }
        }
    }
    r
}

/// Two sets with the same items denote the same set and share shape.
proof fn lemma_same_items(a: VertexSet, b: VertexSet)
    requires
        a.items@ == b.items@,
    ensures
        a.wf() == b.wf(),
        forall|v: int| a.has(v) == b.has(v),
        forall|n: int| a.bounded(n) == b.bounded(n),
{
    assert forall|v: int| a.has(v) == b.has(v) by {
        if a.has(v) {
            let k = choose|k: int| 0 <= k < a.items@.len() && a.items@[k] == v;
            assert(b.items@[k] == v);
        }
        if b.has(v) {
            let k = choose|k: int| 0 <= k < b.items@.len() && b.items@[k] == v;
            assert(a.items@[k] == v);
        }
    }
    assert forall|i: int, j: int|
        0 <= i < j < a.items@.len() implies (a.items@[i] > a.items@[j]) == (b.items@[i]
        > b.items@[j]) by {}
    assert(a.wf() == b.wf()) by {
        if a.wf() {
            assert forall|i: int, j: int|
                0 <= i < j < b.items@.len() implies #[trigger] b.items@[i]
                > #[trigger] b.items@[j] by {
                assert(a.items@[i] > a.items@[j]);
            }
        }
        if b.wf() {
            assert forall|i: int, j: int|
                0 <= i < j < a.items@.len() implies #[trigger] a.items@[i]
                > #[trigger] a.items@[j] by {
                assert(b.items@[i] > b.items@[j]);
            }
        }
    }
    assert forall|n: int| a.bounded(n) == b.bounded(n) by {
        if a.bounded(n) {
            assert forall|k: int|
                0 <= k < b.items@.len() implies (#[trigger] b.items@[k]) < n by {
                assert(a.items@[k] < n);
            }
        }
        if b.bounded(n) {
            assert forall|k: int|
                0 <= k < a.items@.len() implies (#[trigger] a.items@[k]) < n by {
                assert(b.items@[k] < n);
            }
        }
    }
}

/// Whether `s` holds a `*`, executably.
fn has_star(s: &str) -> (r: bool)
    ensures
        r == s@.contains('*'),
{
    let n = s.unicode_len();
    let mut i: usize = 0;
    while i < n
        invariant
            i <= n,
            n == s@.len(),
            forall|k: int| 0 <= k < i as int ==> s@[k] != '*',
        decreases n - i,
    {
        if s.get_char(i) == '*' {
            proof {
                assert(s@[i as int] == '*');
            }
            return true;
        }
        i = i + 1;
    }
    proof {
        if s@.contains('*') {
            let k = choose|k: int| 0 <= k < s@.len() && s@[k] == '*';
            assert(s@[k] != '*');
        }
    }
    false
}

/// Evaluate an expression against a repository and a context. `fuel` bounds
/// alias and `apply` expansion.
#[verifier::rlimit(60)]
pub fn eval_at(repo: &mut Repo, e: &Expr, ctx: &Context, fuel: u32) -> (r: Result<
    VertexSet,
    Error,
>)
    requires
        old(repo).gv().wf(),
        cache_ok(old(repo)),
        ctx_wf(ctx, old(repo).gv().n()),
    ensures
        final(repo).gv() == old(repo).gv(),
        cache_ok(final(repo)),
        r matches Ok(out) ==> out.wf() && out.bounded(old(repo).gv().n()),
        res_matches(old(repo).gv(), r, sem(old(repo).gv(), ctx@, e@, fuel as nat)),
        present_never_unresolved(ctx@, e@, r),
    decreases fuel, e, 9int,
{
    let ghost g = repo.gv();
    match e {
        Expr::Name(s) => {
            let n = repo.n_commits();
            match ctx_find_name(ctx, s, n) {
                Some(out) => {
                    proof {
                        assert forall|v: int|
                            out.has(v) <==> ctx_name_find(ctx@.names, s@)->0.contains(v) by {}
                    }
                    Ok(out)
                },
                None => {
                    match lookup_ref(repo, s) {
                        Some(t) => {
                            let out = VertexSet::single(t);
                            proof {
                                assert(out.bounded(g.n())) by {
                                    assert(out.items@[0] == t);
                                }
                                assert(lookup_ref_sem(g, s@) == Some(t as int));
                                assert forall|u: int|
                                    out.has(u) <==> Set::empty().insert(t as int).contains(
                                        u,
                                    ) by {}
                            }
                            Ok(out)
                        },
                        None => rev_resolve(repo, s),
                    }
                },
            }
        },
        Expr::Fn(name, args) => {
            proof {
                assert(decreases_to!(e => args));
                assert(decreases_to!(args => args@));
                crate::ast::lemma_view_args(args@);
            }
            match ctx_find_fn(ctx, name) {
                Some(template) => {
                    if fuel == 0 {
                        Err(Error::RecursionLimit)
                    } else {
                        let sub = subst_template(&template, args);
                        eval_at(repo, &sub, ctx, fuel - 1)
                    }
                },
                None => eval_builtin(repo, name, args, ctx, fuel),
            }
        },
    }
}

/// Evaluate a builtin function call.
#[verifier::loop_isolation(false)]
#[verifier::rlimit(100)]
fn eval_builtin(repo: &mut Repo, name: &String, args: &Vec<Expr>, ctx: &Context, fuel: u32) -> (r:
    Result<VertexSet, Error>)
    requires
        old(repo).gv().wf(),
        cache_ok(old(repo)),
        ctx_wf(ctx, old(repo).gv().n()),
    ensures
        final(repo).gv() == old(repo).gv(),
        cache_ok(final(repo)),
        r matches Ok(out) ==> out.wf() && out.bounded(old(repo).gv().n()),
        res_matches(
            old(repo).gv(),
            r,
            sem_builtin(old(repo).gv(), ctx@, name@, crate::ast::view_args(args@), fuel as nat),
        ),
        (name@ == "date"@ || name@ == "committerdate"@) && sem_string(
            name@,
            crate::ast::view_args(args@),
        ) is Ok ==> date_outcome(
            old(repo).gv(),
            r,
            sem_string(name@, crate::ast::view_args(args@))->Ok_0,
            name@ == "committerdate"@,
        ),
        name@ == "present"@ ==> !(r matches Err(er) && er is UnresolvedName),
    decreases fuel, args, 8int,
{
    let ghost g = repo.gv();
    let ghost argv = crate::ast::view_args(args@);
    let n = repo.n_commits();
    proof {
        crate::ast::lemma_view_args(args@);
    }
    if crate::text::string_eq(name, "date") || crate::text::string_eq(name, "committerdate") {
        proof {
            reveal_strlit("date");
            reveal_strlit("committerdate");
            reveal_strlit("present");
            assert("date"@.len() == 4);
            assert("committerdate"@.len() == 13);
            assert("present"@.len() == 7);
        }
        let use_committer = crate::text::string_eq(name, "committerdate");
        match string_arg(name, args) {
            Ok(t) => eval_date_filter(repo, &t, use_committer),
            Err(er) => Err(er),
        }
    } else if crate::text::string_eq(name, "present") {
        match eval_single_x(repo, name, args, ctx, fuel) {
            Ok(s) => Ok(s),
            Err(er) => {
                match er {
                    Error::UnresolvedName(_) => Ok(VertexSet::empty()),
                    other => Err(other),
                }
            },
        }
    } else if crate::text::string_eq(name, "parents") {
        match eval_single_x(repo, name, args, ctx, fuel) {
            Ok(s) => {
                let out = repo.parents_of(&s);
                proof {
                    link_val(g, s, sem_single(g, ctx@, name@, argv, fuel as nat));
                }
                Ok(out)
            },
            Err(er) => Err(er),
        }
    } else if crate::text::string_eq(name, "children") {
        match eval_single_x(repo, name, args, ctx, fuel) {
            Ok(s) => {
                let ch = repo.children_of(&s);
                let vis = repo.all_set();
                let out = crate::vset::set_intersect(&ch, &vis, n);
                proof {
                    link_val(g, s, sem_single(g, ctx@, name@, argv, fuel as nat));
                }
                Ok(out)
            },
            Err(er) => Err(er),
        }
    } else if crate::text::string_eq(name, "ancestors") {
        match eval_single_x(repo, name, args, ctx, fuel) {
            Ok(s) => {
                let out = repo.ancestors_of(&s);
                proof {
                    link_val(g, s, sem_single(g, ctx@, name@, argv, fuel as nat));
                }
                Ok(out)
            },
            Err(er) => Err(er),
        }
    } else if crate::text::string_eq(name, "descendants") {
        match eval_single_x(repo, name, args, ctx, fuel) {
            Ok(s) => {
                let ds = repo.descendants_of(&s);
                let vis = repo.all_set();
                let out = crate::vset::set_union(&crate::vset::set_intersect(&ds, &vis, n), &s, n);
                proof {
                    link_val(g, s, sem_single(g, ctx@, name@, argv, fuel as nat));
                }
                Ok(out)
            },
            Err(er) => Err(er),
        }
    } else if crate::text::string_eq(name, "heads") {
        match eval_single_x(repo, name, args, ctx, fuel) {
            Ok(s) => {
                let out = repo.heads_of_set(&s);
                proof {
                    link_val(g, s, sem_single(g, ctx@, name@, argv, fuel as nat));
                }
                Ok(out)
            },
            Err(er) => Err(er),
        }
    } else if crate::text::string_eq(name, "roots") {
        match eval_single_x(repo, name, args, ctx, fuel) {
            Ok(s) => {
                let out = repo.roots_of_set(&s);
                proof {
                    link_val(g, s, sem_single(g, ctx@, name@, argv, fuel as nat));
                }
                Ok(out)
            },
            Err(er) => Err(er),
        }
    } else if crate::text::string_eq(name, "range") {
        match eval_pair_x(repo, name, args, ctx, fuel) {
            Ok((a, b)) => {
                let ds = repo.descendants_of(&a);
                let anc = repo.ancestors_of(&b);
                let out = crate::vset::set_intersect(&ds, &anc, n);
                proof {
                    link_pair(g, a, b, sem_double(g, ctx@, name@, argv, fuel as nat));
                }
                Ok(out)
            },
            Err(er) => Err(er),
        }
    } else if crate::text::string_eq(name, "only") {
        match eval_pair_x(repo, name, args, ctx, fuel) {
            Ok((a, b)) => {
                let aa = repo.ancestors_of(&a);
                let ab = repo.ancestors_of(&b);
                let out = crate::vset::set_difference(&aa, &ab, n);
                proof {
                    link_pair(g, a, b, sem_double(g, ctx@, name@, argv, fuel as nat));
                }
                Ok(out)
            },
            Err(er) => Err(er),
        }
    } else if crate::text::string_eq(name, "ancestor") || crate::text::string_eq(name, "gca") {
        match eval_list_x(repo, args, ctx, fuel, 0) {
            Ok(sets) => {
                let ghost lsem = sem_list(g, ctx@, argv, 0, fuel as nat);
                let mut u = VertexSet::empty();
                let mut k: usize = 0;
                proof {
                    if lsem is LVals {
                        assert(union_of_list(lsem->LVals_0.subrange(0, 0)) =~= Set::<
                            int,
                        >::empty());
                        assert forall|v: int|
                            u.has(v) <==> union_of_list(lsem->LVals_0.subrange(0, 0)).contains(
                                v,
                            ) by {}
                    }
                }
                while k < sets.len()
                    invariant
                        k <= sets@.len(),
                        u.wf(),
                        u.bounded(n as int),
                        lsem is LVals ==> sets@.len() == lsem->LVals_0.len() && (forall|v: int|
                            u.has(v) <==> union_of_list(
                                lsem->LVals_0.subrange(0, k as int),
                            ).contains(v)),
                        forall|k2: int|
                            0 <= k2 < sets@.len() ==> (#[trigger] sets@[k2]).wf() && sets@[
                                k2
                            ].bounded(n as int),
                        lsem is LVals ==> forall|k2: int, v: int|
                            0 <= k2 < sets@.len() ==> ((#[trigger] sets@[k2].has(v))
                                <==> lsem->LVals_0[k2].contains(v)),
                    decreases sets@.len() - k,
                {
                    let merged = crate::vset::set_union(&u, &sets[k], n);
                    proof {
                        if lsem is LVals {
                            let vs = lsem->LVals_0;
                            assert(vs.subrange(0, k + 1).drop_last() =~= vs.subrange(0, k as int));
                            assert(vs.subrange(0, k + 1).last() == vs[k as int]);
                            assert forall|v: int|
                                merged.has(v) <==> union_of_list(vs.subrange(0, k + 1)).contains(
                                    v,
                                ) by {
                                assert(union_of_list(vs.subrange(0, k + 1)) == union_of_list(
                                    vs.subrange(0, k as int),
                                ).union(vs[k as int]));
                            }
                        }
                    }
                    u = merged;
                    k = k + 1;
                }
                proof {
                    if lsem is LVals {
                        assert(lsem->LVals_0.subrange(0, lsem->LVals_0.len() as int)
                            =~= lsem->LVals_0);
                    }
                }
                if u.len() == 0 {
                    proof {
                        if lsem is LVals {
                            assert(union_of_list(lsem->LVals_0) =~= Set::<int>::empty()) by {
                                assert forall|v: int|
                                    !union_of_list(lsem->LVals_0).contains(v) by {
                                    assert(!u.has(v));
                                }
                            }
                        }
                    }
                    Ok(VertexSet::empty())
                } else {
                    let ca = common_anc_set(repo, &u);
                    let out = repo.heads_of_set(&ca);
                    proof {
                        if lsem is LVals {
                            let uspec = union_of_list(lsem->LVals_0);
                            assert(setof(u) =~= uspec);
                            assert(!(uspec =~= Set::<int>::empty())) by {
                                assert(u.has(u.items@[0] as int));
                            }
                            assert(setof(ca) =~= common_anc(g, uspec));
                            assert forall|v: int|
                                out.has(v) <==> heads_of(g, common_anc(g, uspec)).contains(
                                    v,
                                ) by {}
                        }
                    }
                    Ok(out)
                }
            },
            Err(er) => Err(er),
        }
    } else if crate::text::string_eq(name, "intersection") {
        match eval_pair_x(repo, name, args, ctx, fuel) {
            Ok((a, b)) => {
                let out = crate::vset::set_intersect(&a, &b, n);
                proof {
                    link_pair(g, a, b, sem_double(g, ctx@, name@, argv, fuel as nat));
                }
                Ok(out)
            },
            Err(er) => Err(er),
        }
    } else if crate::text::string_eq(name, "union") {
        match eval_pair_x(repo, name, args, ctx, fuel) {
            Ok((a, b)) => {
                let out = crate::vset::set_union(&a, &b, n);
                proof {
                    link_pair(g, a, b, sem_double(g, ctx@, name@, argv, fuel as nat));
                }
                Ok(out)
            },
            Err(er) => Err(er),
        }
    } else if crate::text::string_eq(name, "difference") {
        match eval_pair_x(repo, name, args, ctx, fuel) {
            Ok((a, b)) => {
                let out = crate::vset::set_difference(&a, &b, n);
                proof {
                    link_pair(g, a, b, sem_double(g, ctx@, name@, argv, fuel as nat));
                }
                Ok(out)
            },
            Err(er) => Err(er),
        }
    } else if crate::text::string_eq(name, "negate") {
        match eval_single_x(repo, name, args, ctx, fuel) {
            Ok(s) => {
                let vis = repo.all_set();
                let out = crate::vset::set_difference(&vis, &s, n);
                proof {
                    link_val(g, s, sem_single(g, ctx@, name@, argv, fuel as nat));
                }
                Ok(out)
            },
            Err(er) => Err(er),
        }
    } else if crate::text::string_eq(name, "first") {
        eval_first_x(repo, args, ctx, fuel, 0)
    } else if crate::text::string_eq(name, "last") {
        match eval_single_x(repo, name, args, ctx, fuel) {
            Ok(s) => {
                let ghost ssem = sem_single(g, ctx@, name@, argv, fuel as nat);
                match s.last() {
                    Some(v) => {
                        let out = VertexSet::single(v);
                        proof {
                            if ssem is Val {
                                let vs = ssem->Val_0;
                                assert(setof(s) =~= vs);
                                assert(!(vs =~= Set::<int>::empty())) by {
                                    assert(s.has(v as int));
                                }
                                assert(min_of(vs) == v as int) by {
                                    assert(vs.contains(v as int) && forall|u: int|
                                        vs.contains(u) ==> u >= v as int);
                                    let m = min_of(vs);
                                    assert(vs.contains(m) && forall|u: int|
                                        vs.contains(u) ==> u >= m);
                                }
                                assert(out.bounded(g.n())) by {
                                    assert(out.items@[0] == v);
                                    assert(s.has(v as int));
                                }
                                assert forall|u: int|
                                    out.has(u) <==> Set::empty().insert(min_of(vs)).contains(
                                        u,
                                    ) by {}
                            }
                        }
                        Ok(out)
                    },
                    None => {
                        proof {
                            if ssem is Val {
                                assert(ssem->Val_0 =~= Set::<int>::empty()) by {
                                    assert forall|v: int| !ssem->Val_0.contains(v) by {
                                        assert(!s.has(v));
                                    }
                                }
                            }
                        }
                        Ok(VertexSet::empty())
                    },
                }
            },
            Err(er) => Err(er),
        }
    } else if crate::text::string_eq(name, "head") {
        if args.len() != 0 {
            Err(Error::MismatchedArguments(name.clone(), 0, args.len()))
        } else {
            let rt = ref_targets_set(repo);
            let out = repo.heads_of_set(&rt);
            proof {
                assert(setof(rt) =~= ref_targets(g));
                assert forall|v: int| out.has(v) <==> head_set(g).contains(v) by {}
            }
            Ok(out)
        }
    } else if crate::text::string_eq(name, "all") {
        if args.len() != 0 {
            Err(Error::MismatchedArguments(name.clone(), 0, args.len()))
        } else {
            Ok(repo.all_set())
        }
    } else if crate::text::string_eq(name, "publichead") {
        if args.len() != 0 {
            Err(Error::MismatchedArguments(name.clone(), 0, args.len()))
        } else {
            repo.publichead_set_x()
        }
    } else if crate::text::string_eq(name, "drafthead") {
        if args.len() != 0 {
            Err(Error::MismatchedArguments(name.clone(), 0, args.len()))
        } else {
            repo.drafthead_set_x()
        }
    } else if crate::text::string_eq(name, "public") {
        if args.len() != 0 {
            Err(Error::MismatchedArguments(name.clone(), 0, args.len()))
        } else {
            repo.public_set_x()
        }
    } else if crate::text::string_eq(name, "draft") {
        if args.len() != 0 {
            Err(Error::MismatchedArguments(name.clone(), 0, args.len()))
        } else {
            repo.draft_set_x()
        }
    } else if crate::text::string_eq(name, "author") {
        match string_arg(name, args) {
            Ok(t) => Ok(filter_author(repo, t.as_str())),
            Err(er) => Err(er),
        }
    } else if crate::text::string_eq(name, "committer") {
        match string_arg(name, args) {
            Ok(t) => Ok(filter_committer(repo, t.as_str())),
            Err(er) => Err(er),
        }
    } else if crate::text::string_eq(name, "desc") {
        match string_arg(name, args) {
            Ok(t) => Ok(filter_desc(repo, t.as_str())),
            Err(er) => Err(er),
        }
    } else if crate::text::string_eq(name, "predecessors") {
        match eval_single_x(repo, name, args, ctx, fuel) {
            Ok(s) => {
                let md = repo.mutation_dag();
                proof {
                    assert(g.n() == n as int);
                    lemma_rel_is_mut_rel(g, md);
                }
                let ma = md.all_members(n);
                let inter = crate::vset::set_intersect(&s, &ma, n);
                let cl = md.pred_closure(&inter, n);
                let vis = repo.all_set();
                let out = crate::vset::set_union(
                    &s,
                    &crate::vset::set_intersect(&cl, &vis, n),
                    n,
                );
                proof {
                    link_val(g, s, sem_single(g, ctx@, name@, argv, fuel as nat));
                    if sem_single(g, ctx@, name@, argv, fuel as nat) is Val {
                        let vs = sem_single(g, ctx@, name@, argv, fuel as nat)->Val_0;
                        assert(setof(s) =~= vs);
                        assert(setof(inter) =~= vs.intersect(mut_all(mut_rel(g))));
                        assert(setof(cl) =~= mut_pred_closure(
                            mut_rel(g),
                            vs.intersect(mut_all(mut_rel(g))),
                        ));
                        assert forall|v: int|
                            out.has(v) <==> vs.union(
                                mut_pred_closure(
                                    mut_rel(g),
                                    vs.intersect(mut_all(mut_rel(g))),
                                ).intersect(visible(g)),
                            ).contains(v) by {}
                    }
                }
                Ok(out)
            },
            Err(er) => Err(er),
        }
    } else if crate::text::string_eq(name, "successors") {
        match eval_single_x(repo, name, args, ctx, fuel) {
            Ok(s) => {
                let md = repo.mutation_dag();
                proof {
                    assert(g.n() == n as int);
                    lemma_rel_is_mut_rel(g, md);
                }
                let ma = md.all_members(n);
                let inter = crate::vset::set_intersect(&s, &ma, n);
                let cl = md.succ_closure(&inter, n);
                let vis = repo.all_set();
                let out = crate::vset::set_union(
                    &s,
                    &crate::vset::set_intersect(&cl, &vis, n),
                    n,
                );
                proof {
                    link_val(g, s, sem_single(g, ctx@, name@, argv, fuel as nat));
                    if sem_single(g, ctx@, name@, argv, fuel as nat) is Val {
                        let vs = sem_single(g, ctx@, name@, argv, fuel as nat)->Val_0;
                        assert(setof(s) =~= vs);
                        assert(setof(inter) =~= vs.intersect(mut_all(mut_rel(g))));
                        assert(setof(cl) =~= mut_succ_closure(
                            mut_rel(g),
                            vs.intersect(mut_all(mut_rel(g))),
                        ));
                        assert forall|v: int|
                            out.has(v) <==> vs.union(
                                mut_succ_closure(
                                    mut_rel(g),
                                    vs.intersect(mut_all(mut_rel(g))),
                                ).intersect(visible(g)),
                            ).contains(v) by {}
                    }
                }
                Ok(out)
            },
            Err(er) => Err(er),
        }
    } else if crate::text::string_eq(name, "obsolete") {
        if args.len() != 0 {
            Err(Error::MismatchedArguments(name.clone(), 0, args.len()))
        } else {
            match repo.draft_set_x() {
                Ok(dr) => {
                    let md = repo.mutation_dag();
                    proof {
                        assert(g.n() == n as int);
                        lemma_rel_is_mut_rel(g, md);
                    }
                    let ma = md.all_members(n);
                    let inter = crate::vset::set_intersect(&dr, &ma, n);
                    let ps = md.parents_step(&inter, n);
                    let out = crate::vset::set_intersect(&ps, &dr, n);
                    proof {
                        assert(setof(dr) =~= draft_set(g));
                        assert(setof(inter) =~= draft_set(g).intersect(mut_all(mut_rel(g))));
                        assert(setof(ps) =~= mut_parents(
                            mut_rel(g),
                            draft_set(g).intersect(mut_all(mut_rel(g))),
                        ));
                        assert forall|v: int|
                            out.has(v) <==> mut_parents(
                                mut_rel(g),
                                draft_set(g).intersect(mut_all(mut_rel(g))),
                            ).intersect(draft_set(g)).contains(v) by {}
                    }
                    Ok(out)
                },
                Err(er) => Err(er),
            }
        }
    } else if crate::text::string_eq(name, "rev") || crate::text::string_eq(name, "commit")
        || crate::text::string_eq(name, "id") {
        match string_arg(name, args) {
            Ok(t) => rev_resolve(repo, &t),
            Err(er) => Err(er),
        }
    } else if crate::text::string_eq(name, "ref") {
        if args.len() == 0 {
            Ok(ref_targets_set(repo))
        } else {
            match string_arg(name, args) {
                Ok(t) => {
                    match lookup_ref(repo, &t) {
                        Some(tgt) => {
                            let out = VertexSet::single(tgt);
                            proof {
                                assert(out.bounded(g.n())) by {
                                    assert(out.items@[0] == tgt);
                                }
                                assert(lookup_ref_sem(g, t@) == Some(tgt as int));
                                assert forall|u: int|
                                    out.has(u) <==> Set::empty().insert(tgt as int).contains(
                                        u,
                                    ) by {}
                            }
                            Ok(out)
                        },
                        None => {
                            if has_star(t.as_str()) {
                                let pat = String::from_str("refs/").concat(t.as_str());
                                match glob_ref_collect(repo, &pat) {
                                    Some(out) => Ok(out),
                                    None => Err(Error::UnresolvedName(t)),
                                }
                            } else {
                                Err(Error::UnresolvedName(t))
                            }
                        },
                    }
                },
                Err(er) => Err(er),
            }
        }
    } else if crate::text::string_eq(name, "tag") {
        if args.len() == 0 {
            Ok(tag_targets_set(repo))
        } else {
            match string_arg(name, args) {
                Ok(t) => {
                    let full = String::from_str("refs/tags/").concat(t.as_str());
                    match ref_find(repo, full.as_str()) {
                        Some(tgt) => {
                            let out = VertexSet::single(tgt);
                            proof {
                                assert(out.bounded(g.n())) by {
                                    assert(out.items@[0] == tgt);
                                }
                                assert(ref_target_from(g, "refs/tags/"@ + t@, 0) == Some(
                                    tgt as int,
                                ));
                                assert forall|u: int|
                                    out.has(u) <==> Set::empty().insert(tgt as int).contains(
                                        u,
                                    ) by {}
                            }
                            Ok(out)
                        },
                        None => {
                            if has_star(t.as_str()) {
                                let pat = String::from_str("refs/tags/").concat(t.as_str());
                                match glob_ref_collect(repo, &pat) {
                                    Some(out) => Ok(out),
                                    None => Err(Error::UnresolvedName(t)),
                                }
                            } else {
                                Err(Error::UnresolvedName(t))
                            }
                        },
                    }
                },
                Err(er) => Err(er),
            }
        }
    } else if crate::text::string_eq(name, "empty") {
        if args.len() != 0 {
            Err(Error::MismatchedArguments(name.clone(), 0, args.len()))
        } else {
            Ok(VertexSet::empty())
        }
    } else if crate::text::string_eq(name, "apply") {
        if args.len() < 1 {
            Err(Error::MismatchedArguments(name.clone(), 1, 0))
        } else if fuel == 0 {
            Err(Error::RecursionLimit)
        } else {
            let mut rest: Vec<Expr> = Vec::new();
            let mut k: usize = 1;
            while k < args.len()
                invariant
                    1 <= k <= args@.len(),
                    rest@.len() == k - 1,
                    forall|k2: int| 0 <= k2 < k - 1 ==> (#[trigger] rest@[k2])@ == args@[k2 + 1]@,
                decreases args@.len() - k,
            {
                let a = args[k].duplicate();
                rest.push(a);
                k = k + 1;
            }
            proof {
                crate::ast::lemma_view_args(rest@);
                assert(crate::ast::view_args(rest@) =~= argv.drop_first()) by {
                    assert forall|k2: int|
                        0 <= k2 < rest@.len() implies crate::ast::view_args(rest@)[k2]
                        == argv.drop_first()[k2] by {
                        assert(rest@[k2]@ == args@[k2 + 1]@);
                        assert(argv[k2 + 1] == args@[k2 + 1]@);
                    }
                }
            }
            let sub = subst_template(&args[0], &rest);
            proof {
                assert(args@[0]@ == argv[0]);
            }
            eval_at(repo, &sub, ctx, fuel - 1)
        }
    } else {
        Err(Error::UnresolvedName(name.clone()))
    }
}

/// Carry an argument's value-set equality into set-level rewriting.
proof fn link_val(g: GraphV, s: VertexSet, ev: EvalV)
    requires
        ev is Val ==> forall|v: int| s.has(v) <==> ev->Val_0.contains(v),
    ensures
        ev is Val ==> setof(s) =~= ev->Val_0,
{
    if ev is Val {
        assert forall|v: int| setof(s).contains(v) <==> ev->Val_0.contains(v) by {}
    }
}

/// Carry two arguments' value-set equalities into set-level rewriting.
proof fn link_pair(g: GraphV, a: VertexSet, b: VertexSet, lv: ListV)
    requires
        lv is LVals ==> lv->LVals_0.len() == 2 && (forall|v: int|
            a.has(v) <==> lv->LVals_0[0].contains(v)) && (forall|v: int|
            b.has(v) <==> lv->LVals_0[1].contains(v)),
    ensures
        lv is LVals ==> setof(a) =~= lv->LVals_0[0] && setof(b) =~= lv->LVals_0[1],
{
    if lv is LVals {
        assert forall|v: int| setof(a).contains(v) <==> lv->LVals_0[0].contains(v) by {}
        assert forall|v: int| setof(b).contains(v) <==> lv->LVals_0[1].contains(v) by {}
    }
}

/// The cached relation equals the one the logs define.
proof fn lemma_rel_is_mut_rel(g: GraphV, md: crate::mutation::MutationDag)
    requires
        g.wf(),
        g.n() <= usize::MAX,
        md.matches(g),
    ensures
        crate::mutation::relv(md) =~= mut_rel(g),
        crate::mutation::rel_bounded(crate::mutation::relv(md), g.n()),
{
    crate::mutation::lemma_cut_from_props(crate::mutation::mut_rel_raw(g), 0);
    assert forall|v: int|
        0 <= v < g.n() implies crate::mutation::relv(md)[v] == mut_rel(g)[v] by {
        assert(md.old_of@[v] == (match crate::mutation::mut_rel_broken(g)[v] {
            Some(o) => Some(o as usize),
            None => None::<usize>,
        }));
        if crate::mutation::mut_rel_broken(g)[v] is Some {
            assert(crate::mutation::mut_rel_broken(g)[v] == crate::mutation::mut_rel_raw(g)[v]);
            crate::mutation::lemma_logs_old_of_bound(g, g.reflogs.len() as int, v);
        }
    }
}

/// Exactly one argument, evaluated, executably.
fn eval_single_x(repo: &mut Repo, name: &String, args: &Vec<Expr>, ctx: &Context, fuel: u32) -> (r:
    Result<VertexSet, Error>)
    requires
        old(repo).gv().wf(),
        cache_ok(old(repo)),
        ctx_wf(ctx, old(repo).gv().n()),
    ensures
        final(repo).gv() == old(repo).gv(),
        cache_ok(final(repo)),
        r matches Ok(out) ==> out.wf() && out.bounded(old(repo).gv().n()),
        res_matches(
            old(repo).gv(),
            r,
            sem_single(old(repo).gv(), ctx@, name@, crate::ast::view_args(args@), fuel as nat),
        ),
    decreases fuel, args, 7int,
{
    proof {
        crate::ast::lemma_view_args(args@);
    }
    if args.len() != 1 {
        Err(Error::MismatchedArguments(name.clone(), 1, args.len()))
    } else {
        proof {
            assert(decreases_to!(args => args@));
            assert(decreases_to!(args => args@[0]));
        }
        eval_at(repo, &args[0], ctx, fuel)
    }
}

/// Exactly two arguments, evaluated left to right, executably.
#[verifier::rlimit(60)]
fn eval_pair_x(repo: &mut Repo, name: &String, args: &Vec<Expr>, ctx: &Context, fuel: u32) -> (r:
    Result<(VertexSet, VertexSet), Error>)
    requires
        old(repo).gv().wf(),
        cache_ok(old(repo)),
        ctx_wf(ctx, old(repo).gv().n()),
    ensures
        final(repo).gv() == old(repo).gv(),
        cache_ok(final(repo)),
        match sem_double(
            old(repo).gv(),
            ctx@,
            name@,
            crate::ast::view_args(args@),
            fuel as nat,
        ) {
            ListV::LVals(vals) => r matches Ok(p) && p.0.wf() && p.0.bounded(old(repo).gv().n())
                && p.1.wf() && p.1.bounded(old(repo).gv().n()) && (forall|v: int|
                p.0.has(v) <==> vals[0].contains(v)) && (forall|v: int|
                p.1.has(v) <==> vals[1].contains(v)),
            ListV::LFail(err) => r matches Err(e2) && e2@ == err,
            ListV::LOpen => true,
        },
        r matches Ok(p) ==> p.0.wf() && p.0.bounded(old(repo).gv().n()) && p.1.wf()
            && p.1.bounded(old(repo).gv().n()),
    decreases fuel, args, 7int,
{
    let ghost g = repo.gv();
    let ghost argv = crate::ast::view_args(args@);
    proof {
        crate::ast::lemma_view_args(args@);
    }
    if args.len() != 2 {
        return Err(Error::MismatchedArguments(name.clone(), 2, args.len()));
    }
    proof {
        assert(decreases_to!(args => args@));
        assert(decreases_to!(args => args@[0]));
        assert(decreases_to!(args => args@[1]));
    }
    let a = match eval_at(repo, &args[0], ctx, fuel) {
        Ok(a) => a,
        Err(er) => {
            return Err(er);
        },
    };
    let b = match eval_at(repo, &args[1], ctx, fuel) {
        Ok(b) => b,
        Err(er) => {
            return Err(er);
        },
    };
    proof {
        let s0 = sem(g, ctx@, argv[0], fuel as nat);
        let s1 = sem(g, ctx@, argv[1], fuel as nat);
        if s0 is Val && s1 is Val {
            let l2 = sem_list(g, ctx@, argv, 2, fuel as nat);
            assert(l2 == ListV::LVals(Seq::<Set<int>>::empty()));
            let l1 = sem_list(g, ctx@, argv, 1, fuel as nat);
            assert(l1 == ListV::LVals(seq![s1->Val_0] + Seq::<Set<int>>::empty()));
            let l0 = sem_list(g, ctx@, argv, 0, fuel as nat);
            assert(l0 == ListV::LVals(seq![s0->Val_0] + (seq![s1->Val_0] + Seq::<
                Set<int>,
            >::empty())));
            assert((seq![s0->Val_0] + (seq![s1->Val_0] + Seq::<Set<int>>::empty()))[0]
                == s0->Val_0);
            assert((seq![s0->Val_0] + (seq![s1->Val_0] + Seq::<Set<int>>::empty()))[1]
                == s1->Val_0);
        }
    }
    Ok((a, b))
}

/// All arguments from `start` on, evaluated left to right, executably.
fn eval_list_x(repo: &mut Repo, args: &Vec<Expr>, ctx: &Context, fuel: u32, start: usize) -> (r:
    Result<Vec<VertexSet>, Error>)
    requires
        old(repo).gv().wf(),
        cache_ok(old(repo)),
        ctx_wf(ctx, old(repo).gv().n()),
    ensures
        final(repo).gv() == old(repo).gv(),
        cache_ok(final(repo)),
        match sem_list(
            old(repo).gv(),
            ctx@,
            crate::ast::view_args(args@),
            start as int,
            fuel as nat,
        ) {
            ListV::LVals(vs) => r matches Ok(out) && out@.len() == vs.len() && (forall|k: int|
                0 <= k < vs.len() ==> (#[trigger] out@[k]).wf() && out@[k].bounded(
                    old(repo).gv().n(),
                )) && (forall|k: int, v: int|
                0 <= k < vs.len() ==> ((#[trigger] out@[k].has(v)) <==> vs[k].contains(v))),
            ListV::LFail(err) => r matches Err(e2) && e2@ == err,
            ListV::LOpen => true,
        },
        r matches Ok(out) ==> forall|k: int|
            0 <= k < out@.len() ==> (#[trigger] out@[k]).wf() && out@[k].bounded(
                old(repo).gv().n(),
            ),
    decreases fuel, args, 7int, args@.len() - start as int,
{
    let ghost g = repo.gv();
    let ghost argv = crate::ast::view_args(args@);
    proof {
        crate::ast::lemma_view_args(args@);
    }
    if start >= args.len() {
        let out: Vec<VertexSet> = Vec::new();
        return Ok(out);
    }
    proof {
        assert(decreases_to!(args => args@));
        assert(decreases_to!(args => args@[start as int]));
    }
    let s = match eval_at(repo, &args[start], ctx, fuel) {
        Ok(s) => s,
        Err(er) => {
            return Err(er);
        },
    };
    let rest = match eval_list_x(repo, args, ctx, fuel, start + 1) {
        Ok(rest) => rest,
        Err(er) => {
            return Err(er);
        },
    };
    let ghost gs = s;
    let mut out: Vec<VertexSet> = Vec::new();
    out.push(s);
    let mut k: usize = 0;
    while k < rest.len()
        invariant
            k <= rest@.len(),
            out@.len() == k + 1,
            out@[0].items@ == gs.items@,
            forall|k2: int| 0 <= k2 < k as int ==> (#[trigger] out@[k2 + 1]).items@ == rest@[
                k2
            ].items@,
        decreases rest@.len() - k,
    {
        let d = rest[k].duplicate();
        out.push(d);
        k = k + 1;
    }
    proof {
        let lsem = sem_list(g, ctx@, argv, start as int, fuel as nat);
        let s0 = sem(g, ctx@, argv[start as int], fuel as nat);
        if s0 is Val {
            let tail = sem_list(g, ctx@, argv, start + 1, fuel as nat);
            if tail is LVals {
                let vs = seq![s0->Val_0] + tail->LVals_0;
                assert(lsem == ListV::LVals(vs));
                assert(vs[0] == s0->Val_0);
                assert forall|k2: int, v: int|
                    0 <= k2 < vs.len() implies ((#[trigger] out@[k2].has(v)) <==> vs[k2].contains(
                    v,
                )) by {
                    if k2 == 0 {
                        lemma_same_items(out@[0], gs);
                    } else {
                        assert(out@[(k2 - 1) + 1].items@ == rest@[k2 - 1].items@);
                        lemma_same_items(out@[k2], rest@[k2 - 1]);
                        assert(vs[k2] == tail->LVals_0[k2 - 1]);
                    }
                }
            }
        }
        assert forall|k2: int|
            0 <= k2 < out@.len() implies (#[trigger] out@[k2]).wf() && out@[k2].bounded(
            g.n(),
        ) by {
            if k2 == 0 {
                lemma_same_items(out@[0], gs);
            } else {
                assert(out@[(k2 - 1) + 1].items@ == rest@[k2 - 1].items@);
                lemma_same_items(out@[k2], rest@[k2 - 1]);
            }
        }
    }
    Ok(out)
}

/// `first(...)`, executably: arguments after the first non-empty one stay
/// unevaluated.
fn eval_first_x(repo: &mut Repo, args: &Vec<Expr>, ctx: &Context, fuel: u32, start: usize) -> (r:
    Result<VertexSet, Error>)
    requires
        old(repo).gv().wf(),
        cache_ok(old(repo)),
        ctx_wf(ctx, old(repo).gv().n()),
    ensures
        final(repo).gv() == old(repo).gv(),
        cache_ok(final(repo)),
        r matches Ok(out) ==> out.wf() && out.bounded(old(repo).gv().n()),
        res_matches(
            old(repo).gv(),
            r,
            sem_first(old(repo).gv(), ctx@, crate::ast::view_args(args@), start as int, fuel as nat),
        ),
    decreases fuel, args, 7int, args@.len() - start as int,
{
    let ghost g = repo.gv();
    let ghost argv = crate::ast::view_args(args@);
    proof {
        crate::ast::lemma_view_args(args@);
    }
    if start >= args.len() {
        return Ok(VertexSet::empty());
    }
    proof {
        assert(decreases_to!(args => args@));
        assert(decreases_to!(args => args@[start as int]));
    }
    let s = match eval_at(repo, &args[start], ctx, fuel) {
        Ok(s) => s,
        Err(er) => {
            return Err(er);
        },
    };
    let ghost s0 = sem(g, ctx@, argv[start as int], fuel as nat);
    if s.len() == 0 {
        proof {
            if s0 is Val {
                assert(s0->Val_0 =~= Set::<int>::empty()) by {
                    assert forall|v: int| !s0->Val_0.contains(v) by {
                        assert(!s.has(v));
                    }
                }
            }
        }
        eval_first_x(repo, args, ctx, fuel, start + 1)
    } else {
        match s.first() {
            Some(v) => {
                let out = VertexSet::single(v);
                proof {
                    if s0 is Val {
                        let vs = s0->Val_0;
                        assert(setof(s) =~= vs);
                        assert(!(vs =~= Set::<int>::empty())) by {
                            assert(s.has(s.items@[0] as int));
                        }
                        assert(max_of(vs) == v as int) by {
                            assert(vs.contains(v as int) && forall|u: int|
                                vs.contains(u) ==> u <= v as int);
                            let m = max_of(vs);
                            assert(vs.contains(m) && forall|u: int| vs.contains(u) ==> u <= m);
                        }
                        assert(out.bounded(g.n())) by {
                            assert(out.items@[0] == v);
                            assert(s.has(v as int));
                        }
                        assert forall|u: int|
                            out.has(u) <==> Set::empty().insert(max_of(vs)).contains(u) by {}
                    }
                }
                Ok(out)
            },
            None => {
                proof {
                    assert(s.has(s.items@[0] as int));
                    assert(false);
                }
                Ok(VertexSet::empty())
            },
        }
    }
}

/// `range(x, y)` is exactly `descendants(x) & ancestors(y)`, and
/// `only(x, y)` is exactly `ancestors(x) - ancestors(y)`, over the full
/// reachability closures the evaluator is built on.
pub proof fn lemma_range_only_algebra(g: GraphV, x: Set<int>, y: Set<int>)
    ensures
        Set::new(
            |v: int| 0 <= v < g.n() && in_descendants(g, x, v) && in_ancestors(g, y, v),
        ) =~= Set::new(|v: int| 0 <= v < g.n() && in_descendants(g, x, v)).intersect(
            Set::new(|v: int| 0 <= v < g.n() && in_ancestors(g, y, v)),
        ),
        Set::new(
            |v: int| 0 <= v < g.n() && in_ancestors(g, x, v) && !in_ancestors(g, y, v),
        ) =~= Set::new(|v: int| 0 <= v < g.n() && in_ancestors(g, x, v)).difference(
            Set::new(|v: int| 0 <= v < g.n() && in_ancestors(g, y, v)),
        ),
{
}

/// `heads(all())` equals `head()` whenever no visible head is an ancestor
/// of another: the heads of the whole visible set are the reference heads.
pub proof fn lemma_heads_of_all(g: GraphV)
    requires
        g.wf(),
        forall|u: int, v: int|
            head_set(g).contains(u) && head_set(g).contains(v) && u != v ==> !reaches(g, v, u),
    ensures
        heads_of(g, visible(g)) =~= head_set(g),
{
    let hs = head_set(g);
    let vis = visible(g);
    assert forall|v: int| heads_of(g, vis).contains(v) implies hs.contains(v) by {
        assert(vis.contains(v));
        let h = choose|h: int| hs.contains(h) && reaches(g, h, v);
        assert(0 <= h < g.n()) by {
            assert(ref_targets(g).contains(h));
            let k = choose|k: int|
                0 <= k < g.refs.len() && (#[trigger] g.refs[k]).target == h;
        }
        if h != v {
            crate::dag::lemma_reaches_last_edge(g, h, v);
            let c = choose|c: int|
                0 <= c < g.n() && reaches(g, h, c) && (#[trigger] pars(g, c)).contains(v);
            assert(vis.contains(c)) by {
                assert(in_ancestors(g, hs, c));
            }
            assert(in_parents(g, vis, v));
        }
    }
    assert forall|h: int| hs.contains(h) implies heads_of(g, vis).contains(h) by {
        assert(0 <= h < g.n()) by {
            assert(ref_targets(g).contains(h));
            let k = choose|k: int|
                0 <= k < g.refs.len() && (#[trigger] g.refs[k]).target == h;
        }
        assert(reaches(g, h, h));
        assert(vis.contains(h)) by {
            assert(in_ancestors(g, hs, h));
        }
        if in_parents(g, vis, h) {
            let c = choose|c: int| vis.contains(c) && pars(g, c).contains(h);
            let h2 = choose|h2: int| hs.contains(h2) && reaches(g, h2, c);
            let k = choose|k: int| 0 <= k < pars(g, c).len() && pars(g, c)[k] == h;
            crate::dag::lemma_reaches_parent(g, c, k);
            crate::dag::lemma_reaches_trans(g, h2, c, h);
            if h2 == h {
                crate::dag::lemma_reaches_bounds(g, c, h);
                if c != h2 {
                    crate::dag::lemma_reaches_bounds(g, h2, c);
                }
            }
        }
    }
}

/// Double negation is the identity on visible sets: `negate(negate(x))`
/// gives back `x` whenever `x` lies inside the visible universe.
pub proof fn lemma_negate_negate(g: GraphV, x: Set<int>)
    requires
        forall|v: int| x.contains(v) ==> visible(g).contains(v),
    ensures
        visible(g).difference(visible(g).difference(x)) =~= x,
{
}

/// Every reference target is visible: it is reached from a visible head.
pub proof fn lemma_targets_visible(g: GraphV, v: int)
    requires
        g.wf(),
        ref_targets(g).contains(v),
    ensures
        visible(g).contains(v),
{
    assert(0 <= v < g.n()) by {
        let k = choose|k: int|
            0 <= k < g.refs.len() && (#[trigger] g.refs[k]).target == v;
    }
    assert forall|u: int| ref_targets(g).contains(u) implies 0 <= u < g.n() by {
        let k = choose|k: int|
            0 <= k < g.refs.len() && (#[trigger] g.refs[k]).target == u;
    }
    crate::dag::lemma_member_under_head(g, ref_targets(g), v);
    let h = choose|h: int|
        #[trigger] heads_of(g, ref_targets(g)).contains(h) && reaches(g, h, v);
    assert(in_ancestors(g, head_set(g), v));
}

/// `draft()` and `public()` partition the visible universe: they are
/// disjoint, and together they cover `all()`.
pub proof fn lemma_draft_public_partition(g: GraphV)
    requires
        g.wf(),
    ensures
        draft_set(g).intersect(public_set(g)) =~= Set::<int>::empty(),
        draft_set(g).union(public_set(g)) =~= visible(g),
{
    assert forall|v: int|
        visible(g).contains(v) implies draft_set(g).union(public_set(g)).contains(v) by {
        if !public_set(g).contains(v) {
            let h = choose|h: int| head_set(g).contains(h) && reaches(g, h, v);
            if publichead_set(g).contains(h) {
                assert(in_ancestors(g, publichead_set(g), v));
            } else {
                assert(drafthead_set(g).contains(h));
                assert(in_ancestors(g, drafthead_set(g), v));
            }
        }
    }
    assert forall|v: int|
        draft_set(g).union(public_set(g)).contains(v) implies visible(g).contains(v) by {
        if draft_set(g).contains(v) {
            let h = choose|h: int| drafthead_set(g).contains(h) && reaches(g, h, v);
            assert(head_set(g).contains(h));
            assert(in_ancestors(g, head_set(g), v));
        } else {
            let p = choose|p: int| publichead_set(g).contains(p) && reaches(g, p, v);
            assert(ref_targets(g).contains(p)) by {
                let k = choose|k: int|
                    0 <= k < g.refs.len() && (#[trigger] g.refs[k]).target == p
                        && crate::shim::glob_matches("refs/remotes/**"@, g.refs[k].name);
            }
            lemma_targets_visible(g, p);
            let h = choose|h: int| head_set(g).contains(h) && reaches(g, h, p);
            crate::dag::lemma_reaches_trans(g, h, p, v);
            assert(in_ancestors(g, head_set(g), v));
        }
    }
}

/// `present(x)` never fails with an unresolved name: that error makes it
/// yield the empty set; any other outcome of `x` passes through unchanged.
#[verifier::rlimit(100)]
pub proof fn lemma_present_suppresses(
    g: GraphV,
    c: CtxV,
    args: Seq<ExprV>,
    fuel: nat,
)
    ensures
        !(sem_builtin(g, c, "present"@, args, fuel) matches EvalV::Fail(e) && e is
            UnresolvedName),
        sem_single(g, c, "present"@, args, fuel) is Val ==> sem_builtin(
            g,
            c,
            "present"@,
            args,
            fuel,
        ) == sem_single(g, c, "present"@, args, fuel),
        (sem_single(g, c, "present"@, args, fuel) matches EvalV::Fail(e) && e is
            UnresolvedName) ==> sem_builtin(g, c, "present"@, args, fuel) == EvalV::Val(
            Set::<int>::empty(),
        ),
{
    reveal_strlit("present");
    reveal_strlit("parents");
    reveal_strlit("children");
    reveal_strlit("ancestors");
    reveal_strlit("descendants");
    reveal_strlit("heads");
    reveal_strlit("roots");
    reveal_strlit("range");
    reveal_strlit("only");
    reveal_strlit("ancestor");
    reveal_strlit("gca");
    reveal_strlit("intersection");
    reveal_strlit("union");
    reveal_strlit("difference");
    reveal_strlit("negate");
    reveal_strlit("first");
    reveal_strlit("last");
    reveal_strlit("head");
    reveal_strlit("all");
    reveal_strlit("publichead");
    reveal_strlit("drafthead");
    reveal_strlit("public");
    reveal_strlit("draft");
    reveal_strlit("author");
    reveal_strlit("committer");
    reveal_strlit("desc");
    reveal_strlit("date");
    reveal_strlit("committerdate");
    reveal_strlit("predecessors");
    reveal_strlit("successors");
    reveal_strlit("obsolete");
    reveal_strlit("rev");
    reveal_strlit("commit");
    reveal_strlit("id");
    reveal_strlit("ref");
    reveal_strlit("tag");
    reveal_strlit("empty");
    reveal_strlit("apply");
    assert("parents"@.len() == 7);
    assert("children"@.len() == 8);
    assert("ancestors"@.len() == 9);
    assert("descendants"@.len() == 11);
    assert("heads"@.len() == 5);
    assert("roots"@.len() == 5);
    assert("range"@.len() == 5);
    assert("only"@.len() == 4);
    assert("ancestor"@.len() == 8);
    assert("gca"@.len() == 3);
    assert("intersection"@.len() == 12);
    assert("union"@.len() == 5);
    assert("difference"@.len() == 10);
    assert("negate"@.len() == 6);
    assert("first"@.len() == 5);
    assert("last"@.len() == 4);
    assert("head"@.len() == 4);
    assert("all"@.len() == 3);
    assert("publichead"@.len() == 10);
    assert("drafthead"@.len() == 9);
    assert("public"@.len() == 6);
    assert("draft"@.len() == 5);
    assert("author"@.len() == 6);
    assert("committer"@.len() == 9);
    assert("desc"@.len() == 4);
    assert("date"@.len() == 4);
    assert("committerdate"@.len() == 13);
    assert("predecessors"@.len() == 12);
    assert("successors"@.len() == 10);
    assert("obsolete"@.len() == 8);
    assert("rev"@.len() == 3);
    assert("commit"@.len() == 6);
    assert("id"@.len() == 2);
    assert("ref"@.len() == 3);
    assert("tag"@.len() == 3);
    assert("empty"@.len() == 5);
    assert("present"@.len() == 7);
    assert("apply"@.len() == 5);
    assert("present"@ != "parents"@) by {
        assert("present"@[1] == 'r');
        assert("parents"@[1] == 'a');
    }
}

/// How deep alias and `apply` expansion may nest before the evaluator
/// gives up with `RecursionLimit`; self-referential aliases stop here.
pub const EXPANSION_FUEL: u32 = 32;

/// The context with no extra bindings.
pub open spec fn empty_ctx() -> CtxV {
    CtxV { names: Seq::empty(), fns: Seq::empty() }
}

/// What `present` promises at the top level: a call of the builtin
/// `present` never comes back as an unresolved name, whatever its argument
/// did. A context that rebinds the name `present` takes the call over.
pub open spec fn present_never_unresolved(
    c: CtxV,
    e: ExprV,
    r: Result<VertexSet, Error>,
) -> bool {
    match e {
        ExprV::Fn(nm, _args) => (nm == "present"@ && ctx_fn_find(c.fns, nm) is None) ==> !(r
            matches Err(er) && er is UnresolvedName),
        _ => true,
    }
}

/// Evaluate an expression. `context` can define extra names and aliases.
pub fn eval(repo: &mut Repo, expr: &Expr, context: &Context) -> (r: Result<VertexSet, Error>)
    requires
        old(repo).gv().wf(),
        cache_ok(old(repo)),
        ctx_wf(context, old(repo).gv().n()),
    ensures
        final(repo).gv() == old(repo).gv(),
        cache_ok(final(repo)),
        r matches Ok(out) ==> out.wf() && out.bounded(old(repo).gv().n()),
        res_matches(
            old(repo).gv(),
            r,
            sem(old(repo).gv(), context@, expr@, EXPANSION_FUEL as nat),
        ),
        present_never_unresolved(context@, expr@, r),
{
    eval_at(repo, expr, context, EXPANSION_FUEL)
}

/// The alias bindings the configuration defines, from entry `k` on: each
/// `revsetalias.<name> = <template>` whose template parses becomes a
/// function named `<name>`; malformed templates are skipped.
pub open spec fn aliases_from(g: GraphV, k: int) -> Seq<(Seq<char>, ExprV)>
    decreases g.config.len() - k,
{
    if k < 0 || k >= g.config.len() {
        Seq::empty()
    } else {
        let e = g.config[k];
        let rest = aliases_from(g, k + 1);
        if crate::text::has_prefix(e.name, "revsetalias."@) && crate::parser::parse_text(e.value)
            is POk {
            seq![
                (
                    e.name.subrange(12, e.name.len() as int),
                    crate::parser::parse_text(e.value)->POk_0,
                ),
            ] + rest
        } else {
            rest
        }
    }
}

impl Repo {
    /// The alias context the `[revsetalias]` configuration section defines.
    #[verifier::loop_isolation(false)]
    pub fn eval_context_from_config(&self) -> (r: Context)
        ensures
            r@.names.len() == 0,
            r@.fns == aliases_from(self.gv(), 0),
            ctx_wf(&r, self.gv().n()),
    {
        let ghost g = self.gv();
        let mut fns: Vec<(String, Expr)> = Vec::new();
        let mut k: usize = 0;
        while k < self.config.len()
            invariant
                k <= self.config@.len(),
                fns@.map_values(|p: (String, Expr)| (p.0@, p.1@)) + aliases_from(g, k as int)
                    =~= aliases_from(g, 0),
            decreases self.config@.len() - k,
        {
            proof {
                assert(g.config[k as int] == self.config@[k as int]@);
            }
            let ghost pre = fns@.map_values(|p: (String, Expr)| (p.0@, p.1@));
            let name = &self.config[k].name;
            if crate::text::str_has_prefix(name.as_str(), "revsetalias.") {
                proof {
                    reveal_strlit("revsetalias.");
                    assert("revsetalias."@.len() == 12);
                }
                match crate::parser::parse(self.config[k].value.as_str()) {
                    Ok(template) => {
                        let n_len = name.unicode_len();
                        let suffix = String::from_str(name.as_str().substring_char(12, n_len));
                        fns.push((suffix, template));
                        proof {
                            let cur = fns@.map_values(|p: (String, Expr)| (p.0@, p.1@));
                            assert(cur =~= pre.push(
                                (
                                    g.config[k as int].name.subrange(
                                        12,
                                        g.config[k as int].name.len() as int,
                                    ),
                                    crate::parser::parse_text(g.config[k as int].value)->POk_0,
                                ),
                            ));
                            assert(aliases_from(g, k as int) =~= seq![
                                (
                                    g.config[k as int].name.subrange(
                                        12,
                                        g.config[k as int].name.len() as int,
                                    ),
                                    crate::parser::parse_text(g.config[k as int].value)->POk_0,
                                ),
                            ] + aliases_from(g, k + 1));
                            assert(cur + aliases_from(g, k + 1) =~= pre + aliases_from(
                                g,
                                k as int,
                            ));
                        }
                    },
                    Err(_) => {
                        proof {
                            assert(aliases_from(g, k as int) =~= aliases_from(g, k + 1));
                        }
                    },
                }
            } else {
                proof {
                    assert(aliases_from(g, k as int) =~= aliases_from(g, k + 1));
                }
            }
            k = k + 1;
        }
        proof {
            assert(aliases_from(g, k as int) =~= Seq::<(Seq<char>, ExprV)>::empty());
        }
        let r = Context { names: Vec::new(), fns };
        proof {
            assert(r@.names =~= Seq::<(Seq<char>, Set<int>)>::empty());
            assert(r@.fns =~= aliases_from(g, 0));
        }
        r
    }

    /// Parse and evaluate an expression; user aliases are ignored.
    pub fn revs(&mut self, text: &str) -> (r: Result<VertexSet, Error>)
        requires
            old(self).gv().wf(),
            cache_ok(old(self)),
        ensures
            final(self).gv() == old(self).gv(),
            cache_ok(final(self)),
            r matches Ok(out) ==> out.wf() && out.bounded(old(self).gv().n()),
            match crate::parser::parse_text(text@) {
                crate::parser::PResV::POk(e, _) => res_matches(
                    old(self).gv(),
                    r,
                    sem(old(self).gv(), empty_ctx(), e, EXPANSION_FUEL as nat),
                ) && present_never_unresolved(empty_ctx(), e, r),
                crate::parser::PResV::PErr(p) => r matches Err(er) && er matches
                    Error::ParseError(_m, pos) && pos as int == p,
            },
    {
        match crate::parser::parse(text) {
            Ok(e) => {
                let ctx = Context::new();
                proof {
                    assert(ctx@.names =~= empty_ctx().names);
                    assert(ctx@.fns =~= empty_ctx().fns);
                    assert(ctx@ == empty_ctx());
                }
                eval(self, &e, &ctx)
            },
            Err(er) => Err(er),
        }
    }

    /// Parse and evaluate an expression; user aliases are respected.
    pub fn anyrevs(&mut self, text: &str) -> (r: Result<VertexSet, Error>)
        requires
            old(self).gv().wf(),
            cache_ok(old(self)),
        ensures
            final(self).gv() == old(self).gv(),
            cache_ok(final(self)),
            r matches Ok(out) ==> out.wf() && out.bounded(old(self).gv().n()),
            match crate::parser::parse_text(text@) {
                crate::parser::PResV::POk(e, _) => res_matches(
                    old(self).gv(),
                    r,
                    sem(
                        old(self).gv(),
                        CtxV { names: Seq::empty(), fns: aliases_from(old(self).gv(), 0) },
                        e,
                        EXPANSION_FUEL as nat,
                    ),
                ) && present_never_unresolved(
                    CtxV { names: Seq::empty(), fns: aliases_from(old(self).gv(), 0) },
                    e,
                    r,
                ),
                crate::parser::PResV::PErr(p) => r matches Err(er) && er matches
                    Error::ParseError(_m, pos) && pos as int == p,
            },
    {
        match crate::parser::parse(text) {
            Ok(e) => {
                let ctx = self.eval_context_from_config();
                proof {
                    assert(ctx@.names =~= Seq::<(Seq<char>, Set<int>)>::empty());
                    assert(ctx@ == CtxV {
                        names: Seq::empty(),
                        fns: aliases_from(self.gv(), 0),
                    });
                }
                eval(self, &e, &ctx)
            },
            Err(er) => Err(er),
        }
    }

    /// Evaluate a pre-built expression; user aliases are ignored.
    pub fn revs_expr(&mut self, e: &Expr) -> (r: Result<VertexSet, Error>)
        requires
            old(self).gv().wf(),
            cache_ok(old(self)),
        ensures
            final(self).gv() == old(self).gv(),
            cache_ok(final(self)),
            r matches Ok(out) ==> out.wf() && out.bounded(old(self).gv().n()),
            res_matches(
                old(self).gv(),
                r,
                sem(old(self).gv(), empty_ctx(), e@, EXPANSION_FUEL as nat),
            ),
            present_never_unresolved(empty_ctx(), e@, r),
    {
        let ctx = Context::new();
        proof {
            assert(ctx@.names =~= empty_ctx().names);
            assert(ctx@.fns =~= empty_ctx().fns);
            assert(ctx@ == empty_ctx());
        }
        eval(self, e, &ctx)
    }

    /// Evaluate a pre-built expression under the given context.
    pub fn revs_with_context(&mut self, e: &Expr, context: &Context) -> (r: Result<
        VertexSet,
        Error,
    >)
        requires
            old(self).gv().wf(),
            cache_ok(old(self)),
            ctx_wf(context, old(self).gv().n()),
        ensures
            final(self).gv() == old(self).gv(),
            cache_ok(final(self)),
            r matches Ok(out) ==> out.wf() && out.bounded(old(self).gv().n()),
            res_matches(
                old(self).gv(),
                r,
                sem(old(self).gv(), context@, e@, EXPANSION_FUEL as nat),
            ),
            present_never_unresolved(context@, e@, r),
    {
        eval(self, e, context)
    }
}

/// The hex form of a commit identity.
pub fn vertex_hex(v: &crate::error::Vertex) -> (r: String)
    ensures
        r@.len() == 2 * v@.len(),
        forall|t: int| 0 <= t < r@.len() ==> #[trigger] r@[t] == hex_digit_of(v@, t) as char,
{
    let mut cs: Vec<char> = Vec::new();
    let mut k: usize = 0;
    while k < v.len()
        invariant
            k <= v@.len(),
            cs@.len() == 2 * k,
            forall|t: int| 0 <= t < cs@.len() ==> #[trigger] cs@[t] == hex_digit_of(v@, t) as char,
        decreases v@.len() - k,
    {
        let b = v[k];
        let hi: u8 = b / 16;
        let lo: u8 = b % 16;
        let hc: u8 = if hi < 10 {
            48 + hi
        } else {
            87 + hi
        };
        let lc: u8 = if lo < 10 {
            48 + lo
        } else {
            87 + lo
        };
        cs.push(hc as char);
        cs.push(lc as char);
        proof {
            assert forall|t: int|
                0 <= t < cs@.len() implies #[trigger] cs@[t] == hex_digit_of(v@, t) as char by {
                if t == 2 * k {
                    assert(v@[t / 2] == b);
                    assert(cs@[t] == hc as char);
                } else if t == 2 * k + 1 {
                    assert(v@[t / 2] == b);
                    assert(cs@[t] == lc as char);
                }
            }
        }
        k = k + 1;
    }
    crate::text::chars_to_string(&cs)
}

/// Exactly one literal-name argument, executably.
fn string_arg(name: &String, args: &Vec<Expr>) -> (r: Result<String, Error>)
    ensures
        match sem_string(name@, crate::ast::view_args(args@)) {
            Ok(t) => r matches Ok(out) && out@ == t,
            Err(err) => r matches Err(e2) && e2@ == err,
        },
{
    proof {
        crate::ast::lemma_view_args(args@);
    }
    if args.len() != 1 {
        return Err(Error::MismatchedArguments(name.clone(), 1, args.len()));
    }
    proof {
        assert(crate::ast::view_args(args@)[0] == args@[0]@);
    }
    match &args[0] {
        Expr::Name(s) => Ok(s.clone()),
        other => Err(Error::ExpectString(other.to_text())),
    }
}

/// Exactly one argument, evaluated.
pub open spec fn sem_single(
    g: GraphV,
    c: CtxV,
    name: Seq<char>,
    args: Seq<ExprV>,
    fuel: nat,
) -> EvalV
    decreases fuel, args, 3int,
{
    if args.len() != 1 {
        EvalV::Fail(ErrorV::MismatchedArguments(name, 1, args.len() as int))
    } else {
        proof {
            assert(decreases_to!(args => args[0]));
        }
        sem(g, c, args[0], fuel)
    }
}

/// Exactly two arguments, evaluated left to right.
pub open spec fn sem_double(
    g: GraphV,
    c: CtxV,
    name: Seq<char>,
    args: Seq<ExprV>,
    fuel: nat,
) -> ListV
    decreases fuel, args, 3int,
{
    if args.len() != 2 {
        ListV::LFail(ErrorV::MismatchedArguments(name, 2, args.len() as int))
    } else {
        sem_list(g, c, args, 0, fuel)
    }
}

/// Exactly one argument, which must be a literal name.
pub open spec fn sem_string(name: Seq<char>, args: Seq<ExprV>) -> Result<Seq<char>, ErrorV> {
    if args.len() != 1 {
        Err(ErrorV::MismatchedArguments(name, 1, args.len() as int))
    } else {
        as_string(args[0])
    }
}

} // verus!
