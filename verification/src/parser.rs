//! The revset grammar: text to expression tree.
//!
//! Syntax, tightest first: atoms (`name`, `"quoted"`, `name(args)`, `(x)`),
//! postfix `x^` and `x::`, prefix `::x`, `!x`, `not x`, then `x:y` and `x%y`,
//! then `x&y` / `x and y`, then `x+y`, `x|y`, `x or y`, `x-y`.
//! `x::y` is rejected as invalid syntax.

use crate::ast::Expr;
use crate::ast::ExprV;
use crate::ast::print_args;
use crate::ast::print_expr;
use crate::error::Error;
use vstd::prelude::*;
use vstd::string::StrSliceExecFns;
use vstd::string::StringExecFns;

verus! {

/// A parse outcome at spec level: the parsed tree and the position after it,
/// or the position where parsing stopped.
pub enum PResV {
    POk(ExprV, int),
    PErr(int),
}

/// Whitespace between tokens.
pub open spec fn is_ws(c: char) -> bool {
    c == ' ' || c == '\t' || c == '\n' || c == '\r'
}

/// Characters a bare name token is made of: ASCII letters and digits,
/// `.`, `_`, `/`, `$`, `@`, `*`, and anything beyond ASCII.
pub open spec fn is_name_char(c: char) -> bool {
    let u = c as u32;
    ('a' as u32 <= u && u <= 'z' as u32) || ('A' as u32 <= u && u <= 'Z' as u32) || ('0' as u32 <= u
        && u <= '9' as u32) || c == '.' || c == '_' || c == '/' || c == '$' || c == '@' || c == '*'
        || u > 127
}

/// The first position at or after `i` that holds no whitespace.
pub open spec fn skip_ws(s: Seq<char>, i: int) -> int
    decreases s.len() - i,
{
    if 0 <= i < s.len() && is_ws(s[i]) {
        skip_ws(s, i + 1)
    } else {
        i
    }
}

pub proof fn lemma_skip_ws(s: Seq<char>, i: int)
    requires
        0 <= i <= s.len(),
    ensures
        i <= skip_ws(s, i) <= s.len(),
    decreases s.len() - i,
{
    if i < s.len() && is_ws(s[i]) {
        lemma_skip_ws(s, i + 1);
    }
}

/// The end of the name token starting at `i`.
pub open spec fn scan_name(s: Seq<char>, i: int) -> int
    decreases s.len() - i,
{
    if 0 <= i < s.len() && is_name_char(s[i]) {
        scan_name(s, i + 1)
    } else {
        i
    }
}

pub proof fn lemma_scan_name(s: Seq<char>, i: int)
    requires
        0 <= i <= s.len(),
    ensures
        i <= scan_name(s, i) <= s.len(),
    decreases s.len() - i,
{
    if i < s.len() && is_name_char(s[i]) {
        lemma_scan_name(s, i + 1);
    }
}

/// The position of the closing quote at or after `i`, or the text's end.
pub open spec fn scan_quote(s: Seq<char>, i: int) -> int
    decreases s.len() - i,
{
    if 0 <= i < s.len() && s[i] != '"' {
        scan_quote(s, i + 1)
    } else {
        i
    }
}

pub proof fn lemma_scan_quote(s: Seq<char>, i: int)
    requires
        0 <= i <= s.len(),
    ensures
        i <= scan_quote(s, i) <= s.len(),
    decreases s.len() - i,
{
    if i < s.len() && s[i] != '"' {
        lemma_scan_quote(s, i + 1);
    }
}

/// A whole expression: the lowest-binding level.
pub open spec fn p_expr(s: Seq<char>, i: int) -> PResV
    decreases s.len() - i, 9int,
{
    if i < 0 || i > s.len() {
        PResV::PErr(i)
    } else {
        p_sum(s, i)
    }
}

/// Union and difference: `x+y`, `x|y`, `x or y`, `x-y`, left associative.
pub open spec fn p_sum(s: Seq<char>, i: int) -> PResV
    decreases s.len() - i, 8int,
{
    if i < 0 || i > s.len() {
        PResV::PErr(i)
    } else {
        match p_and(s, i) {
            PResV::POk(a, j) => if j <= i || j > s.len() {
                PResV::PErr(i)
            } else {
                p_sum_tail(s, j, a)
            },
            PResV::PErr(p) => PResV::PErr(p),
        }
    }
}

pub open spec fn p_sum_tail(s: Seq<char>, j: int, acc: ExprV) -> PResV
    decreases s.len() - j, 7int,
{
    if j < 0 || j > s.len() {
        PResV::PErr(j)
    } else {
        let m = {
            proof {
                lemma_skip_ws(s, j);
            }
            skip_ws(s, j)
        };
        let k = {
            proof {
                lemma_scan_name(s, m);
            }
            scan_name(s, m)
        };
        if m < s.len() && (s[m] == '+' || s[m] == '|' || s[m] == '-') {
            let op = if s[m] == '-' {
                "difference"@
            } else {
                "union"@
            };
            match p_and(s, m + 1) {
                PResV::POk(b, n) => if n <= m + 1 || n > s.len() {
                    PResV::PErr(m + 1)
                } else {
                    p_sum_tail(s, n, ExprV::Fn(op, seq![acc, b]))
                },
                PResV::PErr(p) => PResV::PErr(p),
            }
        } else if k > m && s.subrange(m, k) == "or"@ {
            match p_and(s, k) {
                PResV::POk(b, n) => if n <= k || n > s.len() {
                    PResV::PErr(k)
                } else {
                    p_sum_tail(s, n, ExprV::Fn("union"@, seq![acc, b]))
                },
                PResV::PErr(p) => PResV::PErr(p),
            }
        } else {
            PResV::POk(acc, j)
        }
    }
}

/// Intersection: `x&y`, `x and y`, left associative.
pub open spec fn p_and(s: Seq<char>, i: int) -> PResV
    decreases s.len() - i, 6int,
{
    if i < 0 || i > s.len() {
        PResV::PErr(i)
    } else {
        match p_range(s, i) {
            PResV::POk(a, j) => if j <= i || j > s.len() {
                PResV::PErr(i)
            } else {
                p_and_tail(s, j, a)
            },
            PResV::PErr(p) => PResV::PErr(p),
        }
    }
}

pub open spec fn p_and_tail(s: Seq<char>, j: int, acc: ExprV) -> PResV
    decreases s.len() - j, 5int,
{
    if j < 0 || j > s.len() {
        PResV::PErr(j)
    } else {
        let m = {
            proof {
                lemma_skip_ws(s, j);
            }
            skip_ws(s, j)
        };
        let k = {
            proof {
                lemma_scan_name(s, m);
            }
            scan_name(s, m)
        };
        if m < s.len() && s[m] == '&' {
            match p_range(s, m + 1) {
                PResV::POk(b, n) => if n <= m + 1 || n > s.len() {
                    PResV::PErr(m + 1)
                } else {
                    p_and_tail(s, n, ExprV::Fn("intersection"@, seq![acc, b]))
                },
                PResV::PErr(p) => PResV::PErr(p),
            }
        } else if k > m && s.subrange(m, k) == "and"@ {
            match p_range(s, k) {
                PResV::POk(b, n) => if n <= k || n > s.len() {
                    PResV::PErr(k)
                } else {
                    p_and_tail(s, n, ExprV::Fn("intersection"@, seq![acc, b]))
                },
                PResV::PErr(p) => PResV::PErr(p),
            }
        } else {
            PResV::POk(acc, j)
        }
    }
}

/// `x:y` is `range(x, y)`; `x%y` is `only(x, y)`; neither chains.
pub open spec fn p_range(s: Seq<char>, i: int) -> PResV
    decreases s.len() - i, 4int,
{
    if i < 0 || i > s.len() {
        PResV::PErr(i)
    } else {
        match p_prefix(s, i) {
            PResV::POk(a, j) => if j <= i || j > s.len() {
                PResV::PErr(i)
            } else {
                let m = {
                    proof {
                        lemma_skip_ws(s, j);
                    }
                    skip_ws(s, j)
                };
                if m < s.len() && s[m] == ':' && !(m + 1 < s.len() && s[m + 1] == ':') {
                    match p_prefix(s, m + 1) {
                        PResV::POk(b, n) => PResV::POk(ExprV::Fn("range"@, seq![a, b]), n),
                        PResV::PErr(p) => PResV::PErr(p),
                    }
                } else if m < s.len() && s[m] == '%' {
                    match p_prefix(s, m + 1) {
                        PResV::POk(b, n) => PResV::POk(ExprV::Fn("only"@, seq![a, b]), n),
                        PResV::PErr(p) => PResV::PErr(p),
                    }
                } else {
                    PResV::POk(a, j)
                }
            },
            PResV::PErr(p) => PResV::PErr(p),
        }
    }
}

/// Prefix operators: `::x` is `ancestors(x)`; `!x` and `not x` are `negate(x)`.
pub open spec fn p_prefix(s: Seq<char>, i: int) -> PResV
    decreases s.len() - i, 3int,
{
    if i < 0 || i > s.len() {
        PResV::PErr(i)
    } else {
        let j = {
            proof {
                lemma_skip_ws(s, i);
            }
            skip_ws(s, i)
        };
        let k = {
            proof {
                lemma_scan_name(s, j);
            }
            scan_name(s, j)
        };
        if j + 1 < s.len() && s[j] == ':' && s[j + 1] == ':' {
            match p_prefix(s, j + 2) {
                PResV::POk(e, n) => PResV::POk(ExprV::Fn("ancestors"@, seq![e]), n),
                PResV::PErr(p) => PResV::PErr(p),
            }
        } else if j < s.len() && s[j] == '!' {
            match p_prefix(s, j + 1) {
                PResV::POk(e, n) => PResV::POk(ExprV::Fn("negate"@, seq![e]), n),
                PResV::PErr(p) => PResV::PErr(p),
            }
        } else if k > j && s.subrange(j, k) == "not"@ {
            match p_prefix(s, k) {
                PResV::POk(e, n) => PResV::POk(ExprV::Fn("negate"@, seq![e]), n),
                PResV::PErr(p) => PResV::PErr(p),
            }
        } else {
            p_postfix(s, j)
        }
    }
}

/// Postfix operators: `x^` is `parents(x)`; `x::` is `descendants(x)`.
pub open spec fn p_postfix(s: Seq<char>, i: int) -> PResV
    decreases s.len() - i, 2int,
{
    if i < 0 || i > s.len() {
        PResV::PErr(i)
    } else {
        match p_atom(s, i) {
            PResV::POk(a, j) => if j <= i || j > s.len() {
                PResV::PErr(i)
            } else {
                p_postfix_tail(s, j, a)
            },
            PResV::PErr(p) => PResV::PErr(p),
        }
    }
}

pub open spec fn p_postfix_tail(s: Seq<char>, j: int, a: ExprV) -> PResV
    decreases s.len() - j, 1int,
{
    if j < 0 || j > s.len() {
        PResV::PErr(j)
    } else {
        let m = {
            proof {
                lemma_skip_ws(s, j);
            }
            skip_ws(s, j)
        };
        if m + 1 < s.len() && s[m] == ':' && s[m + 1] == ':' {
            p_postfix_tail(s, m + 2, ExprV::Fn("descendants"@, seq![a]))
        } else if m < s.len() && s[m] == '^' {
            p_postfix_tail(s, m + 1, ExprV::Fn("parents"@, seq![a]))
        } else {
            PResV::POk(a, j)
        }
    }
}

/// An atom: a parenthesized expression, a quoted name, a call, or a name.
pub open spec fn p_atom(s: Seq<char>, i: int) -> PResV
    decreases s.len() - i, 0int,
{
    if i < 0 || i > s.len() {
        PResV::PErr(i)
    } else {
        let j = {
            proof {
                lemma_skip_ws(s, i);
            }
            skip_ws(s, i)
        };
        if j == s.len() {
            PResV::PErr(j)
        } else if s[j] == '(' {
            match p_expr(s, j + 1) {
                PResV::POk(e, kk) => {
                    let m = {
                        proof {
                            if 0 <= kk <= s.len() {
                                lemma_skip_ws(s, kk);
                            }
                        }
                        skip_ws(s, kk)
                    };
                    if 0 <= m < s.len() && s[m] == ')' {
                        PResV::POk(e, m + 1)
                    } else {
                        PResV::PErr(m)
                    }
                },
                PResV::PErr(p) => PResV::PErr(p),
            }
        } else if s[j] == '"' {
            let q = {
                proof {
                    lemma_scan_quote(s, j + 1);
                }
                scan_quote(s, j + 1)
            };
            if q < s.len() {
                PResV::POk(ExprV::Name(s.subrange(j + 1, q)), q + 1)
            } else {
                PResV::PErr(q)
            }
        } else {
            let k = {
                proof {
                    lemma_scan_name(s, j);
                }
                scan_name(s, j)
            };
            if k == j {
                PResV::PErr(j)
            } else {
                let nm = s.subrange(j, k);
                if nm == "or"@ || nm == "and"@ || nm == "not"@ {
                    PResV::PErr(j)
                } else {
                    let m = {
                        proof {
                            lemma_skip_ws(s, k);
                        }
                        skip_ws(s, k)
                    };
                    if m < s.len() && s[m] == '(' {
                        let a = {
                            proof {
                                lemma_skip_ws(s, m + 1);
                            }
                            skip_ws(s, m + 1)
                        };
                        if a < s.len() && s[a] == ')' {
                            PResV::POk(ExprV::Fn(nm, Seq::empty()), a + 1)
                        } else {
                            p_args(s, m + 1, nm, Seq::empty())
                        }
                    } else {
                        PResV::POk(ExprV::Name(nm), k)
                    }
                }
            }
        }
    }
}

/// The comma-separated argument list of a call, from the first argument on,
/// up to and including the closing parenthesis.
pub open spec fn p_args(s: Seq<char>, p: int, name: Seq<char>, acc: Seq<ExprV>) -> PResV
    decreases s.len() - p, 10int,
{
    if p < 0 || p > s.len() {
        PResV::PErr(p)
    } else {
        match p_expr(s, p) {
            PResV::POk(e, q) => if q <= p || q > s.len() {
                PResV::PErr(p)
            } else {
                let r = {
                    proof {
                        lemma_skip_ws(s, q);
                    }
                    skip_ws(s, q)
                };
                if r < s.len() && s[r] == ',' {
                    p_args(s, r + 1, name, acc.push(e))
                } else if r < s.len() && s[r] == ')' {
                    PResV::POk(ExprV::Fn(name, acc.push(e)), r + 1)
                } else {
                    PResV::PErr(r)
                }
            },
            PResV::PErr(p2) => PResV::PErr(p2),
        }
    }
}

/// A parse outcome at exec level.
pub enum Step {
    Done(Expr, usize),
    Fail(usize),
}

/// The spec shape of an exec parse outcome.
pub open spec fn step_view(r: Step) -> PResV {
    match r {
        Step::Done(e, n) => PResV::POk(e@, n as int),
        Step::Fail(p) => PResV::PErr(p as int),
    }
}

/// `skip_ws`, executably.
fn ws_at(s: &Vec<char>, i: usize) -> (r: usize)
    ensures
        r as int == skip_ws(s@, i as int),
        i <= s@.len() ==> i <= r <= s@.len(),
        i > s@.len() ==> r == i,
{
    let mut r = i;
    if r >= s.len() {
        return r;
    }
    while r < s.len() && (s[r] == ' ' || s[r] == '\t' || s[r] == '\n' || s[r] == '\r')
        invariant
            i <= r <= s@.len(),
            skip_ws(s@, i as int) == skip_ws(s@, r as int),
        decreases s@.len() - r,
    {
        proof {
            assert(skip_ws(s@, r as int) == skip_ws(s@, r + 1));
        }
        r = r + 1;
    }
    proof {
        if r < s@.len() {
            assert(!is_ws(s@[r as int]));
        }
        assert(skip_ws(s@, r as int) == r);
    }
    r
}

/// `is_name_char`, executably.
fn name_char(c: char) -> (r: bool)
    ensures
        r == is_name_char(c),
{
    let u = c as u32;
    ('a' as u32 <= u && u <= 'z' as u32) || ('A' as u32 <= u && u <= 'Z' as u32) || ('0' as u32 <= u
        && u <= '9' as u32) || c == '.' || c == '_' || c == '/' || c == '$' || c == '@' || c == '*'
        || u > 127
}

/// `scan_name`, executably.
fn name_end(s: &Vec<char>, i: usize) -> (r: usize)
    ensures
        r as int == scan_name(s@, i as int),
        i <= s@.len() ==> i <= r <= s@.len(),
        i > s@.len() ==> r == i,
{
    let mut r = i;
    if r >= s.len() {
        return r;
    }
    while r < s.len() && name_char(s[r])
        invariant
            i <= r <= s@.len(),
            scan_name(s@, i as int) == scan_name(s@, r as int),
        decreases s@.len() - r,
    {
        proof {
            assert(scan_name(s@, r as int) == scan_name(s@, r + 1));
        }
        r = r + 1;
    }
    proof {
        assert(scan_name(s@, r as int) == r);
    }
    r
}

/// `scan_quote`, executably.
fn quote_end(s: &Vec<char>, i: usize) -> (r: usize)
    ensures
        r as int == scan_quote(s@, i as int),
        i <= s@.len() ==> i <= r <= s@.len(),
        i > s@.len() ==> r == i,
{
    let mut r = i;
    if r >= s.len() {
        return r;
    }
    while r < s.len() && s[r] != '"'
        invariant
            i <= r <= s@.len(),
            scan_quote(s@, i as int) == scan_quote(s@, r as int),
        decreases s@.len() - r,
    {
        proof {
            assert(scan_quote(s@, r as int) == scan_quote(s@, r + 1));
        }
        r = r + 1;
    }
    proof {
        assert(scan_quote(s@, r as int) == r);
    }
    r
}

/// Whether the characters `i..j` spell exactly `w`.
fn span_is(s: &Vec<char>, i: usize, j: usize, w: &str) -> (r: bool)
    requires
        i <= j <= s@.len(),
    ensures
        r == (s@.subrange(i as int, j as int) == w@),
{
    let n = w.unicode_len();
    if j - i != n {
        proof {
            assert(s@.subrange(i as int, j as int).len() != w@.len());
        }
        return false;
    }
    let mut t: usize = 0;
    while t < n
        invariant
            t <= n,
            n == w@.len(),
            i + n == j <= s@.len(),
            s@.subrange(i as int, i + t as int) == w@.subrange(0, t as int),
        decreases n - t,
    {
        if s[i + t] != w.get_char(t) {
            proof {
                let full = s@.subrange(i as int, j as int);
                assert(full[t as int] == s@[i + t]);
                assert(s@[i + t] != w@[t as int]);
            }
            return false;
        }
        proof {
            assert(s@.subrange(i as int, i + t + 1) =~= s@.subrange(i as int, i + t as int).push(
                s@[i + t],
            ));
            assert(w@.subrange(0, t + 1) =~= w@.subrange(0, t as int).push(w@[t as int]));
        }
        t = t + 1;
    }
    proof {
        assert(s@.subrange(i as int, j as int) =~= s@.subrange(i as int, i + n as int));
        assert(w@ =~= w@.subrange(0, n as int));
    }
    true
}

/// The characters `i..j`, as a `String`.
fn span_text(s: &Vec<char>, i: usize, j: usize) -> (r: String)
    requires
        i <= j <= s@.len(),
    ensures
        r@ == s@.subrange(i as int, j as int),
{
    let mut v: Vec<char> = Vec::new();
    let mut t: usize = i;
    while t < j
        invariant
            i <= t <= j <= s@.len(),
            v@ == s@.subrange(i as int, t as int),
        decreases j - t,
    {
        v.push(s[t]);
        proof {
            assert(v@ =~= s@.subrange(i as int, t + 1));
        }
        t = t + 1;
    }
    crate::text::chars_to_string(&v)
}

/// A call node with one argument.
fn mk1(name: &str, a: Expr) -> (r: Expr)
    ensures
        r@ == ExprV::Fn(name@, seq![a@]),
{
    let args = vec![a];
    proof {
        crate::ast::lemma_view_args(args@);
        assert(crate::ast::view_args(args@) =~= seq![args@[0]@]);
    }
    Expr::Fn(String::from_str(name), args)
}

/// A call node with two arguments.
fn mk2(name: &str, a: Expr, b: Expr) -> (r: Expr)
    ensures
        r@ == ExprV::Fn(name@, seq![a@, b@]),
{
    let args = vec![a, b];
    proof {
        crate::ast::lemma_view_args(args@);
        assert(crate::ast::view_args(args@) =~= seq![args@[0]@, args@[1]@]);
    }
    Expr::Fn(String::from_str(name), args)
}

fn parse_expr_at(s: &Vec<char>, i: usize) -> (r: Step)
    ensures
        step_view(r) == p_expr(s@, i as int),
    decreases s@.len() - i as int, 9int,
{
    if i > s.len() {
        Step::Fail(i)
    } else {
        parse_sum_at(s, i)
    }
}

fn parse_sum_at(s: &Vec<char>, i: usize) -> (r: Step)
    ensures
        step_view(r) == p_sum(s@, i as int),
    decreases s@.len() - i as int, 8int,
{
    if i > s.len() {
        return Step::Fail(i);
    }
    match parse_and_at(s, i) {
        Step::Done(a, j) => if j <= i || j > s.len() {
            Step::Fail(i)
        } else {
            parse_sum_tail_at(s, j, a)
        },
        Step::Fail(p) => Step::Fail(p),
    }
}

fn parse_sum_tail_at(s: &Vec<char>, j: usize, acc: Expr) -> (r: Step)
    ensures
        step_view(r) == p_sum_tail(s@, j as int, acc@),
    decreases s@.len() - j as int, 7int,
{
    if j > s.len() {
        return Step::Fail(j);
    }
    let m = ws_at(s, j);
    if m < s.len() && (s[m] == '+' || s[m] == '|' || s[m] == '-') {
        let op: &str = if s[m] == '-' {
            "difference"
        } else {
            "union"
        };
        match parse_and_at(s, m + 1) {
            Step::Done(b, n) => if n <= m + 1 || n > s.len() {
                Step::Fail(m + 1)
            } else {
                let combined = mk2(op, acc, b);
                parse_sum_tail_at(s, n, combined)
            },
            Step::Fail(p) => Step::Fail(p),
        }
    } else {
        let k = name_end(s, m);
        if k > m && span_is(s, m, k, "or") {
            match parse_and_at(s, k) {
                Step::Done(b, n) => if n <= k || n > s.len() {
                    Step::Fail(k)
                } else {
                    let combined = mk2("union", acc, b);
                    parse_sum_tail_at(s, n, combined)
                },
                Step::Fail(p) => Step::Fail(p),
            }
        } else {
            Step::Done(acc, j)
        }
    }
}

fn parse_and_at(s: &Vec<char>, i: usize) -> (r: Step)
    ensures
        step_view(r) == p_and(s@, i as int),
    decreases s@.len() - i as int, 6int,
{
    if i > s.len() {
        return Step::Fail(i);
    }
    match parse_range_at(s, i) {
        Step::Done(a, j) => if j <= i || j > s.len() {
            Step::Fail(i)
        } else {
            parse_and_tail_at(s, j, a)
        },
        Step::Fail(p) => Step::Fail(p),
    }
}

fn parse_and_tail_at(s: &Vec<char>, j: usize, acc: Expr) -> (r: Step)
    ensures
        step_view(r) == p_and_tail(s@, j as int, acc@),
    decreases s@.len() - j as int, 5int,
{
    if j > s.len() {
        return Step::Fail(j);
    }
    let m = ws_at(s, j);
    if m < s.len() && s[m] == '&' {
        match parse_range_at(s, m + 1) {
            Step::Done(b, n) => if n <= m + 1 || n > s.len() {
                Step::Fail(m + 1)
            } else {
                let combined = mk2("intersection", acc, b);
                parse_and_tail_at(s, n, combined)
            },
            Step::Fail(p) => Step::Fail(p),
        }
    } else {
        let k = name_end(s, m);
        if k > m && span_is(s, m, k, "and") {
            match parse_range_at(s, k) {
                Step::Done(b, n) => if n <= k || n > s.len() {
                    Step::Fail(k)
                } else {
                    let combined = mk2("intersection", acc, b);
                    parse_and_tail_at(s, n, combined)
                },
                Step::Fail(p) => Step::Fail(p),
            }
        } else {
            Step::Done(acc, j)
        }
    }
}

fn parse_range_at(s: &Vec<char>, i: usize) -> (r: Step)
    ensures
        step_view(r) == p_range(s@, i as int),
    decreases s@.len() - i as int, 4int,
{
    if i > s.len() {
        return Step::Fail(i);
    }
    match parse_prefix_at(s, i) {
        Step::Done(a, j) => if j <= i || j > s.len() {
            Step::Fail(i)
        } else {
            let m = ws_at(s, j);
            if m < s.len() && s[m] == ':' && !(m + 1 < s.len() && s[m + 1] == ':') {
                match parse_prefix_at(s, m + 1) {
                    Step::Done(b, n) => {
                        let combined = mk2("range", a, b);
                        Step::Done(combined, n)
                    },
                    Step::Fail(p) => Step::Fail(p),
                }
            } else if m < s.len() && s[m] == '%' {
                match parse_prefix_at(s, m + 1) {
                    Step::Done(b, n) => {
                        let combined = mk2("only", a, b);
                        Step::Done(combined, n)
                    },
                    Step::Fail(p) => Step::Fail(p),
                }
            } else {
                Step::Done(a, j)
            }
        },
        Step::Fail(p) => Step::Fail(p),
    }
}

fn parse_prefix_at(s: &Vec<char>, i: usize) -> (r: Step)
    ensures
        step_view(r) == p_prefix(s@, i as int),
    decreases s@.len() - i as int, 3int,
{
    if i > s.len() {
        return Step::Fail(i);
    }
    let j = ws_at(s, i);
    if j < s.len() && s[j] == ':' && j + 1 < s.len() && s[j + 1] == ':' {
        match parse_prefix_at(s, j + 2) {
            Step::Done(e, n) => {
                let combined = mk1("ancestors", e);
                Step::Done(combined, n)
            },
            Step::Fail(p) => Step::Fail(p),
        }
    } else if j < s.len() && s[j] == '!' {
        match parse_prefix_at(s, j + 1) {
            Step::Done(e, n) => {
                let combined = mk1("negate", e);
                Step::Done(combined, n)
            },
            Step::Fail(p) => Step::Fail(p),
        }
    } else {
        let k = name_end(s, j);
        if k > j && span_is(s, j, k, "not") {
            match parse_prefix_at(s, k) {
                Step::Done(e, n) => {
                    let combined = mk1("negate", e);
                    Step::Done(combined, n)
                },
                Step::Fail(p) => Step::Fail(p),
            }
        } else {
            parse_postfix_at(s, j)
        }
    }
}

fn parse_postfix_at(s: &Vec<char>, i: usize) -> (r: Step)
    ensures
        step_view(r) == p_postfix(s@, i as int),
    decreases s@.len() - i as int, 2int,
{
    if i > s.len() {
        return Step::Fail(i);
    }
    match parse_atom_at(s, i) {
        Step::Done(a, j) => if j <= i || j > s.len() {
            Step::Fail(i)
        } else {
            parse_postfix_tail_at(s, j, a)
        },
        Step::Fail(p) => Step::Fail(p),
    }
}

fn parse_postfix_tail_at(s: &Vec<char>, j: usize, a: Expr) -> (r: Step)
    ensures
        step_view(r) == p_postfix_tail(s@, j as int, a@),
    decreases s@.len() - j as int, 1int,
{
    if j > s.len() {
        return Step::Fail(j);
    }
    let m = ws_at(s, j);
    if m < s.len() && s[m] == ':' && m + 1 < s.len() && s[m + 1] == ':' {
        let combined = mk1("descendants", a);
        parse_postfix_tail_at(s, m + 2, combined)
    } else if m < s.len() && s[m] == '^' {
        let combined = mk1("parents", a);
        parse_postfix_tail_at(s, m + 1, combined)
    } else {
        Step::Done(a, j)
    }
}

fn parse_atom_at(s: &Vec<char>, i: usize) -> (r: Step)
    ensures
        step_view(r) == p_atom(s@, i as int),
    decreases s@.len() - i as int, 0int,
{
    if i > s.len() {
        return Step::Fail(i);
    }
    let j = ws_at(s, i);
    if j == s.len() {
        Step::Fail(j)
    } else if s[j] == '(' {
        match parse_expr_at(s, j + 1) {
            Step::Done(e, kk) => {
                let m = ws_at(s, kk);
                if m < s.len() && s[m] == ')' {
                    Step::Done(e, m + 1)
                } else {
                    Step::Fail(m)
                }
            },
            Step::Fail(p) => Step::Fail(p),
        }
    } else if s[j] == '"' {
        let q = quote_end(s, j + 1);
        if q < s.len() {
            let nm = span_text(s, j + 1, q);
            Step::Done(Expr::Name(nm), q + 1)
        } else {
            Step::Fail(q)
        }
    } else {
        let k = name_end(s, j);
        if k == j {
            Step::Fail(j)
        } else {
            if span_is(s, j, k, "or") || span_is(s, j, k, "and") || span_is(s, j, k, "not") {
                return Step::Fail(j);
            }
            let m = ws_at(s, k);
            if m < s.len() && s[m] == '(' {
                let a = ws_at(s, m + 1);
                if a < s.len() && s[a] == ')' {
                    let nm = span_text(s, j, k);
                    proof {
                        crate::ast::lemma_view_args(Seq::<Expr>::empty());
                        assert(crate::ast::view_args(Seq::<Expr>::empty()) =~= Seq::<
                            ExprV,
                        >::empty());
                    }
                    Step::Done(Expr::Fn(nm, Vec::new()), a + 1)
                } else {
                    let nm = span_text(s, j, k);
                    parse_args_at(s, m + 1, nm, Vec::new())
                }
            } else {
                let nm = span_text(s, j, k);
                Step::Done(Expr::Name(nm), k)
            }
        }
    }
}

#[verifier::rlimit(50)]
fn parse_args_at(s: &Vec<char>, p: usize, name: String, acc: Vec<Expr>) -> (r: Step)
    ensures
        step_view(r) == p_args(s@, p as int, name@, crate::ast::view_args(acc@)),
    decreases s@.len() - p as int, 10int,
{
    if p > s.len() {
        return Step::Fail(p);
    }
    match parse_expr_at(s, p) {
        Step::Done(e, q) => if q <= p || q > s.len() {
            Step::Fail(p)
        } else {
            let r2 = ws_at(s, q);
            if r2 < s.len() && s[r2] == ',' {
                let ghost old_acc = acc@;
                let ghost ev = e@;
                let mut acc2 = acc;
                acc2.push(e);
                proof {
                    crate::ast::lemma_view_args_push(old_acc, acc2@.last());
                }
                parse_args_at(s, r2 + 1, name, acc2)
            } else if r2 < s.len() && s[r2] == ')' {
                let ghost old_acc = acc@;
                let mut acc2 = acc;
                acc2.push(e);
                proof {
                    crate::ast::lemma_view_args_push(old_acc, acc2@.last());
                }
                Step::Done(Expr::Fn(name, acc2), r2 + 1)
            } else {
                Step::Fail(r2)
            }
        },
        Step::Fail(p2) => Step::Fail(p2),
    }
}

/// Parse a whole revset expression: returns the tree exactly where the
/// grammar accepts the text, else a `ParseError` holding the position where
/// parsing stopped.
pub fn parse(s: &str) -> (r: Result<Expr, Error>)
    ensures
        (r is Ok) == (parse_text(s@) is POk),
        r matches Ok(e) ==> parse_text(s@) == PResV::POk(e@, s@.len() as int),
        r matches Err(er) ==> er matches Error::ParseError(_m, pos) && parse_text(s@)
            == PResV::PErr(pos as int),
{
    let cs = crate::text::chars_of(s);
    match parse_expr_at(&cs, 0) {
        Step::Done(e, j) => {
            let m = ws_at(&cs, j);
            if m == cs.len() {
                Ok(e)
            } else {
                Err(Error::ParseError(String::from_str("unexpected trailing text"), m))
            }
        },
        Step::Fail(p) => Err(
            Error::ParseError(String::from_str("cannot parse revset expression"), p),
        ),
    }
}

/// A string that is one bare name token: non-empty, made of name
/// characters, and no keyword.
pub open spec fn name_ok(s: Seq<char>) -> bool {
    s.len() > 0 && (forall|t: int| 0 <= t < s.len() ==> is_name_char(#[trigger] s[t])) && s
        != "or"@ && s != "and"@ && s != "not"@
}

/// A printable expression: every name in it is a bare name token. The
/// canonical text of such a tree parses back to the same tree; a `Name`
/// holding an operator or quoted text does not survive the round trip.
pub open spec fn wf_expr(v: ExprV) -> bool
    decreases v, 0int,
{
    match v {
        ExprV::Name(s) => name_ok(s),
        ExprV::Fn(name, args) => {
            proof {
                assert(decreases_to!(v => args));
            }
            name_ok(name) && wf_args(args, 0)
        },
    }
}

/// Every argument from `i` on is printable.
pub open spec fn wf_args(args: Seq<ExprV>, i: int) -> bool
    decreases args, 1int, args.len() - i,
{
    if i < 0 || i >= args.len() {
        true
    } else {
        proof {
            assert(decreases_to!(args => args[i]));
        }
        wf_expr(args[i]) && wf_args(args, i + 1)
    }
}

/// What may follow a printed expression without changing how it parses:
/// the text's end, an argument separator, or a closing parenthesis.
pub open spec fn stopper_at(s: Seq<char>, j: int) -> bool {
    j == s.len() || s[j] == ',' || s[j] == ')'
}

/// Name characters are no whitespace and none of the grammar's symbols.
proof fn lemma_name_char_class(c: char)
    ensures
        is_name_char(c) ==> !is_ws(c) && c != ',' && c != ')' && c != '(' && c != '"' && c != ':'
            && c != '%' && c != '&' && c != '+' && c != '|' && c != '-' && c != '!' && c != '^',
{
}

/// Scanning a run of name characters ends exactly at the run's end.
proof fn lemma_scan_name_run(s: Seq<char>, i: int, e: int)
    requires
        0 <= i <= e <= s.len(),
        forall|t: int| i <= t < e ==> is_name_char(#[trigger] s[t]),
        e == s.len() || !is_name_char(s[e]),
    ensures
        scan_name(s, i) == e,
    decreases e - i,
{
    if i < e {
        lemma_scan_name_run(s, i + 1, e);
    }
}

/// A printed expression is non-empty and starts with a name character.
proof fn lemma_print_head(v: ExprV)
    requires
        wf_expr(v),
    ensures
        print_expr(v).len() > 0,
        is_name_char(print_expr(v)[0]),
    decreases v,
{
    match v {
        ExprV::Name(s) => {
            assert(print_expr(v)[0] == s[0]);
        },
        ExprV::Fn(name, args) => {
            assert(print_expr(v)[0] == name[0]);
        },
    }
}

/// Every level's tail refuses to continue at a stopper: the accumulated
/// expression comes back unchanged.
proof fn lemma_tails_stop(s: Seq<char>, j: int, acc: ExprV)
    requires
        0 <= j <= s.len(),
        stopper_at(s, j),
    ensures
        p_sum_tail(s, j, acc) == PResV::POk(acc, j),
        p_and_tail(s, j, acc) == PResV::POk(acc, j),
        p_postfix_tail(s, j, acc) == PResV::POk(acc, j),
{
    assert(skip_ws(s, j) == j);
    assert(scan_name(s, j) == j);
}

/// The name token a printed expression starts with.
pub open spec fn head_name(v: ExprV) -> Seq<char> {
    match v {
        ExprV::Name(nn) => nn,
        ExprV::Fn(nn, _) => nn,
    }
}

/// Where each piece of a printed call `name(args)` sits in the text.
proof fn lemma_call_slices(s: Seq<char>, j0: int, name: Seq<char>, aa: Seq<char>)
    requires
        0 <= j0,
        j0 + name.len() + 1 + aa.len() + 1 <= s.len(),
        s.subrange(j0, j0 + name.len() + 1 + aa.len() + 1) == name + "("@ + aa + ")"@,
        ("("@).len() == 1 && ("("@)[0] == '(',
        (")"@).len() == 1 && (")"@)[0] == ')',
    ensures
        forall|t: int| 0 <= t < name.len() ==> s[j0 + t] == #[trigger] name[t],
        s[j0 + name.len()] == '(',
        s.subrange(j0 + name.len() + 1, j0 + name.len() + 1 + aa.len() as int) == aa,
        forall|t: int| 0 <= t < aa.len() ==> s[j0 + name.len() + 1 + t] == #[trigger] aa[t],
        s[j0 + name.len() + 1 + aa.len()] == ')',
{
    let pv = name + "("@ + aa + ")"@;
    let nl = name.len() as int;
    assert forall|t: int| 0 <= t < pv.len() implies s[j0 + t] == pv[t] by {
        assert(s.subrange(j0, j0 + pv.len() as int)[t] == s[j0 + t]);
    }
    assert forall|t: int| 0 <= t < name.len() implies s[j0 + t] == #[trigger] name[t] by {
        assert(pv[t] == name[t]);
    }
    assert(pv[nl] == '(');
    assert forall|t: int| 0 <= t < aa.len() implies s[j0 + nl + 1 + t] == #[trigger] aa[t] by {
        assert(pv[nl + 1 + t] == aa[t]);
    }
    assert(s.subrange(j0 + nl + 1, j0 + nl + 1 + aa.len() as int) =~= aa);
    assert(pv[nl + 1 + aa.len()] == ')');
}

/// Where each piece of a printed argument list `arg, rest` sits in the text.
proof fn lemma_sep_slices(s: Seq<char>, sp: int, pr0: Seq<char>, rest: Seq<char>)
    requires
        0 <= sp,
        sp + pr0.len() + 2 + rest.len() <= s.len(),
        s.subrange(sp, sp + pr0.len() + 2 + rest.len()) == pr0 + ", "@ + rest,
        (", "@).len() == 2 && (", "@)[0] == ',' && (", "@)[1] == ' ',
    ensures
        s.subrange(sp, sp + pr0.len() as int) == pr0,
        s[sp + pr0.len()] == ',',
        s[sp + pr0.len() + 1] == ' ',
        s.subrange(sp + pr0.len() + 2, sp + pr0.len() + 2 + rest.len() as int) == rest,
        forall|t: int| 0 <= t < rest.len() ==> s[sp + pr0.len() + 2 + t] == #[trigger] rest[t],
{
    let aa = pr0 + ", "@ + rest;
    let l0 = pr0.len() as int;
    assert forall|t: int| 0 <= t < aa.len() implies s[sp + t] == aa[t] by {
        assert(s.subrange(sp, sp + aa.len() as int)[t] == s[sp + t]);
    }
    assert(s.subrange(sp, sp + l0) =~= pr0) by {
        assert forall|t: int| 0 <= t < l0 implies s.subrange(sp, sp + l0)[t] == pr0[t] by {
            assert(s[sp + t] == aa[t]);
            assert(aa[t] == pr0[t]);
        }
    }
    assert(aa[l0] == ',');
    assert(aa[l0 + 1] == ' ');
    assert forall|t: int| 0 <= t < rest.len() implies s[sp + l0 + 2 + t] == #[trigger] rest[t] by {
        assert(aa[l0 + 2 + t] == rest[t]);
    }
    assert(s.subrange(sp + l0 + 2, sp + l0 + 2 + rest.len() as int) =~= rest);
}

/// Parsing an atom at a bare name yields that name.
#[verifier::rlimit(100)]
proof fn lemma_parse_print_atom_name(s: Seq<char>, i: int, nn: Seq<char>)
    requires
        name_ok(nn),
        0 <= i <= s.len(),
        skip_ws(s, i) + nn.len() <= s.len(),
        s.subrange(skip_ws(s, i), skip_ws(s, i) + nn.len() as int) == nn,
        stopper_at(s, skip_ws(s, i) + nn.len() as int),
    ensures
        p_atom(s, i) == PResV::POk(ExprV::Name(nn), skip_ws(s, i) + nn.len() as int),
        p_atom(s, skip_ws(s, i)) == PResV::POk(
            ExprV::Name(nn),
            skip_ws(s, i) + nn.len() as int,
        ),
        scan_name(s, skip_ws(s, i)) == skip_ws(s, i) + nn.len(),
    decreases 0int,
{
    lemma_skip_ws(s, i);
    let j0 = skip_ws(s, i);
    let end = j0 + nn.len() as int;
    assert forall|t: int| 0 <= t < nn.len() implies s[j0 + t] == nn[t] by {
        assert(s.subrange(j0, end)[t] == s[j0 + t]);
    }
    assert(s[j0] == nn[0]);
    assert(is_name_char(s[j0]));
    lemma_name_char_class(s[j0]);
    assert(skip_ws(s, j0) == j0);
    assert(!is_name_char(',') && !is_name_char(')'));
    assert(!is_ws(',') && !is_ws(')'));
    assert forall|t: int| j0 <= t < end implies is_name_char(#[trigger] s[t]) by {
        assert(s[t] == nn[t - j0]);
    }
    lemma_scan_name_run(s, j0, end);
    assert(s.subrange(j0, end) == nn);
    assert(skip_ws(s, end) == end);
}

/// One unfolding of the atom parser at an empty call `name()`.
proof fn lemma_atom_empty_call(s: Seq<char>, i: int, name: Seq<char>)
    requires
        0 <= i <= s.len(),
        skip_ws(s, i) < s.len(),
        is_name_char(s[skip_ws(s, i)]),
        s[skip_ws(s, i)] != '(' && s[skip_ws(s, i)] != '"',
        name.len() > 0,
        scan_name(s, skip_ws(s, i)) == skip_ws(s, i) + name.len(),
        s.subrange(skip_ws(s, i), skip_ws(s, i) + name.len() as int) == name,
        name != "or"@ && name != "and"@ && name != "not"@,
        skip_ws(s, skip_ws(s, i) + name.len() as int) == skip_ws(s, i) + name.len(),
        skip_ws(s, i) + name.len() + 1 < s.len(),
        s[skip_ws(s, i) + name.len() as int] == '(',
        skip_ws(s, skip_ws(s, i) + name.len() + 1) == skip_ws(s, i) + name.len() + 1,
        s[skip_ws(s, i) + name.len() + 1] == ')',
    ensures
        p_atom(s, i) == PResV::POk(
            ExprV::Fn(name, Seq::empty()),
            skip_ws(s, i) + name.len() + 2,
        ),
{
}

/// One unfolding of the atom parser at a call with arguments.
proof fn lemma_atom_args_call(s: Seq<char>, i: int, name: Seq<char>, out: PResV)
    requires
        0 <= i <= s.len(),
        skip_ws(s, i) < s.len(),
        is_name_char(s[skip_ws(s, i)]),
        s[skip_ws(s, i)] != '(' && s[skip_ws(s, i)] != '"',
        name.len() > 0,
        scan_name(s, skip_ws(s, i)) == skip_ws(s, i) + name.len(),
        s.subrange(skip_ws(s, i), skip_ws(s, i) + name.len() as int) == name,
        name != "or"@ && name != "and"@ && name != "not"@,
        skip_ws(s, skip_ws(s, i) + name.len() as int) == skip_ws(s, i) + name.len(),
        skip_ws(s, i) + name.len() + 1 <= s.len(),
        s[skip_ws(s, i) + name.len() as int] == '(',
        skip_ws(s, skip_ws(s, i) + name.len() + 1) == skip_ws(s, i) + name.len() + 1,
        skip_ws(s, i) + name.len() + 1 == s.len() || s[skip_ws(s, i) + name.len() + 1]
            != ')',
        p_args(s, skip_ws(s, i) + name.len() + 1, name, Seq::empty()) == out,
    ensures
        p_atom(s, i) == out,
{
}

/// Where the pieces of a printed call sit, and what the scanner says there.
#[verifier::rlimit(100)]
proof fn lemma_call_shape(s: Seq<char>, i: int, v: ExprV)
    requires
        v is Fn,
        wf_expr(v),
        0 <= i <= s.len(),
        skip_ws(s, i) + print_expr(v).len() <= s.len(),
        s.subrange(skip_ws(s, i), skip_ws(s, i) + print_expr(v).len() as int) == print_expr(v),
        stopper_at(s, skip_ws(s, i) + print_expr(v).len() as int),
    ensures
        skip_ws(s, i) < s.len(),
        is_name_char(s[skip_ws(s, i)]),
        s[skip_ws(s, i)] != '(' && s[skip_ws(s, i)] != '"',
        skip_ws(s, skip_ws(s, i)) == skip_ws(s, i),
        scan_name(s, skip_ws(s, i)) == skip_ws(s, i) + (v->Fn_0).len(),
        s.subrange(skip_ws(s, i), skip_ws(s, i) + (v->Fn_0).len() as int) == v->Fn_0,
        skip_ws(s, skip_ws(s, i) + (v->Fn_0).len() as int) == skip_ws(s, i) + (
        v->Fn_0).len(),
        skip_ws(s, i) + (v->Fn_0).len() < s.len(),
        s[skip_ws(s, i) + (v->Fn_0).len() as int] == '(',
        skip_ws(s, skip_ws(s, i) + (v->Fn_0).len() + 1) == skip_ws(s, i) + (v->Fn_0).len()
            + 1,
        skip_ws(s, i) + (v->Fn_0).len() + 1 <= s.len(),
        (v->Fn_1).len() == 0 ==> print_expr(v).len() == (v->Fn_0).len() + 2 && skip_ws(s, i)
            + (v->Fn_0).len() + 1 < s.len() && s[skip_ws(s, i) + (v->Fn_0).len() + 1]
            == ')',
        (v->Fn_1).len() > 0 ==> {
            let p = skip_ws(s, i) + (v->Fn_0).len() + 1;
            let aa = print_args(v->Fn_1, 0);
            &&& print_expr(v).len() == (v->Fn_0).len() + 1 + aa.len() + 1
            &&& p + aa.len() + 1 <= s.len()
            &&& p < s.len()
            &&& s[p] != ')'
            &&& s.subrange(p, p + aa.len() as int) == aa
            &&& s[p + aa.len() as int] == ')'
        },
    decreases v, 0int,
{
    lemma_skip_ws(s, i);
    let j0 = skip_ws(s, i);
    let pv = print_expr(v);
    let end = j0 + pv.len() as int;
    lemma_print_head(v);
    let name = v->Fn_0;
    let args = v->Fn_1;
    let nl = name.len() as int;
    reveal_strlit("(");
    reveal_strlit(")");
    reveal_strlit("()");
    assert(("()"@).len() == 2 && ("()"@)[0] == '(' && ("()"@)[1] == ')');
    assert(("("@).len() == 1 && ("("@)[0] == '(');
    assert((")"@).len() == 1 && (")"@)[0] == ')');
    assert forall|t: int| 0 <= t < pv.len() implies s[j0 + t] == pv[t] by {
        assert(s.subrange(j0, end)[t] == s[j0 + t]);
    }
    assert(s[j0] == pv[0]);
    assert(is_name_char(s[j0]));
    lemma_name_char_class(s[j0]);
    assert(skip_ws(s, j0) == j0);
    assert(!is_name_char(',') && !is_name_char(')') && !is_name_char('('));
    assert(!is_ws(',') && !is_ws(')') && !is_ws('('));
    assert forall|t: int| j0 <= t < j0 + nl implies is_name_char(#[trigger] s[t]) by {
        assert(s[t] == pv[t - j0]);
        assert(pv[t - j0] == name[t - j0]);
    }
    assert(s[j0 + nl] == '(') by {
        if args.len() == 0 {
            assert(pv[nl] == ("()"@)[0]);
        } else {
            assert(pv[nl] == ("("@)[0]);
        }
    }
    lemma_scan_name_run(s, j0, j0 + nl);
    assert(s.subrange(j0, j0 + nl) =~= name);
    assert(skip_ws(s, j0 + nl) == j0 + nl);
    if args.len() == 0 {
        assert(pv.len() == nl + 2);
        assert(s[j0 + nl + 1] == ')') by {
            assert(pv[nl + 1] == ("()"@)[1]);
        }
        assert(skip_ws(s, j0 + nl + 1) == j0 + nl + 1);
    } else {
        let aa = print_args(args, 0);
        assert(pv == name + "("@ + aa + ")"@);
        assert(pv.len() == nl + 1 + aa.len() + 1);
        let p = j0 + nl + 1;
        assert(wf_args(args, 0));
        assert(wf_expr(args[0]));
        lemma_print_head(args[0]);
        assert(aa[0] == print_expr(args[0])[0]) by {
            if args.len() == 1 {
                assert(aa == print_args(args, 0));
                assert(print_args(args, 0) == print_expr(args[0]));
            } else {
                assert(aa == print_expr(args[0]) + ", "@ + print_args(args, 1));
            }
        }
        lemma_call_slices(s, j0, name, aa);
        assert(s[p] == aa[0]);
        assert(is_name_char(s[p]));
        lemma_name_char_class(s[p]);
        assert(skip_ws(s, p) == p);
        assert(s[p] != ')');
    }
}

/// Parsing an atom at a printed call yields that call.
#[verifier::rlimit(100)]
proof fn lemma_parse_print_atom_call(s: Seq<char>, i: int, v: ExprV)
    requires
        v is Fn,
        wf_expr(v),
        0 <= i <= s.len(),
        skip_ws(s, i) + print_expr(v).len() <= s.len(),
        s.subrange(skip_ws(s, i), skip_ws(s, i) + print_expr(v).len() as int) == print_expr(v),
        stopper_at(s, skip_ws(s, i) + print_expr(v).len() as int),
    ensures
        p_atom(s, i) == PResV::POk(v, skip_ws(s, i) + print_expr(v).len() as int),
        p_atom(s, skip_ws(s, i)) == PResV::POk(
            v,
            skip_ws(s, i) + print_expr(v).len() as int,
        ),
        scan_name(s, skip_ws(s, i)) == skip_ws(s, i) + head_name(v).len(),
        s.subrange(skip_ws(s, i), skip_ws(s, i) + head_name(v).len() as int) == head_name(v),
    decreases v, 1int,
{
    lemma_skip_ws(s, i);
    let j0 = skip_ws(s, i);
    let pv = print_expr(v);
    let end = j0 + pv.len() as int;
    let name = v->Fn_0;
    let args = v->Fn_1;
    lemma_call_shape(s, i, v);
    if args.len() == 0 {
        assert(Seq::<ExprV>::empty() =~= args);
        lemma_atom_empty_call(s, i, name);
        lemma_atom_empty_call(s, j0, name);
        assert(p_atom(s, i) == PResV::POk(v, end));
        assert(p_atom(s, j0) == PResV::POk(v, end));
    } else {
        let p = j0 + name.len() + 1;
        let aa = print_args(args, 0);
        assert(Seq::<ExprV>::empty() =~= args.subrange(0, 0));
        lemma_parse_print_args(s, p, name, Seq::empty(), args, 0);
        assert(p_args(s, p, name, Seq::empty()) == PResV::POk(
            ExprV::Fn(name, args),
            p + aa.len() + 1,
        ));
        assert(p + aa.len() + 1 == end);
        lemma_atom_args_call(s, i, name, PResV::POk(ExprV::Fn(name, args), end));
        lemma_atom_args_call(s, j0, name, PResV::POk(ExprV::Fn(name, args), end));
        assert(p_atom(s, i) == PResV::POk(v, end));
        assert(p_atom(s, j0) == PResV::POk(v, end));
    }
}

/// Parsing an atom whose text is the canonical print of a printable
/// expression followed by a stopper yields exactly that expression.
#[verifier::rlimit(100)]
proof fn lemma_parse_print_atom(s: Seq<char>, i: int, v: ExprV)
    requires
        wf_expr(v),
        0 <= i <= s.len(),
        skip_ws(s, i) + print_expr(v).len() <= s.len(),
        s.subrange(skip_ws(s, i), skip_ws(s, i) + print_expr(v).len() as int) == print_expr(v),
        stopper_at(s, skip_ws(s, i) + print_expr(v).len() as int),
    ensures
        p_atom(s, i) == PResV::POk(v, skip_ws(s, i) + print_expr(v).len() as int),
        p_atom(s, skip_ws(s, i)) == PResV::POk(
            v,
            skip_ws(s, i) + print_expr(v).len() as int,
        ),
        scan_name(s, skip_ws(s, i)) == skip_ws(s, i) + head_name(v).len(),
        s.subrange(skip_ws(s, i), skip_ws(s, i) + head_name(v).len() as int) == head_name(v),
    decreases v, 2int,
{
    match v {
        ExprV::Name(nn) => {
            lemma_parse_print_atom_name(s, i, nn);
        },
        ExprV::Fn(_, _) => {
            lemma_parse_print_atom_call(s, i, v);
        },
    }
}

/// Parsing at a position whose text, after whitespace, is the canonical/// Above the atom, every level passes an already-parsed value through
/// when a stopper follows it and no operator token leads.
#[verifier::rlimit(100)]
proof fn lemma_ladder(s: Seq<char>, i: int, v: ExprV, end: int, hn: Seq<char>)
    requires
        0 <= i <= s.len(),
        skip_ws(s, i) < end <= s.len(),
        p_atom(s, skip_ws(s, i)) == PResV::POk(v, end),
        skip_ws(s, skip_ws(s, i)) == skip_ws(s, i),
        skip_ws(s, end) == end,
        stopper_at(s, end),
        scan_name(s, skip_ws(s, i)) == skip_ws(s, i) + hn.len(),
        s.subrange(skip_ws(s, i), skip_ws(s, i) + hn.len() as int) == hn,
        hn != "not"@,
        is_name_char(s[skip_ws(s, i)]),
    ensures
        p_expr(s, i) == PResV::POk(v, end),
{
    lemma_skip_ws(s, i);
    let j0 = skip_ws(s, i);
    lemma_name_char_class(s[j0]);
    lemma_tails_stop(s, end, v);
    assert(p_postfix(s, j0) == PResV::POk(v, end));
    assert(p_prefix(s, i) == PResV::POk(v, end));
    assert(p_range(s, i) == PResV::POk(v, end)) by {
        if end < s.len() {
            assert(s[end] != ':' && s[end] != '%');
        }
    }
    assert(p_and(s, i) == PResV::POk(v, end));
    assert(p_sum(s, i) == PResV::POk(v, end));
}

/// Parsing at a position whose text, after whitespace, is the canonical
/// print of a printable expression followed by a stopper yields exactly
/// that expression, ending right after its print.
#[verifier::rlimit(100)]
proof fn lemma_parse_print(s: Seq<char>, i: int, v: ExprV)
    requires
        wf_expr(v),
        0 <= i <= s.len(),
        skip_ws(s, i) + print_expr(v).len() <= s.len(),
        s.subrange(skip_ws(s, i), skip_ws(s, i) + print_expr(v).len() as int) == print_expr(v),
        stopper_at(s, skip_ws(s, i) + print_expr(v).len() as int),
    ensures
        p_expr(s, i) == PResV::POk(v, skip_ws(s, i) + print_expr(v).len() as int),
    decreases v, 3int,
{
    lemma_skip_ws(s, i);
    let j0 = skip_ws(s, i);
    let pv = print_expr(v);
    let end = j0 + pv.len() as int;
    lemma_print_head(v);
    lemma_parse_print_atom(s, i, v);
    assert(s[j0] == pv[0]) by {
        assert(s.subrange(j0, end)[0] == s[j0]);
    }
    assert(is_name_char(s[j0]));
    lemma_name_char_class(s[j0]);
    assert(skip_ws(s, j0) == j0);
    assert(skip_ws(s, end) == end) by {
        if end < s.len() {
            assert(s[end] == ',' || s[end] == ')');
            assert(!is_ws(s[end]));
        }
    }
    assert(head_name(v) != "not"@) by {
        match v {
            ExprV::Name(nn) => {},
            ExprV::Fn(nn, args) => {},
        }
    }
    lemma_ladder(s, i, v, end, head_name(v));
}

/// Parsing a printed argument list, after the opening parenthesis, yields
/// the call with all arguments, ending right after the closing parenthesis.
#[verifier::rlimit(100)]
proof fn lemma_parse_print_args(
    s: Seq<char>,
    p: int,
    name: Seq<char>,
    acc: Seq<ExprV>,
    args: Seq<ExprV>,
    idx: int,
)
    requires
        0 <= idx < args.len(),
        wf_args(args, idx),
        0 <= p <= s.len(),
        skip_ws(s, p) + print_args(args, idx).len() + 1 <= s.len(),
        s.subrange(skip_ws(s, p), skip_ws(s, p) + print_args(args, idx).len() as int)
            == print_args(args, idx),
        s[skip_ws(s, p) + print_args(args, idx).len() as int] == ')',
        stopper_at(s, skip_ws(s, p) + print_args(args, idx).len() + 1),
        acc == args.subrange(0, idx),
    ensures
        p_args(s, p, name, acc) == PResV::POk(
            ExprV::Fn(name, args),
            skip_ws(s, p) + print_args(args, idx).len() + 1,
        ),
    decreases args, 2int, args.len() - idx, 1int,
{
    lemma_skip_ws(s, p);
    let sp = skip_ws(s, p);
    let aa = print_args(args, idx);
    assert(wf_expr(args[idx]));
    let pr0 = print_expr(args[idx]);
    lemma_print_head(args[idx]);
    if idx == args.len() - 1 {
        assert(aa == pr0);
        assert(stopper_at(s, sp + pr0.len() as int));
        lemma_parse_print(s, p, args[idx]);
        let q = sp + pr0.len() as int;
        assert(s[q] == ')');
        assert(!is_ws(')'));
        assert(skip_ws(s, q) == q);
        assert(acc.push(args[idx]) =~= args) by {
            assert(acc.len() == idx);
        }
        assert(p_args(s, p, name, acc) == PResV::POk(ExprV::Fn(name, acc.push(args[idx])), q + 1));
    } else {
        lemma_parse_print_args_step(s, p, name, acc, args, idx);
    }
}

/// One unfolding of the argument-list parser: a value, a comma, the rest.
proof fn lemma_args_one_step(
    s: Seq<char>,
    p: int,
    q: int,
    name: Seq<char>,
    acc: Seq<ExprV>,
    e: ExprV,
    outcome: PResV,
)
    requires
        0 <= p <= s.len(),
        p_expr(s, p) == PResV::POk(e, q),
        p < q < s.len(),
        skip_ws(s, q) == q,
        s[q] == ',',
        p_args(s, q + 1, name, acc.push(e)) == outcome,
    ensures
        p_args(s, p, name, acc) == outcome,
{
}

/// The positional facts of one printed argument and its separator.
#[verifier::rlimit(100)]
proof fn lemma_args_step_facts(s: Seq<char>, sp: int, args: Seq<ExprV>, idx: int)
    requires
        0 <= idx < args.len() - 1,
        wf_args(args, idx),
        0 <= sp,
        sp + print_args(args, idx).len() + 1 <= s.len(),
        s.subrange(sp, sp + print_args(args, idx).len() as int) == print_args(args, idx),
        s[sp + print_args(args, idx).len() as int] == ')',
    ensures
        print_args(args, idx).len() == print_expr(args[idx]).len() + 2 + print_args(
            args,
            idx + 1,
        ).len(),
        s.subrange(sp, sp + print_expr(args[idx]).len() as int) == print_expr(args[idx]),
        s[sp + print_expr(args[idx]).len() as int] == ',',
        skip_ws(s, sp + print_expr(args[idx]).len() as int) == sp + print_expr(
            args[idx],
        ).len(),
        skip_ws(s, sp + print_expr(args[idx]).len() + 1) == sp + print_expr(args[idx]).len()
            + 2,
        s.subrange(
            sp + print_expr(args[idx]).len() + 2,
            sp + print_expr(args[idx]).len() + 2 + print_args(args, idx + 1).len() as int,
        ) == print_args(args, idx + 1),
        s[sp + print_expr(args[idx]).len() + 2 + print_args(args, idx + 1).len() as int]
            == ')',
{
    let aa = print_args(args, idx);
    assert(wf_expr(args[idx]));
    let pr0 = print_expr(args[idx]);
    lemma_print_head(args[idx]);
    reveal_strlit(", ");
    assert((", "@).len() == 2 && (", "@)[0] == ',' && (", "@)[1] == ' ');
    let rest = print_args(args, idx + 1);
    assert(aa == pr0 + ", "@ + rest);
    let l0 = pr0.len() as int;
    lemma_sep_slices(s, sp, pr0, rest);
    let q = sp + l0;
    assert(!is_ws(','));
    assert(skip_ws(s, q) == q);
    assert(wf_args(args, idx + 1));
    assert(wf_expr(args[idx + 1]));
    lemma_print_head(args[idx + 1]);
    assert(rest[0] == print_expr(args[idx + 1])[0]) by {
        if idx + 1 == args.len() - 1 {
            assert(rest == print_expr(args[idx + 1]));
        } else {
            assert(rest == print_expr(args[idx + 1]) + ", "@ + print_args(args, idx + 2));
        }
    }
    assert(s[q + 2] == rest[0]);
    assert(is_name_char(s[q + 2]));
    lemma_name_char_class(s[q + 2]);
    assert(skip_ws(s, q + 1) == q + 2) by {
        assert(is_ws(s[q + 1]));
        assert(!is_ws(s[q + 2]));
        assert(skip_ws(s, q + 2) == q + 2);
        assert(skip_ws(s, q + 1) == skip_ws(s, q + 2));
    }
    assert(s[q + 2 + rest.len() as int] == ')') by {
        assert(q + 2 + rest.len() == sp + aa.len());
    }
}

/// One argument followed by a separator and the rest of the list.
#[verifier::rlimit(100)]
proof fn lemma_parse_print_args_step(
    s: Seq<char>,
    p: int,
    name: Seq<char>,
    acc: Seq<ExprV>,
    args: Seq<ExprV>,
    idx: int,
)
    requires
        0 <= idx < args.len() - 1,
        wf_args(args, idx),
        0 <= p <= s.len(),
        skip_ws(s, p) + print_args(args, idx).len() + 1 <= s.len(),
        s.subrange(skip_ws(s, p), skip_ws(s, p) + print_args(args, idx).len() as int)
            == print_args(args, idx),
        s[skip_ws(s, p) + print_args(args, idx).len() as int] == ')',
        stopper_at(s, skip_ws(s, p) + print_args(args, idx).len() + 1),
        acc == args.subrange(0, idx),
    ensures
        p_args(s, p, name, acc) == PResV::POk(
            ExprV::Fn(name, args),
            skip_ws(s, p) + print_args(args, idx).len() + 1,
        ),
    decreases args, 2int, args.len() - idx, 0int,
{
    lemma_skip_ws(s, p);
    let sp = skip_ws(s, p);
    let aa = print_args(args, idx);
    assert(wf_expr(args[idx]));
    let pr0 = print_expr(args[idx]);
    lemma_print_head(args[idx]);
    let rest = print_args(args, idx + 1);
    lemma_args_step_facts(s, sp, args, idx);
    let q = sp + pr0.len() as int;
    assert(stopper_at(s, q));
    lemma_parse_print(s, p, args[idx]);
    assert(wf_args(args, idx + 1));
    assert(acc.push(args[idx]) =~= args.subrange(0, idx + 1));
    assert(stopper_at(s, q + 2 + rest.len() + 1)) by {
        assert(q + 2 + rest.len() + 1 == sp + aa.len() + 1);
    }
    lemma_parse_print_args(s, q + 1, name, acc.push(args[idx]), args, idx + 1);
    assert(p_args(s, q + 1, name, acc.push(args[idx])) == PResV::POk(
        ExprV::Fn(name, args),
        q + 2 + rest.len() + 1,
    )) by {
        assert(skip_ws(s, q + 1) == q + 2);
    }
    lemma_args_one_step(
        s,
        p,
        q,
        name,
        acc,
        args[idx],
        PResV::POk(ExprV::Fn(name, args), sp + aa.len() + 1),
    );
}

/// Round trip: parsing the canonical text of any printable expression
/// yields that expression back, consuming the whole text.
pub proof fn lemma_print_parse_round_trip(v: ExprV)
    requires
        wf_expr(v),
    ensures
        parse_text(print_expr(v)) == PResV::POk(v, print_expr(v).len() as int),
{
    let s = print_expr(v);
    lemma_print_head(v);
    lemma_name_char_class(s[0]);
    assert(skip_ws(s, 0) == 0);
    assert(s.subrange(0, s.len() as int) =~= s);
    assert(stopper_at(s, s.len() as int));
    lemma_parse_print(s, 0, v);
    assert(skip_ws(s, s.len() as int) == s.len());
}

/// A whole text: one expression followed by nothing but whitespace.
pub open spec fn parse_text(s: Seq<char>) -> PResV {
    match p_expr(s, 0) {
        PResV::POk(e, j) => {
            let m = skip_ws(s, j);
            if m == s.len() {
                PResV::POk(e, m)
            } else {
                PResV::PErr(m)
            }
        },
        PResV::PErr(p) => PResV::PErr(p),
    }
}

} // verus!
