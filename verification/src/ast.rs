//! The expression tree produced by parsing or constructed programmatically.

use vstd::prelude::*;

verus! {

broadcast use vstd::seq::axiom_seq_index_decreases, vstd::std_specs::vec::axiom_vec_index_decreases, vstd::seq::axiom_seq_subrange_decreases;

/// A node of a parsed revset expression.
pub enum Expr {
    /// A plain string name: a reference, a hash prefix, or an alias token.
    Name(String),
    /// A function call with ordered arguments.
    Fn(String, Vec<Expr>),
}

/// The mathematical shape of an expression; contracts speak about this.
pub enum ExprV {
    Name(Seq<char>),
    Fn(Seq<char>, Seq<ExprV>),
}

impl View for Expr {
    type V = ExprV;

    open spec fn view(&self) -> ExprV
        decreases self, 0int,
    {
        match self {
            Expr::Name(s) => ExprV::Name(s@),
            Expr::Fn(name, args) => {
                proof {
                    assert(decreases_to!(self => args));
                    assert(decreases_to!(args => args@));
                }
                ExprV::Fn(name@, view_args(args@))
            },
        }
    }
}

/// The views of a sequence of expressions, element by element.
pub open spec fn view_args(s: Seq<Expr>) -> Seq<ExprV>
    decreases s, 1int,
{
    if s.len() == 0 {
        Seq::empty()
    } else {
        proof {
            assert(decreases_to!(s => s.subrange(0, s.len() - 1)));
            assert(s.drop_last() =~= s.subrange(0, s.len() - 1));
            assert(decreases_to!(s => s.last()));
        }
        view_args(s.drop_last()).push(s.last().view())
    }
}

pub broadcast proof fn lemma_view_args(s: Seq<Expr>)
    ensures
        (#[trigger] view_args(s)).len() == s.len(),
        forall|i: int| 0 <= i < s.len() ==> view_args(s)[i] == #[trigger] s[i]@,
    decreases s.len(),
{
    if s.len() > 0 {
        lemma_view_args(s.drop_last());
        assert(view_args(s) == view_args(s.drop_last()).push(s.last().view()));
        assert forall|i: int| 0 <= i < s.len() implies view_args(s)[i] == #[trigger] s[i]@ by {
            if i < s.len() - 1 {
                assert(view_args(s)[i] == view_args(s.drop_last())[i]);
                assert(s.drop_last()[i] == s[i]);
            } else {
                assert(view_args(s)[i] == s.last()@);
            }
        }
    }
}

/// The canonical text of an expression: a `Name` prints verbatim; a call
/// prints as `name()` with no arguments, else as `name(arg1, arg2, ...)`.
pub open spec fn print_expr(v: ExprV) -> Seq<char>
    decreases v, 0int,
{
    match v {
        ExprV::Name(s) => s,
        ExprV::Fn(name, args) => {
            proof {
                assert(decreases_to!(v => args));
            }
            if args.len() == 0 {
                name + "()"@
            } else {
                name + "("@ + print_args(args, 0) + ")"@
            }
        },
    }
}

/// The canonical text of the arguments from index `i` on, `", "`-separated.
pub open spec fn print_args(args: Seq<ExprV>, i: int) -> Seq<char>
    decreases args, 1int, args.len() - i,
{
    if i < 0 || i >= args.len() {
        Seq::empty()
    } else {
        proof {
            assert(decreases_to!(args => args[i]));
        }
        if i == args.len() - 1 {
            print_expr(args[i])
        } else {
            print_expr(args[i]) + ", "@ + print_args(args, i + 1)
        }
    }
}

/// How `replace` rewrites a tree: each `Name(from)` node becomes `to`, except
/// below the first argument of an `apply` call, which is kept unchanged.
pub open spec fn replace_expr(v: ExprV, from: Seq<char>, to: ExprV) -> ExprV
    decreases v, 0int,
{
    match v {
        ExprV::Name(s) => if s == from {
            to
        } else {
            v
        },
        ExprV::Fn(name, args) => {
            proof {
                assert(decreases_to!(v => args));
            }
            ExprV::Fn(name, replace_args(args, from, to, name == "apply"@))
        },
    }
}

/// `replace_expr` on every argument; the first stays as it is when
/// `skip_first` holds.
pub open spec fn replace_args(args: Seq<ExprV>, from: Seq<char>, to: ExprV, skip_first: bool) -> Seq<
    ExprV,
>
    decreases args, 1int,
{
    if args.len() == 0 {
        Seq::empty()
    } else {
        proof {
            assert(decreases_to!(args => args.subrange(0, args.len() - 1)));
            assert(args.drop_last() =~= args.subrange(0, args.len() - 1));
            assert(decreases_to!(args => args.last()));
        }
        replace_args(args.drop_last(), from, to, skip_first).push(
            if skip_first && args.len() == 1 {
                args.last()
            } else {
                replace_expr(args.last(), from, to)
            },
        )
    }
}

pub proof fn lemma_replace_args(args: Seq<ExprV>, from: Seq<char>, to: ExprV, skip_first: bool)
    ensures
        replace_args(args, from, to, skip_first).len() == args.len(),
        forall|i: int|
            0 <= i < args.len() ==> replace_args(args, from, to, skip_first)[i] == (
            if skip_first && i == 0 {
                #[trigger] args[i]
            } else {
                replace_expr(args[i], from, to)
            }),
    decreases args.len(),
{
    if args.len() > 0 {
        lemma_replace_args(args.drop_last(), from, to, skip_first);
        assert(replace_args(args, from, to, skip_first) == replace_args(
            args.drop_last(),
            from,
            to,
            skip_first,
        ).push(
            if skip_first && args.len() == 1 {
                args.last()
            } else {
                replace_expr(args.last(), from, to)
            },
        ));
        assert forall|i: int|
            0 <= i < args.len() implies replace_args(args, from, to, skip_first)[i] == (
        if skip_first && i == 0 {
            args[i]
        } else {
            replace_expr(args[i], from, to)
        }) by {
            if i < args.len() - 1 {
                assert(args.drop_last()[i] == args[i]);
            } else {
                assert(args.last() == args[i]);
            }
        }
    }
}

pub proof fn lemma_view_args_push(s: Seq<Expr>, e: Expr)
    ensures
        view_args(s.push(e)) == view_args(s).push(e@),
{
    assert(s.push(e).drop_last() =~= s);
    assert(s.push(e).last() == e);
    assert(view_args(s.push(e)) == view_args(s.push(e).drop_last()).push(s.push(e).last()@));
}

impl Expr {
    /// A deep copy whose shape equals this expression's.
    #[verifier::loop_isolation(false)]
    pub fn duplicate(&self) -> (r: Expr)
        ensures
            r@ == self@,
        decreases self,
    {
        match self {
            Expr::Name(s) => Expr::Name(s.clone()),
            Expr::Fn(name, args) => {
                let mut out: Vec<Expr> = Vec::new();
                let mut i: usize = 0;
                while i < args.len()
                    invariant
                        i <= args.len(),
                        out@.len() == i as int,
                        forall|j: int| 0 <= j < i as int ==> out@[j]@ == args@[j]@,
                    decreases args.len() - i,
                {
                    proof {
                        assert(decreases_to!(self => args));
                        assert(decreases_to!(args => args@));
                        assert(decreases_to!(self => args@[i as int]));
                    }
                    let a = args[i].duplicate();
                    out.push(a);
                    i = i + 1;
                }
                proof {
                    lemma_view_args(out@);
                    lemma_view_args(args@);
                    assert forall|j: int|
                        0 <= j < args@.len() implies view_args(out@)[j] == view_args(
                        args@,
                    )[j] by {
                        assert(out@[j]@ == args@[j]@);
                    }
                    assert(view_args(out@) =~= view_args(args@));
                }
                Expr::Fn(name.clone(), out)
            },
        }
    }

    /// The canonical text of this expression.
    #[verifier::loop_isolation(false)]
    pub fn to_text(&self) -> (r: String)
        ensures
            r@ == print_expr(self@),
        decreases self,
    {
        match self {
            Expr::Name(s) => s.clone(),
            Expr::Fn(name, args) => {
                let ghost vargs = view_args(args@);
                proof {
                    lemma_view_args(args@);
                }
                let mut r = name.clone();
                if args.len() == 0 {
                    r.append("()");
                    return r;
                }
                let mut tail = String::new();
                let mut i: usize = args.len();
                while i > 0
                    invariant
                        i <= args.len(),
                        i < args.len() ==> tail@ == print_args(vargs, i as int),
                    decreases i,
                {
                    i = i - 1;
                    proof {
                        assert(decreases_to!(self => args));
                        assert(decreases_to!(args => args@));
                        assert(decreases_to!(self => args@[i as int]));
                    }
                    let mut piece = args[i].to_text();
                    if i + 1 < args.len() {
                        piece.append(", ");
                        piece.append(tail.as_str());
                    }
                    tail = piece;
                }
                r.append("(");
                r.append(tail.as_str());
                r.append(")");
                r
            },
        }
    }

    /// Substitute every `Name` node equal to `from` with a copy of `to`,
    /// recursing into call arguments, but never into the first argument of an
    /// `apply` call: that argument is the unevaluated template.
    #[verifier::loop_isolation(false)]
    pub fn replace(&self, from: &str, to: &Expr) -> (r: Expr)
        ensures
            r@ == replace_expr(self@, from@, to@),
        decreases self,
    {
        match self {
            Expr::Name(s) => if crate::text::string_eq(s, from) {
                to.duplicate()
            } else {
                Expr::Name(s.clone())
            },
            Expr::Fn(name, args) => {
                let skip_first = crate::text::string_eq(name, "apply");
                let mut out: Vec<Expr> = Vec::new();
                let mut i: usize = 0;
                while i < args.len()
                    invariant
                        i <= args.len(),
                        out@.len() == i as int,
                        forall|j: int|
                            0 <= j < i as int ==> out@[j]@ == (if skip_first && j == 0 {
                                #[trigger] args@[j]@
                            } else {
                                replace_expr(args@[j]@, from@, to@)
                            }),
                    decreases args.len() - i,
                {
                    proof {
                        assert(decreases_to!(self => args));
                        assert(decreases_to!(args => args@));
                        assert(decreases_to!(self => args@[i as int]));
                    }
                    if skip_first && i == 0 {
                        let a = args[0].duplicate();
                        out.push(a);
                    } else {
                        let a = args[i].replace(from, to);
                        out.push(a);
                    }
                    i = i + 1;
                }
                proof {
                    lemma_view_args(out@);
                    lemma_view_args(args@);
                    lemma_replace_args(view_args(args@), from@, to@, skip_first);
                    assert forall|j: int|
                        0 <= j < args@.len() implies view_args(out@)[j] == replace_args(
                        view_args(args@),
                        from@,
                        to@,
                        skip_first,
                    )[j] by {
                        assert(view_args(args@)[j] == args@[j]@);
                        assert(view_args(out@)[j] == out@[j]@);
                    }
                    assert(view_args(out@) =~= replace_args(
                        view_args(args@),
                        from@,
                        to@,
                        skip_first,
                    ));
                }
                Expr::Fn(name.clone(), out)
            },
        }
    }
}

impl Expr {
    /// Parse an expression from its text.
    pub fn parse(s: &str) -> (r: Result<Expr, crate::error::Error>)
        ensures
            (r is Ok) == (crate::parser::parse_text(s@) is POk),
            r matches Ok(e) ==> crate::parser::parse_text(s@) == crate::parser::PResV::POk(
                e@,
                s@.len() as int,
            ),
            r matches Err(er) ==> er matches crate::error::Error::ParseError(_m, pos)
                && crate::parser::parse_text(s@) == crate::parser::PResV::PErr(pos as int),
    {
        crate::parser::parse(s)
    }
}

/// Conversion to an expression by parsing, for both text and trees.
pub trait ParseToExpr: Sized {
    /// What parsing this value yields.
    spec fn parse_sem(&self) -> crate::parser::PResV;

    /// Convert to an expression by parsing.
    fn parse_to_expr(self) -> (r: Result<Expr, crate::error::Error>)
        ensures
            (r is Ok) == (self.parse_sem() is POk),
            r matches Ok(e) ==> self.parse_sem() matches crate::parser::PResV::POk(v, _) && e@
                == v,
    ;
}

impl ParseToExpr for &str {
    open spec fn parse_sem(&self) -> crate::parser::PResV {
        crate::parser::parse_text(self@)
    }

    fn parse_to_expr(self) -> (r: Result<Expr, crate::error::Error>) {
        crate::parser::parse(self)
    }
}

impl ParseToExpr for Expr {
    open spec fn parse_sem(&self) -> crate::parser::PResV {
        crate::parser::PResV::POk(self@, 0)
    }

    fn parse_to_expr(self) -> (r: Result<Expr, crate::error::Error>) {
        Ok(self)
    }
}

} // verus!
