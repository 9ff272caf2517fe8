//! The expression tree: construction, canonical printing, parsing, and
//! substitution.

use gitrevset::repo::{CommitInfo, RefInfo};
use gitrevset::{Expr, Repo};

fn name(s: &str) -> Expr {
    Expr::Name(s.to_string())
}

fn call(n: &str, args: Vec<Expr>) -> Expr {
    Expr::Fn(n.to_string(), args)
}

#[test]
fn test_ast_macro() {
    let f = |e: &Expr| e.to_text();
    assert_eq!(f(&name("foo")), "foo");
    assert_eq!(f(&call("parents", vec![name("foo")])), "parents(foo)");
    assert_eq!(f(&call("draft", vec![])), "draft()");
    assert_eq!(
        f(&call("union", vec![call("draft", vec![]), call("public", vec![])])),
        "union(draft(), public())"
    );

    let n = "foo";
    assert_eq!(
        f(&call(
            "union",
            vec![call("desc", vec![name(n)]), call("author", vec![name("bar")])]
        )),
        "union(desc(foo), author(bar))"
    );
}

fn commit(tag: u8, msg: &str, parents: Vec<usize>, time: i64) -> CommitInfo {
    CommitInfo {
        id: vec![tag; 20],
        parents,
        author_name: msg.to_string(),
        author_email: "test@example.com".to_string(),
        author_time: time,
        committer_name: msg.to_string(),
        committer_email: "test@example.com".to_string(),
        committer_time: time,
        message: msg.to_string(),
        tree: vec![tag ^ 0xff; 20],
    }
}

fn reference(n: &str, target: usize) -> RefInfo {
    RefInfo { name: n.to_string(), target }
}

fn desc_set(repo: &Repo, set: &gitrevset::VertexSet) -> Vec<String> {
    let mut out = Vec::new();
    let mut k = 0;
    while k < set.len() {
        out.push(repo.commits[set.at(k)].message.clone());
        k += 1;
    }
    out
}

#[test]
fn test_ast_repo() {
    // A-B-C-D, master at D, origin/master at B, checkout at D.
    let commits = vec![
        commit(0x11, "A", vec![], 0),
        commit(0x22, "B", vec![0], 1),
        commit(0x33, "C", vec![1], 2),
        commit(0x44, "D", vec![2], 3),
    ];
    let refs = vec![
        reference("refs/heads/A", 0),
        reference("refs/heads/B", 1),
        reference("refs/heads/C", 2),
        reference("refs/heads/D", 3),
        reference("refs/heads/master", 3),
        reference("refs/remotes/origin/master", 1),
    ];
    let mut repo = Repo::new(commits, refs, vec![], vec![], Some(3)).unwrap();

    let master = "origin/master";
    let e = call("only", vec![name("."), call("ref", vec![name(master)])]);
    let stack = repo.revs_expr(&e).unwrap();
    assert_eq!(desc_set(&repo, &stack), ["D", "C"]);
    let ctx = gitrevset::EvalContext {
        names: vec![("stack".to_string(), stack)],
        fns: vec![],
    };
    let he = call("heads", vec![name("stack")]);
    let head = repo.revs_with_context(&he, &ctx).unwrap();
    assert_eq!(desc_set(&repo, &head), ["D"]);
}

#[test]
fn test_parse_shapes() {
    let p = |s: &str| Expr::parse(s).unwrap().to_text();
    assert_eq!(p("x + y"), "union(x, y)");
    assert_eq!(p("x | y"), "union(x, y)");
    assert_eq!(p("x or y"), "union(x, y)");
    assert_eq!(p("x - y"), "difference(x, y)");
    assert_eq!(p("x & y"), "intersection(x, y)");
    assert_eq!(p("x and y"), "intersection(x, y)");
    assert_eq!(p("!x"), "negate(x)");
    assert_eq!(p("not x"), "negate(x)");
    assert_eq!(p("::x"), "ancestors(x)");
    assert_eq!(p("x::"), "descendants(x)");
    assert_eq!(p("x^"), "parents(x)");
    assert_eq!(p("x % y"), "only(x, y)");
    assert_eq!(p("x:y"), "range(x, y)");
    assert_eq!(p("a & b + c"), "union(intersection(a, b), c)");
    assert_eq!(p("a + b & c"), "union(a, intersection(b, c))");
    assert_eq!(p("(a + b) & c"), "intersection(union(a, b), c)");
    assert_eq!(p("gca(a, b)"), "gca(a, b)");
    assert_eq!(p("head()"), "head()");
    assert_eq!(p(r#"date("0 0")"#), "date(0 0)");
    assert_eq!(p("a:b - c"), "difference(range(a, b), c)");
    assert_eq!(p("::a + b::"), "union(ancestors(a), descendants(b))");
    assert!(Expr::parse("a::b").is_err());
    assert!(Expr::parse("(a").is_err());
    assert!(Expr::parse(r#""unterminated"#).is_err());
    assert!(Expr::parse("").is_err());
    assert!(Expr::parse("a b").is_err());
}

#[test]
fn test_print_parse_round_trip() {
    // Parsing the canonical text of a tree of calls and names gives the
    // same text back.
    let exprs = vec![
        name("master"),
        call("draft", vec![]),
        call("parents", vec![name("foo")]),
        call(
            "union",
            vec![
                call("desc", vec![name("foo")]),
                call("gca", vec![name("a"), name("b"), name("c")]),
            ],
        ),
        call("only", vec![name("x"), call("ancestors", vec![name("y")])]),
    ];
    for e in exprs {
        let text = e.to_text();
        let reparsed = Expr::parse(&text).unwrap();
        assert_eq!(reparsed.to_text(), text);
    }
}

#[test]
fn test_replace_skips_apply_template() {
    // replace() rewrites Name nodes, but never the first argument of apply.
    let e = call(
        "union",
        vec![
            call("apply", vec![name("$1"), name("$1")]),
            name("$1"),
        ],
    );
    let r = e.replace("$1", &name("B"));
    assert_eq!(r.to_text(), "union(apply($1, B), B)");
    // The template stays protected even when apply has no further
    // arguments.
    let one = call("apply", vec![name("$1")]);
    let r1 = one.replace("$1", &name("B"));
    assert_eq!(r1.to_text(), "apply($1)");
}

#[test]
fn test_normalize_hex() {
    assert_eq!(gitrevset::eval::normalize_hex("0aF"), Some(vec![b'0', b'a', b'f']));
    assert_eq!(gitrevset::eval::normalize_hex("xyz"), None);
    assert_eq!(gitrevset::eval::normalize_hex(""), Some(vec![]));
    let hex = gitrevset::eval::vertex_hex(&vec![0x0f, 0xa0]);
    assert_eq!(hex, "0fa0");
}

#[test]
fn test_guess_main_branch_name() {
    let commits = vec![commit(0x11, "A", vec![], 0)];
    let refs = vec![reference("refs/remotes/upstream/main", 0)];
    let repo = Repo::new(commits.clone(), refs, vec![], vec![], None).unwrap();
    assert_eq!(
        gitrevset::repo::guess_main_branch_name(&repo),
        "refs/remotes/upstream/main"
    );
    let cfg = vec![gitrevset::repo::ConfigEntry {
        name: "revs.main-branch".to_string(),
        value: "refs/heads/trunk".to_string(),
    }];
    let repo = Repo::new(commits.clone(), vec![], vec![], cfg, None).unwrap();
    assert_eq!(
        gitrevset::repo::guess_main_branch_name(&repo),
        "refs/heads/trunk"
    );
    let repo = Repo::new(commits, vec![], vec![], vec![], None).unwrap();
    assert_eq!(
        gitrevset::repo::guess_main_branch_name(&repo),
        "refs/remotes/origin/master"
    );
}

#[test]
fn test_repo_rejects_bad_data() {
    // A parent after its child is no valid graph.
    let bad = vec![commit(0x11, "A", vec![0], 0)];
    assert!(Repo::new(bad, vec![], vec![], vec![], None).is_none());
    // Duplicate identities are rejected.
    let dup = vec![commit(0x11, "A", vec![], 0), commit(0x11, "B", vec![0], 1)];
    assert!(Repo::new(dup, vec![], vec![], vec![], None).is_none());
    // A reference outside the store is rejected.
    let commits = vec![commit(0x11, "A", vec![], 0)];
    let refs = vec![reference("refs/heads/A", 1)];
    assert!(Repo::new(commits, refs, vec![], vec![], None).is_none());
}
