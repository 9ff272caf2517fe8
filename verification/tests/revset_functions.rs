//! End-to-end queries against a nine-commit repository:
//!
//! ```text
//!     A---B---C---D---E
//!          \     /
//!           F---G---H---I
//! ```

use gitrevset::repo::{CommitInfo, ConfigEntry, LogEntry, RefInfo, Reflog};
use gitrevset::Repo;

fn commit(tag: u8, name: &str, parents: Vec<usize>, time: i64, tree: u8) -> CommitInfo {
    CommitInfo {
        id: vec![tag; 20],
        parents,
        author_name: name.to_string(),
        author_email: "test@example.com".to_string(),
        author_time: time,
        committer_name: name.to_string(),
        committer_email: "test@example.com".to_string(),
        committer_time: time,
        message: name.to_string(),
        tree: vec![tree; 20],
    }
}

fn reference(name: &str, target: usize) -> RefInfo {
    RefInfo { name: name.to_string(), target }
}

/// Indices: A=0 B=1 C=2 F=3 G=4 D=5 E=6 H=7 I=8; the walk order of the
/// original ASCII graph assigns author times A=0 B=1 C=2 F=3 G=4 H=5 D=6
/// E=7 I=8.
fn base_commits() -> Vec<CommitInfo> {
    vec![
        commit(0x10, "A", vec![], 0, 0x60),
        commit(0x21, "B", vec![0], 1, 0x61),
        commit(0x32, "C", vec![1], 2, 0x62),
        commit(0x43, "F", vec![1], 3, 0x63),
        commit(0x54, "G", vec![3], 4, 0x64),
        commit(0x65, "D", vec![2, 4], 6, 0x65),
        commit(0x76, "E", vec![5], 7, 0x66),
        commit(0x87, "H", vec![4], 5, 0x67),
        commit(0x98, "I", vec![7], 8, 0x68),
    ]
}

fn base_refs() -> Vec<RefInfo> {
    let names = ["A", "B", "C", "F", "G", "D", "E", "H", "I"];
    names
        .iter()
        .enumerate()
        .map(|(i, n)| reference(&format!("refs/heads/{}", n), i))
        .collect()
}

fn query(repo: &mut Repo, code: &str) -> Vec<String> {
    let set = repo.revs(code).unwrap();
    let mut out = Vec::new();
    let mut k = 0;
    while k < set.len() {
        let idx = set.at(k);
        out.push(repo.commits[idx].message.clone());
        k += 1;
    }
    out
}

fn query_set(repo: &mut Repo, code: &str) -> Vec<String> {
    let mut out = query(repo, code);
    out.sort();
    out
}

fn sorted(names: &[&str]) -> Vec<String> {
    let mut out: Vec<String> = names.iter().map(|s| s.to_string()).collect();
    out.sort();
    out
}

#[test]
fn test_revset_functions() {
    let mut repo = Repo::new(base_commits(), base_refs(), vec![], vec![], Some(6)).unwrap();

    // Basic set operations.
    assert_eq!(
        query(&mut repo, "all()"),
        ["I", "H", "E", "D", "G", "F", "C", "B", "A"]
    );
    assert_eq!(query(&mut repo, "heads(all())"), ["I", "E"]);
    assert_eq!(query(&mut repo, "heads(A:C + G:H)"), ["H", "C"]);
    assert_eq!(query(&mut repo, "roots(all())"), ["A"]);
    assert_eq!(query(&mut repo, "roots(A:C + G:H)"), ["G", "A"]);
    assert_eq!(query(&mut repo, "B:D"), ["D", "G", "F", "C", "B"]);
    assert_eq!(query(&mut repo, "A:E - G - (C^ + C)^"), ["E", "D", "F", "C"]);
    assert_eq!(query(&mut repo, "!!!(B:D)"), ["I", "H", "E", "A"]);
    assert_eq!(
        query(&mut repo, "::B + G::"),
        ["I", "H", "E", "D", "G", "B", "A"]
    );
    assert_eq!(query(&mut repo, "H % E"), ["H"]);
    assert_eq!(query(&mut repo, "H % C"), ["H", "G", "F"]);
    assert_eq!(query(&mut repo, "gca(E+H)"), ["G"]);
    assert_eq!(query(&mut repo, "gca(E,H)"), ["G"]);
    assert_eq!(query(&mut repo, "first(A:D)"), ["D"]);
    assert_eq!(query(&mut repo, "first(B-B,C,D)"), ["C"]);
    assert_eq!(query(&mut repo, "first(B-B,C+D)"), ["D"]);
    assert_eq!(query(&mut repo, "last(A:D)"), ["A"]);
    assert_eq!(
        query(&mut repo, "children(G) | children(A:B)"),
        ["H", "D", "F", "C", "B"]
    );
    assert_eq!(query(&mut repo, "head()"), ["I", "E"]);
    assert_eq!(query(&mut repo, "desc(C)"), ["C"]);
    assert_eq!(query(&mut repo, "author(D)"), ["D"]);
    assert_eq!(query(&mut repo, "heads(author(test))"), ["I", "E"]);
    assert_eq!(query(&mut repo, "committer(E)"), ["E"]);
    assert_eq!(query(&mut repo, "heads(committer(test))"), ["I", "E"]);

    // date(), committerdate()
    assert_eq!(query(&mut repo, r#"date("0 0")"#), ["B", "A"]);
    assert_eq!(query(&mut repo, r#"date("0 0 to 1 0")"#), ["C", "B", "A"]);
    assert_eq!(
        query(&mut repo, r#"committerdate("before 2 0")"#),
        ["C", "B", "A"]
    );
    assert_eq!(
        query(&mut repo, r#"committerdate("since 6 0")"#),
        ["I", "E", "D"]
    );

    // public(), draft()
    let mut refs = base_refs();
    refs.push(reference("refs/heads/master", 6));
    refs.push(reference("refs/remotes/origin/master", 5));
    refs.push(reference("refs/remotes/origin/stable", 1));
    refs.push(reference("refs/tags/v1", 0));
    refs.push(reference("refs/tags/v2", 1));
    let mut repo = Repo::new(base_commits(), refs.clone(), vec![], vec![], Some(6)).unwrap();

    assert_eq!(query(&mut repo, "origin/master"), ["D"]);
    assert_eq!(query_set(&mut repo, "draft()"), sorted(&["E", "I", "H"]));
    assert_eq!(query(&mut repo, "public()"), ["D", "G", "F", "C", "B", "A"]);
    assert_eq!(query_set(&mut repo, "drafthead()"), sorted(&["E", "I"]));
    assert_eq!(query(&mut repo, "publichead()"), ["D", "B"]);

    // id(), ref(), tag(), "."
    for name in query(&mut repo, "all()") {
        let idx = (0..9).find(|i| repo.commits[*i].message == name).unwrap();
        let hex = gitrevset::eval::vertex_hex(&repo.commits[idx].id);
        let rev_code = format!("id({})", hex);
        assert_eq!(query(&mut repo, &rev_code), [name.clone()]);
    }
    assert_eq!(
        query_set(&mut repo, "ref()"),
        sorted(&["E", "I", "H", "D", "G", "F", "C", "B", "A"])
    );
    assert_eq!(query(&mut repo, "ref(origin/master)"), ["D"]);
    assert_eq!(query(&mut repo, r#"ref("remotes/origin/*")"#), ["D", "B"]);
    assert_eq!(query(&mut repo, "."), ["E"]);
    assert_eq!(query(&mut repo, "tag()"), ["B", "A"]);
    assert_eq!(query(&mut repo, "tag(v2)"), ["B"]);
    assert_eq!(query(&mut repo, r#"tag("v*")"#), ["B", "A"]);

    // empty(), present()
    assert!(query(&mut repo, "empty()").is_empty());
    assert!(query(&mut repo, "present(foobar)").is_empty());
    assert_eq!(query(&mut repo, "present(master)"), ["E"]);

    // predecessors(), successors(): amend the commit at H.
    let mut commits = base_commits();
    let mut h_new = commit(0xa9, "H_new", vec![4], 5, 0x67);
    h_new.author_name = "H".to_string();
    h_new.committer_name = "H".to_string();
    commits.push(h_new);
    let mut refs3 = refs.clone();
    for r in refs3.iter_mut() {
        if r.name == "refs/heads/H" {
            r.target = 9;
        }
    }
    refs3.push(reference("refs/heads/H_old", 7));
    let reflogs = vec![Reflog {
        refname: "refs/heads/H".to_string(),
        entries: vec![LogEntry {
            message: "commit (amend): amend".to_string(),
            old_id: vec![0x87; 20],
            new_id: vec![0xa9; 20],
        }],
    }];
    let mut repo = Repo::new(commits, refs3, reflogs, vec![], Some(6)).unwrap();
    assert_eq!(query(&mut repo, "H"), ["H_new"]);
    assert_eq!(query(&mut repo, "H_old"), ["H"]);
    assert_eq!(query(&mut repo, "predecessors(H)"), ["H_new", "H"]);
    assert_eq!(query(&mut repo, "successors(H_old)"), ["H_new", "H"]);
    assert_eq!(query(&mut repo, "obsolete()"), ["H"]);

    // apply
    assert_eq!(query(&mut repo, "apply($1, .)"), ["E"]);
    assert_eq!(query(&mut repo, "apply($1 + $2^, ., B)"), ["E", "A"]);
    assert_eq!(query(&mut repo, "apply(apply($1, C) + $1, A)"), ["C", "A"]);
}

#[test]
fn test_user_aliases() {
    let config = vec![
        ConfigEntry {
            name: "revsetalias.f".to_string(),
            value: "parents($1)".to_string(),
        },
        ConfigEntry {
            name: "revsetalias.broken".to_string(),
            value: "(((".to_string(),
        },
    ];
    let mut repo = Repo::new(base_commits(), base_refs(), vec![], config, Some(6)).unwrap();
    let set = repo.anyrevs("f(.)").unwrap();
    assert_eq!(set.len(), 1);
    assert_eq!(repo.commits[set.at(0)].message, "D");
    // The alias is unknown without the configuration context.
    assert!(repo.revs("f(.)").is_err());
}

#[test]
fn test_self_referential_alias_stops() {
    let config = vec![ConfigEntry {
        name: "revsetalias.looping".to_string(),
        value: "looping($1)".to_string(),
    }];
    let mut repo = Repo::new(base_commits(), base_refs(), vec![], config, Some(6)).unwrap();
    match repo.anyrevs("looping(.)") {
        Err(gitrevset::Error::RecursionLimit) => {}
        other => panic!("expected the expansion depth bound, got {:?}", other.is_ok()),
    }
}

#[test]
fn test_ambiguous_prefix() {
    // Two commits whose identities share a three-character hex prefix.
    let mut commits = base_commits();
    let mut x = commit(0xab, "X", vec![8], 9, 0x70);
    x.id = {
        let mut id = vec![0xab; 20];
        id[19] = 1;
        id
    };
    let mut y = commit(0xac, "Y", vec![9], 10, 0x71);
    y.id = {
        let mut id = vec![0xab; 20];
        id[19] = 2;
        id
    };
    commits.push(x);
    commits.push(y);
    let mut refs = base_refs();
    refs.push(reference("refs/heads/Y", 10));
    let mut repo = Repo::new(commits, refs, vec![], vec![], Some(6)).unwrap();
    match repo.revs("id(aba)") {
        Err(gitrevset::Error::AmbiguousPrefix(ids)) => {
            assert_eq!(ids.len(), 2);
            let mut hexes: Vec<String> =
                ids.iter().map(|i| gitrevset::eval::vertex_hex(i)).collect();
            hexes.sort();
            assert!(hexes[0].starts_with("aba"));
            assert!(hexes[1].starts_with("aba"));
            assert_ne!(hexes[0], hexes[1]);
        }
        other => panic!("expected an ambiguous prefix, got {:?}", other.is_ok()),
    }
    // A short or unknown prefix is an unresolved name.
    assert!(matches!(
        repo.revs("id(ab)"),
        Err(gitrevset::Error::UnresolvedName(_))
    ));
    assert!(matches!(
        repo.revs("id(fff)"),
        Err(gitrevset::Error::UnresolvedName(_))
    ));
}

#[test]
fn test_mutation_cycle_is_broken() {
    // Two branches' logs attribute "A replaced by B" and "B replaced by A".
    // The cycle-breaking pass keeps only one direction, so the closures
    // terminate with sane answers instead of treating both as rewrites.
    let same_tree = vec![0x77u8; 20];
    let mut a = commit(0x11, "A", vec![], 0, 0);
    a.tree = same_tree.clone();
    let mut b = commit(0x22, "B", vec![], 1, 0);
    b.tree = same_tree;
    let commits = vec![a, b];
    let refs = vec![reference("refs/heads/A", 0), reference("refs/heads/B", 1)];
    let reflogs = vec![
        Reflog {
            refname: "refs/heads/A".to_string(),
            entries: vec![LogEntry {
                message: "commit (amend): one way".to_string(),
                old_id: vec![0x11; 20],
                new_id: vec![0x22; 20],
            }],
        },
        Reflog {
            refname: "refs/heads/B".to_string(),
            entries: vec![LogEntry {
                message: "commit (amend): other way".to_string(),
                old_id: vec![0x22; 20],
                new_id: vec![0x11; 20],
            }],
        },
    ];
    let mut repo = Repo::new(commits, refs, reflogs, vec![], None).unwrap();
    // The edge out of A (the lower index) closed the cycle and was cut;
    // the edge "B replaced A" survives.
    assert_eq!(query(&mut repo, "predecessors(B)"), ["B", "A"]);
    assert_eq!(query(&mut repo, "predecessors(A)"), ["A"]);
    assert_eq!(query(&mut repo, "successors(A)"), ["B", "A"]);
    assert_eq!(query(&mut repo, "successors(B)"), ["B"]);
}

#[test]
fn test_oversized_glob_pattern_is_refused() {
    // A glob pattern over the length bound never reaches the glob engine;
    // it resolves to nothing, like any other unknown name.
    let mut repo = Repo::new(base_commits(), base_refs(), vec![], vec![], Some(6)).unwrap();
    let mut big = String::from("ref(\"");
    big.push_str(&"a".repeat(10_100));
    big.push_str("*\")");
    match repo.revs(&big) {
        Err(gitrevset::Error::UnresolvedName(_)) => {}
        other => panic!("expected an unresolved name, got {:?}", other.is_ok()),
    }
}

#[test]
fn test_errors() {
    let mut repo = Repo::new(base_commits(), base_refs(), vec![], vec![], Some(6)).unwrap();
    assert!(matches!(
        repo.revs("heads(A, B)"),
        Err(gitrevset::Error::MismatchedArguments(_, 1, 2))
    ));
    assert!(matches!(
        repo.revs("desc(parents(A))"),
        Err(gitrevset::Error::ExpectString(_))
    ));
    assert!(matches!(
        repo.revs("A +"),
        Err(gitrevset::Error::ParseError(_, _))
    ));
    assert!(matches!(
        repo.revs("nosuchfunction(A)"),
        Err(gitrevset::Error::UnresolvedName(_))
    ));
    assert!(matches!(
        repo.revs(r#"date("what")"#),
        Err(gitrevset::Error::ParseError(_, _))
    ));
    // x::y is invalid syntax.
    assert!(repo.revs("A::B").is_err());
}

#[test]
fn test_context_names() {
    let mut repo = Repo::new(base_commits(), base_refs(), vec![], vec![], Some(6)).unwrap();
    let stack = repo.revs("B:D").unwrap();
    let ctx = gitrevset::EvalContext {
        names: vec![("stack".to_string(), stack)],
        fns: vec![],
    };
    let e = gitrevset::Expr::parse("heads(stack)").unwrap();
    let heads = repo.revs_with_context(&e, &ctx).unwrap();
    assert_eq!(heads.len(), 1);
    assert_eq!(repo.commits[heads.at(0)].message, "D");
}
