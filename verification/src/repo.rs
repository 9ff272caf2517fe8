//! The repository model: the commit store, references, per-reference
//! operation logs, configuration, and the repository-scoped caches.
//!
//! Commits stand in one vector, in a topological order: every parent comes
//! before its children. The canonical "most recent first" order of a set is
//! descending index order.

use crate::error::Vertex;
use vstd::prelude::*;

verus! {

/// One commit: identity, parent edges, and the metadata queries read.
#[derive(Clone)]
pub struct CommitInfo {
    /// The commit hash, byte-exact.
    pub id: Vertex,
    /// Indices of the parents; each is less than this commit's own index.
    pub parents: Vec<usize>,
    pub author_name: String,
    pub author_email: String,
    /// Author timestamp, seconds since the epoch.
    pub author_time: i64,
    pub committer_name: String,
    pub committer_email: String,
    /// Committer timestamp, seconds since the epoch.
    pub committer_time: i64,
    /// The full commit message; its first line is the summary.
    pub message: String,
    /// The identity of the commit's content tree.
    pub tree: Vec<u8>,
}

pub struct CommitV {
    pub id: Seq<u8>,
    pub parents: Seq<int>,
    pub author_name: Seq<char>,
    pub author_email: Seq<char>,
    pub author_time: int,
    pub committer_name: Seq<char>,
    pub committer_email: Seq<char>,
    pub committer_time: int,
    pub message: Seq<char>,
    pub tree: Seq<u8>,
}

impl View for CommitInfo {
    type V = CommitV;

    open spec fn view(&self) -> CommitV {
        CommitV {
            id: self.id@,
            parents: self.parents@.map_values(|p: usize| p as int),
            author_name: self.author_name@,
            author_email: self.author_email@,
            author_time: self.author_time as int,
            committer_name: self.committer_name@,
            committer_email: self.committer_email@,
            committer_time: self.committer_time as int,
            message: self.message@,
            tree: self.tree@,
        }
    }
}

/// One reference: its full name (`refs/...`) and the commit it points at.
#[derive(Clone)]
pub struct RefInfo {
    pub name: String,
    pub target: usize,
}

pub struct RefV {
    pub name: Seq<char>,
    pub target: int,
}

impl View for RefInfo {
    type V = RefV;

    open spec fn view(&self) -> RefV {
        RefV { name: self.name@, target: self.target as int }
    }
}

/// One operation-log entry of a reference: the entry message and the
/// identities before and after the operation.
#[derive(Clone)]
pub struct LogEntry {
    pub message: String,
    pub old_id: Vertex,
    pub new_id: Vertex,
}

pub struct LogEntryV {
    pub message: Seq<char>,
    pub old_id: Seq<u8>,
    pub new_id: Seq<u8>,
}

impl View for LogEntry {
    type V = LogEntryV;

    open spec fn view(&self) -> LogEntryV {
        LogEntryV { message: self.message@, old_id: self.old_id@, new_id: self.new_id@ }
    }
}

/// The operation log of one reference, entries oldest first.
#[derive(Clone)]
pub struct Reflog {
    pub refname: String,
    pub entries: Vec<LogEntry>,
}

pub struct ReflogV {
    pub refname: Seq<char>,
    pub entries: Seq<LogEntryV>,
}

impl View for Reflog {
    type V = ReflogV;

    open spec fn view(&self) -> ReflogV {
        ReflogV {
            refname: self.refname@,
            entries: self.entries@.map_values(|e: LogEntry| e@),
        }
    }
}

/// One configuration entry, by full key (`revsetalias.x`, `revs.main-branch`).
#[derive(Clone)]
pub struct ConfigEntry {
    pub name: String,
    pub value: String,
}

pub struct ConfigV {
    pub name: Seq<char>,
    pub value: Seq<char>,
}

impl View for ConfigEntry {
    type V = ConfigV;

    open spec fn view(&self) -> ConfigV {
        ConfigV { name: self.name@, value: self.value@ }
    }
}

/// The repository data the queries read, as one mathematical value.
pub struct GraphV {
    pub commits: Seq<CommitV>,
    pub refs: Seq<RefV>,
    pub reflogs: Seq<ReflogV>,
    pub config: Seq<ConfigV>,
    pub checkout: Option<int>,
}

impl GraphV {
    /// Number of commits.
    pub open spec fn n(self) -> int {
        self.commits.len() as int
    }

    /// A valid graph: parents precede their children, identities are
    /// distinct, and references and the checkout point at existing commits.
    pub open spec fn wf(self) -> bool {
        &&& forall|i: int, k: int|
            0 <= i < self.commits.len() && 0 <= k < self.commits[i].parents.len() ==> 0 <= (
            #[trigger] self.commits[i].parents[k]) < i
        &&& forall|i: int, j: int|
            0 <= i < j < self.commits.len() ==> self.commits[i].id != self.commits[j].id
        &&& forall|k: int| 0 <= k < self.refs.len() ==> 0 <= (#[trigger] self.refs[k].target)
            < self.commits.len()
        &&& match self.checkout {
            Some(c) => 0 <= c < self.commits.len(),
            None => true,
        }
    }
}

/// The value of the first configuration entry named `key`, from `k` on.
pub open spec fn config_value_from(g: GraphV, key: Seq<char>, k: int) -> Option<Seq<char>>
    decreases g.config.len() - k,
{
    if k < 0 || k >= g.config.len() {
        None
    } else if g.config[k].name == key {
        Some(g.config[k].value)
    } else {
        config_value_from(g, key, k + 1)
    }
}

/// Whether a reference of exactly this name exists.
pub open spec fn has_ref(g: GraphV, name: Seq<char>) -> bool {
    exists|k: int| 0 <= k < g.refs.len() && (#[trigger] g.refs[k]).name == name
}

/// The main branch: the `revs.main-branch` configuration value if set, else
/// the first existing candidate among the usual remote branch names, else
/// the first candidate.
pub open spec fn main_branch_of(g: GraphV) -> Seq<char> {
    match config_value_from(g, "revs.main-branch"@, 0) {
        Some(v) => v,
        None => if has_ref(g, "refs/remotes/origin/master"@) {
            "refs/remotes/origin/master"@
        } else if has_ref(g, "refs/remotes/origin/main"@) {
            "refs/remotes/origin/main"@
        } else if has_ref(g, "refs/remotes/upstream/master"@) {
            "refs/remotes/upstream/master"@
        } else if has_ref(g, "refs/remotes/upstream/main"@) {
            "refs/remotes/upstream/main"@
        } else {
            "refs/remotes/origin/master"@
        },
    }
}

/// A repository handle: the model data plus the repository-scoped caches.
/// The caches hold derived sets and structures computed once on first use.
pub struct Repo {
    pub commits: Vec<CommitInfo>,
    pub refs: Vec<RefInfo>,
    pub reflogs: Vec<Reflog>,
    pub config: Vec<ConfigEntry>,
    pub checkout: Option<usize>,
    /// Cached named sets, coherent with the data whenever present.
    pub cached_all: Option<crate::vset::VertexSet>,
    pub cached_publichead: Option<crate::vset::VertexSet>,
    pub cached_drafthead: Option<crate::vset::VertexSet>,
    pub cached_public: Option<crate::vset::VertexSet>,
    pub cached_draft: Option<crate::vset::VertexSet>,
    /// Cached inferred rewrite relation, coherent with the data when present.
    pub cached_mutation: Option<crate::mutation::MutationDag>,
}

impl Repo {
    /// The repository data as one mathematical value; caches are no part
    /// of it.
    pub open spec fn gv(&self) -> GraphV {
        GraphV {
            commits: self.commits@.map_values(|c: CommitInfo| c@),
            refs: self.refs@.map_values(|r: RefInfo| r@),
            reflogs: self.reflogs@.map_values(|l: Reflog| l@),
            config: self.config@.map_values(|c: ConfigEntry| c@),
            checkout: match self.checkout {
                Some(c) => Some(c as int),
                None => None,
            },
        }
    }

    /// Build a repository handle from plain data, with empty caches.
    /// Returns `None` exactly when the data is no valid graph.
    #[verifier::loop_isolation(false)]
    pub fn new(
        commits: Vec<CommitInfo>,
        refs: Vec<RefInfo>,
        reflogs: Vec<Reflog>,
        config: Vec<ConfigEntry>,
        checkout: Option<usize>,
    ) -> (r: Option<Repo>)
        ensures
            r matches Some(repo) ==> repo.gv().wf() && repo.caches_empty() && repo.gv()
                == (Repo {
                commits,
                refs,
                reflogs,
                config,
                checkout,
                cached_all: None,
                cached_publichead: None,
                cached_drafthead: None,
                cached_public: None,
                cached_draft: None,
                cached_mutation: None,
            }).gv(),
            r is None ==> !(Repo {
                commits,
                refs,
                reflogs,
                config,
                checkout,
                cached_all: None,
                cached_publichead: None,
                cached_drafthead: None,
                cached_public: None,
                cached_draft: None,
                cached_mutation: None,
            }).gv().wf(),
    {
        let repo = Repo {
            commits,
            refs,
            reflogs,
            config,
            checkout,
            cached_all: None,
            cached_publichead: None,
            cached_drafthead: None,
            cached_public: None,
            cached_draft: None,
            cached_mutation: None,
        };
        let ghost g = repo.gv();
        // Parents precede their children.
        let mut i: usize = 0;
        while i < repo.commits.len()
            invariant
                i <= repo.commits.len(),
                g == repo.gv(),
                forall|i2: int, k: int|
                    0 <= i2 < i as int && 0 <= k < g.commits[i2].parents.len() ==> 0 <= (
                    #[trigger] g.commits[i2].parents[k]) < i2,
            decreases repo.commits.len() - i,
        {
            let mut k: usize = 0;
            while k < repo.commits[i].parents.len()
                invariant
                    i < repo.commits.len(),
                    k <= repo.commits[i as int].parents.len(),
                    g == repo.gv(),
                    forall|k2: int|
                        0 <= k2 < k as int ==> 0 <= (#[trigger] g.commits[i as int].parents[k2])
                            < i as int,
                decreases repo.commits[i as int].parents.len() - k,
            {
                if repo.commits[i].parents[k] >= i {
                    proof {
                        assert(g.commits[i as int].parents[k as int]
                            == repo.commits@[i as int].parents@[k as int] as int);
                        assert(!g.wf());
                    }
                    return None;
                }
                proof {
                    assert(g.commits[i as int].parents[k as int] == repo.commits@[
                        i as int
                    ].parents@[k as int] as int);
                }
                k = k + 1;
            }
            i = i + 1;
        }
        // Identities are distinct.
        let mut i: usize = 0;
        while i < repo.commits.len()
            invariant
                i <= repo.commits.len(),
                g == repo.gv(),
                forall|i2: int, j2: int|
                    0 <= i2 < j2 < repo.commits@.len() && j2 < i as int ==> g.commits[i2].id
                        != g.commits[j2].id,
            decreases repo.commits.len() - i,
        {
            let mut j: usize = 0;
            while j < i
                invariant
                    i < repo.commits.len(),
                    j <= i,
                    g == repo.gv(),
                    forall|j2: int| 0 <= j2 < j as int ==> g.commits[j2].id != g.commits[i as int].id,
                decreases i - j,
            {
                if crate::text::bytes_eq(&repo.commits[j].id, &repo.commits[i].id) {
                    proof {
                        assert(g.commits[j as int].id == g.commits[i as int].id);
                        assert(!g.wf());
                    }
                    return None;
                }
                proof {
                    assert(g.commits[j as int].id == repo.commits@[j as int].id@);
                    assert(g.commits[i as int].id == repo.commits@[i as int].id@);
                }
                j = j + 1;
            }
            i = i + 1;
        }
        // References and the checkout point at existing commits.
        let mut k: usize = 0;
        while k < repo.refs.len()
            invariant
                k <= repo.refs.len(),
                g == repo.gv(),
                forall|k2: int|
                    0 <= k2 < k as int ==> 0 <= (#[trigger] g.refs[k2].target) < g.commits.len(),
            decreases repo.refs.len() - k,
        {
            if repo.refs[k].target >= repo.commits.len() {
                proof {
                    assert(g.refs[k as int].target == repo.refs@[k as int].target as int);
                    assert(!g.wf());
                }
                return None;
            }
            proof {
                assert(g.refs[k as int].target == repo.refs@[k as int].target as int);
            }
            k = k + 1;
        }
        match repo.checkout {
            Some(c) => {
                if c >= repo.commits.len() {
                    proof {
                        assert(g.checkout == Some(c as int));
                        assert(!g.wf());
                    }
                    return None;
                }
            },
            None => {},
        }
        Some(repo)
    }

    /// Whether no cache is filled yet.
    pub open spec fn caches_empty(&self) -> bool {
        &&& self.cached_all is None
        &&& self.cached_publichead is None
        &&& self.cached_drafthead is None
        &&& self.cached_public is None
        &&& self.cached_draft is None
        &&& self.cached_mutation is None
    }

    /// The identity bytes of the commit at `index`.
    pub fn vertex_name(&self, index: usize) -> (r: Vertex)
        requires
            index < self.commits@.len(),
        ensures
            r@ == self.gv().commits[index as int].id,
    {
        let mut out: Vec<u8> = Vec::new();
        let src = &self.commits[index].id;
        let mut t: usize = 0;
        while t < src.len()
            invariant
                t <= src@.len(),
                out@ == src@.subrange(0, t as int),
            decreases src@.len() - t,
        {
            out.push(src[t]);
            proof {
                assert(out@ =~= src@.subrange(0, t + 1));
            }
            t = t + 1;
        }
        proof {
            assert(out@ =~= src@);
        }
        out
    }

    /// The value of the first configuration entry named `key`, executably.
    #[verifier::loop_isolation(false)]
    pub fn config_value(&self, key: &str) -> (r: Option<String>)
        ensures
            (r is Some) == (config_value_from(self.gv(), key@, 0) is Some),
            r matches Some(v) ==> config_value_from(self.gv(), key@, 0) == Some(v@),
    {
        let ghost g = self.gv();
        let mut k: usize = 0;
        while k < self.config.len()
            invariant
                k <= self.config@.len(),
                config_value_from(g, key@, 0) == config_value_from(g, key@, k as int),
            decreases self.config@.len() - k,
        {
            proof {
                assert(g.config[k as int] == self.config@[k as int]@);
            }
            if crate::text::str_eq(self.config[k].name.as_str(), key) {
                return Some(self.config[k].value.clone());
            }
            k = k + 1;
        }
        None
    }

    /// Whether a reference of exactly this name exists, executably.
    #[verifier::loop_isolation(false)]
    fn ref_exists(&self, name: &str) -> (r: bool)
        ensures
            r == has_ref(self.gv(), name@),
    {
        let ghost g = self.gv();
        let mut k: usize = 0;
        while k < self.refs.len()
            invariant
                k <= self.refs@.len(),
                forall|k2: int| 0 <= k2 < k as int ==> (#[trigger] g.refs[k2]).name != name@,
            decreases self.refs@.len() - k,
        {
            proof {
                assert(g.refs[k as int] == self.refs@[k as int]@);
            }
            if crate::text::str_eq(self.refs[k].name.as_str(), name) {
                proof {
                    assert(g.refs[k as int].name == name@);
                }
                return true;
            }
            k = k + 1;
        }
        proof {
            if has_ref(g, name@) {
                let k2 = choose|k2: int|
                    0 <= k2 < g.refs.len() && (#[trigger] g.refs[k2]).name == name@;
            }
        }
        false
    }

    /// The index of the commit whose identity is `id`, if any.
    pub fn lookup_id(&self, id: &Vertex) -> (r: Option<usize>)
        ensures
            r matches Some(i) ==> i < self.commits@.len() && self.gv().commits[i as int].id == id@,
            r is None ==> forall|i: int|
                0 <= i < self.gv().commits.len() ==> (#[trigger] self.gv().commits[i].id) != id@,
    {
        let mut i: usize = 0;
        while i < self.commits.len()
            invariant
                i <= self.commits@.len(),
                forall|i2: int|
                    0 <= i2 < i as int ==> (#[trigger] self.gv().commits[i2].id) != id@,
            decreases self.commits@.len() - i,
        {
            if crate::text::bytes_eq(&self.commits[i].id, id) {
                return Some(i);
            }
            i = i + 1;
        }
        None
    }
}

/// The full name of the main branch: configured, else guessed from the
/// usual remote branch names.
pub fn guess_main_branch_name(repo: &Repo) -> (r: String)
    ensures
        r@ == main_branch_of(repo.gv()),
{
    match repo.config_value("revs.main-branch") {
        Some(v) => v,
        None => {
            if repo.ref_exists("refs/remotes/origin/master") {
                String::from_str("refs/remotes/origin/master")
            } else if repo.ref_exists("refs/remotes/origin/main") {
                String::from_str("refs/remotes/origin/main")
            } else if repo.ref_exists("refs/remotes/upstream/master") {
                String::from_str("refs/remotes/upstream/master")
            } else if repo.ref_exists("refs/remotes/upstream/main") {
                String::from_str("refs/remotes/upstream/main")
            } else {
                String::from_str("refs/remotes/origin/master")
            }
        },
    }
}

} // verus!
