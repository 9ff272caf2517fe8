//! A domain-specific language ("revset") that selects sets of commits in a
//! commit graph by expression: set algebra, graph reachability, reference and
//! hash lookup, user aliases, and a heuristic rewrite-history engine.

pub mod ast;
pub mod dag;
pub mod error;
pub mod eval;
pub mod mutation;
pub mod parser;
pub mod repo;
pub mod shim;
pub mod text;
pub mod vset;

pub use ast::Expr;
pub use ast::ParseToExpr;
pub use error::Error;
pub use error::Vertex;
pub use eval::Context as EvalContext;
pub use repo::Repo;
pub use vset::VertexSet;
