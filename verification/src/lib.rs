//! Current Reality Tree notation: parsing, graph flattening and the
//! sanitising of proposed refinements.

pub mod text;
pub mod order;
pub mod expr;
pub mod parser;
pub mod graph;
pub mod pattern;
pub mod ids;
pub mod refinement;
pub mod types;
pub mod relationship;
pub mod validation;

pub use expr::Expr;
pub use graph::{flatten, Graph};
pub use parser::{parse_crt, Link, ParseError, CRT};
pub use refinement::AgentRefinement;
pub use relationship::Relationship;
