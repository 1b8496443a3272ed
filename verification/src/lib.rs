//! Binary pattern scanning: a small pattern language for bytes is compiled
//! into an expression tree, and the tree is evaluated against a forward-only
//! byte stream at every start offset.

pub mod config;
pub mod error;
pub mod expr;
pub mod grammar;
pub mod input;
pub mod output;
pub mod parser;
pub mod report;
pub mod semantics;

pub use config::Config;
pub use error::{Error, RbrepResult};
pub use expr::{Expr, ExprBranch, ExprKind};
pub use input::{ByteSource, FileBufferInput, MatchInput, MemorySource};
pub use output::{ExprOutData, ExprOutput, MatchOutput};
pub use parser::Parser;
