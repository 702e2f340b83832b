//! Data-flow analysis over a small three-address language: a control-flow
//! graph of basic blocks, reaching definitions and live variables.

pub mod block;
pub mod figure;
pub mod flow;
pub mod graph;
pub mod live_var;
pub mod pattern;
pub mod program;
pub mod reaching_def;
pub mod set;
pub mod solver;
pub mod stmt;
pub mod text;

pub use block::Block;
pub use block::BlockView;
pub use block::StmtID;
pub use figure::figure_9_13;
pub use live_var::LiveVariables;
pub use program::BlockID;
pub use program::Program;
pub use program::ProgramError;
pub use program::ProgramView;
pub use reaching_def::ReachingDefinitions;
pub use set::VecSet;
pub use stmt::BinOp;
pub use stmt::ParseError;
pub use stmt::RValue;
pub use stmt::RValueView;
pub use stmt::Stmt;
pub use stmt::StmtView;
