//! Control flow graphs built from basic blocks, with dominance analysis,
//! dominance frontiers and natural loop detection.

pub mod basic_block;
pub mod boolvec;
pub mod cfg;
pub mod dominance;
pub mod dominance_laws;
pub mod frontier;
pub mod frontier_laws;
pub mod loop_detect;
pub mod loop_laws;
pub mod paths;

pub use basic_block::{BasicBlock, BlockId, Instruction};
pub use cfg::Cfg;
pub use dominance::DominanceTree;
pub use frontier::DominanceFrontier;
pub use loop_detect::{LoopInfo, LoopNesting, NaturalLoop};
