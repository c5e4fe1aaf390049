//! Block validation: decides whether every transaction a candidate block references can be
//! obtained, and whether the obtained transactions form an appendable block.

pub mod types;
pub mod keyed_counter;
pub mod appendable_block;
pub mod validating_block;
pub mod block_validator;
pub mod store;
