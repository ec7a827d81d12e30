//! What the operations of a node are for, stated over their inputs and results alone.

pub mod access;
pub mod answers;
pub mod chunks;
pub mod collection;
pub mod frames;
pub mod guard;
pub mod listings;
pub mod lists;
pub mod merging;
pub mod multiparts;
pub mod numbers;
pub mod pulls;
pub mod queries;
pub mod reads;
pub mod requests;
pub mod sites;
pub mod times;
pub mod writes;
