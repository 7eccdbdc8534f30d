//! An in-memory B+tree: an ordered key/value index with point lookup,
//! upsert, deletion and an in-order scan along the chain of leaves.

pub mod increment;
pub mod slot;
pub mod run;
pub mod node;
mod layout;
mod grow;
mod mend;
mod chain;
mod walk;
mod tall;
mod route;
pub mod btree;
