//! Persistent, structurally shared ordered collections: a balanced ordered
//! map engine and a set adapter built on it. Every update returns a new
//! version and leaves earlier versions intact; subtrees are shared between
//! versions through atomic reference counting.

pub mod order;
pub mod tree;
pub mod ord_set;
