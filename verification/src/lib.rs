//! A patch engine for control-flow graphs: it splits basic blocks, inserts
//! synthetic blocks and replaces statements by no-ops, while every program
//! point of the body as first supplied stays addressable by its first
//! coordinates.

pub mod body;
pub mod error;
pub mod ir;
pub mod kind;
pub mod laws;
pub mod model;
pub mod modifier;
pub mod table;
