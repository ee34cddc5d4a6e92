//! A skip map whose nodes live in one arena: each node has a tower of lanes,
//! lane `l` linking the nodes of level `l` in increasing key order.
pub mod base;
pub mod index;
