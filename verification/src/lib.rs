//! Verified core of a Barnes-Hut gravity simulation: frame metrics over a
//! sliding window, a union-find over body indices, per-body colours, and
//! the integer bookkeeping that drives contacts, bonds and fusion.

pub mod duration;
pub mod metrics;
pub mod union_find;
pub mod color;
pub mod ids;
pub mod contacts;
pub mod components;
pub mod bond_lines;
pub mod fusion;
pub mod threads;
pub mod cells;
