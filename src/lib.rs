//! Reference graphs between episodes of a show: each episode may refer back
//! to earlier ones. From those references the library keeps the transitive
//! reduction (no reference that a chain of others already implies) and splits
//! what is left into weakly-connected networks. It also reads episodes from
//! feed items and episode numbers from the links of a page.

pub mod disjoint;
pub mod episode;
pub mod feed;
pub mod graph;
pub mod linked;
pub mod network;
pub mod paths;
pub mod reduce;
pub mod site;
