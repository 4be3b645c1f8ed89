//! Procedural world-history generation: a layered settlement graph, a cast of
//! characters moving through it, an append-only event ledger, item provenance
//! chains and a spreading calamity that drives the characters' fates.
pub mod random;
pub mod actor;
pub mod calamity;
pub mod graph;
pub mod history;
pub mod item;
pub mod laws;
pub mod narrative;
pub mod world;
