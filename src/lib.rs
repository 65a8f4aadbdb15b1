//! Move-matching measurement for Renju engines.
//!
//! The library holds the verified core: the engine's line protocol
//! (`protocol`), and the coordinator that hands out games, accounts for
//! evaluated positions per rating and resumes from a checkpoint
//! (`move_matching`).
pub mod move_matching;
pub mod protocol;
