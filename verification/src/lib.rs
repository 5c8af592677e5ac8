//! A verified core for a game-mod manager.
//!
//! Mods are folders under a managed root. The library models the managed
//! portion of the filesystem as an explicit value ([`fsmodel::Fs`]) and
//! verifies the logic that manipulates it: the activation state machine
//! that encodes "enabled" versus "disabled" on disk, archive and folder
//! ingestion, bulk operations, and the pure helpers around them. An
//! embedding program performs the real disk I/O by replaying the action
//! log that every operation records.

pub mod bulk;
pub mod codec;
pub mod fsmodel;
pub mod ingest;
pub mod names;
pub mod ops;
pub mod paths;
pub mod records;
pub mod strategy;
pub mod zipio;
