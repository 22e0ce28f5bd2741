//! Directory tree walking, comparison and synchronisation.
//!
//! The library holds the decisions of the three pipeline stages as verified
//! state machines: the filesystem work (listing, stat, reading, copying) is
//! done by the caller, who hands the results back as plain values.
pub mod commands;
pub mod diff;
pub mod path;
pub mod stack;
pub mod sync;
pub mod walk;
