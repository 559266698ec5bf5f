//! A directory-bookmarking library: a store of named filesystem paths and an
//! interactive picker over them.
//!
//! The picker core is pure logic: an edit-distance ranker over the workspace
//! names, a keystroke-driven state machine, and a renderer model that
//! describes each frame as plain lines. Terminal and file handling live with
//! the callers.

pub mod config;
pub mod distance;
pub mod rank;
pub mod session;
pub mod store;
pub mod text;
