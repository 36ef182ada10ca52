//! A sandboxed filesystem access and search layer anchored at a project root.
//!
//! The decisions of every operation (where a requested path may lead, whether
//! an edit applies, which directory entries are listed, which lines a search
//! reports) are made here, over plain values. Touching the disk is left to the
//! caller, which performs each requested step and hands back its outcome.
//!
//! Beside it stand the links that open Teams calls and meetings, and the
//! framing of a chat event stream into its data payloads.
mod text;

pub mod error;
pub mod path;
pub mod edit;
pub mod pattern;
pub mod walk;
pub mod search;
pub mod chat;
pub mod deeplink;
