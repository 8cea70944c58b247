//! Release bookkeeping for one branch: choosing the draft release to update,
//! the published release its changelog starts from, and the changelog body
//! to write.
pub mod config;
pub mod inputs;
pub mod notes;
pub mod order;
pub mod releases;
pub mod text;
