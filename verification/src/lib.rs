//! Verified core of the Epicode memory service: text utilities, the
//! intrusion guard's scoring and ban state machine, the request security
//! guard, account bookkeeping and the skill review workflow.

pub mod accounts;
pub mod alerts;
pub mod archive;
pub mod cache;
pub mod guard;
pub mod hashing;
pub mod logscan;
pub mod records;
pub mod search;
pub mod security;
pub mod skills;
pub mod strs;
pub mod text;
