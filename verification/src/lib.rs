//! The engine of a one-way synchronisation of a local directory tree to a
//! remote host: the checksum by which the two sides compare files, the
//! protocol of the agent that lists the remote side, the reconciliation of
//! the two manifests into a plan, the order in which the plan is carried
//! out, the sessions that carry it out, and the display of its progress.

pub mod agent;
pub mod channel;
pub mod checksum;
pub mod drain;
pub mod manifest;
pub mod output;
pub mod paths;
pub mod progress_message;
pub mod protocol;
pub mod reconcile;
pub mod remote;
pub mod schedule;
pub mod seqs;
pub mod ssh;
pub mod ssh_manager;
pub mod target;
pub mod text;
pub mod walk;
