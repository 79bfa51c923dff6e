//! A podcast library built around a bounded-concurrency batch downloader.
//!
//! - `downloader`: the work items, the progress events, the shared work
//!   queue, and where each item's body is written.
//! - `worker`: the decisions of one worker as a state machine, with a ghost
//!   log of the events it sent, and the laws that hold of a drained pool.
//! - `types`: podcasts and episodes, and the choice of what to download.
//! - `helpers`: file-name sanitizing.

pub mod downloader;
pub mod helpers;
pub mod types;
pub mod worker;
