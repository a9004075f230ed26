//! Decisions of a folder-sync desktop client.
//!
//! The client watches one folder, reports what happens in it, and queues the
//! files it finds for upload. This crate holds everything the client decides:
//! who owns the watch when requests overtake each other, how a folder is
//! walked, what is remembered for a late front end, which files are queued,
//! how a device is identified, and what the tray does. Performing the
//! decisions (disk, network, windows) is left to the program around it.

pub mod backlog;
pub mod device;
pub mod events;
pub mod follow;
pub mod heartbeat;
pub mod paths;
pub mod resume;
pub mod scan;
pub mod shell;
pub mod start;
pub mod text;
pub mod upload;
pub mod watch;
