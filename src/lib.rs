//! The scan lifecycle of a disk-usage inspector: a bounded ranking of the
//! largest files, the breadth-first traversal that feeds it, the progress
//! snapshots it hands out, the coordinator of scan identities and watch
//! generations, and the classification of live change notifications.
pub mod top;
pub mod scan;
pub mod state;
pub mod watch;
pub mod disk;
