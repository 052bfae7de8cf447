//! A file-activity monitor: scans watched directories, classifies files as
//! newly known, edited, or generated by comparing modification times against
//! the previous scan, and keeps a cumulative per-project summary of that
//! activity.
use vstd::prelude::*;

pub mod history;
pub mod model;
pub mod order;
pub mod summary;

verus! {

/// The failures the monitor distinguishes: a persisted summary that cannot be
/// accepted, and an unreadable directory or file during a scan.
#[derive(Clone, Copy, Debug, PartialEq, Eq, Structural)]
pub enum MonitorError {
    CorruptState,
    ScanIoError,
}

} // verus!
