//! A personal time-tracking ledger built on an append-only, bitemporal
//! store: every change to a project or a time block is a new version, and
//! any past state can be read back as of a point in time.

pub mod codec;
pub mod filter;
pub mod model;
pub mod projects;
pub mod sync;
pub mod timeblocks;
pub mod tracker;
pub mod versions;

pub use codec::{
    chrono_to_sql, decode_tags, encode_tags, sql_to_chrono, MAX_TIMESTAMP, MIN_TIMESTAMP,
};
pub use filter::{SqlParam, TimeblockFilter};
pub use model::{
    DbId, EntityVersion, Error, Project, ProjectRef, RemoteId, Timeblock, TimeblockRef, Timestamp,
};
pub use projects::ProjectDataSource;
pub use sync::{entry_billable, entry_end, remote_project_id, remote_task_id, TimeEntry};
pub use timeblocks::TimeblockDataSource;
pub use tracker::{Status, TimeTracker};
pub use versions::{next_version, Versioned};
