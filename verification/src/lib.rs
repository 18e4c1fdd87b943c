//! Query a GitLab-compatible REST API for the latest pipeline status of every
//! project under a set of named groups.
//!
//! The crate holds the logic of that resolution pipeline: the data model, the
//! request paths, the paginated scan that maps group names to identifiers, the
//! paginated enumeration of a group's projects, the head-of-list lookup of a
//! project's most recent pipeline, the assembly of the nested report, and a
//! canonical JSON rendering of the report. All network traffic stays with the
//! caller, who fetches one page at a time and feeds each decoded page back in.

pub mod model;
pub mod decimal;
pub mod paths;
pub mod resolve;
pub mod projects;
pub mod pipeline;
pub mod report;
pub mod codec;
