//! A catalog of model files kept in step with the directories that hold them:
//! mark-and-sweep reconciliation, duplicate detection by content hash, hybrid
//! name / tag search with pagination, a job tracker and a notification hub.
pub mod api;
pub mod catalog;
pub mod hub;
pub mod jobs;
pub mod laws;
pub mod locations;
pub mod paths;
pub mod search;
pub mod text;
