//! A disk-usage analyser engine: one walk of a drive builds per-file records and
//! per-folder totals, a per-drive cache keeps them, and queries derive largest
//! files and folders, type distribution, age-filtered files and empty folders
//! from the cached walk.
pub mod cache;
pub mod drive;
pub mod explorer;
pub mod group;
pub mod help;
pub mod model;
pub mod outside;
pub mod paths;
pub mod query;
pub mod report;
pub mod storage;
pub mod text;
pub mod walk;
