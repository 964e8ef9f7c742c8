//! A contribution showcase: the commits of several git repositories, their
//! archived OpenSpec proposals and their test metrics, read into one report
//! page.
//!
//! The library holds every rule of the report and proves it: how a commit
//! subject reads as a Conventional Commit, how `git log` output reads as
//! commits, which commits the filters keep and in what order they are
//! shown, the timeline and the breakdown by type, the settings and their
//! checks, and the escaping that puts the data safely into the page.  The
//! program around it reads the files, runs git, and writes the page.
pub mod text;
pub mod number;
pub mod order;
pub mod dates;
pub mod paths;
pub mod model;
pub mod commit;
pub mod config;
pub mod filter;
pub mod gitlog;
pub mod proposals;
pub mod timeline;
pub mod breakdown;
pub mod report;
pub mod testmetrics;
pub mod page;
