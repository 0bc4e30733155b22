//! A breadth-first single-domain crawl core: tasks identified by a
//! `(domain, path)` key, a scheduler that dispatches pending tasks and
//! merges worker results with duplicate suppression, and a link
//! extractor that pulls same-domain relative paths out of a page body.

pub mod scheduler;
pub mod task;
pub mod worker;
