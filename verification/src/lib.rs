//! Planning core of the erebus network trainer: which data files a run reads, from which
//! checkpoint it resumes, which stretch of the global schedule it trains, and which positions it
//! trains on.

pub mod checkpoint;
pub mod config;
pub mod counts;
pub mod data_files;
pub mod network;
pub mod plan_laws;
pub mod position_filter;
pub mod schedule;
pub mod session;
pub mod text;
