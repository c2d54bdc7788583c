//! Traffic accounting for a router: per-packet counters and rate limits, snapshots of
//! interface, device and address traffic, hourly and daily histograms, and the ring files
//! that keep them on disk.
pub mod addr;
pub mod api;
pub mod binary64;
pub mod bucket;
pub mod calendar;
pub mod common;
pub mod counters;
pub mod daily;
pub mod histogram;
pub mod history;
pub mod items;
pub mod keys;
pub mod limiter;
pub mod names;
pub mod packet;
pub mod path;
pub mod persistence;
pub mod ranking;
pub mod recovery;
pub mod ring;
pub mod ring_files;
pub mod runtime;
pub mod series;
pub mod snapshot;
pub mod snapshot_laws;
pub mod sort;
pub mod table;
pub mod text;
pub mod topology;
