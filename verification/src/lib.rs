//! Core of a file-replication tool built on the rsync algorithm: rolling and
//! strong checksums, block signatures, delta computation, file reconstruction,
//! wire codecs, a filter engine and the per-file sync decision logic.

pub mod buffer_optimizer;
pub mod bwlimit;
pub mod checksum;
pub mod compress;
pub mod delta;
pub mod driver;
pub mod error;
pub mod file_info;
pub mod file_list;
pub mod filter;
pub mod generator;
pub mod itemize;
pub mod message;
pub mod multiplex;
pub mod options;
pub mod path_utils;
pub mod receiver;
pub mod rsync_exclude;
pub mod rsync_flist;
pub mod rsync_protocol;
pub mod sender;
pub mod stats;
pub mod stream;
pub mod text;
pub mod verbose;
pub mod version;
