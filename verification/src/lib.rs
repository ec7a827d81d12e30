//! Verified core of Shardscape, a self-hosted multi-site S3 store.

pub mod blockmeta;
pub mod buffers;
pub mod catchup;
pub mod chunking;
pub mod clock;
pub mod codec;
pub mod config;
pub mod db;
pub mod digest;
pub mod disk;
pub mod drain;
pub mod facts;
pub mod fetching;
pub mod gc;
pub mod grouping;
pub mod handshake;
pub mod hashing;
pub mod internal;
pub mod laws;
pub mod listing;
pub mod lww;
pub mod maintenance;
pub mod multipart;
pub mod noise_transport;
pub mod order;
pub mod paging;
pub mod parts;
pub mod peers;
pub mod presets;
pub mod ranges;
pub mod readback;
pub mod replication;
pub mod rounding;
pub mod rows;
pub mod s3;
pub mod seqs;
pub mod site;
pub mod storage;
pub mod store;
pub mod table;
pub mod text;
pub mod upload;
pub mod web;
