//! Filename search over native filesystem metadata.

pub mod answer_laws;
pub mod btrfs;
pub mod bytes;
pub mod calendar;
pub mod checksum;
pub mod client;
pub mod clock;
pub mod codec;
pub mod compact;
pub mod compact_index;
pub mod compact_laws;
pub mod delta;
pub mod demo;
pub mod desktop;
pub mod dir_summary;
pub mod dirs;
pub mod dirtree;
pub mod display;
pub mod display_laws;
pub mod ext4;
pub mod files;
pub mod host;
pub mod index;
pub mod lane_laws;
pub mod lanes;
pub mod launch;
pub mod layout;
pub mod macos;
pub mod mcp;
pub mod mount_laws;
pub mod mounts;
pub mod ntfs;
pub mod ntfs_laws;
pub mod order;
pub mod overlay;
pub mod pack;
pub mod pathmap;
pub mod path_laws;
pub mod paths;
pub mod proto;
pub mod query;
pub mod query_laws;
pub mod rank;
pub mod rank_laws;
pub mod reader;
pub mod remote;
pub mod requests;
pub mod roots;
pub mod scope;
pub mod search_laws;
pub mod service;
pub mod service_laws;
pub mod sidecar;
pub mod store;
pub mod summary;
pub mod summary_laws;
pub mod system_laws;
pub mod terminal;
pub mod text;
pub mod treemap;
pub mod trigram;
pub mod types;
pub mod varint;
pub mod watch;
pub mod watch_laws;
pub mod windows;
pub mod zfs;
