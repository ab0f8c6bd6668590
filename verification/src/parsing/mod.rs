//! The raw block tree of a file being read: data groups, their channel
//! groups and channels, and the data blocks that hold their records.
pub mod raw_data_group;

pub use raw_data_group::{RawChannel, RawChannelGroup, RawDataGroup};
