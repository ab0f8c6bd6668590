//! Low-level MDF block definitions.
pub mod common;

pub use common::{BlockHeader, BlockParse, DataType};
pub mod header_block;

pub use header_block::HeaderBlock;
pub mod data_group_block;

pub use data_group_block::DataGroupBlock;
pub mod channel_group_block;

pub use channel_group_block::ChannelGroupBlock;
pub mod conversion;

pub use conversion::{ConversionBlock, ConversionType};
pub mod channel_block;

pub use channel_block::ChannelBlock;
pub mod text_block;

pub use text_block::{read_string_block, MetadataBlock, TextBlock};
pub mod identification_block;

pub use identification_block::IdentificationBlock;
pub mod source_block;

pub use source_block::{read_source_block, SourceBlock};
pub mod data_block;

pub use data_block::{DataBlock, DataListBlock};
pub mod conversion_refs;
