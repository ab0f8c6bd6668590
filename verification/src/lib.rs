//! Reading and writing ASAM MDF 4 measurement files, with the block
//! layouts, the in-memory writer and the raw CAN logger verified.
pub mod error;
pub mod text;
pub mod blocks;
pub mod writer;
pub mod can;
pub mod parsing;
pub mod index;
pub mod float_bits;

pub use blocks::DataType;
pub use error::{Error, Result};
pub use index::MdfIndex;
pub use writer::data::DecodedValue;
pub use writer::MdfWriter;
