//! CAN bus logging: flags and length codes of CAN FD frames, signal
//! extraction from frame payloads, and a logger of raw frames.
pub mod fd;
pub mod signal;
pub mod raw_record;
pub mod raw_logger;
pub mod overlay;
pub mod raw_frames;
pub mod dbc_config;
pub mod dbc_logger;

pub use fd::{dlc_to_len, len_to_dlc, FdFlags, MAX_FD_DATA_LEN};

pub use raw_logger::RawCanLogger;
pub use signal::{extract_signal_raw, sign_extend, ByteOrder, TimestampedFrame};
pub use dbc_config::DbcMdfLoggerConfig;
pub use overlay::OverlayStatistics;
