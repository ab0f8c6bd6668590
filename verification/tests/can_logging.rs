use mdf4_rs::can::{extract_signal_raw, sign_extend, ByteOrder, FdFlags, RawCanLogger};

#[test]
fn test_extract_le_simple() {
    let data = [0xAB, 0xCD, 0x00, 0x00, 0x00, 0x00, 0x00, 0x00];
    assert_eq!(extract_signal_raw(&data, 0, 8, ByteOrder::LittleEndian), 0xAB);
    assert_eq!(extract_signal_raw(&data, 0, 16, ByteOrder::LittleEndian), 0xCDAB);
}

#[test]
fn test_extract_le_offset() {
    let data = [0xAB, 0x00, 0x00, 0x00, 0x00, 0x00, 0x00, 0x00];
    assert_eq!(extract_signal_raw(&data, 4, 4, ByteOrder::LittleEndian), 0x0A);
}

#[test]
fn test_sign_extend() {
    assert_eq!(sign_extend(0xFF, 8), -1);
    assert_eq!(sign_extend(0x7F, 8), 127);
    assert_eq!(sign_extend(0xFFF, 12), -1);
}

#[test]
fn test_raw_can_logger_basic() {
    let mut logger = RawCanLogger::new().unwrap();

    assert!(logger.log(0x100, 1000, &[0x01, 0x02, 0x03, 0x04]));
    assert!(logger.log(0x100, 2000, &[0x05, 0x06, 0x07, 0x08]));
    assert!(logger.log(0x200, 1500, &[0xAA, 0xBB]));

    assert_eq!(logger.frame_count(0x100), 2);
    assert_eq!(logger.frame_count(0x200), 1);
    assert_eq!(logger.total_frame_count(), 3);
    assert_eq!(logger.unique_id_count(), 2);

    let mdf_bytes = logger.finalize().unwrap();
    assert!(!mdf_bytes.is_empty());
    assert_eq!(&mdf_bytes[0..3], b"MDF");
}

#[test]
fn test_raw_can_logger_extended_id() {
    let mut logger = RawCanLogger::new().unwrap();

    let extended_id = 0x1234_5678 | 0x8000_0000;
    assert!(logger.log(extended_id, 1000, &[0x01, 0x02, 0x03, 0x04, 0x05, 0x06, 0x07, 0x08]));

    assert_eq!(logger.frame_count(extended_id), 1);

    let mdf_bytes = logger.finalize().unwrap();
    assert!(!mdf_bytes.is_empty());
}

#[test]
fn test_raw_can_logger_empty() {
    let logger = RawCanLogger::new().unwrap();
    assert_eq!(logger.total_frame_count(), 0);
    assert_eq!(logger.unique_id_count(), 0);

    let mdf_bytes = logger.finalize().unwrap();
    assert!(!mdf_bytes.is_empty());
}

#[test]
fn test_raw_can_logger_fd_basic() {
    let mut logger = RawCanLogger::new().unwrap();

    let fd_data: [u8; 32] = [0xAA; 32];
    let flags = FdFlags::new(true, false);
    assert!(logger.log_fd(0x100, 1000, &fd_data, flags));

    assert_eq!(logger.frame_count(0x100), 1);
    assert!(logger.has_fd_frames());
    assert_eq!(logger.max_data_length(), 32);

    let mdf_bytes = logger.finalize().unwrap();
    assert!(!mdf_bytes.is_empty());
    assert_eq!(&mdf_bytes[0..3], b"MDF");
}

#[test]
fn test_raw_can_logger_fd_64_bytes() {
    let mut logger = RawCanLogger::new().unwrap();

    let fd_data: [u8; 64] = core::array::from_fn(|i| i as u8);
    let flags = FdFlags::new(true, true);
    assert!(logger.log_fd(0x200, 2000, &fd_data, flags));

    assert_eq!(logger.frame_count(0x200), 1);
    assert!(logger.has_fd_frames());
    assert_eq!(logger.max_data_length(), 64);

    let mdf_bytes = logger.finalize().unwrap();
    assert!(!mdf_bytes.is_empty());
}

#[test]
fn test_raw_can_logger_mixed_classic_and_fd() {
    let mut logger = RawCanLogger::new().unwrap();

    assert!(logger.log(0x100, 1000, &[1, 2, 3, 4, 5, 6, 7, 8]));
    assert!(!logger.has_fd_frames());

    let fd_data: [u8; 24] = [0xBB; 24];
    assert!(logger.log_fd(0x200, 2000, &fd_data, FdFlags::default()));
    assert!(logger.has_fd_frames());
    assert_eq!(logger.max_data_length(), 24);

    assert!(logger.log(0x100, 3000, &[9, 10, 11, 12]));

    assert_eq!(logger.frame_count(0x100), 2);
    assert_eq!(logger.frame_count(0x200), 1);
    assert_eq!(logger.total_frame_count(), 3);

    let mdf_bytes = logger.finalize().unwrap();
    assert!(!mdf_bytes.is_empty());
}

#[test]
fn test_fd_flags() {
    let flags = FdFlags::new(true, false);
    assert!(flags.brs());
    assert!(!flags.esi());

    let flags = FdFlags::new(false, true);
    assert!(!flags.brs());
    assert!(flags.esi());

    let flags = FdFlags::from_byte(0x03);
    assert!(flags.brs());
    assert!(flags.esi());
    assert_eq!(flags.to_byte(), 0x03);
}

fn raw_record(ts: u64, id: u32, dlc: u8, flags: u8, data: &[u8], n: usize) -> Vec<u8> {
    let mut r = ts.to_le_bytes().to_vec();
    r.extend_from_slice(&id.to_le_bytes());
    r.push(dlc);
    r.push(flags);
    for i in 0..n {
        r.push(if i < data.len() { data[i] } else { 0 });
    }
    r
}

fn holds(image: &[u8], records: &[u8]) -> bool {
    image.windows(records.len()).any(|w| w == records)
}

#[test]
fn logged_frames_are_stored_as_records() {
    let mut logger = RawCanLogger::new().unwrap();
    assert!(logger.log(0x100, 1000, &[1, 2, 3]));
    assert!(logger.log(0x100, 2000, &[4]));
    assert!(logger.log(0x7FF, 1500, &[9; 8]));
    let image = logger.finalize().unwrap();

    let mut first = raw_record(1000, 0x100, 3, 0, &[1, 2, 3], 8);
    first.extend(raw_record(2000, 0x100, 1, 0, &[4], 8));
    assert_eq!(first.len(), 44);
    assert!(holds(&image, &first));
    assert!(holds(&image, &raw_record(1500, 0x7FF, 8, 0, &[9; 8], 8)));
}

#[test]
fn frames_logged_after_a_flush_are_stored_too() {
    let mut logger = RawCanLogger::new().unwrap();
    assert!(logger.log(0x10, 5, &[0xAA]));
    logger.flush().unwrap();
    assert_eq!(logger.total_frame_count(), 0);
    assert!(logger.log(0x10, 6, &[0xBB, 0xCC]));
    let image = logger.finalize().unwrap();
    assert!(holds(&image, &raw_record(5, 0x10, 1, 0, &[0xAA], 8)));
    assert!(holds(&image, &raw_record(6, 0x10, 2, 0, &[0xBB, 0xCC], 8)));
}
