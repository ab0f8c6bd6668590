use mdf4_rs::can::overlay::{detect_raw_can_group, overlay_statistics};
use mdf4_rs::can::raw_frames::{assemble_raw_frames, raw_channel_values, read_raw_channel, read_raw_frames, sort_frames_by_timestamp};
use mdf4_rs::can::{FdFlags, RawCanLogger};
use mdf4_rs::index::{ByteRangeReader, DataBlockInfo, IndexedChannel, IndexedChannelGroup};
use mdf4_rs::{DataType, Error, MdfIndex, Result};

struct MemoryReader {
    bytes: Vec<u8>,
}

impl ByteRangeReader for MemoryReader {
    fn read_range(&mut self, offset: u64, length: u64) -> Result<Vec<u8>> {
        let start = offset as usize;
        let end = start + length as usize;
        if end > self.bytes.len() {
            return Err(Error::TooShortBuffer {
                actual: self.bytes.len(),
                expected: end,
                file: "test",
                line: 0,
            });
        }
        Ok(self.bytes[start..end].to_vec())
    }
}

fn raw_capture() -> Vec<u8> {
    let mut logger = RawCanLogger::new().unwrap();
    logger.log(0x100, 1000, &[1, 2, 3, 4]);
    logger.log(0x100, 2000, &[5, 6, 7, 8]);
    logger.log(0x8000_0200, 1500, &[9]);
    logger.finalize().unwrap()
}

#[test]
fn index_of_raw_capture() {
    let bytes = raw_capture();
    let len = bytes.len() as u64;
    let mut reader = MemoryReader { bytes };
    let index = MdfIndex::from_reader(&mut reader, len).unwrap();
    assert_eq!(index.file_size, len);
    assert_eq!(index.channel_groups.len(), 2);
    let g0 = &index.channel_groups[0];
    assert_eq!(g0.name.as_deref(), Some("CAN_0x100"));
    assert_eq!(index.channel_groups[1].name.as_deref(), Some("CAN_0x00000200"));
    assert_eq!(g0.record_count, 2);
    assert_eq!(g0.record_size, 8 + 4 + 1 + 1 + 8);
    assert_eq!(g0.channels.len(), 4 + 8);
    assert_eq!(g0.channels[0].name.as_deref(), Some("Timestamp"));
    assert_eq!(g0.channels[0].unit.as_deref(), Some("us"));
    assert_eq!(g0.channels[0].channel_type, 2);
    assert_eq!(g0.channels[5].name.as_deref(), Some("Data_1"));
    assert_eq!(g0.channels[5].byte_offset, 15);
    assert_eq!(g0.data_blocks.len(), 1);
    assert!(!g0.data_blocks[0].is_compressed);
    assert_eq!(g0.data_blocks[0].size, 24 + 2 * 22);

    assert_eq!(index.find_channel_group_by_name("CAN_0x100"), Some(0));
    assert_eq!(index.find_channel_by_name(1, "DLC"), Some(2));
    assert_eq!(index.find_channel_by_name(7, "DLC"), None);
    assert_eq!(index.find_channel_by_name_global("Data_7"), Some((0, 11)));
    assert_eq!(index.find_all_channels_by_name("CAN_ID"), vec![(0, 1), (1, 1)]);
    let (g, c, ch) = index.get_channel_info_by_name("FD_Flags").unwrap();
    assert_eq!((g, c), (0, 3));
    assert_eq!(ch.bit_count, 8);

    let groups = index.list_channel_groups();
    assert_eq!(groups[1], (1, "CAN_0x00000200", 12));
    let channels = index.list_channels(0).unwrap();
    assert_eq!(channels[1].1, "CAN_ID");
    assert_eq!(*channels[1].2, DataType::UnsignedIntegerLE);
    assert!(index.list_channels(5).is_none());

    let start = g0.data_blocks[0].file_offset + 24;
    let ranges = index.get_channel_byte_ranges(0, 1).unwrap();
    assert_eq!(ranges, vec![(start + 8, 22 + 4)]);
    let ranges = index.get_channel_byte_ranges_for_records(0, 1, 1, 1).unwrap();
    assert_eq!(ranges, vec![(start + 22 + 8, 4)]);
    assert_eq!(index.get_channel_byte_summary(0, 0).unwrap(), (22 + 8, 1));
    assert_eq!(index.get_channel_byte_ranges_by_name("Data_0").unwrap(), vec![(start + 14, 23)]);
    assert!(matches!(
        index.get_channel_byte_ranges_for_records(0, 1, 2, 1),
        Err(Error::BlockSerializationError(_))
    ));
    assert!(matches!(index.get_channel_byte_ranges(3, 0), Err(Error::BlockSerializationError(_))));
    assert!(matches!(
        index.get_channel_byte_ranges_by_name("Nope"),
        Err(Error::BlockSerializationError(_))
    ));

    let raw = detect_raw_can_group(0, g0).unwrap();
    assert_eq!(raw.timestamp_channel, 0);
    assert_eq!(raw.can_id_channel, 1);
    assert_eq!(raw.dlc_channel, 2);
    assert_eq!(raw.ide_channel, None);
    assert_eq!(raw.data_channels, (4..12).collect::<Vec<usize>>());
    assert_eq!(raw.data_byte_count, 8);
}

fn channel(name: &str) -> IndexedChannel {
    IndexedChannel {
        name: Some(name.to_string()),
        unit: None,
        data_type: DataType::UnsignedIntegerLE,
        byte_offset: 0,
        bit_offset: 0,
        bit_count: 8,
        channel_type: 0,
        flags: 0,
        pos_invalidation_bit: 0,
        conversion: None,
        vlsd_data_address: None,
    }
}

fn group(names: &[&str]) -> IndexedChannelGroup {
    IndexedChannelGroup {
        name: None,
        comment: None,
        record_id_len: 0,
        record_size: 4,
        invalidation_bytes: 0,
        record_count: 0,
        channels: names.iter().map(|n| channel(n)).collect(),
        data_blocks: Vec::new(),
    }
}

#[test]
fn raw_group_detection_orders_data_channels() {
    let g = group(&["Data_2", "Timestamp", "Data_0", "CAN_ID", "DLC", "IDE", "Data_x", "Data_+1", "Data_0"]);
    let raw = detect_raw_can_group(4, &g).unwrap();
    assert_eq!(raw.group_index, 4);
    assert_eq!(raw.ide_channel, Some(5));
    assert_eq!(raw.data_channels, vec![8, 7, 0]);
    assert!(detect_raw_can_group(0, &group(&["Timestamp", "CAN_ID", "Data_0"])).is_none());
    assert!(detect_raw_can_group(0, &group(&["Timestamp", "CAN_ID", "DLC"])).is_none());
}

#[test]
fn statistics_of_frames() {
    let stats = overlay_statistics(&[(500, 0x100), (200, 0x200), (900, 0x100)], &[0x100, 0x300, 0x100]);
    assert_eq!(stats.total_frames, 3);
    assert_eq!(stats.unique_can_ids, 2);
    assert_eq!(stats.dbc_messages_found, 2);
    assert_eq!(stats.dbc_messages_total, 3);
    assert_eq!(stats.min_timestamp_us, 200);
    assert_eq!(stats.max_timestamp_us, 900);
    assert_eq!(stats.duration_us, 700);
    let empty = overlay_statistics(&[], &[1]);
    assert_eq!((empty.min_timestamp_us, empty.max_timestamp_us, empty.duration_us), (0, 0, 0));
}

#[test]
fn byte_ranges_span_several_blocks() {
    let mut g = group(&["A"]);
    g.record_size = 10;
    g.record_count = 7;
    g.channels[0].byte_offset = 3;
    g.channels[0].bit_count = 16;
    g.data_blocks = vec![
        DataBlockInfo { file_offset: 1000, size: 24 + 40, is_compressed: false },
        DataBlockInfo { file_offset: 5000, size: 24 + 30, is_compressed: false },
    ];
    let index = MdfIndex { file_size: 6000, channel_groups: vec![g] };
    let ranges = index.get_channel_byte_ranges_for_records(0, 0, 2, 4).unwrap();
    assert_eq!(ranges, vec![(1024 + 20 + 3, 10 + 2), (5024 + 3, 10 + 2)]);
    assert_eq!(index.get_channel_byte_summary(0, 0).unwrap(), (32 + 22, 2));
}

#[test]
fn compressed_block_fails_range_calculation() {
    let mut g = group(&["A"]);
    g.record_count = 1;
    g.data_blocks = vec![DataBlockInfo { file_offset: 100, size: 40, is_compressed: true }];
    let index = MdfIndex { file_size: 200, channel_groups: vec![g] };
    assert!(matches!(index.get_channel_byte_ranges(0, 0), Err(Error::BlockSerializationError(_))));
}

#[test]
fn fd_capture_is_indexed() {
    let mut logger = RawCanLogger::new().unwrap();
    logger.log_fd(0x10, 5, &[7u8; 20], FdFlags::new(true, true));
    let bytes = logger.finalize().unwrap();
    let len = bytes.len() as u64;
    let mut reader = MemoryReader { bytes };
    let index = MdfIndex::from_reader(&mut reader, len).unwrap();
    assert_eq!(index.channel_groups[0].channels.len(), 4 + 20);
    assert_eq!(index.channel_groups[0].record_size, 14 + 20);
}

#[test]
fn logged_frames_are_read_back_in_time_order() {
    let mut logger = RawCanLogger::new().unwrap();
    assert!(logger.log(0x100, 3000, &[1, 2, 3]));
    assert!(logger.log(0x200, 1000, &[9]));
    assert!(logger.log(0x100, 2000, &[4, 5, 6, 7, 8, 9, 10, 11]));
    let bytes = logger.finalize().unwrap();
    let len = bytes.len() as u64;
    let mut reader = MemoryReader { bytes };
    let index = MdfIndex::from_reader(&mut reader, len).unwrap();
    let groups: Vec<_> = index
        .channel_groups
        .iter()
        .enumerate()
        .filter_map(|(i, g)| detect_raw_can_group(i, g))
        .collect();
    assert_eq!(groups.len(), 2);
    let frames = read_raw_frames(&index, &groups, &mut reader).unwrap();
    assert_eq!(
        frames,
        vec![
            (1000, 0x200, false, vec![9]),
            (2000, 0x100, false, vec![4, 5, 6, 7, 8, 9, 10, 11]),
            (3000, 0x100, false, vec![1, 2, 3]),
        ]
    );
    assert!(read_raw_channel(&index, 5, 0, &mut reader).is_err());
    assert!(read_raw_channel(&index, 0, 99, &mut reader).is_err());
}

#[test]
fn frames_are_assembled_from_columns() {
    let ts = [Some(5), Some(6), None, Some(8)];
    let ids = [Some(0x123), Some(0x1_0000_0124), Some(1)];
    let dlcs = [Some(2), Some(9), Some(1), Some(1)];
    let ides = [Some(0), Some(1)];
    let cols = vec![vec![Some(0x1AA), Some(1)], vec![None, Some(2)], vec![Some(3), Some(3)]];
    let frames = assemble_raw_frames(&ts, &ids, &dlcs, &ides, &cols, 3);
    assert_eq!(frames, vec![(5, 0x123, false, vec![0xAA, 0]), (6, 0x124, true, vec![1, 2, 3])]);
}

#[test]
fn equal_timestamps_keep_their_order() {
    let frames = vec![(2, 1, false, vec![]), (1, 2, false, vec![]), (2, 3, false, vec![]), (1, 4, true, vec![1])];
    let sorted = sort_frames_by_timestamp(frames);
    let ids: Vec<u32> = sorted.iter().map(|f| f.1).collect();
    assert_eq!(ids, vec![2, 4, 1, 3]);
}

#[test]
fn channel_values_per_record() {
    let data = [0x01, 0xFF, 0x02, 0x80, 0x03];
    let unsigned = raw_channel_values(&data, 2, 1, 0, 8, DataType::UnsignedIntegerLE);
    assert_eq!(unsigned, vec![Some(0xFF), Some(0x80)]);
    let signed = raw_channel_values(&data, 2, 1, 0, 8, DataType::SignedIntegerLE);
    assert_eq!(signed, vec![Some(u64::MAX), Some((-128i64) as u64)]);
    assert!(raw_channel_values(&data, 0, 0, 0, 8, DataType::UnsignedIntegerLE).is_empty());
    assert_eq!(raw_channel_values(&data, 2, 0, 0, 8, DataType::FloatLE), vec![None, None]);
    assert_eq!(raw_channel_values(&data, 5, 3, 0, 64, DataType::UnsignedIntegerLE), vec![None]);
}

#[test]
fn reading_no_groups_gives_no_frames() {
    let mut logger = RawCanLogger::new().unwrap();
    assert!(logger.log(0x100, 1000, &[1]));
    let bytes = logger.finalize().unwrap();
    let len = bytes.len() as u64;
    let mut reader = MemoryReader { bytes };
    let index = MdfIndex::from_reader(&mut reader, len).unwrap();
    let frames = read_raw_frames(&index, &[], &mut reader).unwrap();
    assert!(frames.is_empty());
    assert!(read_raw_channel(&index, index.channel_groups.len(), 0, &mut reader).is_err());
}
