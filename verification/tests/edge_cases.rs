use mdf4_rs::blocks::{read_string_block, BlockParse, ConversionBlock, IdentificationBlock};
use mdf4_rs::can::raw_frames::{keep_valid_values, read_channel_record_bytes, read_raw_frames, sample_is_valid, split_records};
use mdf4_rs::can::overlay::{detect_raw_can_group, raw_groups_of};
use mdf4_rs::can::{extract_signal_raw, sign_extend, ByteOrder, FdFlags, RawCanLogger};
use mdf4_rs::index::ImageReader;
use mdf4_rs::blocks::DataGroupBlock;
use mdf4_rs::parsing::RawDataGroup;
use mdf4_rs::{Error, MdfIndex, MdfWriter};

#[test]
fn unfinalized_identifier_is_refused() {
    let mut w = MdfWriter::new();
    w.init_mdf_file().unwrap();
    let image = w.finalize().unwrap();
    let mut unfin = image[0..64].to_vec();
    unfin[0..8].copy_from_slice(b"UnFinMF ");
    match IdentificationBlock::from_bytes(&unfin) {
        Err(Error::FileIdentifierError(id)) => assert_eq!(id, "UnFinMF "),
        _ => panic!("an unfinalized file must be refused"),
    }
}

#[test]
fn old_version_error_carries_the_version() {
    let mut w = MdfWriter::new();
    w.init_mdf_file().unwrap();
    let image = w.finalize().unwrap();
    let mut old = image[0..64].to_vec();
    old[8..16].copy_from_slice(b"3.30    ");
    match IdentificationBlock::from_bytes(&old) {
        Err(Error::FileVersioningError(v)) => assert_eq!(v, "330"),
        _ => panic!("version 3.30 must be refused"),
    }
}

#[test]
fn a_small_fd_frame_counts_as_fd() {
    let mut l = RawCanLogger::new().unwrap();
    assert!(!l.has_fd_frames());
    assert!(l.log_fd(0x100, 1000, &[1, 2, 3, 4], FdFlags::new(true, false)));
    assert!(l.has_fd_frames());
    assert_eq!(l.max_data_length(), 8);
    assert_eq!(l.frame_count(0x100), 1);
    assert_eq!(l.frame_count(0x300), 0);
}

#[test]
fn sixty_four_bit_signals() {
    let data = [0x01, 0x02, 0x03, 0x04, 0x05, 0x06, 0x07, 0x88];
    assert_eq!(extract_signal_raw(&data, 0, 64, ByteOrder::LittleEndian), 0x8807_0605_0403_0201);
    assert_eq!(sign_extend(0xFFFF_FFFF_FFFF_FFFF, 64), -1);
    assert_eq!(sign_extend(0x8000_0000_0000_0000, 64), i64::MIN);
    assert_eq!(sign_extend(0x7FFF_FFFF_FFFF_FFFF, 64), i64::MAX);
}

#[test]
fn a_text_block_past_the_image_is_an_error() {
    let image = vec![0u8; 40];
    assert!(matches!(read_string_block(&image, 30), Err(Error::TooShortBuffer { .. })));
    assert!(matches!(read_string_block(&image, 100), Err(Error::TooShortBuffer { .. })));
    assert_eq!(read_string_block(&image, 0).unwrap(), None);
}

#[test]
fn long_conversion_chains_resolve() {
    let mut w = MdfWriter::new();
    w.init_mdf_file().unwrap();
    let mut positions = Vec::new();
    for _ in 0..25 {
        let (_, pos) = w.add_value_to_text_conversion(&[(1, "On")], "", None).unwrap();
        positions.push(pos);
    }
    let mut image = w.finalize().unwrap();
    // make the first reference of each conversion lead to the next one
    for k in 0..24 {
        let first_ref = positions[k] as usize + 24 + 4 * 8;
        image[first_ref..first_ref + 8].copy_from_slice(&positions[k + 1].to_le_bytes());
    }
    let mut cc = ConversionBlock::from_bytes(&image[positions[0] as usize..]).unwrap();
    cc.resolve_all_dependencies_with_address(&image, positions[0]).unwrap();
    let mut depth = 0;
    let mut current = cc;
    while let Some(mut nested) = current.resolved_conversions.take() {
        assert_eq!(nested.len(), 1);
        let (index, next) = nested.remove(0);
        assert_eq!(index, 0);
        current = *next;
        depth += 1;
    }
    assert_eq!(depth, 24);
}

#[test]
fn a_cycle_deep_in_a_chain_names_its_address() {
    let mut w = MdfWriter::new();
    w.init_mdf_file().unwrap();
    let mut positions = Vec::new();
    for _ in 0..3 {
        let (_, pos) = w.add_value_to_text_conversion(&[(1, "On")], "", None).unwrap();
        positions.push(pos);
    }
    let mut image = w.finalize().unwrap();
    // first -> second -> third -> second
    let links = [(0, positions[1]), (1, positions[2]), (2, positions[1])];
    for (k, target) in links {
        let first_ref = positions[k] as usize + 24 + 4 * 8;
        image[first_ref..first_ref + 8].copy_from_slice(&target.to_le_bytes());
    }
    let mut cc = ConversionBlock::from_bytes(&image[positions[0] as usize..]).unwrap();
    let r = cc.resolve_all_dependencies_with_address(&image, positions[0]);
    assert!(matches!(r, Err(Error::ConversionChainCycle { address }) if address == positions[1]));
}

#[test]
fn frames_of_ids_first_logged_after_a_flush_are_written() {
    let mut l = RawCanLogger::new().unwrap();
    assert!(l.log(0x100, 1000, &[1]));
    l.flush().unwrap();
    assert!(l.log(0x200, 2000, &[2]));
    let bytes = l.finalize().unwrap();
    let len = bytes.len() as u64;
    let mut reader = ImageReader::new(bytes);
    let index = MdfIndex::from_reader(&mut reader, len).unwrap();
    assert_eq!(index.channel_groups.len(), 2);
    let names: Vec<Vec<String>> = index
        .channel_groups
        .iter()
        .map(|g| g.channels.iter().map(|c| c.name.clone().unwrap_or_default()).collect())
        .collect();
    for n in &names {
        assert_eq!(&n[0..4], &["Timestamp", "CAN_ID", "DLC", "FD_Flags"]);
        assert_eq!(n[4], "Data_0");
    }
    let groups: Vec<_> = index
        .channel_groups
        .iter()
        .enumerate()
        .filter_map(|(i, g)| detect_raw_can_group(i, g))
        .collect();
    let frames = read_raw_frames(&index, &groups, &mut reader).unwrap();
    let seen: Vec<(u64, u32)> = frames.iter().map(|f| (f.0, f.1)).collect();
    assert_eq!(seen, vec![(1000, 0x100), (2000, 0x200)]);
}

#[test]
fn raw_groups_are_found_in_group_order() {
    let mut l = RawCanLogger::new().unwrap();
    assert!(l.log(0x300, 10, &[3]));
    assert!(l.log(0x100, 20, &[1]));
    let bytes = l.finalize().unwrap();
    let len = bytes.len() as u64;
    let mut reader = ImageReader::new(bytes);
    let index = MdfIndex::from_reader(&mut reader, len).unwrap();
    let groups = raw_groups_of(&index).unwrap();
    let found: Vec<usize> = groups.iter().map(|g| g.group_index).collect();
    assert_eq!(found, vec![0, 1]);
    assert_eq!(groups[0].data_byte_count, 8);
    let names: Vec<Option<String>> = index.channel_groups.iter().map(|g| g.name.clone()).collect();
    assert_eq!(names, vec![Some("CAN_0x100".to_string()), Some("CAN_0x300".to_string())]);
}

#[test]
fn an_index_without_raw_groups_is_refused() {
    let index = MdfIndex { file_size: 0, channel_groups: Vec::new() };
    assert!(matches!(raw_groups_of(&index), Err(Error::BlockSerializationError(_))));
}

#[test]
fn records_are_split_whole() {
    assert_eq!(split_records(&[1, 2, 3, 4, 5], 2), vec![vec![1, 2], vec![3, 4]]);
    assert!(split_records(&[1, 2, 3], 0).is_empty());
    assert!(split_records(&[1, 2, 3], 4).is_empty());
}

#[test]
fn channel_records_come_back_from_the_image() {
    let mut l = RawCanLogger::new().unwrap();
    assert!(l.log(0x100, 1000, &[7]));
    assert!(l.log(0x100, 2000, &[9, 8]));
    let bytes = l.finalize().unwrap();
    let len = bytes.len() as u64;
    let mut reader = ImageReader::new(bytes);
    let index = MdfIndex::from_reader(&mut reader, len).unwrap();
    let records = read_channel_record_bytes(&index, 0, 0, &mut reader).unwrap();
    assert_eq!(records.len(), 2);
    assert_eq!(records[0].len(), 22);
    assert_eq!(&records[0][0..8], &1000u64.to_le_bytes());
    assert_eq!(&records[0][8..12], &0x100u32.to_le_bytes());
    assert_eq!(records[0][14], 7);
    assert_eq!(&records[1][0..8], &2000u64.to_le_bytes());
    assert_eq!(&records[1][14..16], &[9, 8]);
    assert!(read_channel_record_bytes(&index, 5, 0, &mut reader).is_err());
}

#[test]
fn shared_group_is_named_raw_can() {
    let mut l = RawCanLogger::new().unwrap();
    l.set_group_by_id(false);
    assert!(l.log(0x300, 10, &[3]));
    assert!(l.log(0x100, 20, &[1]));
    let bytes = l.finalize().unwrap();
    let len = bytes.len() as u64;
    let mut reader = ImageReader::new(bytes);
    let index = MdfIndex::from_reader(&mut reader, len).unwrap();
    assert_eq!(index.channel_groups.len(), 1);
    assert_eq!(index.channel_groups[0].name.as_deref(), Some("RawCAN"));
}

#[test]
fn a_non_text_identifier_is_refused() {
    let mut bytes = vec![0u8; 64];
    bytes[0..8].copy_from_slice(&[0xFF, 0xFE, b'M', b'D', b'F', b' ', b' ', b' ']);
    assert!(matches!(IdentificationBlock::from_bytes(&bytes), Err(Error::FileIdentifierError(_))));
}

#[test]
fn an_unexpected_data_link_names_both_identifiers() {
    let mut image = vec![0u8; 64];
    image.extend_from_slice(b"##TX");
    image.extend_from_slice(&[0u8; 4]);
    image.extend_from_slice(&24u64.to_le_bytes());
    image.extend_from_slice(&0u64.to_le_bytes());
    let mut dg = DataGroupBlock::default();
    dg.data_block_addr = 64;
    let group = RawDataGroup { block: dg, channel_groups: Vec::new() };
    match group.data_blocks(&image) {
        Err(Error::BlockIDError { actual, expected }) => {
            assert_eq!(actual, "##TX");
            assert_eq!(expected, "##DT / ##DV / ##DL");
        },
        _ => panic!("expected a block identifier error"),
    }
}

#[test]
fn index_names_units_and_data_blocks_come_from_the_file() {
    let mut l = RawCanLogger::new().unwrap();
    assert!(l.log(0x100, 1000, &[7]));
    l.flush().unwrap();
    assert!(l.log(0x100, 2000, &[8]));
    let bytes = l.finalize().unwrap();
    let len = bytes.len() as u64;
    let mut reader = ImageReader::new(bytes);
    let index = MdfIndex::from_reader(&mut reader, len).unwrap();
    let group = &index.channel_groups[0];
    assert_eq!(group.name.as_deref(), Some("CAN_0x100"));
    assert_eq!(group.channels[0].name.as_deref(), Some("Timestamp"));
    assert_eq!(group.channels[0].unit.as_deref(), Some("us"));
    assert_eq!(group.channels[1].unit, None);
    assert!(!group.data_blocks.is_empty());
    assert!(group.data_blocks.iter().all(|d| !d.is_compressed && d.size >= 24));
}

#[test]
fn invalidation_bits_take_samples_out() {
    let record = [0u8, 0, 0b100];
    assert!(!sample_is_valid(&record, 2, 2, 2));
    assert!(sample_is_valid(&record, 2, 2, 1));
    assert!(sample_is_valid(&record, 2, 0, 2));
    assert!(!sample_is_valid(&record, 2, 1, 1));
    assert!(sample_is_valid(&record, 2, 2, 40));
    let data = [7u8, 0, 0b1, 9, 0, 0];
    assert_eq!(keep_valid_values(&data, 3, vec![Some(7), Some(9)], 2, 2, 0), vec![None, Some(9)]);
}

#[test]
fn an_fd_payload_reads_back_within_the_group_data_bytes() {
    let mut l = RawCanLogger::new().unwrap();
    let payload: Vec<u8> = (1..=13).collect();
    assert!(l.log_fd(0x123, 500, &payload, FdFlags::new(true, false)));
    assert!(l.log(0x124, 600, &[9, 8, 7]));
    let bytes = l.finalize().unwrap();
    let len = bytes.len() as u64;
    let mut reader = ImageReader::new(bytes);
    let index = MdfIndex::from_reader(&mut reader, len).unwrap();
    let groups = raw_groups_of(&index).unwrap();
    let frames = read_raw_frames(&index, &groups, &mut reader).unwrap();
    assert_eq!(frames.len(), 2);
    assert_eq!((frames[0].0, frames[0].1, frames[0].2), (500, 0x123, false));
    // the length code of 13 bytes stands for 16; the group has 13 data bytes
    assert_eq!(frames[0].3, payload);
    assert_eq!((frames[1].0, frames[1].1), (600, 0x124));
    assert_eq!(frames[1].3, vec![9, 8, 7]);
}
