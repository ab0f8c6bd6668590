use mdf4_rs::blocks::{
    read_source_block, read_string_block, BlockHeader, BlockParse, ChannelBlock, ConversionBlock,
    ConversionType, DataListBlock, IdentificationBlock, SourceBlock, TextBlock,
};
use mdf4_rs::can::fd::{dlc_to_len, len_to_dlc};
use mdf4_rs::can::{extract_signal_raw, sign_extend, ByteOrder, FdFlags, TimestampedFrame};
use mdf4_rs::float_bits::i64_to_f64_bits;
use mdf4_rs::parsing::RawDataGroup;
use mdf4_rs::blocks::DataGroupBlock;
use mdf4_rs::writer::BlockId;
use mdf4_rs::{Error, MdfWriter};

fn header(id: &[u8; 4], len: u64, links: u64) -> Vec<u8> {
    let mut b = id.to_vec();
    b.extend_from_slice(&0u32.to_le_bytes());
    b.extend_from_slice(&len.to_le_bytes());
    b.extend_from_slice(&links.to_le_bytes());
    b
}

#[test]
fn motorola_signals() {
    let data = [0x12, 0x34, 0x56, 0x78];
    assert_eq!(extract_signal_raw(&data, 7, 16, ByteOrder::BigEndian), 0x1234);
    assert_eq!(extract_signal_raw(&data, 3, 8, ByteOrder::BigEndian), 0x23);
    assert_eq!(extract_signal_raw(&data, 31, 8, ByteOrder::BigEndian), 0x78);
    assert_eq!(extract_signal_raw(&data, 31, 16, ByteOrder::BigEndian), 0x78);
    let all = [0xFFu8; 8];
    assert_eq!(extract_signal_raw(&all, 7, 64, ByteOrder::BigEndian), u64::MAX);
}

#[test]
fn intel_signals_edge_cases() {
    let data = [0xFF, 0x01];
    assert_eq!(extract_signal_raw(&data, 4, 8, ByteOrder::LittleEndian), 0x1F);
    assert_eq!(extract_signal_raw(&data, 8, 16, ByteOrder::LittleEndian), 0x01);
    assert_eq!(extract_signal_raw(&[], 0, 8, ByteOrder::LittleEndian), 0);
    assert_eq!(extract_signal_raw(&data, 0, 0, ByteOrder::LittleEndian), 0);
    assert_eq!(extract_signal_raw(&data, 0, 65, ByteOrder::BigEndian), 0);
}

#[test]
fn sign_extension_edges() {
    assert_eq!(sign_extend(0x800, 12), -2048);
    assert_eq!(sign_extend(0x7FF, 12), 2047);
    assert_eq!(sign_extend(1, 1), -1);
    assert_eq!(sign_extend(0x4000_0000_0000_0000, 63), -0x4000_0000_0000_0000);
    assert_eq!(sign_extend(0x8000_0000_0000_0000, 63), i64::MIN);
    assert_eq!(sign_extend(5, 64), 5);
}

#[test]
fn data_length_codes() {
    let lens = [0usize, 1, 8, 9, 12, 13, 16, 20, 24, 25, 32, 33, 48, 49, 64, 100];
    let codes = [0u8, 1, 8, 9, 9, 10, 10, 11, 12, 13, 13, 14, 14, 15, 15, 15];
    for (l, c) in lens.iter().zip(codes.iter()) {
        assert_eq!(len_to_dlc(*l), *c);
    }
    let sizes = [0usize, 1, 2, 3, 4, 5, 6, 7, 8, 12, 16, 20, 24, 32, 48, 64];
    for dlc in 0u8..16 {
        assert_eq!(dlc_to_len(dlc), sizes[dlc as usize]);
        assert_eq!(len_to_dlc(dlc_to_len(dlc)), dlc);
    }
    assert_eq!(dlc_to_len(200), 64);
}

#[test]
fn fd_flags_round_trip() {
    for b in 0u8..=255 {
        let f = FdFlags::from_byte(b);
        assert_eq!(f.to_byte(), b & 3);
        let g = FdFlags::from_byte(f.to_byte());
        assert_eq!(g.brs(), f.brs());
        assert_eq!(g.esi(), f.esi());
    }
    let d = FdFlags::default();
    assert!(!d.brs() && !d.esi());
}

#[test]
fn timestamped_frame_keeps_its_parts() {
    let f = TimestampedFrame::new(42, "frame");
    assert_eq!(f.timestamp_us, 42);
    assert_eq!(f.frame, "frame");
}

#[test]
fn integers_as_binary64() {
    for v in [0i64, 1, -1, 2, 3, 255, -1000, 123456789, (1 << 53) - 1, -(1 << 53) + 1] {
        assert_eq!(i64_to_f64_bits(v), (v as f64).to_bits(), "{}", v);
    }
    for v in [(1i64 << 53) + 1, (1 << 53) + 3, i64::MAX, i64::MIN, -(1 << 60) - 12345, 0x7FFF_FFFF_FFFF_FC00] {
        assert_eq!(i64_to_f64_bits(v), (v as f64).to_bits(), "{}", v);
    }
}

#[test]
fn string_blocks_from_an_image() {
    let mut image = vec![0u8; 8];
    let t = TextBlock::new("hello");
    image.extend_from_slice(&t.to_bytes().unwrap());
    let mut md = header(b"##MD", 32, 0);
    md.extend_from_slice(b"<x/>\0\0\0\0");
    image.extend_from_slice(&md);
    image.extend_from_slice(&header(b"##DG", 24, 0));
    assert_eq!(read_string_block(&image, 0).unwrap(), None);
    assert_eq!(read_string_block(&image, 8).unwrap(), Some("hello".to_string()));
    assert_eq!(read_string_block(&image, 40).unwrap(), Some("<x/>".to_string()));
    assert_eq!(read_string_block(&image, 72).unwrap(), None);
}

#[test]
fn source_block_parsing() {
    let mut si = header(b"##SI", 56, 3);
    si.extend_from_slice(&100u64.to_le_bytes());
    si.extend_from_slice(&200u64.to_le_bytes());
    si.extend_from_slice(&0u64.to_le_bytes());
    si.extend_from_slice(&[1, 2, 1, 0, 0, 0, 0, 0]);
    let s = SourceBlock::from_bytes(&si).unwrap();
    assert_eq!((s.name_addr, s.path_addr, s.comment_addr), (100, 200, 0));
    assert_eq!((s.source_type, s.bus_type, s.flags), (1, 2, 1));
    let mut image = vec![0u8; 16];
    image.extend_from_slice(&si);
    let r = read_source_block(&image, 16).unwrap();
    assert_eq!(r.bus_type, 2);
    assert!(matches!(SourceBlock::from_bytes(&si[0..50]), Err(Error::TooShortBuffer { .. })));
    let mut wrong = si.clone();
    wrong[2] = b'X';
    assert!(matches!(SourceBlock::from_bytes(&wrong), Err(Error::BlockIDError { .. })));
}

#[test]
fn data_list_chain_is_followed() {
    let mut image = vec![0u8; 8];
    let dt1 = image.len() as u64;
    image.extend_from_slice(&header(b"##DT", 28, 0));
    image.extend_from_slice(&[1, 2, 3, 4]);
    let dt2 = image.len() as u64;
    image.extend_from_slice(&header(b"##DT", 26, 0));
    image.extend_from_slice(&[5, 6]);
    let dl = image.len() as u64;
    image.extend_from_slice(&header(b"##DL", 24 + 3 * 8 + 8, 3));
    image.extend_from_slice(&0u64.to_le_bytes());
    image.extend_from_slice(&dt1.to_le_bytes());
    image.extend_from_slice(&dt2.to_le_bytes());
    image.extend_from_slice(&[0, 0, 0, 0, 2, 0, 0, 0]);
    let list = DataListBlock::from_bytes(&image[dl as usize..]).unwrap();
    assert_eq!(list.data_links, vec![dt1, dt2]);
    assert_eq!(list.count, 2);

    let mut dg = DataGroupBlock::default();
    dg.data_block_addr = dl;
    let group = RawDataGroup { block: dg, channel_groups: Vec::new() };
    let blocks = group.data_blocks(&image).unwrap();
    assert_eq!(blocks.len(), 2);
    assert_eq!(blocks[0].data, &[1, 2, 3, 4]);
    assert_eq!(blocks[1].data, &[5, 6]);

    let mut cyclic = image.clone();
    let next_at = dl as usize + 24;
    cyclic[next_at..next_at + 8].copy_from_slice(&dl.to_le_bytes());
    let mut dg = DataGroupBlock::default();
    dg.data_block_addr = dl;
    let group = RawDataGroup { block: dg, channel_groups: Vec::new() };
    assert!(group.data_blocks(&cyclic).is_err());

    let mut dg = DataGroupBlock::default();
    dg.data_block_addr = 0;
    let empty = RawDataGroup { block: dg, channel_groups: Vec::new() };
    assert_eq!(empty.data_blocks(&image).unwrap().len(), 0);
}

#[test]
fn conversion_references_are_resolved() {
    let mut w = MdfWriter::new();
    w.init_mdf_file().unwrap();
    let (_, pos) = w
        .add_value_to_text_conversion(&[(1, "On"), (0, "Off")], "Unknown", None)
        .unwrap();
    assert!(w.get_block_position(BlockId::ConversionDefaultText(0)).is_some());
    let image = w.finalize().unwrap();
    let mut cc = ConversionBlock::from_bytes(&image[pos as usize..]).unwrap();
    cc.resolve_all_dependencies_with_address(&image, pos).unwrap();
    let texts = cc.resolved_texts.unwrap();
    let shown: Vec<(usize, &str)> = texts.iter().map(|(i, t)| (*i, t.as_str())).collect();
    assert_eq!(shown, vec![(0, "On"), (1, "Off"), (2, "Unknown")]);
    assert!(cc.resolved_conversions.is_none());
    assert_eq!(cc.cc_type, ConversionType::ValueToText);
}

#[test]
fn conversion_cycle_is_detected() {
    let mut w = MdfWriter::new();
    w.init_mdf_file().unwrap();
    let (_, pos) = w.add_value_to_text_conversion(&[(1, "On")], "", None).unwrap();
    let mut image = w.finalize().unwrap();
    // point the first reference of the conversion at the conversion itself
    let first_ref = pos as usize + 24 + 4 * 8;
    image[first_ref..first_ref + 8].copy_from_slice(&pos.to_le_bytes());
    let mut cc = ConversionBlock::from_bytes(&image[pos as usize..]).unwrap();
    let r = cc.resolve_all_dependencies_with_address(&image, pos);
    assert!(matches!(r, Err(Error::ConversionChainCycle { address }) if address == pos));
}

#[test]
fn identification_block_checks() {
    let mut w = MdfWriter::new();
    w.init_mdf_file().unwrap();
    let image = w.finalize().unwrap();
    let id = IdentificationBlock::from_bytes(&image[0..64]).unwrap();
    assert_eq!(IdentificationBlock::parse_block_version(id.version_identifier.as_bytes()).unwrap(), (4, 10));
    let mut old = image[0..64].to_vec();
    old[8..16].copy_from_slice(b"3.30    ");
    assert!(matches!(IdentificationBlock::from_bytes(&old), Err(Error::FileVersioningError(_))));
    let mut bad = image[0..64].to_vec();
    bad[0..8].copy_from_slice(b"XYZ     ");
    assert!(matches!(IdentificationBlock::from_bytes(&bad), Err(Error::FileIdentifierError(_))));
    assert!(matches!(IdentificationBlock::from_bytes(&bad[0..10]), Err(Error::TooShortBuffer { .. })));
    assert!(IdentificationBlock::can_parse(&image[0..64]));
    let mut invalid = image[0..64].to_vec();
    invalid[0] = 0xFF;
    assert!(IdentificationBlock::can_parse(&invalid));
    assert!(matches!(IdentificationBlock::from_bytes(&invalid), Err(Error::FileIdentifierError(_))));
}

#[test]
fn channel_name_is_resolved_from_its_text_block() {
    let mut image = vec![0u8; 8];
    image.extend_from_slice(&TextBlock::new("speed").to_bytes().unwrap());
    let dg_at = image.len() as u64;
    image.extend_from_slice(&header(b"##DG", 24, 0));

    let mut cn = ChannelBlock::default();
    cn.name_addr = 8;
    cn.resolve_name(&image).unwrap();
    assert_eq!(cn.name.as_deref(), Some("speed"));
    // a known name is kept
    cn.name_addr = dg_at;
    cn.resolve_name(&image).unwrap();
    assert_eq!(cn.name.as_deref(), Some("speed"));

    let mut unnamed = ChannelBlock::default();
    unnamed.resolve_name(&image).unwrap();
    assert_eq!(unnamed.name, None);
    unnamed.name_addr = image.len() as u64 - 8;
    unnamed.resolve_name(&image).unwrap();
    assert_eq!(unnamed.name, None);
    unnamed.name_addr = dg_at;
    assert!(matches!(unnamed.resolve_name(&image), Err(Error::BlockIDError { .. })));
    assert_eq!(unnamed.name, None);
}

#[test]
fn channel_conversion_is_resolved_with_its_formula() {
    let mut image = vec![0u8; 8];
    let tx_at = image.len() as u64;
    image.extend_from_slice(&TextBlock::new("X*2").to_bytes().unwrap());
    let cc = ConversionBlock {
        header: BlockHeader { id: "##CC".to_string(), reserved0: 0, block_len: 0, links_nr: 0 },
        cc_tx_name: None,
        cc_md_unit: None,
        cc_md_comment: None,
        cc_cc_inverse: None,
        cc_ref: vec![tx_at],
        cc_type: ConversionType::Algebraic,
        cc_precision: 0,
        cc_flags: 0,
        cc_ref_count: 1,
        cc_val_count: 0,
        cc_phy_range_min: None,
        cc_phy_range_max: None,
        cc_val: Vec::new(),
        formula: None,
        resolved_texts: None,
        resolved_conversions: None,
        default_conversion: None,
    };
    let cc_at = image.len() as u64;
    image.extend_from_slice(&cc.to_bytes().unwrap());

    let mut cn = ChannelBlock::default();
    cn.conversion_addr = cc_at;
    cn.resolve_conversion(&image).unwrap();
    let conv = cn.conversion.as_ref().unwrap();
    assert_eq!(conv.cc_type, ConversionType::Algebraic);
    assert_eq!(conv.cc_ref, vec![tx_at]);
    assert_eq!(conv.formula.as_deref(), Some("X*2"));

    let mut none = ChannelBlock::default();
    none.resolve_conversion(&image).unwrap();
    assert!(none.conversion.is_none());
    none.conversion_addr = image.len() as u64 - 10;
    assert!(matches!(none.resolve_conversion(&image), Err(Error::TooShortBuffer { .. })));
    none.conversion_addr = tx_at;
    assert!(matches!(none.resolve_conversion(&image), Err(Error::BlockIDError { .. })));
    assert!(none.conversion.is_none());
}

#[test]
fn resolved_references_are_looked_up_by_index() {
    let mut w = MdfWriter::new();
    w.init_mdf_file().unwrap();
    let (_, pos) = w
        .add_value_to_text_conversion(&[(1, "On"), (0, "Off")], "Unknown", None)
        .unwrap();
    let image = w.finalize().unwrap();
    let mut cc = ConversionBlock::from_bytes(&image[pos as usize..]).unwrap();
    assert_eq!(cc.get_resolved_text(0), None);
    cc.resolve_all_dependencies_with_address(&image, pos).unwrap();
    assert_eq!(cc.get_resolved_text(1).map(|t| t.as_str()), Some("Off"));
    assert_eq!(cc.get_resolved_text(2).map(|t| t.as_str()), Some("Unknown"));
    assert_eq!(cc.get_resolved_text(3), None);
    assert!(cc.get_resolved_conversion(0).is_none());
    assert!(cc.get_default_conversion().is_none());
}
