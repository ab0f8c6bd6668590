use mdf4_rs::blocks::{
    BlockParse, ChannelBlock, ChannelGroupBlock, ConversionBlock, ConversionType, DataBlock,
    DataGroupBlock, HeaderBlock, IdentificationBlock, TextBlock,
};
use mdf4_rs::writer::BlockId;
use mdf4_rs::{DataType, DecodedValue, Error, MdfWriter};

fn u64_at(b: &[u8], off: usize) -> u64 {
    u64::from_le_bytes(b[off..off + 8].try_into().unwrap())
}

fn channel(name: &str, data_type: DataType, bits: u32) -> ChannelBlock {
    let mut ch = ChannelBlock::default();
    ch.data_type = data_type;
    ch.name = Some(name.to_string());
    ch.bit_count = bits;
    ch
}

#[test]
fn init_places_identification_and_header() {
    let mut w = MdfWriter::new();
    let (id_pos, hd_pos) = w.init_mdf_file().unwrap();
    assert_eq!((id_pos, hd_pos), (0, 64));
    let bytes = w.finalize().unwrap();
    assert_eq!(bytes.len(), 168);
    assert_eq!(&bytes[0..8], b"MDF     ");
    let id = IdentificationBlock::from_bytes(&bytes[0..64]).unwrap();
    assert_eq!(id.file_identifier, "MDF     ");
    let hd = HeaderBlock::from_bytes(&bytes[64..]).unwrap();
    assert_eq!(hd.first_dg_addr, 0);
}

#[test]
fn group_channels_and_records_round_trip() {
    let mut w = MdfWriter::new();
    w.init_mdf_file().unwrap();
    let cg = w.add_channel_group(None, ChannelGroupBlock::default()).unwrap();
    w.set_channel_group_name(cg, "Engine").unwrap();
    let t = w
        .add_channel(cg, None, channel("Time", DataType::UnsignedIntegerLE, 64))
        .unwrap();
    w.set_time_channel(t).unwrap();
    w.set_channel_unit(t, "us").unwrap();
    let rpm = w
        .add_channel(cg, Some(t), channel("RPM", DataType::UnsignedIntegerBE, 16))
        .unwrap();
    let temp = w
        .add_channel(cg, Some(rpm), channel("Temp", DataType::SignedIntegerLE, 8))
        .unwrap();
    assert_eq!(temp, BlockId::Channel(2));

    w.start_data_block_for_cg(cg, 0).unwrap();
    w.write_record(
        cg,
        &[
            DecodedValue::UnsignedInteger(1000),
            DecodedValue::UnsignedInteger(0x1234),
            DecodedValue::SignedInteger(-2),
        ],
    )
    .unwrap();
    w.write_record(
        cg,
        &[
            DecodedValue::UnsignedInteger(2000),
            DecodedValue::UnsignedInteger(0xABCD),
            DecodedValue::SignedInteger(5),
        ],
    )
    .unwrap();
    w.finish_data_block(cg).unwrap();
    let bytes = w.finalize().unwrap();

    let hd = HeaderBlock::from_bytes(&bytes[64..]).unwrap();
    let dg = DataGroupBlock::from_bytes(&bytes[hd.first_dg_addr as usize..]).unwrap();
    let cgb = ChannelGroupBlock::from_bytes(&bytes[dg.first_cg_addr as usize..]).unwrap();
    assert_eq!(cgb.cycles_nr, 2);
    assert_eq!(cgb.samples_byte_nr, 11);
    let name = TextBlock::from_bytes(&bytes[cgb.acq_name_addr as usize..]).unwrap();
    assert_eq!(name.text, "Engine");

    let cn0 = ChannelBlock::from_bytes(&bytes[cgb.first_ch_addr as usize..]).unwrap();
    assert_eq!(cn0.channel_type, 2);
    assert_eq!(cn0.sync_type, 1);
    assert_eq!(cn0.bit_count, 64);
    let unit = TextBlock::from_bytes(&bytes[cn0.unit_addr as usize..]).unwrap();
    assert_eq!(unit.text, "us");
    let cn1 = ChannelBlock::from_bytes(&bytes[cn0.next_ch_addr as usize..]).unwrap();
    assert_eq!(cn1.byte_offset, 8);
    let cn2 = ChannelBlock::from_bytes(&bytes[cn1.next_ch_addr as usize..]).unwrap();
    assert_eq!(cn2.byte_offset, 10);
    let n2 = TextBlock::from_bytes(&bytes[cn2.name_addr as usize..]).unwrap();
    assert_eq!(n2.text, "Temp");

    let dt = DataBlock::from_bytes(&bytes[dg.data_block_addr as usize..]).unwrap();
    assert_eq!(dt.header.block_len, 24 + 22);
    let mut expected = Vec::new();
    expected.extend_from_slice(&1000u64.to_le_bytes());
    expected.extend_from_slice(&[0x12, 0x34, 0xFE]);
    expected.extend_from_slice(&2000u64.to_le_bytes());
    expected.extend_from_slice(&[0xAB, 0xCD, 0x05]);
    assert_eq!(dt.data, &expected[..]);
}

#[test]
fn writing_without_open_block_fails() {
    let mut w = MdfWriter::new();
    w.init_mdf_file().unwrap();
    let cg = w.add_channel_group(None, ChannelGroupBlock::default()).unwrap();
    let r = w.write_record(cg, &[DecodedValue::UnsignedInteger(1)]);
    assert!(matches!(r, Err(Error::BlockSerializationError(_))));
    let r = w.finish_data_block(cg);
    assert!(matches!(r, Err(Error::BlockSerializationError(_))));
    let r = w.start_data_block_for_cg(BlockId::ChannelGroup(9), 0);
    assert!(matches!(r, Err(Error::BlockLinkError(_))));
    w.start_data_block_for_cg(cg, 0).unwrap();
    let r = w.start_data_block_for_cg(cg, 0);
    assert!(matches!(r, Err(Error::BlockSerializationError(_))));
}

#[test]
fn link_to_unknown_block_fails() {
    let mut w = MdfWriter::new();
    w.init_mdf_file().unwrap();
    let r = w.update_block_link(BlockId::DataGroup(3), 24, BlockId::Header);
    assert!(matches!(r, Err(Error::BlockLinkError(_))));
    let r = w.update_link(1000, 5);
    assert!(matches!(r, Err(Error::BlockLinkError(_))));
}

#[test]
fn blocks_are_eight_byte_aligned() {
    let mut w = MdfWriter::new();
    assert_eq!(w.write_block(&[1, 2, 3]).unwrap(), 0);
    assert_eq!(w.write_block(&[4]).unwrap(), 8);
    assert_eq!(w.offset(), 9);
    assert_eq!(w.write_block_with_id(&[0; 64], BlockId::Header).unwrap(), 16);
    assert_eq!(w.get_block_position(BlockId::Header), Some(16));
    assert_eq!(w.get_block_position(BlockId::Identification), None);
}

#[test]
fn value_to_text_conversion_is_written_and_linked() {
    let mut w = MdfWriter::new();
    w.init_mdf_file().unwrap();
    let cg = w.add_channel_group(None, ChannelGroupBlock::default()).unwrap();
    let ch = w
        .add_channel(cg, None, channel("Gear", DataType::UnsignedIntegerLE, 8))
        .unwrap();
    let (id, pos) = w
        .add_value_to_text_conversion(&[(0, "Park"), (3, "Drive")], "", Some(ch))
        .unwrap();
    assert_eq!(id, BlockId::Conversion(0));
    let ch_pos = w.get_block_position(ch).unwrap();
    let bytes = w.finalize().unwrap();
    assert_eq!(u64_at(&bytes, ch_pos as usize + 56), pos);
    let cc = ConversionBlock::from_bytes(&bytes[pos as usize..]).unwrap();
    assert_eq!(cc.cc_type, ConversionType::ValueToText);
    assert_eq!(cc.cc_val, vec![0f64.to_bits(), 3f64.to_bits()]);
    assert_eq!(cc.cc_ref.len(), 3);
    assert_eq!(cc.cc_ref_count, 3);
    assert_eq!(cc.cc_val_count, 2);
    let t = TextBlock::from_bytes(&bytes[cc.cc_ref[1] as usize..]).unwrap();
    assert_eq!(t.text, "Drive");
}
