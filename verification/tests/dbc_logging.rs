use mdf4_rs::blocks::{BlockHeader, ConversionBlock, ConversionType, DataType};
use mdf4_rs::can::dbc_logger::{dbc_message_id, DbcMdfLogger, DbcMessage, DecodedSignal, SignalInfo};
use mdf4_rs::can::DbcMdfLoggerConfig;

fn signal(name: &str, data_type: DataType, bits: u32, unsigned: bool) -> SignalInfo {
    SignalInfo {
        name: name.to_string(),
        data_type,
        bit_count: bits,
        unit: Some("rpm".to_string()),
        min: 0f64.to_bits(),
        max: 8000f64.to_bits(),
        conversion: None,
        unsigned,
        value_descriptions: None,
    }
}

fn message(id: u32, signals: Vec<SignalInfo>) -> DbcMessage {
    DbcMessage { id, name: "Engine".to_string(), sender: "ECM".to_string(), signals }
}

fn decoded(name: &str, raw: i64, value: f64) -> DecodedSignal {
    DecodedSignal { name: name.to_string(), raw_value: raw, value: value.to_bits() }
}

fn holds(image: &[u8], bytes: &[u8]) -> bool {
    image.windows(bytes.len()).any(|w| w == bytes)
}

#[test]
fn extended_identifiers_carry_the_top_bit() {
    assert_eq!(dbc_message_id(0x123, false), 0x123);
    assert_eq!(dbc_message_id(0x123, true), 0x8000_0123);
}

#[test]
fn messages_with_signals_get_buffers() {
    let messages = vec![
        message(512, vec![signal("A", DataType::UnsignedIntegerLE, 8, true)]),
        message(300, Vec::new()),
        message(256, vec![signal("RPM", DataType::UnsignedIntegerLE, 16, true)]),
        message(512, vec![signal("B", DataType::UnsignedIntegerLE, 8, true), signal("C", DataType::UnsignedIntegerLE, 8, true)]),
    ];
    let logger = DbcMdfLogger::new(DbcMdfLoggerConfig::default(), messages);
    assert_eq!(logger.can_ids(), vec![256, 512]);
    assert_eq!(logger.message_count(), 2);
    assert_eq!(logger.total_signal_count(), 3);
    assert_eq!(logger.frame_count(256), 0);
    assert!(!logger.config().store_raw_values);
}

#[test]
fn physical_values_are_logged_and_written() {
    let messages = vec![message(256, vec![signal("RPM", DataType::UnsignedIntegerLE, 16, true)])];
    let mut logger = DbcMdfLogger::new(DbcMdfLoggerConfig::default(), messages);
    assert!(logger.log_decoded(256, 1000, &[decoded("RPM", 8000, 2000.0)]));
    assert!(logger.log_decoded(256, 2000, &[decoded("Other", 1, 1.0)]));
    assert!(!logger.log_decoded(257, 3000, &[decoded("RPM", 1, 1.0)]));
    assert_eq!(logger.frame_count(256), 2);
    assert_eq!(logger.frame_count(257), 0);
    let image = logger.finalize().unwrap();
    assert_eq!(&image[0..3], b"MDF");
    let mut records = 1000u64.to_le_bytes().to_vec();
    records.extend_from_slice(&2000f64.to_bits().to_le_bytes());
    records.extend_from_slice(&2000u64.to_le_bytes());
    records.extend_from_slice(&0u64.to_le_bytes());
    assert!(holds(&image, &records));
    assert!(holds(&image, b"Time_0x100"));
    assert!(holds(&image, b"Engine"));
}

#[test]
fn raw_values_are_logged_with_their_signedness() {
    let mut config = DbcMdfLoggerConfig::default();
    config.store_raw_values = true;
    let messages = vec![message(
        256,
        vec![signal("RPM", DataType::UnsignedIntegerLE, 16, true), signal("Temp", DataType::SignedIntegerLE, 8, false)],
    )];
    let mut logger = DbcMdfLogger::new(config, messages);
    assert!(logger.log_decoded(256, 7, &[decoded("Temp", -10, -10.0), decoded("RPM", 8000, 2000.0)]));
    logger.flush().unwrap();
    assert_eq!(logger.frame_count(256), 0);
    let image = logger.finalize().unwrap();
    let mut record = 7u64.to_le_bytes().to_vec();
    record.extend_from_slice(&8000u16.to_le_bytes());
    record.push(0xF6);
    assert!(holds(&image, &record));
}

/// A signal as the logger keeps one of a DBC database: integer width
/// rounded up to 8, 16, 32 or 64 bits, a linear conversion unless the
/// factor is 1 and the offset 0.
fn dbc_signal(name: &str, length: u32, unsigned: bool, factor: f64, offset: f64, min: f64, max: f64, unit: &str) -> SignalInfo {
    let bit_count = if length <= 8 {
        8
    } else if length <= 16 {
        16
    } else if length <= 32 {
        32
    } else {
        64
    };
    let conversion = if factor != 1.0 || offset != 0.0 {
        Some(ConversionBlock {
            header: BlockHeader { id: "##CC".to_string(), reserved0: 0, block_len: 0, links_nr: 0 },
            cc_tx_name: None,
            cc_md_unit: None,
            cc_md_comment: None,
            cc_cc_inverse: None,
            cc_ref: Vec::new(),
            cc_type: ConversionType::Linear,
            cc_precision: 0,
            cc_flags: 0,
            cc_ref_count: 0,
            cc_val_count: 2,
            cc_phy_range_min: None,
            cc_phy_range_max: None,
            cc_val: vec![offset.to_bits(), factor.to_bits()],
            formula: None,
            resolved_texts: None,
            resolved_conversions: None,
            default_conversion: None,
        })
    } else {
        None
    };
    SignalInfo {
        name: name.to_string(),
        data_type: if unsigned { DataType::UnsignedIntegerLE } else { DataType::SignedIntegerLE },
        bit_count,
        unit: if unit.is_empty() { None } else { Some(unit.to_string()) },
        min: min.to_bits(),
        max: max.to_bits(),
        conversion,
        unsigned,
        value_descriptions: None,
    }
}

/// `BO_ 256 Engine : 8 ECM` with `SG_ RPM : 0|16@1+ (0.25,0) [0|8000] "rpm"`.
fn engine_rpm() -> Vec<DbcMessage> {
    vec![DbcMessage {
        id: 256,
        name: "Engine".to_string(),
        sender: "ECM".to_string(),
        signals: vec![dbc_signal("RPM", 16, true, 0.25, 0.0, 0.0, 8000.0, "rpm")],
    }]
}

/// The engine message with `SG_ Temp : 16|8@1- (1,-40) [-40|215] "C"` too.
fn engine_rpm_temp() -> Vec<DbcMessage> {
    let mut m = engine_rpm();
    m[0].signals.push(dbc_signal("Temp", 8, false, 1.0, -40.0, -40.0, 215.0, "C"));
    m
}

/// What decoding `[0x40, 0x1F, 0x5A, ..]` with the engine message gives:
/// RPM raw 8000 (2000 rpm), Temp raw 90 (50 C).
fn engine_frame() -> Vec<DecodedSignal> {
    vec![decoded("RPM", 8000, 2000.0), decoded("Temp", 90, 50.0)]
}

#[test]
fn can_test_dbc_mdf_logger() {
    let mut logger = DbcMdfLogger::new(DbcMdfLoggerConfig::default(), engine_rpm());
    let frame = vec![decoded("RPM", 8000, 2000.0)];
    assert!(logger.log_decoded(dbc_message_id(256, false), 1000, &frame));
    assert!(logger.log_decoded(dbc_message_id(256, false), 2000, &frame));
    assert_eq!(logger.frame_count(256), 2);
    let mdf_bytes = logger.finalize().unwrap();
    assert!(!mdf_bytes.is_empty());
    assert_eq!(&mdf_bytes[0..3], b"MDF");
}

#[test]
fn dbc_logger_test_dbc_mdf_logger() {
    let mut logger = DbcMdfLogger::new(DbcMdfLoggerConfig::default(), engine_rpm());
    let frame = vec![decoded("RPM", 8000, 2000.0)];
    assert!(logger.log_decoded(256, 1000, &frame));
    assert!(logger.log_decoded(256, 2000, &frame));
    assert_eq!(logger.frame_count(256), 2);
    let mdf_bytes = logger.finalize().unwrap();
    assert!(!mdf_bytes.is_empty());
    assert_eq!(&mdf_bytes[0..3], b"MDF");
}

#[test]
fn test_dbc_mdf_logger_raw_mode() {
    let mut config = DbcMdfLoggerConfig::default();
    config.store_raw_values = true;
    let mut logger = DbcMdfLogger::new(config, engine_rpm_temp());
    assert!(logger.log_decoded(256, 1000, &engine_frame()));
    assert_eq!(logger.frame_count(256), 1);
    assert_eq!(logger.total_signal_count(), 2);
    let mdf_bytes = logger.finalize().unwrap();
    assert!(!mdf_bytes.is_empty());
}

#[test]
fn test_dbc_mdf_logger_multiple_signals() {
    let mut logger = DbcMdfLogger::new(DbcMdfLoggerConfig::default(), engine_rpm_temp());
    assert!(logger.log_decoded(256, 1000, &engine_frame()));
    assert_eq!(logger.frame_count(256), 1);
    let mdf_bytes = logger.finalize().unwrap();
    assert!(!mdf_bytes.is_empty());
}

#[test]
fn test_dbc_mdf_logger_unknown_message() {
    let mut logger = DbcMdfLogger::new(DbcMdfLoggerConfig::default(), engine_rpm());
    assert!(!logger.log_decoded(999, 1000, &[]));
    assert_eq!(logger.frame_count(999), 0);
}

#[test]
fn test_builder_configuration() {
    let config = DbcMdfLoggerConfig {
        store_raw_values: true,
        include_units: true,
        include_limits: true,
        include_conversions: true,
        include_value_descriptions: true,
    };
    let messages = vec![DbcMessage {
        id: 100,
        name: "TestMsg".to_string(),
        sender: "Vector__XXX".to_string(),
        signals: vec![dbc_signal("TestSig", 16, true, 1.0, 0.0, 0.0, 65535.0, "units")],
    }];
    let logger = DbcMdfLogger::with_capacity(config, messages, 1024);
    assert!(logger.config().store_raw_values);
    assert!(logger.config().include_units);
    assert!(logger.config().include_limits);
    assert!(logger.config().include_conversions);
}

#[test]
fn test_value_descriptions_to_text() {
    let mut gear = dbc_signal("GearPosition", 8, true, 1.0, 0.0, 0.0, 5.0, "");
    gear.value_descriptions = Some(vec![
        (0, "Park".to_string()),
        (1, "Reverse".to_string()),
        (2, "Neutral".to_string()),
        (3, "Drive".to_string()),
        (4, "Sport".to_string()),
    ]);
    let messages = vec![DbcMessage { id: 256, name: "Transmission".to_string(), sender: "ECM".to_string(), signals: vec![gear] }];
    let mut config = DbcMdfLoggerConfig::default();
    config.store_raw_values = true;
    config.include_value_descriptions = true;
    let mut logger = DbcMdfLogger::new(config, messages);
    assert!(logger.log_decoded(256, 1000, &[decoded("GearPosition", 0, 0.0)]));
    assert!(logger.log_decoded(256, 2000, &[decoded("GearPosition", 3, 3.0)]));
    assert!(logger.log_decoded(256, 3000, &[decoded("GearPosition", 2, 2.0)]));
    assert_eq!(logger.frame_count(256), 3);
    assert!(logger.config().include_value_descriptions);
    let mdf_bytes = logger.finalize().unwrap();
    assert!(!mdf_bytes.is_empty());
    assert_eq!(&mdf_bytes[0..3], b"MDF");
    assert!(holds(&mdf_bytes, b"Park"));
    assert!(holds(&mdf_bytes, b"Drive"));
}

#[test]
fn test_channel_group_naming_and_source() {
    let messages = vec![
        DbcMessage {
            id: 256,
            name: "Engine".to_string(),
            sender: "ECM".to_string(),
            signals: vec![dbc_signal("RPM", 16, true, 1.0, 0.0, 0.0, 8000.0, "rpm")],
        },
        DbcMessage {
            id: 512,
            name: "Transmission".to_string(),
            sender: "TCM".to_string(),
            signals: vec![dbc_signal("Gear", 8, true, 1.0, 0.0, 0.0, 5.0, "")],
        },
    ];
    let mut logger = DbcMdfLogger::new(DbcMdfLoggerConfig::default(), messages);
    assert!(logger.log_decoded(256, 1000, &[decoded("RPM", 0x1000, 4096.0)]));
    assert!(logger.log_decoded(512, 1000, &[decoded("Gear", 3, 3.0)]));
    let mdf_bytes = logger.finalize().unwrap();
    assert!(!mdf_bytes.is_empty());
    for text in [&b"Engine"[..], b"ECM", b"Transmission", b"TCM"] {
        assert!(holds(&mdf_bytes, text));
    }
}
