use ocdscope::rttsampler::{
    parse_scope_packet_structure, FieldValue, RTTScopePacketField,
};
use ocdscope::rttsampler::RTTScopePacketFieldType::{Boolean, Float, Signed, Unsigned};

#[test]
fn test_parse_packet_structure_1() {
    let packet_structure = parse_scope_packet_structure("JScope_T4F4F4").unwrap();

    assert_eq!(packet_structure.has_u32_us_time, true);
    assert_eq!(packet_structure.packet_size(), 12);
    assert_eq!(packet_structure.fields.len(), 2);
}

#[test]
fn test_parse_packet_structure_2() {
    let packet_structure = parse_scope_packet_structure("JScope_F4F4").unwrap();

    assert_eq!(packet_structure.has_u32_us_time, false);
    assert_eq!(packet_structure.packet_size(), 8);
    assert_eq!(packet_structure.fields.len(), 2);
}

#[test]
fn test_parse_packet_structure_3() {
    let packet_structure = parse_scope_packet_structure("JScope_T4B1F4I2U2").unwrap();

    assert_eq!(packet_structure.has_u32_us_time, true);
    assert_eq!(packet_structure.packet_size(), 4 + 1 + 4 + 2 + 2);
    assert_eq!(packet_structure.fields.len(), 4);
    assert_eq!(
        &packet_structure.fields,
        &[
            RTTScopePacketField { size: 1, type_: Boolean },
            RTTScopePacketField { size: 4, type_: Float },
            RTTScopePacketField { size: 2, type_: Signed },
            RTTScopePacketField { size: 2, type_: Unsigned }
        ]
    );
}

#[test]
fn schema_rejects_invalid_pairs() {
    assert!(parse_scope_packet_structure("JScope_F2").is_none());
    assert!(parse_scope_packet_structure("JScope_B4").is_none());
    assert!(parse_scope_packet_structure("JScope_X4").is_none());
    assert!(parse_scope_packet_structure("JScope_U3").is_none());
}

#[test]
fn schema_is_case_insensitive_and_ignores_a_last_character() {
    let p = parse_scope_packet_structure("scope_t4u4i1X").unwrap();
    assert!(p.has_u32_us_time);
    assert_eq!(
        p.fields,
        vec![
            RTTScopePacketField { size: 4, type_: Unsigned },
            RTTScopePacketField { size: 1, type_: Signed },
        ]
    );
    assert_eq!(p.packet_size(), 9);
}

#[test]
fn schema_without_underscore_uses_whole_name() {
    let p = parse_scope_packet_structure("F4").unwrap();
    assert!(!p.has_u32_us_time);
    assert_eq!(p.fields.len(), 1);
    let empty = parse_scope_packet_structure("JScope_").unwrap();
    assert_eq!(empty.fields.len(), 0);
    assert_eq!(empty.packet_size(), 0);
}

#[test]
fn decode_bytes_reads_little_endian_fields() {
    let p = parse_scope_packet_structure("JScope_T4B1F4I2U2").unwrap();
    let mut bytes = Vec::new();
    bytes.extend_from_slice(&1234u32.to_le_bytes());
    bytes.push(7);
    bytes.extend_from_slice(&1.5f32.to_le_bytes());
    bytes.extend_from_slice(&(-300i16).to_le_bytes());
    bytes.extend_from_slice(&65535u16.to_le_bytes());
    assert_eq!(bytes.len(), p.packet_size());
    let (time, values) = p.decode_bytes(&bytes).unwrap();
    assert_eq!(time, Some(1234));
    assert_eq!(values.len(), p.fields.len());
    assert_eq!(
        values,
        vec![
            FieldValue::Boolean(true),
            FieldValue::Float(1.5f32.to_bits()),
            FieldValue::Signed(-300),
            FieldValue::Unsigned(65535),
        ]
    );
}

#[test]
fn decode_signed_widths() {
    let p = parse_scope_packet_structure("x_I1I4B1").unwrap();
    let mut bytes = vec![0xffu8];
    bytes.extend_from_slice(&(-70000i32).to_le_bytes());
    bytes.push(0);
    let (time, values) = p.decode_bytes(&bytes).unwrap();
    assert_eq!(time, None);
    assert_eq!(
        values,
        vec![FieldValue::Signed(-1), FieldValue::Signed(-70000), FieldValue::Boolean(false)]
    );
}

#[test]
fn field_with_wrong_width_does_not_decode() {
    let f = RTTScopePacketField { size: 2, type_: Float };
    assert_eq!(f.decode(&[1, 2]), None);
    let g = RTTScopePacketField { size: 2, type_: Unsigned };
    assert_eq!(g.decode(&[1, 2, 3]), None);
    assert_eq!(g.decode(&[1, 2]), Some(FieldValue::Unsigned(513)));
    assert_eq!(RTTScopePacketField::parse("u2"), Some(g));
    assert_eq!(RTTScopePacketField::parse("u"), None);
}

use ocdscope::openocd::{RTTChannel, RTTChannelDirection};
use ocdscope::rttsampler::{find_scope_channel, nan_bits, schema_signals, take_packets, AutoSyncer};

#[test]
fn packets_are_split_whole() {
    let mut buffer = vec![1, 2, 3, 4, 5, 6, 7];
    let packets = take_packets(&mut buffer, 3);
    assert_eq!(packets, vec![vec![1, 2, 3], vec![4, 5, 6]]);
    assert_eq!(buffer, vec![7]);
}

#[test]
fn signals_of_schema() {
    let p = parse_scope_packet_structure("JScope_T4B1F4").unwrap();
    let signals = schema_signals(&p);
    assert_eq!(
        signals,
        vec![(0, "y0 (Boolean, 1 bytes)".to_string()), (1, "y1 (Float, 4 bytes)".to_string())]
    );
}

#[test]
fn picks_first_up_scope_channel() {
    let ch = |id, name: &str, direction| RTTChannel {
        id,
        name: name.to_string(),
        buffer_size: 1024,
        flags: 0,
        direction,
    };
    let channels = vec![
        ch(0, "Terminal", RTTChannelDirection::Up),
        ch(1, "JScope_T4F4", RTTChannelDirection::Down),
        ch(2, "JSCOPE_T4F4", RTTChannelDirection::Up),
        ch(3, "scope_F4", RTTChannelDirection::Up),
    ];
    assert_eq!(find_scope_channel(&channels), Some(2));
    assert_eq!(find_scope_channel(&channels[..2]), None);
}

#[test]
fn autosyncer_evidence_at_the_right_offset() {
    let p = parse_scope_packet_structure("JScope_T4F4").unwrap();
    let mut syncer = AutoSyncer::new(&p);
    syncer.extend_from_slice(&[0xA3, 0x17, 0xB9]);
    assert_eq!(syncer.next_group(), None);
    for i in 0..4u32 {
        syncer.extend_from_slice(&(i * 100).to_le_bytes());
        syncer.extend_from_slice(&(i as f32 * 0.05).sin().to_le_bytes());
    }
    let from = syncer.next_group().unwrap();
    assert_eq!(from, 0);
    for offset in 0..syncer.packet_size() {
        let e = syncer.try_offset(from, offset);
        assert_eq!(e.time_increased, None);
        assert_eq!(e.float_is_nan.len(), 1);
    }
    let from = syncer.next_group().unwrap();
    assert_eq!(from, 8);
    let aligned = syncer.try_offset(from, 3);
    assert_eq!(aligned.time_increased, Some(true));
    assert_eq!(aligned.float_is_nan, vec![false]);
    assert_eq!(syncer.get_synced_data(3)[..4], 0u32.to_le_bytes());
}

#[test]
fn nan_detection_on_bits() {
    assert!(nan_bits(f32::NAN.to_bits()));
    assert!(!nan_bits(f32::INFINITY.to_bits()));
    assert!(!nan_bits(1.5f32.to_bits()));
    assert!(nan_bits(0xffc00001));
}
