use packet::layout::{ElemKind, FieldDesc, FieldLayout, RecordField, RecordLayout, ScalarKind};
use packet::messages::{CharServerList, PacketAcAcceptLogin2, PacketCaLogin, PacketCaSsoLoginReq,
    PacketId};
use packet::table::PacketParser;
use packet::value::{ElemValue, FieldValue, Message};

fn u(width: usize) -> ScalarKind {
    ScalarKind { width, signed: false }
}

fn s(width: usize) -> ScalarKind {
    ScalarKind { width, signed: true }
}

/// The layout of the concrete variable-length scenario: identifier, length
/// field, 26 further fixed bytes, then a trailing list of 4-byte units.
fn scenario_layout() -> FieldLayout {
    FieldLayout {
        fixed: vec![
            FieldDesc::Scalar(u(2)),
            FieldDesc::Scalar(s(2)),
            FieldDesc::FixedArray(ElemKind::Scalar(u(1)), 26),
        ],
        trailing: Some(ElemKind::Scalar(u(4))),
    }
}

#[test]
fn length_contribution() {
    let l = scenario_layout();
    assert!(l.check_wf());
    assert_eq!(l.fixed_len(), 30);
    assert_eq!(l.var_unit(), 4);

    let l = PacketCaLogin::layout();
    assert_eq!(l.fixed_len(), 55);
    assert_eq!(l.var_unit(), 0);

    let l = PacketAcAcceptLogin2::layout();
    assert_eq!(l.fixed_len(), 64);
    assert_eq!(l.var_unit(), 160);

    let l = PacketCaSsoLoginReq::layout();
    assert_eq!(l.fixed_len(), 92);
    assert_eq!(l.var_unit(), 1);
}

#[test]
fn fixed_validity_exact_length_only() {
    // For a type without a trailing list, decode succeeds iff the presented
    // length equals FixedLen exactly.
    let l = PacketCaLogin::layout();
    assert!(!l.has_valid_length(54));
    assert!(l.has_valid_length(55));
    assert!(!l.has_valid_length(56));
    assert!(l.decode(&[0u8; 54]).is_none());
    assert!(l.decode(&[0u8; 55]).is_some());
    assert!(l.decode(&[0u8; 56]).is_none());
}

#[test]
fn variable_validity_whole_units_only() {
    // For a type with a trailing list of unit 4, decode succeeds iff the
    // bytes beyond FixedLen are a non-negative multiple of 4.
    let l = scenario_layout();
    assert!(l.decode(&[0u8; 29]).is_none());
    assert!(l.decode(&[0u8; 30]).is_some());
    assert!(l.decode(&[0u8; 31]).is_none());
    assert!(l.decode(&[0u8; 32]).is_none());
    assert!(l.decode(&[0u8; 33]).is_none());
    assert!(l.decode(&[0u8; 34]).is_some());
    assert!(l.decode(&[0u8; 38]).is_some());
}

#[test]
fn variable_scenario_one_trailing_element() {
    // [C4 0A][length][26 fixed bytes][one 4-byte element]: decodes with one
    // trailing element; a 31-byte presentation fails.
    let l = scenario_layout();
    let mut buf = Vec::new();
    buf.extend_from_slice(&[0xC4, 0x0A]);
    buf.extend_from_slice(&[0x1E, 0x00]);
    buf.extend_from_slice(&[0x07; 26]);
    buf.extend_from_slice(&[0x78, 0x56, 0x34, 0x12]);
    assert_eq!(buf.len(), 34);

    let m = l.decode(&buf).expect("aligned length must decode");
    assert_eq!(m.fields.len(), 3);
    assert_eq!(m.fields[0], FieldValue::Scalar(0x0AC4));
    assert_eq!(m.fields[1], FieldValue::Scalar(0x001E));
    assert_eq!(m.trailing.len(), 1);
    assert_eq!(m.trailing[0], ElemValue::Scalar(0x12345678));

    assert!(l.decode(&buf[..31]).is_none());
}

#[test]
fn scalars_encode_little_endian() {
    let l = FieldLayout {
        fixed: vec![FieldDesc::Scalar(u(4)), FieldDesc::Scalar(u(2))],
        trailing: None,
    };
    let m = Message {
        fields: vec![FieldValue::Scalar(0x11223344), FieldValue::Scalar(0xBEEF)],
        trailing: Vec::new(),
    };
    let bytes = l.encode(&m).expect("conforming message must encode");
    assert_eq!(bytes, vec![0x44, 0x33, 0x22, 0x11, 0xEF, 0xBE]);

    let back = l.decode(&bytes).expect("round trip");
    assert_eq!(back, m);
}

#[test]
fn encode_refuses_nonconforming_messages() {
    let l = FieldLayout {
        fixed: vec![FieldDesc::Scalar(u(1))],
        trailing: None,
    };
    // Value too wide for a 1-byte field.
    let m = Message { fields: vec![FieldValue::Scalar(256)], trailing: Vec::new() };
    assert!(l.encode(&m).is_none());
    // Wrong variant for the descriptor.
    let m = Message { fields: vec![FieldValue::Array(Vec::new())], trailing: Vec::new() };
    assert!(l.encode(&m).is_none());
    // Wrong field count.
    let m = Message { fields: Vec::new(), trailing: Vec::new() };
    assert!(l.encode(&m).is_none());
    // A trailing element where the layout has no trailing list.
    let m = Message {
        fields: vec![FieldValue::Scalar(7)],
        trailing: vec![ElemValue::Scalar(1)],
    };
    assert!(l.encode(&m).is_none());
    // In range: encodes.
    let m = Message { fields: vec![FieldValue::Scalar(255)], trailing: Vec::new() };
    assert_eq!(l.encode(&m).unwrap(), vec![0xFF]);
}

#[test]
fn ca_login_round_trip() {
    let mut p = PacketCaLogin::new();
    p.version = 0x00000373;
    p.client_type = 22;
    p.username[..4].copy_from_slice(b"user");
    p.password[..4].copy_from_slice(b"pass");

    let l = PacketCaLogin::layout();
    let m = p.to_message();
    let bytes = l.encode(&m).expect("well-formed login must encode");
    assert_eq!(bytes.len(), 55);
    assert_eq!(&bytes[0..2], &[0x64, 0x00]);
    assert_eq!(&bytes[2..6], &[0x73, 0x03, 0x00, 0x00]);
    assert_eq!(&bytes[6..10], b"user");
    assert_eq!(bytes[54], 22);

    let back = l.decode(&bytes).expect("own encoding must decode");
    assert_eq!(back, m);
}

#[test]
fn sso_login_round_trip_with_token() {
    let mut p = PacketCaSsoLoginReq::new();
    p.version = 9;
    p.client_type = 1;
    p.id[..3].copy_from_slice(b"abc");
    p.t1 = b"token-bytes".to_vec();
    let l = PacketCaSsoLoginReq::layout();
    let m = p.to_message();
    let bytes = l.encode(&m).expect("well-formed request must encode");
    assert_eq!(bytes.len(), 92 + 11);
    assert_eq!(&bytes[92..], b"token-bytes");

    let back = l.decode(&bytes).expect("own encoding must decode");
    assert_eq!(back, m);
}

#[test]
fn accept_login_round_trip_with_server_record() {
    let mut server = CharServerList::default();
    server.ip = u32::from_be_bytes([127, 0, 0, 1]);
    server.port = 6121;
    server.name[..8].copy_from_slice(b"Einbroch");
    server.usercount = 10;

    let mut p = PacketAcAcceptLogin2::new();
    p.aid = 2000000;
    p.auth_code = 2000000;
    p.char_server_list.push(server);

    let l = PacketAcAcceptLogin2::layout();
    let bytes = l.encode(&p.to_message()).expect("well-formed reply must encode");
    assert_eq!(bytes.len(), 64 + 160);
    p.packet_len = bytes.len() as i16;
    let bytes = l.encode(&p.to_message()).expect("well-formed reply must encode");
    assert_eq!(bytes.len(), 224);
    // Length field, little-endian, right after the identifier.
    assert_eq!(&bytes[0..2], &[0xC4, 0x0A]);
    assert_eq!(&bytes[2..4], &[0xE0, 0x00]);
    // The record starts at the fixed part's end: ip, then port 6121 = 0x17E9.
    assert_eq!(&bytes[64..68], &[1, 0, 0, 127]);
    assert_eq!(&bytes[68..70], &[0xE9, 0x17]);
    assert_eq!(&bytes[70..78], b"Einbroch");

    let back = l.decode(&bytes).expect("own encoding must decode");
    assert_eq!(back, p.to_message());
}

#[test]
fn negative_scalars_round_trip_as_bit_patterns() {
    let mut server = CharServerList::default();
    server.port = -2;
    let mut p = PacketAcAcceptLogin2::new();
    p.auth_code = -1;
    p.char_server_list.push(server);
    let l = PacketAcAcceptLogin2::layout();
    let bytes = l.encode(&p.to_message()).expect("must encode");
    assert_eq!(&bytes[4..8], &[0xFF, 0xFF, 0xFF, 0xFF]);
    assert_eq!(&bytes[68..70], &[0xFE, 0xFF]);
    let back = l.decode(&bytes).expect("must decode");
    assert_eq!(back, p.to_message());
}

#[test]
fn record_list_alignment() {
    // The reply's trailing unit is 160 bytes: only whole records decode.
    let l = PacketAcAcceptLogin2::layout();
    assert!(l.decode(&vec![0u8; 64]).is_some());
    assert!(l.decode(&vec![0u8; 64 + 160]).is_some());
    assert!(l.decode(&vec![0u8; 64 + 159]).is_none());
    assert!(l.decode(&vec![0u8; 64 + 161]).is_none());
    assert!(l.decode(&vec![0u8; 64 + 320]).is_some());
}

#[test]
fn record_layout_shape() {
    let r: RecordLayout = CharServerList::fragment_layout();
    assert_eq!(r.fields.len(), 7);
    assert!(matches!(r.fields[0], RecordField::Scalar(ScalarKind { width: 4, signed: false })));
    assert!(matches!(r.fields[6], RecordField::FixedArray(ScalarKind { width: 1, .. }, 128)));
}

#[test]
fn packet_id_values() {
    assert_eq!(PacketId::CaLogin.value(), 0x0064);
    assert_eq!(PacketId::CaSsoLoginReq.value(), 0x0825);
    assert_eq!(PacketId::AcAcceptLogin.value(), 0x0069);
    assert_eq!(PacketId::AcAcceptLogin2.value(), 0x0AC4);
    assert_eq!(PacketId::AcRefuseLogin.value(), 0x006A);
}

#[test]
fn envelope_parse_on_demand() {
    // Full pipeline: encode a login, frame it, parse the envelope; the
    // envelope is not consumed by parsing and can be parsed again.
    let mut p = PacketCaLogin::new();
    p.version = 55;
    p.username[..2].copy_from_slice(b"mp");
    let l = PacketCaLogin::layout();
    let bytes = l.encode(&p.to_message()).expect("must encode");

    let mut t = PacketParser::new();
    t.register(0x0064, "CA_LOGIN".to_string(), 55);
    let packets = t.extract_packets(&bytes);
    assert_eq!(packets.len(), 1);
    let first = packets[0].parse(&l).expect("complete message must parse");
    assert_eq!(first, p.to_message());
    let again = packets[0].parse(&l).expect("parsing is non-destructive");
    assert_eq!(again, first);

    // A wrong-sized envelope parses to nothing rather than crashing.
    t.register(0x0064, "CA_LOGIN".to_string(), 54);
    let packets = t.extract_packets(&bytes[..54]);
    assert_eq!(packets.len(), 1);
    assert!(packets[0].parse(&l).is_none());
}
