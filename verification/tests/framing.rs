use packet::framer::RawPacket;
use packet::table::{PacketLen, PacketParser};

fn table(entries: &[(u16, &str, i16)]) -> PacketParser {
    let mut t = PacketParser::new();
    for (id, name, len) in entries {
        t.register(*id, name.to_string(), *len);
    }
    t
}

fn le16(v: u16) -> [u8; 2] {
    [(v & 0xFF) as u8, (v >> 8) as u8]
}

#[test]
fn register_rules() {
    let t = table(&[(0x0064, "fixed", 55), (0x0AC4, "variable", -1), (0x0001, "zero", 0), (
        0x0002,
        "one",
        1,
    )]);
    assert!(matches!(t.lookup(0x0064), Some(PacketLen::Fixed(55))));
    assert!(matches!(t.lookup(0x0AC4), Some(PacketLen::Variable)));
    assert!(t.lookup(0x0001).is_none());
    assert!(t.lookup(0x0002).is_none());
    assert!(t.lookup(0x9999).is_none());
}

#[test]
fn register_replaces_earlier_rule() {
    let mut t = PacketParser::new();
    t.register(0x0064, "first".to_string(), 10);
    t.register(0x0064, "second".to_string(), 55);
    assert!(matches!(t.lookup(0x0064), Some(PacketLen::Fixed(55))));
}

#[test]
fn fixed_55_exact_and_truncated() {
    // Identifier 0x0064 registered as Fixed(55): a 55-byte buffer yields one
    // envelope of length 55, a 54-byte buffer yields none.
    let t = table(&[(0x0064, "ca_login", 55)]);
    let mut buf = vec![0u8; 55];
    buf[0] = 0x64;
    buf[1] = 0x00;
    let packets = t.extract_packets(&buf);
    assert_eq!(packets.len(), 1);
    assert_eq!(packets[0].packet_id, 0x0064);
    assert_eq!(packets[0].length, 55);
    assert_eq!(packets[0].bytes().as_slice(), &buf[..]);

    let packets = t.extract_packets(&buf[..54]);
    assert_eq!(packets.len(), 0);
}

#[test]
fn two_fixed_10_disjoint_spans() {
    // Two back-to-back Fixed(10) messages in a 20-byte buffer yield exactly
    // two envelopes covering [0,10) and [10,20).
    let t = table(&[(0x0101, "ten", 10)]);
    let mut buf = vec![0u8; 20];
    buf[0] = 0x01;
    buf[1] = 0x01;
    buf[5] = 0xAA;
    buf[10] = 0x01;
    buf[11] = 0x01;
    buf[15] = 0xBB;
    let packets = t.extract_packets(&buf);
    assert_eq!(packets.len(), 2);
    assert_eq!(packets[0].length, 10);
    assert_eq!(packets[1].length, 10);
    assert_eq!(packets[0].bytes().as_slice(), &buf[0..10]);
    assert_eq!(packets[1].bytes().as_slice(), &buf[10..20]);
}

#[test]
fn unknown_identifier_stops_extraction() {
    // A buffer beginning with an unregistered identifier yields nothing.
    let t = table(&[(0x0064, "ca_login", 55)]);
    let mut buf = vec![0u8; 60];
    buf[0] = 0x99;
    buf[1] = 0x99;
    assert_eq!(t.extract_packets(&buf).len(), 0);

    // A valid message followed by an unknown identifier yields only the
    // first message; the rest of the buffer is discarded.
    let t = table(&[(0x0102, "four", 4)]);
    let buf = [0x02, 0x01, 0x00, 0x00, 0x99, 0x99, 0x00, 0x00];
    let packets = t.extract_packets(&buf);
    assert_eq!(packets.len(), 1);
    assert_eq!(packets[0].packet_id, 0x0102);
}

#[test]
fn variable_length_messages() {
    let t = table(&[(0x0AC4, "accept", -1)]);
    // One variable message of declared length 8.
    let mut buf = vec![0u8; 8];
    buf[..2].copy_from_slice(&le16(0x0AC4));
    buf[2..4].copy_from_slice(&le16(8));
    buf[4] = 0xEE;
    let packets = t.extract_packets(&buf);
    assert_eq!(packets.len(), 1);
    assert_eq!(packets[0].packet_id, 0x0AC4);
    assert_eq!(packets[0].length, 8);
    assert_eq!(packets[0].bytes().as_slice(), &buf[..]);
}

#[test]
fn variable_zero_length_stops_extraction() {
    let t = table(&[(0x0AC4, "accept", -1)]);
    let mut buf = vec![0u8; 10];
    buf[..2].copy_from_slice(&le16(0x0AC4));
    // Declared length 0: treated as a desynchronization, nothing is emitted.
    assert_eq!(t.extract_packets(&buf).len(), 0);
}

#[test]
fn variable_negative_length_stops_extraction() {
    let t = table(&[(0x0AC4, "accept", -1)]);
    let mut buf = vec![0u8; 10];
    buf[..2].copy_from_slice(&le16(0x0AC4));
    buf[2] = 0xFF;
    buf[3] = 0xFF;
    assert_eq!(t.extract_packets(&buf).len(), 0);
}

#[test]
fn variable_cut_off_length_field() {
    let t = table(&[(0x0AC4, "accept", -1)]);
    // Only 3 bytes: the length field itself is truncated; no envelope, no
    // panic.
    let buf = [0xC4, 0x0A, 0x1E];
    assert_eq!(t.extract_packets(&buf).len(), 0);
}

#[test]
fn truncated_message_left_unconsumed() {
    let t = table(&[(0x0102, "four", 4), (0x0AC4, "accept", -1)]);
    // A complete fixed message, then a variable message cut short.
    let mut buf = vec![0u8; 4 + 6];
    buf[..2].copy_from_slice(&le16(0x0102));
    buf[4..6].copy_from_slice(&le16(0x0AC4));
    buf[6..8].copy_from_slice(&le16(9));
    let packets = t.extract_packets(&buf);
    assert_eq!(packets.len(), 1);
    assert_eq!(packets[0].packet_id, 0x0102);
}

#[test]
fn empty_and_tiny_buffers() {
    let t = table(&[(0x0064, "ca_login", 55)]);
    assert_eq!(t.extract_packets(&[]).len(), 0);
    assert_eq!(t.extract_packets(&[0x64]).len(), 0);
}

/// Extracts a whole stream fed in chunks, re-buffering leftover bytes, as a
/// caller of the extractor would across socket reads.
fn extract_chunked(t: &PacketParser, buf: &[u8], chunk: usize) -> Vec<RawPacket> {
    let mut out = Vec::new();
    let mut pending: Vec<u8> = Vec::new();
    let mut fed = 0usize;
    while fed < buf.len() {
        let end = usize::min(fed + chunk, buf.len());
        pending.extend_from_slice(&buf[fed..end]);
        fed = end;
        let packets = t.extract_packets(&pending);
        let consumed: usize = packets.iter().map(|p| p.length).sum();
        out.extend(packets);
        pending.drain(..consumed);
    }
    out
}

#[test]
fn chunked_feeding_matches_whole_buffer() {
    // Framing idempotence: a buffer of valid consecutive messages split into
    // arbitrary chunks and fed incrementally yields the same envelopes, in
    // the same order, as one extraction of the whole buffer.
    let t = table(&[(0x0102, "four", 4), (0x0AC4, "accept", -1), (0x0064, "ten", 10)]);
    let mut buf = Vec::new();
    buf.extend_from_slice(&le16(0x0102));
    buf.extend_from_slice(&[0x11, 0x22]);
    buf.extend_from_slice(&le16(0x0AC4));
    buf.extend_from_slice(&le16(7));
    buf.extend_from_slice(&[0x33, 0x44, 0x55]);
    buf.extend_from_slice(&le16(0x0064));
    buf.extend_from_slice(&[0u8; 8]);
    assert_eq!(buf.len(), 4 + 7 + 10);

    let whole = t.extract_packets(&buf);
    assert_eq!(whole.len(), 3);
    for chunk in 1..=buf.len() {
        let chunked = extract_chunked(&t, &buf, chunk);
        assert_eq!(chunked.len(), whole.len());
        for (a, b) in chunked.iter().zip(whole.iter()) {
            assert_eq!(a.packet_id, b.packet_id);
            assert_eq!(a.length, b.length);
            assert_eq!(a.bytes(), b.bytes());
        }
    }
}
