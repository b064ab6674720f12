//! Signatures of thinking.

use base64::Engine;
use kiro_gateway::anthropic::signature::{
    read_varint, rewrite_message, rewrite_model_in_signature, write_varint,
};

const REAL_SIG: &str = "Ev4BCmMIDhABGAIqQDLCxOcAxIGpEWzaBVN/7Rhnn7KPNqmlN3pQgWXeogdRhOlKAvxTylSWauMzkhf1NcylYW38yAUC463X+Bvj1YMyDWNsYXVkZS1xdWluY2U4AEIIdGhpbmtpbmcSDJZPrLrFRh2MFQgTIRoMLunMMbV2gAt9AB3FIjAfpHy8DkJKmF8LaQs9OEJhpMGgRwQvd6qHoPV5Rz2jXdeuhTBoQnCIMS44GqTamasqSZscuKHM930rQ31rcriqFj3AzLv8RnxlyFiu/fdDdt9YiFKtO38Cy4iqw35ZEKQr9J0/Mkru/S451tutqRClvGDgnIrJ2N0D3dcYAQ==";

fn decode(s: &str) -> Vec<u8> {
    base64::engine::general_purpose::STANDARD.decode(s).unwrap()
}

#[test]
fn rewrites_model_codename_to_official() {
    let out = rewrite_model_in_signature(REAL_SIG, "opus-4-8")
        .expect("应成功重写");
    let raw = decode(&out);
    let s = String::from_utf8_lossy(&raw);
    assert!(s.contains("opus-4-8"), "应含官方模型名");
    assert!(!s.contains("-quince"), "不应再含 quince");
    assert!(s.contains("thinking"), "thinking 块标识应保留");
}

#[test]
fn rewrite_preserves_other_bytes() {
    let out = rewrite_model_in_signature(REAL_SIG, "family-quinceX").unwrap();
    let orig = decode(REAL_SIG);
    let new = decode(&out);
    assert_eq!(new.len(), orig.len() + 1, "仅 f6 增长 1 字节");
}

#[test]
fn empty_signature_returns_none() {
    assert!(rewrite_model_in_signature("", "opus-4-8").is_none());
}

#[test]
fn invalid_base64_returns_none() {
    assert!(rewrite_model_in_signature("not!!base64!!", "opus-4-8").is_none());
}

#[test]
fn garbage_protobuf_returns_none() {
    let junk = base64::engine::general_purpose::STANDARD.encode([0xff, 0x01, 0x02, 0x03]);
    assert!(rewrite_model_in_signature(&junk, "opus-4-8").is_none());
}

#[test]
fn varint_roundtrip() {
    for v in [0u64, 1, 127, 128, 300, 16384, 1_000_000, u32::MAX as u64] {
        let mut buf = Vec::new();
        write_varint(v, &mut buf);
        let (got, n) = read_varint(&buf, 0).unwrap();
        assert_eq!(got, v);
        assert_eq!(n, buf.len());
    }
}

#[test]
fn varint_of_known_values() {
    let mut buf = Vec::new();
    write_varint(300, &mut buf);
    assert_eq!(buf, vec![0xac, 0x02]);
    assert_eq!(read_varint(&buf, 0), Some((300, 2)));
    assert_eq!(read_varint(&[0x80], 0), None);
    assert_eq!(read_varint(&[0xff; 11], 0), None);
}

#[test]
fn rewriting_changes_the_target_field_only() {
    // Field 1 holds a message with field 6 and field 7; field 2 follows.
    let inner: Vec<u8> = vec![0x32, 0x01, b'a', 0x3a, 0x01, b'b'];
    let mut message: Vec<u8> = vec![0x0a, inner.len() as u8];
    message.extend(&inner);
    message.extend([0x12, 0x01, b'c']);
    let out = rewrite_message(&message, &[1], 6, b"xyz").unwrap();
    assert_eq!(
        out,
        vec![0x0a, 0x08, 0x32, 0x03, b'x', b'y', b'z', 0x3a, 0x01, b'b', 0x12, 0x01, b'c']
    );
}

#[test]
fn the_last_of_two_rewrites_counts() {
    let message: Vec<u8> = vec![0x0a, 0x06, 0x32, 0x01, b'a', 0x3a, 0x01, b'b', 0x12, 0x01, b'c'];
    let once = rewrite_message(&message, &[1], 6, b"xyz").unwrap();
    assert_eq!(rewrite_message(&once, &[1], 6, b"xyz").unwrap(), once);
    assert_eq!(
        rewrite_message(&once, &[1], 6, b"").unwrap(),
        vec![0x0a, 0x05, 0x32, 0x00, 0x3a, 0x01, b'b', 0x12, 0x01, b'c']
    );
    assert_eq!(
        rewrite_message(&once, &[1], 6, b"pq"),
        rewrite_message(&message, &[1], 6, b"pq")
    );
}

#[test]
fn signature_of_the_same_model_is_unchanged() {
    let raw = decode(REAL_SIG);
    let end = raw.windows(7).position(|w| w == b"-quince").unwrap() + 7;
    let name = String::from_utf8(raw[end - 13..end].to_vec()).unwrap();
    assert_eq!(rewrite_model_in_signature(REAL_SIG, &name).unwrap(), REAL_SIG);
}
