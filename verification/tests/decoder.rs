use std::io::Cursor;
use std::io::Write;

use membuffer_extract::trace::{Trace, TraceError};
use membuffer_extract::Collector;

fn compress(raw: &[u8]) -> Vec<u8> {
    let mut enc = flate2::write::ZlibEncoder::new(Vec::new(), flate2::Compression::default());
    enc.write_all(raw).unwrap();
    enc.finish().unwrap()
}

fn chunk(common: u64, prefix_len: u64, n: u64, payload: &[u8]) -> Vec<u8> {
    let mut v = Vec::new();
    v.extend_from_slice(&common.to_le_bytes());
    v.extend_from_slice(&prefix_len.to_le_bytes());
    v.extend_from_slice(&n.to_le_bytes());
    v.extend_from_slice(payload);
    v
}

fn trace_over(raw: &[u8]) -> Trace<Cursor<Vec<u8>>> {
    Trace::new(Cursor::new(compress(raw)))
}

#[test]
fn example_scenario() {
    // Two addresses sharing the 0x1000 bits, each encoded as a one-byte suffix.
    let raw = chunk(0x1000, 7, 2, &[0x01, 0x02]);
    let mut t = trace_over(&raw);
    let (batch, _) = t.next().unwrap().unwrap();
    assert_eq!(batch, vec![0x1001u64, 0x1002]);
    assert!(t.next().unwrap().is_none());
}

#[test]
fn example_scenario_two_byte_suffixes() {
    // The same two addresses with six common prefix bytes: each suffix now
    // occupies two little-endian payload bytes.
    let raw = chunk(0x1000, 6, 2, &[0x01, 0x00, 0x02, 0x00]);
    let mut t = trace_over(&raw);
    let (batch, _) = t.next().unwrap().unwrap();
    assert_eq!(batch, vec![0x1001u64, 0x1002]);
    assert!(t.next().unwrap().is_none());
}

#[test]
fn round_trip_every_prefix_len() {
    let a: u64 = 0xDEAD_BEEF_1234_5678;
    for prefix_len in 0..=8u64 {
        let suffix_len = (8 - prefix_len) as usize;
        let bytes = a.to_le_bytes();
        let payload = &bytes[..suffix_len];
        let common = if suffix_len == 8 {
            0
        } else {
            a & !((1u64 << (8 * suffix_len as u32)) - 1)
        };
        let raw = chunk(common, prefix_len, 1, payload);
        let mut t = trace_over(&raw);
        let (batch, _) = t.next().unwrap().unwrap();
        assert_eq!(batch, vec![a], "prefix_len {}", prefix_len);
        assert!(t.next().unwrap().is_none());
    }
}

#[test]
fn eos_at_chunk_boundary() {
    let raw = chunk(0, 0, 1, &[1, 2, 3, 4, 5, 6, 7, 8]);
    let mut t = trace_over(&raw);
    assert!(t.next().unwrap().is_some());
    assert!(t.next().unwrap().is_none());
    assert!(t.next().unwrap().is_none());
}

#[test]
fn eos_explicit_sentinel() {
    let raw = chunk(0, 0, 0, &[]);
    let mut t = trace_over(&raw);
    assert!(t.next().unwrap().is_none());
    assert!(t.next().unwrap().is_none());
}

#[test]
fn eos_truncated_mid_header() {
    let raw = [7u8; 10];
    let mut t = trace_over(&raw);
    assert!(t.next().unwrap().is_none());
}

#[test]
fn eos_truncated_payload() {
    let raw = chunk(0, 6, 4, &[1, 2]);
    let mut t = trace_over(&raw);
    assert!(t.next().unwrap().is_none());
}

#[test]
fn eos_empty_stream() {
    let mut t = trace_over(&[]);
    assert!(t.next().unwrap().is_none());
}

#[test]
fn bad_prefix_len_is_an_error() {
    let raw = chunk(0, 9, 1, &[0; 8]);
    let mut t = trace_over(&raw);
    assert_eq!(t.next(), Err(TraceError::BadPrefixLen));
}

#[test]
fn prefix_len_eight_repeats_common() {
    let raw = chunk(0xABCD_0000_0000_0000, 8, 3, &[]);
    let mut t = trace_over(&raw);
    let (batch, _) = t.next().unwrap().unwrap();
    assert_eq!(batch, vec![0xABCD_0000_0000_0000u64; 3]);
}

#[test]
fn several_chunks_in_order() {
    let mut raw = chunk(0x1000, 7, 2, &[0x0A, 0x0B]);
    raw.extend_from_slice(&chunk(0x2000, 7, 1, &[0x0C]));
    let mut t = trace_over(&raw);
    let (first, _) = t.next().unwrap().unwrap();
    assert_eq!(first, vec![0x100Au64, 0x100B]);
    let (second, _) = t.next().unwrap().unwrap();
    assert_eq!(second, vec![0x200Cu64]);
    assert!(t.next().unwrap().is_none());
}

#[test]
fn so_far_advances_with_decompression() {
    let raw = chunk(0, 0, 1, &[8, 7, 6, 5, 4, 3, 2, 1]);
    let mut t = trace_over(&raw);
    assert_eq!(t.so_far(), 0);
    let (_, so_far) = t.next().unwrap().unwrap();
    assert_eq!(so_far, raw.len() as u64);
    assert_eq!(t.so_far(), raw.len() as u64);
}

#[test]
fn pipeline_decodes_and_ranks() {
    // Two chunks: region 1 twice (addresses 512, 513) and region 4 once.
    let mut raw = chunk(0x200, 7, 2, &[0x00, 0x01]);
    raw.extend_from_slice(&chunk(0x800, 8, 1, &[]));
    raw.extend_from_slice(&chunk(0, 0, 0, &[]));
    let mut t = trace_over(&raw);
    let mut c = Collector::new(None, None);
    while let Some((batch, _)) = t.next().unwrap() {
        for addr in batch {
            c.collect(addr);
        }
    }
    assert_eq!(c.num_addrs(), 3);
    let rep = String::from_utf8(c.report()).unwrap();
    let expected = format!(
        "{:16X}\t{:10}\t{:10}\n{:16X}\t{:10}\t{:10}\n===\n",
        1, 2, 1, 4, 1, 0
    );
    assert_eq!(rep, expected);
}
