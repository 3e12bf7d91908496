use light_vector_db::index::IndexData;
use light_vector_db::storage::crc::crc32;
use light_vector_db::storage::format::{component_bytes, decode, encode, parse_mmap};
use light_vector_db::storage::layout::{HEADER_CRC_OFFSET, HEADER_LEN};
use light_vector_db::storage::wire::{put_str, Reader};
use light_vector_db::{AnnParams, Encoding, IndexKind, Record, Records, VectorDbError, F32};

fn floats(values: &[f32]) -> Vec<F32> {
    values.iter().map(|x| F32::from_bits(x.to_bits())).collect()
}

fn number(x: F32) -> f32 {
    f32::from_bits(x.to_bits())
}

fn record(id: u64, vector: Vec<f32>) -> Record {
    Record::new(id, floats(&vector), format!("record {id}"))
        .with_metadata("k".to_string(), format!("v{id}"))
}

fn sample() -> Records {
    let mut records = Records::new();
    for r in [record(1, vec![1.0, 0.0]), record(2, vec![0.0, 1.0])] {
        records.insert(r.id, r);
    }
    records
}

#[test]
fn storage_crc32_matches_known_vector() {
    // The standard CRC-32 of "123456789" is 0xCBF43926.
    assert_eq!(crc32(b"123456789"), 0xCBF4_3926);
}

#[test]
fn format_crc32_matches_known_vector() {
    // The standard CRC-32 of "123456789" is 0xCBF43926.
    assert_eq!(crc32(b"123456789"), 0xCBF4_3926);
}

#[test]
fn storage_round_trip_exact() {
    let records = sample();
    let bytes = encode(Some(2), IndexKind::Exact, Encoding::Float32, &records, None);
    let (dim, kind, _, decoded, _) = decode(&bytes).unwrap();
    assert_eq!(dim, Some(2));
    assert_eq!(kind, IndexKind::Exact);
    assert_eq!(decoded, records);
}

#[test]
fn format_round_trip_exact() {
    let records = sample();
    let bytes = encode(Some(2), IndexKind::Exact, Encoding::Float32, &records, None);
    let (dim, kind, _encoding, decoded, index) = decode(&bytes).unwrap();
    assert_eq!(dim, Some(2));
    assert_eq!(kind, IndexKind::Exact);
    assert_eq!(decoded, records);
    assert!(index.is_none());
}

#[test]
fn storage_round_trip_hnsw_params() {
    let records = sample();
    let params = AnnParams {
        max_neighbors: 12,
        ef_construction: 48,
        ef_search: 24,
    };
    let bytes = encode(Some(2), IndexKind::Hnsw(params), Encoding::Float32, &records, None);
    let (_, kind, _, _, _) = decode(&bytes).unwrap();
    assert_eq!(kind, IndexKind::Hnsw(params));
}

#[test]
fn format_round_trip_hnsw_params() {
    let records = sample();
    let params = AnnParams {
        max_neighbors: 12,
        ef_construction: 48,
        ef_search: 24,
    };
    let bytes = encode(
        Some(2),
        IndexKind::Hnsw(params),
        Encoding::Float32,
        &records,
        None,
    );
    let (_, kind, _, _, _) = decode(&bytes).unwrap();
    assert_eq!(kind, IndexKind::Hnsw(params));
}

#[test]
fn round_trip_index_section() {
    let records = sample();
    let index = IndexData {
        node_ids: vec![2, 1],
        neighbors: vec![vec![1], vec![0]],
        entry: Some(0),
    };
    let bytes = encode(
        Some(2),
        IndexKind::Hnsw(AnnParams::default()),
        Encoding::Float32,
        &records,
        Some(&index),
    );
    let (_, _, _, decoded, decoded_index) = decode(&bytes).unwrap();
    assert_eq!(decoded, records);
    assert_eq!(decoded_index, Some(index));
}

#[test]
fn parse_mmap_locates_sections() {
    let records = sample(); // ids 1 and 2, dim 2
    let bytes = encode(Some(2), IndexKind::Exact, Encoding::Float32, &records, None);
    let layout = parse_mmap(&bytes).unwrap();

    assert_eq!(layout.dimension, Some(2));
    assert_eq!(layout.stride, 2);
    assert_eq!(layout.ids, vec![1, 2]);
    assert_eq!(layout.payloads.len(), 2);
    assert_eq!(layout.payloads[0].0, "record 1");
    assert_eq!(layout.payloads[0].1.get(&"k".to_string()).unwrap(), "v1");

    // Reading the first vector from the reported offset matches the record.
    let start = layout.vectors_offset;
    let x = f32::from_le_bytes(bytes[start..start + 4].try_into().unwrap());
    let y = f32::from_le_bytes(bytes[start + 4..start + 8].try_into().unwrap());
    assert_eq!(floats(&[x, y]), records.get(1).unwrap().vector);
}

#[test]
fn scalar_quantization_round_trip_is_smaller_and_close() {
    let mut records = Records::new();
    for r in [
        record(1, vec![0.1, 0.9, 0.5]),
        record(2, vec![0.8, 0.2, 0.0]),
    ] {
        records.insert(r.id, r);
    }
    let f32_bytes = encode(Some(3), IndexKind::Exact, Encoding::Float32, &records, None);
    let q_bytes = encode(
        Some(3),
        IndexKind::Exact,
        Encoding::ScalarU8,
        &records,
        None,
    );
    // 3 f32 (12 bytes) vs 3 u8 (3 bytes) per vector.
    assert!(
        q_bytes.len() < f32_bytes.len(),
        "quantized should be smaller"
    );
    assert_eq!(f32_bytes.len() - q_bytes.len(), 3 * 6);

    let (_, _, encoding, decoded, _) = decode(&q_bytes).unwrap();
    assert_eq!(encoding, Encoding::ScalarU8);
    // Dequantized values are close to the originals (bounded by range/255).
    for id in records.ids() {
        let original = records.get(id).unwrap();
        let restored = &decoded.get(id).unwrap().vector;
        for (o, r) in original.vector.iter().zip(restored) {
            let (o, r) = (number(*o), number(*r));
            assert!((o - r).abs() < 0.01, "component drifted: {o} vs {r}");
        }
    }
}

#[test]
fn storage_round_trip_empty() {
    let records = Records::new();
    let bytes = encode(None, IndexKind::Exact, Encoding::Float32, &records, None);
    let (dim, kind, _, decoded, _) = decode(&bytes).unwrap();
    assert_eq!(dim, None);
    assert_eq!(kind, IndexKind::Exact);
    assert!(decoded.is_empty());
}

#[test]
fn format_round_trip_empty() {
    let records = Records::new();
    let bytes = encode(None, IndexKind::Exact, Encoding::Float32, &records, None);
    let (dim, kind, _, decoded, _) = decode(&bytes).unwrap();
    assert_eq!(dim, None);
    assert_eq!(kind, IndexKind::Exact);
    assert!(decoded.is_empty());
}

fn sample_bytes() -> Vec<u8> {
    encode(
        Some(2),
        IndexKind::Exact,
        Encoding::Float32,
        &sample(),
        None,
    )
}

#[test]
fn storage_rejects_bad_magic() {
    let mut bytes = sample_bytes();
    bytes[0] = b'X';
    assert!(matches!(decode(&bytes), Err(VectorDbError::Corrupt(_))));
}

#[test]
fn format_rejects_bad_magic() {
    let mut bytes = sample_bytes();
    bytes[0] = b'X';
    assert!(matches!(decode(&bytes), Err(VectorDbError::Corrupt(_))));
}

#[test]
fn storage_rejects_truncation() {
    let bytes = sample_bytes();
    let truncated = &bytes[..bytes.len() - 3];
    assert!(matches!(decode(truncated), Err(VectorDbError::Corrupt(_))));
}

#[test]
fn format_rejects_truncation() {
    let bytes = sample_bytes();
    let truncated = &bytes[..bytes.len() - 3];
    assert!(matches!(decode(truncated), Err(VectorDbError::Corrupt(_))));
}

#[test]
fn storage_rejects_body_corruption() {
    let mut bytes = sample_bytes();
    let last = bytes.len() - 1;
    bytes[last] ^= 0xFF;
    assert!(matches!(decode(&bytes), Err(VectorDbError::Corrupt(_))));
}

#[test]
fn format_rejects_body_corruption() {
    let mut bytes = sample_bytes();
    let last = bytes.len() - 1;
    bytes[last] ^= 0xFF;
    assert!(matches!(decode(&bytes), Err(VectorDbError::Corrupt(_))));
}

fn seal_header(bytes: &mut [u8]) {
    let header_crc = crc32(&bytes[..HEADER_CRC_OFFSET]);
    bytes[HEADER_CRC_OFFSET..HEADER_LEN].copy_from_slice(&header_crc.to_le_bytes());
}

#[test]
fn storage_rejects_future_major_version() {
    let mut bytes = sample_bytes();
    // Bump the major version and repair the header CRC so only the version
    // check can reject it. The minor version of the file is 0.
    bytes[4..6].copy_from_slice(&2u16.to_le_bytes());
    bytes[6..8].copy_from_slice(&0u16.to_le_bytes());
    seal_header(&mut bytes);
    assert!(matches!(
        decode(&bytes),
        Err(VectorDbError::UnsupportedVersion { major: 2, minor: 0 })
    ));
}

#[test]
fn format_rejects_future_major_version() {
    let mut bytes = sample_bytes();
    // Bump the major version and repair the header CRC so only the version
    // check can reject it.
    bytes[4..6].copy_from_slice(&2u16.to_le_bytes());
    seal_header(&mut bytes);
    assert!(matches!(
        decode(&bytes),
        Err(VectorDbError::UnsupportedVersion { major: 2, .. })
    ));
}

fn corrupt_message(bytes: &[u8]) -> &'static str {
    match decode(bytes) {
        Err(VectorDbError::Corrupt(message)) => message,
        other => panic!("expected a corrupt file, got {other:?}"),
    }
}

fn seal_body(bytes: &mut [u8]) {
    let body_crc = crc32(&bytes[HEADER_LEN..]);
    bytes[44..48].copy_from_slice(&body_crc.to_le_bytes());
    seal_header(bytes);
}

#[test]
fn header_bytes_are_as_documented() {
    let bytes = sample_bytes();
    assert_eq!(&bytes[0..4], b"LVDB");
    assert_eq!(&bytes[4..8], &[1, 0, 2, 0]);
    assert_eq!(&bytes[8..16], &[1, 0, 0, 0, 2, 0, 0, 0]);
    assert_eq!(&bytes[16..20], &[0, 0, 0, 0]);
    assert_eq!(&bytes[20..32], &[2, 0, 0, 0, 0, 0, 0, 0, 2, 0, 0, 0]);
    assert_eq!(&bytes[32..44], &[0; 12]);
    assert_eq!(&bytes[48..60], &[0; 12]);
    // The ids, then the vectors, then the payloads.
    assert_eq!(&bytes[64..72], &1u64.to_le_bytes());
    assert_eq!(&bytes[72..80], &2u64.to_le_bytes());
    assert_eq!(&bytes[80..84], &1.0f32.to_le_bytes());
    assert_eq!(&bytes[92..96], &1.0f32.to_le_bytes());
    assert_eq!(&bytes[96..100], &8u32.to_le_bytes());
    assert_eq!(&bytes[100..108], b"record 1");
    assert_eq!(bytes.len(), 64 + 2 * (8 + 8 + 12 + 4 + 5 + 6));
}

#[test]
fn each_corruption_has_its_message() {
    let good = sample_bytes();
    assert_eq!(corrupt_message(&good[..63]), "file shorter than header");

    let mut bytes = good.clone();
    bytes[3] = b'X';
    assert_eq!(corrupt_message(&bytes), "bad magic: not an .lvdb file");

    let mut bytes = good.clone();
    bytes[20] = 3;
    assert_eq!(corrupt_message(&bytes), "header checksum mismatch");

    let mut bytes = good.clone();
    bytes[17] = 2;
    seal_header(&mut bytes);
    assert_eq!(corrupt_message(&bytes), "unknown vector encoding");

    let mut bytes = good.clone();
    bytes[18] = 2;
    seal_header(&mut bytes);
    assert_eq!(corrupt_message(&bytes), "unknown index kind");

    let mut bytes = good.clone();
    bytes[70] = 1;
    assert_eq!(corrupt_message(&bytes), "body checksum mismatch");

    let mut bytes = good.clone();
    bytes[28] = 0;
    seal_header(&mut bytes);
    assert_eq!(corrupt_message(&bytes), "records present but zero stride");

    let mut bytes = good.clone();
    bytes[20] = 200;
    seal_header(&mut bytes);
    assert_eq!(corrupt_message(&bytes), "unexpected end of file");

    // A record count beyond anything that fits is an end of file as well.
    let mut bytes = good.clone();
    bytes[20..28].copy_from_slice(&u64::MAX.to_le_bytes());
    seal_header(&mut bytes);
    assert_eq!(corrupt_message(&bytes), "unexpected end of file");

    // A text that is not UTF-8.
    let mut bytes = good.clone();
    bytes[100] = 0xFF;
    seal_body(&mut bytes);
    assert_eq!(corrupt_message(&bytes), "invalid utf-8 text");
}

#[test]
fn every_single_byte_of_damage_is_noticed() {
    let good = sample_bytes();
    for i in 0..good.len() {
        let mut bytes = good.clone();
        bytes[i] ^= 0x10;
        assert!(
            matches!(decode(&bytes), Err(VectorDbError::Corrupt(_))),
            "byte {i}"
        );
    }
}

#[test]
fn mapped_layout_is_bounds_checked() {
    let good = sample_bytes();
    let mut bytes = good.clone();
    bytes[28..32].copy_from_slice(&1000u32.to_le_bytes());
    seal_header(&mut bytes);
    assert!(matches!(
        parse_mmap(&bytes),
        Err(VectorDbError::Corrupt("vectors section out of range"))
    ));
    // The body checksum is not looked at.
    let mut bytes = good.clone();
    bytes[80] ^= 1;
    assert!(parse_mmap(&bytes).is_ok());
}

#[test]
fn texts_of_every_script_survive() {
    let mut records = Records::new();
    let text = "naïve café — 東京 🦀";
    let r = Record::new(7, floats(&[0.5]), text.to_string())
        .with_metadata("clé".to_string(), "значение".to_string());
    records.insert(7, r);
    let bytes = encode(None, IndexKind::Exact, Encoding::Float32, &records, None);
    let (dim, _, _, decoded, _) = decode(&bytes).unwrap();
    assert_eq!(dim, None);
    assert_eq!(decoded.get(7).unwrap().text, text);
    assert_eq!(
        decoded.get(7).unwrap().metadata.get(&"clé".to_string()).unwrap(),
        "значение"
    );
}

#[test]
fn components_take_four_bytes_or_one() {
    assert_eq!(component_bytes(Encoding::Float32), 4);
    assert_eq!(component_bytes(Encoding::ScalarU8), 1);
}

#[test]
fn a_file_cut_short_anywhere_is_noticed() {
    let index = IndexData {
        node_ids: vec![2, 1],
        neighbors: vec![vec![1], vec![0]],
        entry: Some(0),
    };
    let whole = encode(
        Some(2),
        IndexKind::Hnsw(AnnParams::default()),
        Encoding::Float32,
        &sample(),
        Some(&index),
    );
    assert!(decode(&whole).is_ok());
    for k in 0..whole.len() {
        assert!(
            matches!(decode(&whole[..k]), Err(VectorDbError::Corrupt(_))),
            "cut at {k}"
        );
        // Not even with a checksum that fits.
        if k >= HEADER_LEN {
            let mut cut = whole[..k].to_vec();
            seal_body(&mut cut);
            assert_eq!(corrupt_message(&cut), "unexpected end of file", "cut at {k}");
        }
    }
}

#[test]
fn a_reader_takes_numbers_and_strings_in_order() {
    let mut buf = vec![7u8];
    buf.extend_from_slice(&0x0102_0304u32.to_le_bytes());
    buf.extend_from_slice(&u64::MAX.to_le_bytes());
    buf.extend_from_slice(&(-1.5f32).to_le_bytes());
    put_str(&mut buf, "é!");
    put_str(&mut buf, "");
    let mut reader = Reader::new(&buf);
    assert_eq!(reader.u8().unwrap(), 7);
    assert_eq!(reader.u32().unwrap(), 0x0102_0304);
    assert_eq!(reader.u64().unwrap(), u64::MAX);
    assert_eq!(number(reader.float32().unwrap()), -1.5);
    assert_eq!(reader.string().unwrap(), "é!");
    assert_eq!(reader.string().unwrap(), "");
    assert_eq!(reader.pos, buf.len());
    assert!(matches!(
        reader.u8(),
        Err(VectorDbError::Corrupt("unexpected end of file"))
    ));
    assert_eq!(reader.take(0).unwrap(), &[] as &[u8]);
    assert!(matches!(
        reader.take(usize::MAX),
        Err(VectorDbError::Corrupt("length overflow"))
    ));
    assert_eq!(reader.pos, buf.len());
}
