use blaze::codec::{compress_chunk_data, decompress_chunk_data};
use blaze::delta::{create_delta, apply_delta};

#[test]
fn test_compress_round_trip_compressible() {
    // 5000 equal bytes compress well, so the zstd path is taken
    let data = vec![42u8; 5000];
    let record = compress_chunk_data(&data).unwrap();
    assert_eq!(record[0], 2);
    assert!(record.len() < data.len());
    let back = decompress_chunk_data(&record).unwrap();
    assert_eq!(back, data);
}

#[test]
fn test_compress_small_stays_raw() {
    let data = b"short chunk".to_vec();
    let record = compress_chunk_data(&data).unwrap();
    assert_eq!(record[0], 0);
    assert_eq!(&record[1..], data.as_slice());
    let back = decompress_chunk_data(&record).unwrap();
    assert_eq!(back, data);
}

#[test]
fn test_decompress_rejects_empty_and_unknown_tag() {
    assert!(decompress_chunk_data(&[]).is_err());
    assert!(decompress_chunk_data(&[9, 1, 2, 3]).is_err());
}

#[test]
fn test_delta_round_trip() {
    let base: Vec<u8> = (0..3000u32).map(|i| (i % 240) as u8).collect();
    let mut new_data = base.clone();
    new_data[100] = 7;
    new_data[101] = 8;
    new_data.truncate(2500);
    let delta = create_delta(&base, &new_data);
    assert!(delta.len() < new_data.len());
    let rebuilt = apply_delta(&base, &delta);
    assert_eq!(rebuilt, new_data);
}

#[test]
fn test_delta_round_trip_dissimilar() {
    let base: Vec<u8> = vec![1u8; 100];
    let new_data: Vec<u8> = (0..400u32).map(|i| (i * 7 % 256) as u8).collect();
    let delta = create_delta(&base, &new_data);
    let rebuilt = apply_delta(&base, &delta);
    assert_eq!(rebuilt, new_data);
}

#[test]
fn test_delta_empty_inputs_pass_through() {
    let new_data = b"abcd".to_vec();
    let delta = create_delta(&[], &new_data);
    assert_eq!(delta, new_data);
    let delta2 = create_delta(b"base", &[]);
    assert!(delta2.is_empty());
}

#[test]
fn test_record_overhead_bounded() {
    // a stored record never exceeds the raw bytes by more than its tag
    let incompressible: Vec<u8> = (0..4096u32).map(|i| ((i * 2654435761) >> 13) as u8).collect();
    let record = compress_chunk_data(&incompressible).unwrap();
    assert!(record.len() <= incompressible.len() + 1);
    let tiny = vec![1u8, 2, 3];
    let record = compress_chunk_data(&tiny).unwrap();
    assert!(record.len() <= tiny.len() + 1);
}

#[test]
fn test_lz4_frame_decodes() {
    // a hand-framed LZ4 record reads back to its bytes
    let data: Vec<u8> = (0..2000u32).map(|i| (i % 7) as u8).collect();
    let mut record = vec![1u8];
    record.extend_from_slice(&lz4_flex::compress_prepend_size(&data));
    let back = decompress_chunk_data(&record).unwrap();
    assert_eq!(back, data);
}
