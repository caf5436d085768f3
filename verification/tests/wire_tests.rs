use murmur::wire::{compress_wire, decompress_wire, ChunkBuffer, NetError, COMPRESS_THRESHOLD};

#[test]
fn test_compress_decompress_roundtrip() {
    let data = vec![42u8; 1024];
    let compressed = compress_wire(&data);
    let decompressed = decompress_wire(&compressed).unwrap();
    assert_eq!(decompressed, data);
}

#[test]
fn test_compress_small_data_not_compressed() {
    let data = vec![1u8; 100];
    let wire = compress_wire(&data);
    assert_eq!(wire[0], 0);
    assert_eq!(&wire[1..], &data);
}

#[test]
fn test_decompress_empty_payload_error() {
    let result = decompress_wire(&[]);
    assert!(result.is_err());
}

#[test]
fn test_decompress_unknown_flag_error() {
    let result = decompress_wire(&[0x42, 0x01, 0x02]);
    assert!(result.is_err());
}

#[test]
fn test_chunk_buffer_reassemble() {
    let mut buf = ChunkBuffer::new(3);
    buf.insert(0, vec![1, 2]);
    buf.insert(1, vec![3, 4]);
    assert!(!buf.is_complete());
    buf.insert(2, vec![5, 6]);
    assert!(buf.is_complete());
    assert_eq!(buf.reassemble(), vec![1, 2, 3, 4, 5, 6]);
}

#[test]
fn test_chunk_buffer_out_of_order() {
    let mut buf = ChunkBuffer::new(3);
    buf.insert(2, vec![5, 6]);
    buf.insert(0, vec![1, 2]);
    buf.insert(1, vec![3, 4]);
    assert!(buf.is_complete());
    assert_eq!(buf.reassemble(), vec![1, 2, 3, 4, 5, 6]);
}

#[test]
fn test_compress_large_repetitive_payload_uses_deflate() {
    let data = vec![7u8; 4096];
    let wire = compress_wire(&data);
    assert_eq!(wire[0], 1);
    assert!(wire.len() < data.len());
    assert_eq!(decompress_wire(&wire).unwrap(), data);
}

#[test]
fn test_compress_threshold_boundary() {
    let data: Vec<u8> = (0..COMPRESS_THRESHOLD - 1).map(|i| i as u8).collect();
    assert_eq!(compress_wire(&data)[0], 0);
}

#[test]
fn test_decompress_messages() {
    match decompress_wire(&[]) {
        Err(NetError::Deserialization(m)) => assert_eq!(m, "empty wire payload"),
        other => panic!("unexpected {other:?}"),
    }
    match decompress_wire(&[0x42, 0x01]) {
        Err(NetError::Deserialization(m)) => assert_eq!(m, "unknown wire compression flag: 66"),
        other => panic!("unexpected {other:?}"),
    }
    assert!(matches!(decompress_wire(&[1, 0xff, 0xff]), Err(NetError::Deserialization(_))));
    assert_eq!(decompress_wire(&[0]).unwrap(), Vec::<u8>::new());
}

#[test]
fn test_chunk_buffer_replaces_and_counts_distinct() {
    let mut buf = ChunkBuffer::new(2);
    buf.insert(1, vec![9]);
    buf.insert(1, vec![3]);
    assert!(!buf.is_complete());
    buf.insert(0, vec![1, 2]);
    assert!(buf.is_complete());
    assert_eq!(buf.reassemble(), vec![1, 2, 3]);
}

#[test]
fn test_chunk_buffer_gap_concatenates_present() {
    let mut buf = ChunkBuffer::new(3);
    buf.insert(5, vec![5]);
    buf.insert(1, vec![1]);
    assert!(!buf.is_complete());
    assert_eq!(buf.reassemble(), vec![1, 5]);
}

#[test]
fn test_chunks_split_and_inserted_in_any_order_give_data_back() {
    let data: Vec<u8> = (0..250u32).map(|i| (i * 7 % 256) as u8).collect();
    let chunks: Vec<Vec<u8>> = data.chunks(64).map(|c| c.to_vec()).collect();
    assert_eq!(chunks.len(), 4);
    let mut buf = ChunkBuffer::new(4);
    for i in [2usize, 0, 3, 2, 1] {
        assert!(!buf.is_complete() || i == 1);
        buf.insert(i as u32, chunks[i].clone());
    }
    assert!(buf.is_complete());
    assert_eq!(buf.reassemble(), data);
}

#[test]
fn test_decompress_corrupt_stream_carries_decoder_error() {
    match decompress_wire(&[1, 0xff, 0xff]) {
        Err(NetError::Deserialization(m)) => {
            assert!(m.starts_with("deflate decompress: "));
            assert!(m.len() > "deflate decompress: ".len());
        }
        other => panic!("unexpected {other:?}"),
    }
}

#[test]
fn test_replaced_chunk_reassembles_to_last_stored() {
    let mut buf = ChunkBuffer::new(2);
    buf.insert(1, vec![9, 9]);
    buf.insert(0, vec![1]);
    buf.insert(1, vec![2, 3]);
    assert!(buf.is_complete());
    assert_eq!(buf.reassemble(), vec![1, 2, 3]);
}
