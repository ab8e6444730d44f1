use fig2json::chunks::extract_chunks;
use fig2json::error::FigError;
use fig2json::types::ParsedFile;

#[test]
fn test_extract_chunks_minimal() {
    let mut bytes = Vec::new();
    bytes.extend_from_slice(b"fig-kiwi");
    bytes.extend_from_slice(&48u32.to_le_bytes());
    bytes.extend_from_slice(&5u32.to_le_bytes());
    bytes.extend_from_slice(b"chunk");
    bytes.extend_from_slice(&4u32.to_le_bytes());
    bytes.extend_from_slice(b"data");

    let result = extract_chunks(&bytes).unwrap();
    assert_eq!(result.version, 48);
    assert_eq!(result.chunks.len(), 2);
    assert_eq!(result.chunks[0], b"chunk");
    assert_eq!(result.chunks[1], b"data");
}

#[test]
fn test_extract_chunks_multiple() {
    let mut bytes = Vec::new();
    bytes.extend_from_slice(b"fig-kiwi");
    bytes.extend_from_slice(&101u32.to_le_bytes());
    for i in 0..3 {
        let chunk_data = format!("chunk{}", i);
        bytes.extend_from_slice(&(chunk_data.len() as u32).to_le_bytes());
        bytes.extend_from_slice(chunk_data.as_bytes());
    }

    let result = extract_chunks(&bytes).unwrap();
    assert_eq!(result.version, 101);
    assert_eq!(result.chunks.len(), 3);
}

#[test]
fn test_extract_chunks_file_too_small() {
    let bytes = b"fig-kiwi\x00";
    let result = extract_chunks(bytes);
    assert!(result.is_err());
    match result {
        Err(FigError::FileTooSmall { .. }) => (),
        _ => panic!("Expected FileTooSmall error"),
    }
}

#[test]
fn test_extract_chunks_incomplete_chunk() {
    let mut bytes = Vec::new();
    bytes.extend_from_slice(b"fig-kiwi");
    bytes.extend_from_slice(&48u32.to_le_bytes());
    bytes.extend_from_slice(&100u32.to_le_bytes());
    bytes.extend_from_slice(b"short");

    let result = extract_chunks(&bytes);
    assert!(result.is_err());
    match result {
        Err(FigError::IncompleteChunk { .. }) => (),
        _ => panic!("Expected IncompleteChunk error"),
    }
}

#[test]
fn test_extract_chunks_not_enough_chunks() {
    let mut bytes = Vec::new();
    bytes.extend_from_slice(b"fig-kiwi");
    bytes.extend_from_slice(&48u32.to_le_bytes());
    bytes.extend_from_slice(&5u32.to_le_bytes());
    bytes.extend_from_slice(b"chunk");

    let result = extract_chunks(&bytes);
    assert!(result.is_err());
    match result {
        Err(FigError::NotEnoughChunks { expected, actual }) => {
            assert_eq!(expected, 2);
            assert_eq!(actual, 1);
        }
        _ => panic!("Expected NotEnoughChunks error"),
    }
}

#[test]
fn incomplete_chunk_reports_offset_and_sizes() {
    let mut bytes = Vec::new();
    bytes.extend_from_slice(b"fig-kiwi");
    bytes.extend_from_slice(&48u32.to_le_bytes());
    bytes.extend_from_slice(&100u32.to_le_bytes());
    bytes.extend_from_slice(b"short");
    match extract_chunks(&bytes) {
        Err(FigError::IncompleteChunk { offset, expected, actual }) => {
            assert_eq!(offset, 12);
            assert_eq!(expected, 100);
            assert_eq!(actual, 5);
        }
        _ => panic!("Expected IncompleteChunk error"),
    }
}

#[test]
fn trailing_partial_header_is_ignored() {
    let mut bytes = Vec::new();
    bytes.extend_from_slice(b"fig-kiwi");
    bytes.extend_from_slice(&7u32.to_le_bytes());
    bytes.extend_from_slice(&1u32.to_le_bytes());
    bytes.push(9);
    bytes.extend_from_slice(&0u32.to_le_bytes());
    bytes.extend_from_slice(&[1, 2]);
    let parsed = extract_chunks(&bytes).unwrap();
    assert_eq!(parsed.chunks, vec![vec![9u8], vec![]]);
}

#[test]
fn parsed_file_accessors() {
    let p = ParsedFile::new(3, vec![vec![1], vec![2], vec![3], vec![4]]);
    assert_eq!(p.schema_chunk(), Some(&[1u8][..]));
    assert_eq!(p.data_chunk(), Some(&[2u8][..]));
    assert_eq!(p.image_chunks().len(), 2);
    let q = ParsedFile::new(3, vec![vec![1]]);
    assert_eq!(q.data_chunk(), None);
    assert_eq!(q.image_chunks().len(), 0);
}

#[test]
fn layout_read_back_keeps_every_chunk() {
    let chunks: Vec<Vec<u8>> = vec![vec![], vec![0xff; 300], b"x".to_vec(), vec![1, 2, 3, 4]];
    let mut bytes = Vec::new();
    bytes.extend_from_slice(b"fig-jam.");
    bytes.extend_from_slice(&0x01020304u32.to_le_bytes());
    for c in &chunks {
        bytes.extend_from_slice(&(c.len() as u32).to_le_bytes());
        bytes.extend_from_slice(c);
    }

    let result = extract_chunks(&bytes).unwrap();
    assert_eq!(result.version, 0x01020304);
    assert_eq!(result.chunks, chunks);
}
