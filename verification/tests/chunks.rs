use pdf_splitter::chunks::compute_chunks_from_cumulative;

#[test]
fn test_compute_chunks_from_cumulative_unit() {
    // 5 pages of sizes [90, 110, 100, 90, 110]
    let cumulative = vec![500, 410, 300, 200, 110, 0];
    let chunks = compute_chunks_from_cumulative(&cumulative, 200);

    assert_eq!(chunks.len(), 3);
    assert_eq!(chunks[0], vec![0, 1]);
    assert_eq!(chunks[1], vec![2, 3]);
    assert_eq!(chunks[2], vec![4]);

    let expected_sizes = [200u64, 190, 110];
    for (i, chunk) in chunks.iter().enumerate() {
        let chunk_size = cumulative[chunk[0]] - cumulative[chunk.last().unwrap() + 1];
        assert!(chunk_size <= 200, "Chunk {i} size {chunk_size} exceeds limit");
        assert_eq!(chunk_size, expected_sizes[i], "Chunk {i} unexpected size");
    }
}

#[test]
fn test_compute_chunks_oversized_page() {
    // Page 1 is huge (400), others are small
    let cumulative = vec![800, 500, 100, 50, 0];
    let chunks = compute_chunks_from_cumulative(&cumulative, 200);

    assert_eq!(chunks.len(), 3);
    assert_eq!(chunks[0], vec![0]); // size 300 > 200: a chunk of its own
    assert_eq!(chunks[1], vec![1]); // size 400 > 200: a chunk of its own
    assert_eq!(chunks[2], vec![2, 3]); // sizes 50 + 50 <= 200
}

#[test]
fn test_compute_chunks_small_pages() {
    let cumulative = vec![200, 150, 100, 50, 0];
    let chunks = compute_chunks_from_cumulative(&cumulative, 500);
    assert_eq!(chunks.len(), 1);
    assert_eq!(chunks[0], vec![0, 1, 2, 3]);
}

#[test]
fn test_compute_chunks_empty() {
    let cumulative = vec![0];
    let chunks = compute_chunks_from_cumulative(&cumulative, 100);
    assert!(chunks.is_empty());
}

#[test]
fn test_compute_chunks_single_page() {
    let cumulative = vec![100, 0];
    let chunks = compute_chunks_from_cumulative(&cumulative, 200);
    assert_eq!(chunks.len(), 1);
    assert_eq!(chunks[0], vec![0]);
    let chunks = compute_chunks_from_cumulative(&cumulative, 100);
    assert_eq!(chunks.len(), 1);
    assert_eq!(chunks[0], vec![0]);
    let chunks = compute_chunks_from_cumulative(&cumulative, 50);
    assert_eq!(chunks.len(), 1);
    assert_eq!(chunks[0], vec![0]);
}
