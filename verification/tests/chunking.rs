use cdc_chunker::{chunk, next_cutpoint, ChunkError};

fn collect_chunks(data: &[u8], window: usize) -> Vec<Vec<u8>> {
    let mut it = chunk(data, window).unwrap();
    let mut out: Vec<Vec<u8>> = Vec::new();
    while let Some(c) = it.next() {
        out.push(c.to_vec());
    }
    out
}

#[test]
fn no_cutpoint_in_string_returns_end() {
    assert_eq!(next_cutpoint(&[1, 2, 3, 4, 5], 2), 5);
}

#[test]
fn decreasing_string_has_cutpoint_equal_to_window_size() {
    let data: &[u8] = &[10, 9, 8, 7, 6, 5, 4, 3, 2, 1];
    for window in 1..(data.len() - 1) {
        assert_eq!(next_cutpoint(data, window), window + 1);
    }
}

#[test]
fn sum_of_chunk_lengths_is_original_length() {
    let data: &[u8] = &[7, 3, 3, 9, 1, 1, 1, 1, 4, 8, 2, 2, 6, 0, 5, 5, 5, 9, 9, 1];
    for window in 1..6 {
        let mut total_length: usize = 0;
        for c in collect_chunks(data, window) {
            total_length += c.len();
        }
        assert_eq!(total_length, data.len());
    }
}

#[test]
fn chunked_input_merges_to_input() {
    let data: &[u8] = &[7, 3, 3, 9, 1, 1, 1, 1, 4, 8, 2, 2, 6, 0, 5, 5, 5, 9, 9, 1];
    for window in 1..6 {
        let mut fused: Vec<u8> = Vec::new();
        for c in collect_chunks(data, window) {
            fused.extend_from_slice(&c);
        }
        assert_eq!(fused, data.to_vec());
    }
}

#[test]
fn interior_chunks_are_at_least_window_plus_one() {
    let data: &[u8] = &[9, 1, 1, 1, 1, 8, 1, 1, 1, 1, 7, 1, 1, 1, 1, 6, 1, 1];
    for window in 1..5 {
        let chunks = collect_chunks(data, window);
        for (i, c) in chunks.iter().enumerate() {
            if i + 1 < chunks.len() {
                assert!(c.len() >= window + 1);
            }
        }
    }
}

#[test]
fn empty_input_yields_one_empty_chunk() {
    let data: &[u8] = &[];
    let mut it = chunk(data, 3).unwrap();
    let first = it.next();
    assert_eq!(first, Some(&data[0..0]));
    assert_eq!(first.unwrap().len(), 0);
    assert_eq!(it.next(), None);
    assert_eq!(it.next(), None);
}

#[test]
fn increasing_input_is_a_single_chunk() {
    let data: &[u8] = &[1, 2, 3, 4, 5];
    let chunks = collect_chunks(data, 2);
    assert_eq!(chunks.len(), 1);
    assert_eq!(chunks[0].len(), 5);
    assert_eq!(chunks[0], data.to_vec());
}

#[test]
fn decreasing_input_first_chunk_ends_at_window_plus_one() {
    let data: &[u8] = &[10, 9, 8, 7, 6, 5, 4, 3, 2, 1];
    for window in 1..8 {
        let chunks = collect_chunks(data, window);
        assert_eq!(chunks[0].len(), window + 1);
    }
}

#[test]
fn plateau_does_not_reset_the_anchor() {
    // ties with the running maximum extend the run; the anchor stays at 0,
    // so the first boundary fires at window + 1
    let data: &[u8] = &[5, 5, 5, 5];
    assert_eq!(next_cutpoint(data, 1), 2);
    let chunks = collect_chunks(data, 1);
    assert_eq!(chunks, vec![vec![5, 5], vec![5, 5]]);
}

#[test]
fn chunking_is_deterministic() {
    let data: &[u8] = &[4, 4, 2, 9, 9, 0, 3, 3, 3, 8, 1, 2, 7, 7, 0, 6];
    for window in 1..6 {
        let first = collect_chunks(data, window);
        let second = collect_chunks(data, window);
        assert_eq!(first, second);
    }
}

#[test]
fn zero_window_is_rejected() {
    let data: &[u8] = &[1, 2, 3];
    let r = chunk(data, 0);
    assert_eq!(r.err(), Some(ChunkError::InvalidArgument));
    let empty: &[u8] = &[];
    assert_eq!(chunk(empty, 0).err(), Some(ChunkError::InvalidArgument));
}

#[test]
fn iterator_is_exhausted_after_the_last_chunk() {
    let data: &[u8] = &[9, 1, 1, 1, 2];
    let mut it = chunk(data, 2).unwrap();
    assert_eq!(it.next(), Some(&data[0..3]));
    assert_eq!(it.next(), Some(&data[3..5]));
    assert_eq!(it.next(), None);
    assert_eq!(it.next(), None);
}
