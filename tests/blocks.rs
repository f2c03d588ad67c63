use gf2n::blocks::{get_128bit_chunks, get_state_matrix};

#[test]
fn short_input_is_padded_with_its_length() {
    let chunks = get_128bit_chunks(String::from("abc"));
    assert_eq!(chunks.len(), 1);
    assert_eq!(&chunks[0][..3], b"abc");
    assert!(chunks[0][3..].iter().all(|&b| b == 13));
}

#[test]
fn exact_block_gets_no_padding_block() {
    let chunks = get_128bit_chunks(String::from("0123456789abcdef"));
    assert_eq!(chunks.len(), 1);
    assert_eq!(&chunks[0][..], b"0123456789abcdef");
    assert!(get_128bit_chunks(String::new()).is_empty());
}

#[test]
fn longer_input_spans_blocks() {
    let chunks = get_128bit_chunks(String::from("0123456789abcdefXY"));
    assert_eq!(chunks.len(), 2);
    assert_eq!(chunks[1][0], b'X');
    assert_eq!(chunks[1][1], b'Y');
    assert_eq!(chunks[1][2], 14);
    assert_eq!(chunks[1][15], 14);
}

#[test]
fn state_matrix_is_column_major() {
    let mut chunk = [0u8; 16];
    for (i, b) in chunk.iter_mut().enumerate() {
        *b = i as u8;
    }
    let m = get_state_matrix(chunk);
    assert_eq!(m[0], [0, 4, 8, 12]);
    assert_eq!(m[1], [1, 5, 9, 13]);
    assert_eq!(m[3][2], 11);
}
