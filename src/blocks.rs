//! Splitting input into 16-byte blocks and arranging a block as the 4x4 AES state.
use vstd::prelude::*;
use vstd::utf8::encode_utf8;

verus! {

/// Number of 16-byte blocks that `n` bytes fill, the last one padded.
pub open spec fn block_count(n: nat) -> nat {
    if n % 16 == 0 {
        n / 16
    } else {
        n / 16 + 1
    }
}

/// Byte `j` of block `i` of `bytes`: the input byte there, or, past the end, the number of
/// padding bytes in the last block.
pub open spec fn padded_byte(bytes: Seq<u8>, i: int, j: int) -> u8 {
    if 16 * i + j < bytes.len() {
        bytes[16 * i + j]
    } else {
        (16 - bytes.len() % 16) as u8
    }
}

/// Splits the bytes of `input` into 16-byte blocks; a short last block is filled with copies
/// of its padding length.
pub fn get_128bit_chunks(input: String) -> (r: Vec<[u8; 16]>)
    ensures
        r.len() == block_count(encode_utf8(input@).len()),
        forall|i: int, j: int|
            0 <= i < r.len() && 0 <= j < 16 ==> #[trigger] r[i][j] == padded_byte(
                encode_utf8(input@),
                i,
                j,
            ),
{
    let bytes = input.as_str().as_bytes();
    let n = bytes.len();
    let mut chunked: Vec<[u8; 16]> = Vec::new();
    let mut start: usize = 0;
    while start < n
        invariant
            bytes@ == encode_utf8(input@),
            n == bytes@.len(),
            start <= n,
            start < n ==> start % 16 == 0 && chunked.len() == start / 16,
            start == n ==> chunked.len() == block_count(n as nat),
            forall|i: int, j: int|
                0 <= i < chunked.len() && 0 <= j < 16 ==> #[trigger] chunked[i][j] == padded_byte(
                    bytes@,
                    i,
                    j,
                ),
        decreases n + 16 - start,
    {
        let mut chunk = [0u8; 16];
        let mut j: usize = 0;
        while j < 16
            invariant
                bytes@ == encode_utf8(input@),
                n == bytes@.len(),
                start < n,
                start % 16 == 0,
                j <= 16,
                forall|k: int| 0 <= k < j ==> #[trigger] chunk[k] == padded_byte(
                    bytes@,
                    (start / 16) as int,
                    k,
                ),
            decreases 16 - j,
        {
            if j < n - start {
                chunk[j] = bytes[start + j];
            } else {
                chunk[j] = (16 - n % 16) as u8;
            }
            j += 1;
        }
        chunked.push(chunk);
        if n - start <= 16 {
            start = n;
        } else {
            start = start + 16;
        }
    }
    chunked
}

/// The 4x4 state of a block, filled column by column: `matrix[row][col] == chunk[col * 4 + row]`.
pub fn get_state_matrix(chunk: [u8; 16]) -> (r: [[u8; 4]; 4])
    ensures
        forall|row: int, col: int|
            0 <= row < 4 && 0 <= col < 4 ==> #[trigger] r[row][col] == chunk[col * 4 + row],
{
    let mut state_matrix = [[0u8; 4]; 4];
    let mut col: usize = 0;
    while col < 4
        invariant
            col <= 4,
            forall|row: int, c: int|
                0 <= row < 4 && 0 <= c < col ==> #[trigger] state_matrix[row][c] == chunk[c * 4
                    + row],
        decreases 4 - col,
    {
        let mut row: usize = 0;
        while row < 4
            invariant
                col < 4,
                row <= 4,
                forall|r: int, c: int|
                    0 <= r < 4 && 0 <= c < col ==> #[trigger] state_matrix[r][c] == chunk[c * 4
                        + r],
                forall|r: int| 0 <= r < row ==> #[trigger] state_matrix[r][col as int] == chunk[col * 4 + r],
            decreases 4 - row,
        {
            state_matrix[row][col] = chunk[col * 4 + row];
            row += 1;
        }
        col += 1;
    }
    state_matrix
}

} // verus!
