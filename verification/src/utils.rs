//! Helpers for moving residues between their unsigned and signed readings,
//! and between memory and their stored form: a flat sequence of
//! little-endian 64-bit words.

use crate::circuit::CircuitError;
use byteorder::{ByteOrder, LittleEndian};
use vstd::prelude::*;

verus! {

/// The signed reading of a residue `v` modulo `modq`: residues below
/// `modq / 2` stand for themselves, the others for `v - modq`.
pub open spec fn centered(v: int, modq: int) -> int {
    if v < modq / 2 {
        v
    } else {
        v - modq
    }
}

/// Maps every residue of `values` to its signed reading modulo `modq`.
pub fn convert_u64_to_i64(values: &[u64], modq: u64) -> (signed: Vec<i64>)
    requires
        forall|i: int| 0 <= i < values@.len() ==> values@[i] <= modq,
    ensures
        signed@.len() == values@.len(),
        forall|i: int|
            0 <= i < values@.len() ==> #[trigger] signed@[i] as int == centered(
                values@[i] as int,
                modq as int,
            ),
{
    let q_by_2: u64 = modq / 2;
    let mut signed: Vec<i64> = Vec::new();
    let mut i: usize = 0;
    while i < values.len()
        invariant
            i <= values@.len(),
            q_by_2 == modq / 2,
            signed@.len() == i,
            forall|k: int| 0 <= k < values@.len() ==> values@[k] <= modq,
            forall|k: int|
                0 <= k < i ==> #[trigger] signed@[k] as int == centered(
                    values@[k] as int,
                    modq as int,
                ),
        decreases values@.len() - i,
    {
        let v: u64 = values[i];
        let s: i64 = if v < q_by_2 {
            v as i64
        } else {
            let gap: u64 = modq - v;
            if gap > i64::MAX as u64 {
                i64::MIN
            } else {
                -(gap as i64)
            }
        };
        signed.push(s);
        i += 1;
    }
    signed
}

/// Byte `j` of the little-endian form of `word`.
pub open spec fn le_byte(word: u64, j: int) -> u8 {
    ((word >> ((8 * j) as u64)) & 0xff) as u8
}

/// The word whose little-endian form is the 8 bytes of `bytes` from `at` on.
pub open spec fn le_word(bytes: Seq<u8>, at: int) -> u64 {
    (bytes[at] as u64) | (bytes[at + 1] as u64) << 8 | (bytes[at + 2] as u64) << 16 | (bytes[at
        + 3] as u64) << 24 | (bytes[at + 4] as u64) << 32 | (bytes[at + 5] as u64) << 40 | (bytes[at
        + 6] as u64) << 48 | (bytes[at + 7] as u64) << 56
}

/// The stored form of `values`: 8 bytes per value, lowest byte first.
pub open spec fn le_bytes(values: Seq<u64>) -> Seq<u8> {
    Seq::new(8 * values.len(), |k: int| le_byte(values[k / 8], k % 8))
}

/// The values whose stored form is `bytes`.
pub open spec fn le_words(bytes: Seq<u8>) -> Seq<u64> {
    Seq::new(bytes.len() / 8, |k: int| le_word(bytes, 8 * k))
}

/// Calls `byteorder::LittleEndian::write_u64_into`. Trusted: given a buffer
/// of 8 bytes per value, the call fills it with each value's bytes in
/// little-endian order, one value after the other. (With a buffer of another
/// length the call panics.)
#[verifier::external_body]
fn write_u64_words(values: &[u64], buf: &mut Vec<u8>)
    requires
        old(buf)@.len() == 8 * values@.len(),
    ensures
        final(buf)@ == le_bytes(values@),
{
    LittleEndian::write_u64_into(values, buf);
}

/// Calls `byteorder::LittleEndian::read_u64_into`. Trusted: given room for
/// one word per 8 bytes, the call reads each word from its 8 bytes in
/// little-endian order. (With room for another number of words the call
/// panics.)
#[verifier::external_body]
fn read_u64_words(bytes: &[u8], words: &mut Vec<u64>)
    requires
        8 * old(words)@.len() == bytes@.len(),
    ensures
        final(words)@ == le_words(bytes@),
{
    LittleEndian::read_u64_into(bytes, words);
}

/// The stored form of `values`, ready to be written out.
pub fn store_values(values: &[u64]) -> (bytes: Vec<u8>)
    requires
        8 * values@.len() <= usize::MAX,
    ensures
        bytes@ == le_bytes(values@),
{
    let size: usize = values.len() * 8;
    let mut buf: Vec<u8> = Vec::new();
    while buf.len() < size
        invariant
            buf@.len() <= size,
        decreases size - buf@.len(),
    {
        buf.push(0u8);
    }
    write_u64_words(values, &mut buf);
    buf
}

/// The values stored in `bytes`, or an error when `bytes` is not a whole
/// number of words.
pub fn read_values(bytes: &[u8]) -> (read: Result<Vec<u64>, CircuitError>)
    ensures
        read is Ok <==> bytes@.len() % 8 == 0,
        read matches Ok(values) ==> values@ == le_words(bytes@),
        read matches Err(e) ==> e == CircuitError::MalformedValues,
{
    if bytes.len() % 8 != 0 {
        return Err(CircuitError::MalformedValues);
    }
    let count: usize = bytes.len() / 8;
    let mut coeffs: Vec<u64> = Vec::new();
    while coeffs.len() < count
        invariant
            coeffs@.len() <= count,
        decreases count - coeffs@.len(),
    {
        coeffs.push(0u64);
    }
    read_u64_words(bytes, &mut coeffs);
    Ok(coeffs)
}

/// A word is put together again from its own bytes.
proof fn lemma_word_of_bytes(word: u64)
    ensures
        (le_byte(word, 0) as u64) | (le_byte(word, 1) as u64) << 8 | (le_byte(word, 2) as u64) << 16
            | (le_byte(word, 3) as u64) << 24 | (le_byte(word, 4) as u64) << 32 | (le_byte(
            word,
            5,
        ) as u64) << 40 | (le_byte(word, 6) as u64) << 48 | (le_byte(word, 7) as u64) << 56
            == word,
{
    assert((((word >> 0u64) & 0xff) as u8 as u64) | (((word >> 8u64) & 0xff) as u8 as u64) << 8
        | (((word >> 16u64) & 0xff) as u8 as u64) << 16 | (((word >> 24u64) & 0xff) as u8 as u64)
        << 24 | (((word >> 32u64) & 0xff) as u8 as u64) << 32 | (((word >> 40u64) & 0xff) as u8
        as u64) << 40 | (((word >> 48u64) & 0xff) as u8 as u64) << 48 | (((word >> 56u64) & 0xff)
        as u8 as u64) << 56 == word) by (bit_vector);
}

/// Reading back what was stored gives the values that were stored.
pub proof fn lemma_store_then_read(values: Seq<u64>)
    ensures
        le_words(le_bytes(values)) == values,
{
    let bytes = le_bytes(values);
    assert(bytes.len() / 8 == values.len());
    assert forall|k: int| 0 <= k < values.len() implies le_words(bytes)[k] == values[k] by {
        lemma_word_of_bytes(values[k]);
        assert(bytes[8 * k] == le_byte(values[k], 0));
        assert(bytes[8 * k + 1] == le_byte(values[k], 1));
        assert(bytes[8 * k + 2] == le_byte(values[k], 2));
        assert(bytes[8 * k + 3] == le_byte(values[k], 3));
        assert(bytes[8 * k + 4] == le_byte(values[k], 4));
        assert(bytes[8 * k + 5] == le_byte(values[k], 5));
        assert(bytes[8 * k + 6] == le_byte(values[k], 6));
        assert(bytes[8 * k + 7] == le_byte(values[k], 7));
    }
    assert(le_words(bytes) =~= values);
}

} // verus!
