//! The COBS codec of the `cobs` crate, as this library uses it.
//!
//! Each item here calls one function of `cobs` and is trusted: its contract is read
//! off that crate's source and its own tests, and is not proved.

use vstd::prelude::*;
use crate::frame::zero_free;

verus! {

/// The bytes that `cobs::encode` writes for `source` into a destination that is
/// large enough for them.
pub uninterp spec fn cobs_encoding(source: Seq<u8>) -> Seq<u8>;

/// The vector that `cobs::encode_vec` returns for `source`.
pub uninterp spec fn cobs_vec_encoding(source: Seq<u8>) -> Seq<u8>;

/// What `cobs::decode_vec` returns for `source`: the decoded message, or `None`
/// for its decoding error.
pub uninterp spec fn cobs_vec_decoding(source: Seq<u8>) -> Option<Seq<u8>>;

/// What `cobs::decode_in_place` leaves at the front of `buffer`: the decoded message,
/// or `None` for its decoding error.
pub uninterp spec fn cobs_in_place_decoding(buffer: Seq<u8>) -> Option<Seq<u8>>;

/// The count that `cobs::max_encoding_length` gives for a source of `n` bytes.
pub open spec fn max_encoding_len(n: nat) -> int {
    n + n / 254 + (if n % 254 > 0 { 1int } else { 0 })
}

/// How many bytes `cobs::encode` may write beyond the count of `cobs::max_encoding_length`
/// for `source`: one for a non-empty source without zero bytes whose length is a multiple
/// of 254 (its last run of 254 bytes gets a final code byte that the count leaves out),
/// none otherwise.
pub open spec fn encoding_overshoot(source: Seq<u8>) -> int {
    if source.len() > 0 && source.len() % 254 == 0 && zero_free(source) { 1 } else { 0 }
}

/// Calls `cobs::max_encoding_length`, which returns
/// `n + n / 254 + (1 if n % 254 > 0)`. The contract also states how the encodings written
/// by `cobs::encode` for sources of length `n` relate to that count: none is longer,
/// except by one byte for the sources described by `encoding_overshoot`.
#[verifier::external_body]
pub(crate) fn max_encoding_length(source_len: usize) -> (bound: usize)
    requires
        source_len + source_len / 254 + 1 <= usize::MAX,
    ensures
        bound == max_encoding_len(source_len as nat),
        forall|s: Seq<u8>| s.len() == source_len
            ==> #[trigger] cobs_encoding(s).len() <= bound + encoding_overshoot(s),
{
    cobs::max_encoding_length(source_len)
}

/// Calls `cobs::encode(source, dest)`, which panics when `dest` is too small for the
/// encoding, hence the `requires`. It writes the encoding at the front of `dest` and
/// returns its length; it writes nothing past that length. Of the encoding the contract
/// states what the crate exists for and what its own tests check: it holds no zero byte,
/// it is empty exactly for an empty source, and, followed by a zero terminator, it decodes
/// back to the source with `cobs::decode_in_place`, and with `cobs::decode_vec` when the
/// source is not empty (`decode_vec` rejects the lone terminator).
#[verifier::external_body]
pub(crate) fn encode_into(source: &[u8], dest: &mut Vec<u8>) -> (used: usize)
    requires
        cobs_encoding(source@).len() <= old(dest)@.len(),
    ensures
        used == cobs_encoding(source@).len(),
        final(dest)@.len() == old(dest)@.len(),
        final(dest)@.take(used as int) == cobs_encoding(source@),
        final(dest)@.skip(used as int) == old(dest)@.skip(used as int),
        zero_free(final(dest)@.take(used as int)),
        used <= max_encoding_len(source@.len()) + encoding_overshoot(source@),
        (used == 0) == (source@.len() == 0),
        cobs_in_place_decoding(final(dest)@.take(used as int) + seq![0u8]) == Some(source@),
        source@.len() > 0 ==> cobs_vec_decoding(final(dest)@.take(used as int) + seq![0u8])
            == Some(source@),
{
    cobs::encode(source, dest.as_mut_slice())
}

/// Calls `cobs::try_encode(source, dest)`, which never panics; its error becomes `None`.
/// From its source: it fails exactly when a byte of the encoding would land past the end
/// of `dest`; when it succeeds it returns the full length of the encoding, which can be one
/// more than the length of `dest` (the final code byte of a source ending in a run of 254
/// non-zero bytes is then not written). When that length fits, the encoding stands at the
/// front of `dest` and nothing after it is written. What a failed or overlong attempt leaves
/// in `dest` is not stated.
#[verifier::external_body]
pub(crate) fn try_encode_into(source: &[u8], dest: &mut Vec<u8>) -> (used: Option<usize>)
    ensures
        final(dest)@.len() == old(dest)@.len(),
        match used {
            Some(u) => {
                &&& u == cobs_encoding(source@).len()
                &&& u <= old(dest)@.len() ==> {
                    &&& final(dest)@.take(u as int) == cobs_encoding(source@)
                    &&& final(dest)@.skip(u as int) == old(dest)@.skip(u as int)
                }
            },
            None => cobs_encoding(source@).len() > old(dest)@.len(),
        },
{
    cobs::try_encode(source, dest.as_mut_slice()).ok()
}

/// Calls `cobs::encode_vec(source)`. As for `encode_into`, the contract states that the
/// encoding holds no zero byte and that, followed by a zero terminator, it decodes back to
/// the source with `cobs::decode_in_place`, and with `cobs::decode_vec` when the source is
/// not empty.
#[verifier::external_body]
pub(crate) fn encode_to_vec(source: &[u8]) -> (encoded: Vec<u8>)
    ensures
        encoded@ == cobs_vec_encoding(source@),
        zero_free(encoded@),
        encoded@.len() <= max_encoding_len(source@.len()),
        cobs_in_place_decoding(encoded@ + seq![0u8]) == Some(source@),
        source@.len() > 0 ==> cobs_vec_decoding(encoded@ + seq![0u8]) == Some(source@),
{
    cobs::encode_vec(source)
}

/// Calls `cobs::decode_vec(source)`; its error becomes `None`.
#[verifier::external_body]
pub(crate) fn decode_to_vec(source: &[u8]) -> (decoded: Option<Vec<u8>>)
    ensures
        match decoded {
            Some(v) => cobs_vec_decoding(source@) == Some(v@),
            None => cobs_vec_decoding(source@) is None,
        },
{
    cobs::decode_vec(source).ok()
}

/// Calls `cobs::decode_in_place` on the first `len` bytes of `buffer`; its error becomes
/// `None`. The bytes from `len` on are outside the slice it is given and stay as they
/// were; on success the decoded message, never longer than its input, stands at the
/// front. What the failed decoding leaves in the first `len` bytes is not stated.
#[verifier::external_body]
pub(crate) fn decode_prefix_in_place(buffer: &mut Vec<u8>, len: usize) -> (decoded_len: Option<usize>)
    requires
        len <= old(buffer)@.len(),
    ensures
        final(buffer)@.len() == old(buffer)@.len(),
        final(buffer)@.skip(len as int) == old(buffer)@.skip(len as int),
        match cobs_in_place_decoding(old(buffer)@.take(len as int)) {
            Some(d) => {
                &&& decoded_len == Some(d.len() as usize)
                &&& d.len() <= len
                &&& final(buffer)@.take(d.len() as int) == d
            },
            None => decoded_len is None,
        },
{
    cobs::decode_in_place(&mut buffer.as_mut_slice()[..len]).ok()
}

} // verus!
