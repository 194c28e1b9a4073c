//! The device's transmit side: COBS frames sent over the RTT up channel.
//!
//! A message is staged in the first buffer (postcard-rpc header, then body), encoded
//! with COBS into the second buffer, and written to the channel followed by a zero byte.

use vstd::prelude::*;
use crate::frame::{find_zero, lemma_first_zero, zero_free};
use crate::codec::{cobs_encoding, encode_into, encoding_overshoot, max_encoding_len, max_encoding_length, try_encode_into};
use crate::header::{header_bytes, write_bytes, WireHeader};
use crate::host_link::{host_deframe, lemma_deframe_one};

verus! {

/// Whether the COBS encoding of `source` fits in `scratch`. Decided from
/// `cobs::max_encoding_length` when that settles it, and otherwise by encoding into
/// `scratch` with `cobs::try_encode`; `scratch` keeps its length, its bytes may change.
fn encoding_fits(source: &[u8], scratch: &mut Vec<u8>) -> (fits: bool)
    ensures
        fits == (cobs_encoding(source@).len() <= old(scratch)@.len()),
        final(scratch)@.len() == old(scratch)@.len(),
        source@.len() + source@.len() / 254 < usize::MAX
            && max_encoding_len(source@.len()) + encoding_overshoot(source@) <= old(scratch)@.len() ==> fits,
{
    let n = source.len();
    let room = scratch.len();
    if n / 254 < usize::MAX - n {
        let bound = max_encoding_length(n);
        if bound < room {
            return true;
        }
        if bound == room {
            // Only a zero-free source whose length is a non-zero multiple of 254 can need
            // one byte more than the count.
            if n == 0 || n % 254 != 0 || find_zero(source, 0) < n {
                proof {
                    assert(source@.skip(0) == source@);
                    lemma_first_zero(source@);
                    if n > 0 && n % 254 == 0 {
                        assert(!zero_free(source@));
                    }
                }
                return true;
            }
        }
    }
    match try_encode_into(source, scratch) {
        Some(used) => used <= room,
        None => false,
    }
}

/// The two scratch buffers of the transmitter.
pub struct RttTxInner {
    /// Where a message is staged before it is encoded.
    pub buf1: Vec<u8>,
    /// Where the encoded frame is built.
    pub buf2: Vec<u8>,
}

impl RttTxInner {
    /// COBS-encodes `buf` into `buf2` and returns the length of the encoding; the caller
    /// writes `buf2[..used]` and then a zero byte.
    ///
    /// The frame so written is read back by the host as exactly one message, `buf`, when
    /// `buf` is not empty.
    pub fn send_raw(&mut self, buf: &[u8]) -> (used: usize)
        requires
            cobs_encoding(buf@).len() <= old(self).buf2@.len(),
        ensures
            used == cobs_encoding(buf@).len(),
            used <= max_encoding_len(buf@.len()) + encoding_overshoot(buf@),
            final(self).buf2@.take(used as int) == cobs_encoding(buf@),
            final(self).buf2@.skip(used as int) == old(self).buf2@.skip(used as int),
            final(self).buf2@.len() == old(self).buf2@.len(),
            final(self).buf1@ == old(self).buf1@,
            zero_free(final(self).buf2@.take(used as int)),
            buf@.len() > 0 ==> host_deframe(Seq::empty(), final(self).buf2@.take(used as int) + seq![0u8])
                == (seq![buf@], Seq::<u8>::empty()),
    {
        let used = encode_into(buf, &mut self.buf2);
        proof {
            if buf@.len() > 0 {
                lemma_deframe_one(self.buf2@.take(used as int), buf@);
            }
        }
        used
    }

    /// `send_raw` when the encoding fits in `buf2`; `None` when it does not (nothing is to
    /// be written then).
    pub fn try_send_raw(&mut self, buf: &[u8]) -> (used: Option<usize>)
        ensures
            used is Some <==> cobs_encoding(buf@).len() <= old(self).buf2@.len(),
            buf@.len() + buf@.len() / 254 < usize::MAX
                && max_encoding_len(buf@.len()) + encoding_overshoot(buf@) <= old(self).buf2@.len() ==> used is Some,
            used matches Some(n) ==> {
                &&& n == cobs_encoding(buf@).len()
                &&& final(self).buf2@.take(n as int) == cobs_encoding(buf@)
                &&& buf@.len() > 0 ==> host_deframe(Seq::empty(), final(self).buf2@.take(n as int) + seq![0u8])
                    == (seq![buf@], Seq::<u8>::empty())
            },
            final(self).buf2@.len() == old(self).buf2@.len(),
            final(self).buf1@ == old(self).buf1@,
    {
        if encoding_fits(buf, &mut self.buf2) {
            Some(self.send_raw(buf))
        } else {
            None
        }
    }

    /// The first `used` bytes of `buf2`: the encoded frame to write.
    pub fn encoded(&self, used: usize) -> (window: &[u8])
        requires
            used <= self.buf2@.len(),
        ensures
            window@ == self.buf2@.take(used as int),
    {
        let (window, _) = self.buf2.as_slice().split_at(used);
        window
    }

    /// Stages a message in `buf1`: the header `hdr`, then the serialized `body`. Returns the
    /// length of the whole. The caller makes sure that both fit.
    pub fn stage_message(&mut self, hdr: &WireHeader, body: &[u8]) -> (n: usize)
        requires
            header_bytes(*hdr).len() + body@.len() <= old(self).buf1@.len(),
        ensures
            n == header_bytes(*hdr).len() + body@.len(),
            final(self).buf1@ == header_bytes(*hdr) + body@ + old(self).buf1@.skip(n as int),
            final(self).buf2@ == old(self).buf2@,
    {
        let h = match hdr.write_to_slice(&mut self.buf1) {
            Some(h) => h,
            None => return 0,
        };
        let ghost after_header = self.buf1@;
        let room = self.buf1.len();
        assert(h + body@.len() <= room);
        let n = h + body.len();
        write_bytes(&mut self.buf1, h, body);
        assert(after_header.take(h as int) == header_bytes(*hdr));
        assert(after_header.skip(n as int) == old(self).buf1@.skip(n as int)) by {
            assert(after_header.skip(n as int) == after_header.skip(h as int).skip(body@.len() as int));
        }
        n
    }

    /// COBS-encodes the first `n` bytes of `buf1` into `buf2` and returns the length of the
    /// encoding; the caller writes `buf2[..used]` and then a zero byte.
    ///
    /// The frame so written is read back by the host as exactly the staged message, when
    /// that is not empty.
    pub fn encode_staged(&mut self, n: usize) -> (used: usize)
        requires
            n <= old(self).buf1@.len(),
            cobs_encoding(old(self).buf1@.take(n as int)).len() <= old(self).buf2@.len(),
        ensures
            used == cobs_encoding(old(self).buf1@.take(n as int)).len(),
            final(self).buf2@.take(used as int) == cobs_encoding(old(self).buf1@.take(n as int)),
            final(self).buf2@.skip(used as int) == old(self).buf2@.skip(used as int),
            final(self).buf2@.len() == old(self).buf2@.len(),
            final(self).buf1@ == old(self).buf1@,
            zero_free(final(self).buf2@.take(used as int)),
            n > 0 ==> host_deframe(Seq::empty(), final(self).buf2@.take(used as int) + seq![0u8])
                == (seq![old(self).buf1@.take(n as int)], Seq::<u8>::empty()),
    {
        let (staged, _) = self.buf1.as_slice().split_at(n);
        let used = encode_into(staged, &mut self.buf2);
        proof {
            if n > 0 {
                lemma_deframe_one(self.buf2@.take(used as int), staged@);
            }
        }
        used
    }

    /// `encode_staged` when the encoding fits in `buf2`; `None` when it does not (nothing
    /// is to be written then).
    pub fn try_encode_staged(&mut self, n: usize) -> (used: Option<usize>)
        requires
            n <= old(self).buf1@.len(),
        ensures
            used is Some <==> cobs_encoding(old(self).buf1@.take(n as int)).len() <= old(self).buf2@.len(),
            n + n / 254 < usize::MAX && max_encoding_len(n as nat) + encoding_overshoot(old(self).buf1@.take(n as int))
                <= old(self).buf2@.len() ==> used is Some,
            used matches Some(k) ==> {
                &&& k == cobs_encoding(old(self).buf1@.take(n as int)).len()
                &&& final(self).buf2@.take(k as int) == cobs_encoding(old(self).buf1@.take(n as int))
                &&& n > 0 ==> host_deframe(Seq::empty(), final(self).buf2@.take(k as int) + seq![0u8])
                    == (seq![old(self).buf1@.take(n as int)], Seq::<u8>::empty())
            },
            final(self).buf2@.len() == old(self).buf2@.len(),
            final(self).buf1@ == old(self).buf1@,
    {
        let (staged, _) = self.buf1.as_slice().split_at(n);
        if encoding_fits(staged, &mut self.buf2) {
            Some(self.encode_staged(n))
        } else {
            None
        }
    }

    /// Stages and encodes a message: the header `hdr`, then the serialized `body`, which the
    /// caller makes sure fit in `buf1`. Returns the length of the encoded frame in `buf2`, or
    /// `None` when the encoding does not fit there (nothing is to be written then).
    ///
    /// The frame so written is read back by the host as exactly the header followed by the
    /// body.
    pub fn send(&mut self, hdr: &WireHeader, body: &[u8]) -> (used: Option<usize>)
        requires
            header_bytes(*hdr).len() + body@.len() <= old(self).buf1@.len(),
        ensures
            ({
                let message = header_bytes(*hdr) + body@;
                &&& final(self).buf1@.take(message.len() as int) == message
                &&& used is Some <==> cobs_encoding(message).len() <= old(self).buf2@.len()
                &&& message.len() + message.len() / 254 < usize::MAX
                    && max_encoding_len(message.len()) + encoding_overshoot(message)
                        <= old(self).buf2@.len() ==> used is Some
                &&& used matches Some(k) ==> {
                    &&& k == cobs_encoding(message).len()
                    &&& final(self).buf2@.take(k as int) == cobs_encoding(message)
                    &&& host_deframe(Seq::empty(), final(self).buf2@.take(k as int) + seq![0u8])
                        == (seq![message], Seq::<u8>::empty())
                }
            }),
            final(self).buf1@.len() == old(self).buf1@.len(),
            final(self).buf2@.len() == old(self).buf2@.len(),
    {
        let n = self.stage_message(hdr, body);
        proof {
            let message = header_bytes(*hdr) + body@;
            assert(self.buf1@.take(n as int) == message);
        }
        self.try_encode_staged(n)
    }
}

} // verus!
