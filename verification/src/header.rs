//! The postcard-rpc message header, as it is written in front of a message body.
//!
//! The wire format is that of `postcard_rpc::header::VarHeader::write_to_slice`: one
//! discriminant byte, whose top two bits give the key's size and the next two bits the
//! sequence number's size, then the key bytes, then the sequence number in little-endian
//! order.

use vstd::prelude::*;

verus! {

/// A message key of 1, 2, 4 or 8 bytes.
#[derive(Debug, Clone, Copy, PartialEq, Eq)]
pub enum HeaderKey {
    Key1(u8),
    Key2([u8; 2]),
    Key4([u8; 4]),
    Key8([u8; 8]),
}

/// A sequence number of 1, 2 or 4 bytes.
#[derive(Debug, Clone, Copy, PartialEq, Eq, Structural)]
pub enum HeaderSeq {
    Seq1(u8),
    Seq2(u16),
    Seq4(u32),
}

/// A message header: which endpoint or topic, and which request it answers.
#[derive(Debug, Clone, Copy, PartialEq, Eq)]
pub struct WireHeader {
    pub key: HeaderKey,
    pub seq_no: HeaderSeq,
}

/// The discriminant bits that give the key's size.
pub open spec fn key_bits(key: HeaderKey) -> int {
    match key {
        HeaderKey::Key1(_) => 0x00,
        HeaderKey::Key2(_) => 0x40,
        HeaderKey::Key4(_) => 0x80,
        HeaderKey::Key8(_) => 0xC0,
    }
}

/// The key's bytes as written.
pub open spec fn key_bytes(key: HeaderKey) -> Seq<u8> {
    match key {
        HeaderKey::Key1(k) => seq![k],
        HeaderKey::Key2(k) => k@,
        HeaderKey::Key4(k) => k@,
        HeaderKey::Key8(k) => k@,
    }
}

/// The discriminant bits that give the sequence number's size.
pub open spec fn seq_bits(seq_no: HeaderSeq) -> int {
    match seq_no {
        HeaderSeq::Seq1(_) => 0x00,
        HeaderSeq::Seq2(_) => 0x10,
        HeaderSeq::Seq4(_) => 0x20,
    }
}

/// The sequence number's bytes as written: little-endian.
pub open spec fn seq_bytes(seq_no: HeaderSeq) -> Seq<u8> {
    match seq_no {
        HeaderSeq::Seq1(s) => seq![s],
        HeaderSeq::Seq2(s) => seq![(s % 256) as u8, (s / 256) as u8],
        HeaderSeq::Seq4(s) => seq![
            (s % 256) as u8,
            (s / 256 % 256) as u8,
            (s / 65536 % 256) as u8,
            (s / 16777216) as u8,
        ],
    }
}

/// The bytes of a header: the discriminant (the two bit fields are disjoint, so their
/// sum is their union), the key, the sequence number.
pub open spec fn header_bytes(hdr: WireHeader) -> Seq<u8> {
    seq![(key_bits(hdr.key) + seq_bits(hdr.seq_no)) as u8] + key_bytes(hdr.key) + seq_bytes(hdr.seq_no)
}

/// Copies `src` into `buf` from `at` on.
pub(crate) fn write_bytes(buf: &mut Vec<u8>, at: usize, src: &[u8])
    requires
        at + src@.len() <= old(buf)@.len(),
    ensures
        final(buf)@ == old(buf)@.take(at as int) + src@ + old(buf)@.skip(at + src@.len()),
{
    let len = buf.len();
    let mut i: usize = 0;
    while i < src.len()
        invariant
            i <= src@.len(),
            at + src@.len() <= buf@.len() == old(buf)@.len() == len,
            buf@ == old(buf)@.take(at as int) + src@.take(i as int) + old(buf)@.skip(at + i),
        decreases src@.len() - i,
    {
        buf.set(at + i, src[i]);
        i = i + 1;
        proof {
            assert(buf@ == old(buf)@.take(at as int) + src@.take(i as int) + old(buf)@.skip(at + i));
        }
    }
    assert(src@.take(src@.len() as int) == src@);
}

impl WireHeader {
    /// How many bytes the header takes.
    pub fn encoded_len(&self) -> (n: usize)
        ensures
            n == header_bytes(*self).len(),
    {
        let key_len: usize = match self.key {
            HeaderKey::Key1(_) => 1,
            HeaderKey::Key2(_) => 2,
            HeaderKey::Key4(_) => 4,
            HeaderKey::Key8(_) => 8,
        };
        let seq_len: usize = match self.seq_no {
            HeaderSeq::Seq1(_) => 1,
            HeaderSeq::Seq2(_) => 2,
            HeaderSeq::Seq4(_) => 4,
        };
        1 + key_len + seq_len
    }

    /// Writes the header at the front of `buf` and returns how many bytes it took, or
    /// `None`, writing nothing, when `buf` is too short for it. Bytes after the header are
    /// left alone.
    pub fn write_to_slice(&self, buf: &mut Vec<u8>) -> (used: Option<usize>)
        ensures
            match used {
                Some(n) => {
                    &&& n == header_bytes(*self).len()
                    &&& final(buf)@ == header_bytes(*self) + old(buf)@.skip(n as int)
                },
                None => {
                    &&& old(buf)@.len() < header_bytes(*self).len()
                    &&& final(buf)@ == old(buf)@
                },
            },
    {
        let n = self.encoded_len();
        if buf.len() < n {
            return None;
        }
        let disc: u8 = match self.key {
            HeaderKey::Key1(_) => 0x00,
            HeaderKey::Key2(_) => 0x40,
            HeaderKey::Key4(_) => 0x80,
            HeaderKey::Key8(_) => 0xC0,
        } + match self.seq_no {
            HeaderSeq::Seq1(_) => 0x00,
            HeaderSeq::Seq2(_) => 0x10,
            HeaderSeq::Seq4(_) => 0x20,
        };
        buf.set(0, disc);
        let key_end: usize = match self.key {
            HeaderKey::Key1(k) => {
                let b: [u8; 1] = [k];
                write_bytes(buf, 1, &b);
                assert(b@ == seq![k]);
                2
            },
            HeaderKey::Key2(k) => {
                write_bytes(buf, 1, &k);
                3
            },
            HeaderKey::Key4(k) => {
                write_bytes(buf, 1, &k);
                5
            },
            HeaderKey::Key8(k) => {
                write_bytes(buf, 1, &k);
                9
            },
        };
        match self.seq_no {
            HeaderSeq::Seq1(s) => {
                let b: [u8; 1] = [s];
                write_bytes(buf, key_end, &b);
                assert(b@ == seq_bytes(self.seq_no));
            },
            HeaderSeq::Seq2(s) => {
                let b: [u8; 2] = [(s % 256) as u8, (s / 256) as u8];
                write_bytes(buf, key_end, &b);
                assert(b@ == seq_bytes(self.seq_no));
            },
            HeaderSeq::Seq4(s) => {
                let b: [u8; 4] = [
                    (s % 256) as u8,
                    (s / 256 % 256) as u8,
                    (s / 65536 % 256) as u8,
                    (s / 16777216) as u8,
                ];
                write_bytes(buf, key_end, &b);
                assert(b@ == seq_bytes(self.seq_no));
            },
        }
        assert(buf@ == header_bytes(*self) + old(buf)@.skip(n as int));
        Some(n)
    }
}

} // verus!
