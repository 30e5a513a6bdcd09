//! The stream parameters: a record of 34 bytes with bit-packed fields.

use vstd::prelude::*;
use crate::error::Error;
use crate::metadata::ConvertBytes;
use crate::wire::{
    be_u16, be_u24, be_u64, lemma_at_subrange, lemma_u16_write_read, lemma_u24_write_read,
    lemma_u64_write_read,
    put_u16, put_u24, put_u64, u16_at, u16_bytes, u24_at, u24_bytes, u64_at, u64_bytes,
};

verus! {

/// The parameters of an audio stream.
#[derive(Debug, Clone, PartialEq, PartialOrd)]
pub struct StreamInfo {
    /// The smallest block size, in samples.
    pub min_block_size: u16,
    /// The largest block size, in samples.
    pub max_block_size: u16,
    /// The smallest frame size, in bytes; 24 bits on the wire.
    pub min_frame_size: u32,
    /// The largest frame size, in bytes; 24 bits on the wire.
    pub max_frame_size: u32,
    /// The sample rate in Hz; 20 bits on the wire.
    pub sample_rate: u32,
    /// The number of channels, 1 to 8.
    pub channels: u8,
    /// The bits per sample, 1 to 32.
    pub bps: u8,
    /// The number of samples in the stream; 36 bits on the wire.
    pub total_samples: u64,
    /// The MD5 signature of the unencoded audio.
    pub md5: [u8; 16],
}

/// The length of the record on the wire.
pub const STREAM_INFO_LEN: usize = 34;

impl Default for StreamInfo {
    fn default() -> (info: StreamInfo)
        ensures
            info.min_block_size == 0,
            info.max_block_size == 0,
            info.min_frame_size == 0,
            info.max_frame_size == 0,
            info.sample_rate == 0,
            info.channels == 0,
            info.bps == 0,
            info.total_samples == 0,
            info.md5@ == Seq::new(16, |i: int| 0u8),
    {
        let info = StreamInfo {
            min_block_size: 0,
            max_block_size: 0,
            min_frame_size: 0,
            max_frame_size: 0,
            sample_rate: 0,
            channels: 0,
            bps: 0,
            total_samples: 0,
            md5: [0u8; 16],
        };
        assert(info.md5@ =~= Seq::new(16, |i: int| 0u8));
        info
    }
}

impl StreamInfo {
    /// Whether every field fits the bits that the wire gives it: 1 to 8
    /// channels, 1 to 32 bits per sample, a sample rate below 2^20, a sample
    /// count below 2^36 and frame sizes below 2^24.
    pub open spec fn legal(self) -> bool {
        &&& 1 <= self.channels <= 8
        &&& 1 <= self.bps <= 32
        &&& self.sample_rate < 0x10_0000
        &&& self.total_samples < 0x10_0000_0000
        &&& self.min_frame_size < 0x100_0000
        &&& self.max_frame_size < 0x100_0000
    }

    /// The 64-bit word in the middle of the record: from the top, 20 bits of
    /// sample rate, 3 bits of channels less one, 5 bits of bits per sample
    /// less one and 36 bits of sample count. Each field is reduced to its
    /// width.
    pub open spec fn packed(self) -> int {
        (self.sample_rate % 0x10_0000) * 0x1000_0000_0000 + ((self.channels - 1) % 8)
            * 0x200_0000_0000 + ((self.bps - 1) % 32) * 0x10_0000_0000 + self.total_samples
            % 0x10_0000_0000
    }

    /// The record on the wire.
    pub open spec fn wire(self) -> Seq<u8> {
        u16_bytes(self.min_block_size as int) + u16_bytes(self.max_block_size as int) + u24_bytes(
            self.min_frame_size as int,
        ) + u24_bytes(self.max_frame_size as int) + u64_bytes(self.packed()) + self.md5@
    }

    /// Whether `self` is what the 34 bytes `buf` say.
    pub open spec fn read_from(self, buf: Seq<u8>) -> bool {
        let word = u64_at(buf, 10);
        &&& buf.len() == 34
        &&& self.min_block_size == u16_at(buf, 0)
        &&& self.max_block_size == u16_at(buf, 2)
        &&& self.min_frame_size == u24_at(buf, 4)
        &&& self.max_frame_size == u24_at(buf, 7)
        &&& self.sample_rate == word / 0x1000_0000_0000
        &&& self.channels == word / 0x200_0000_0000 % 8 + 1
        &&& self.bps == word / 0x10_0000_0000 % 32 + 1
        &&& self.total_samples == word % 0x10_0000_0000
        &&& self.md5@ == buf.subrange(18, 34)
    }

    /// The 64-bit word of `packed`.
    fn pack(&self) -> (word: u64)
        ensures
            word == self.packed(),
    {
        let rate = (self.sample_rate % 0x10_0000) as u64;
        let channels: u64 = if self.channels == 0 {
            7
        } else {
            ((self.channels - 1) % 8) as u64
        };
        let depth: u64 = if self.bps == 0 {
            31
        } else {
            ((self.bps - 1) % 32) as u64
        };
        let total = self.total_samples % 0x10_0000_0000;
        rate * 0x1000_0000_0000 + channels * 0x200_0000_0000 + depth * 0x10_0000_0000 + total
    }
}

/// The sixteen bytes of `bytes` as an array.
fn signature(bytes: &[u8]) -> (md5: [u8; 16])
    requires
        bytes@.len() == 16,
    ensures
        md5@ == bytes@,
{
    let mut md5 = [0u8; 16];
    let mut i: usize = 0;
    while i < 16
        invariant
            i <= 16,
            bytes@.len() == 16,
            md5@.len() == 16,
            forall|k: int| 0 <= k < i ==> md5@[k] == bytes@[k],
        decreases 16 - i,
    {
        md5[i] = bytes[i];
        i += 1;
    }
    assert(md5@ =~= bytes@);
    md5
}

impl ConvertBytes for StreamInfo {
    /// A payload of 34 bytes decodes to the record that it says; any other
    /// length is a format error.
    open spec fn decodes(buf: Seq<u8>, result: Result<Self, Error>) -> bool {
        if buf.len() == 34 {
            result is Ok && result->Ok_0.read_from(buf)
        } else {
            result matches Err(Error::InvalidFormat)
        }
    }

    /// The bytes are the record on the wire.
    open spec fn encodes(&self, bytes: Seq<u8>) -> bool {
        bytes == self.wire()
    }

    fn from_bytes(buf: Vec<u8>) -> (result: Result<Self, Error>) {
        if buf.len() != STREAM_INFO_LEN {
            return Err(Error::InvalidFormat);
        }
        let bytes = buf.as_slice();
        let word = be_u64(&bytes[10..18]);
        assert(u64_at(bytes@.subrange(10, 18), 0) == u64_at(bytes@, 10));
        Ok(
            StreamInfo {
                min_block_size: be_u16(&bytes[0..2]),
                max_block_size: be_u16(&bytes[2..4]),
                min_frame_size: be_u24(&bytes[4..7]),
                max_frame_size: be_u24(&bytes[7..10]),
                sample_rate: (word / 0x1000_0000_0000) as u32,
                channels: (word / 0x200_0000_0000 % 8) as u8 + 1,
                bps: (word / 0x10_0000_0000 % 32) as u8 + 1,
                total_samples: word % 0x10_0000_0000,
                md5: signature(&bytes[18..34]),
            },
        )
    }

    fn into_bytes(self) -> (bytes: Vec<u8>) {
        let mut bytes: Vec<u8> = Vec::new();
        put_u16(&mut bytes, self.min_block_size);
        put_u16(&mut bytes, self.max_block_size);
        put_u24(&mut bytes, self.min_frame_size);
        put_u24(&mut bytes, self.max_frame_size);
        put_u64(&mut bytes, self.pack());
        bytes.extend_from_slice(self.md5.as_slice());
        assert(bytes@ =~= self.wire());
        bytes
    }
}

/// A decoded record is legal.
pub proof fn lemma_decoded_is_legal(info: StreamInfo, buf: Seq<u8>)
    requires
        info.read_from(buf),
    ensures
        info.legal(),
{
}

/// The fields of a legal record can be read off its packed word.
proof fn lemma_unpack(info: StreamInfo)
    requires
        info.legal(),
    ensures
        0 <= info.packed() < 0x1_0000_0000_0000_0000,
        info.packed() / 0x1000_0000_0000 == info.sample_rate,
        info.packed() / 0x200_0000_0000 % 8 == info.channels - 1,
        info.packed() / 0x10_0000_0000 % 32 == info.bps - 1,
        info.packed() % 0x10_0000_0000 == info.total_samples,
{
    let r = info.sample_rate as int;
    let c = info.channels - 1;
    let d = info.bps - 1;
    let t = info.total_samples as int;
    let word = info.packed();
    assert(word == r * 0x1000_0000_0000 + c * 0x200_0000_0000 + d * 0x10_0000_0000 + t);
    assert(word == ((r * 8 + c) * 32 + d) * 0x10_0000_0000 + t);
    assert(word / 0x10_0000_0000 == (r * 8 + c) * 32 + d);
    assert(word == (r * 8 + c) * 0x200_0000_0000 + (d * 0x10_0000_0000 + t));
    assert(word / 0x200_0000_0000 == r * 8 + c);
    assert(word == r * 0x1000_0000_0000 + (c * 0x200_0000_0000 + d * 0x10_0000_0000 + t));
}

/// Where the pieces of the record lie on the wire.
proof fn lemma_wire_layout(info: StreamInfo)
    ensures
        info.wire().len() == 34,
        info.wire().subrange(0, 2) == u16_bytes(info.min_block_size as int),
        info.wire().subrange(2, 4) == u16_bytes(info.max_block_size as int),
        info.wire().subrange(4, 7) == u24_bytes(info.min_frame_size as int),
        info.wire().subrange(7, 10) == u24_bytes(info.max_frame_size as int),
        info.wire().subrange(10, 18) == u64_bytes(info.packed()),
        info.wire().subrange(18, 34) == info.md5@,
{
    broadcast use vstd::array::group_array_axioms;

    let bytes = info.wire();
    assert(bytes.subrange(0, 2) =~= u16_bytes(info.min_block_size as int));
    assert(bytes.subrange(2, 4) =~= u16_bytes(info.max_block_size as int));
    assert(bytes.subrange(4, 7) =~= u24_bytes(info.min_frame_size as int));
    assert(bytes.subrange(7, 10) =~= u24_bytes(info.max_frame_size as int));
    assert(bytes.subrange(10, 18) =~= u64_bytes(info.packed()));
    assert(bytes.subrange(18, 34) =~= info.md5@);
}

/// What the readers find in the wire form of a record.
proof fn lemma_reads_of_wire(info: StreamInfo)
    ensures
        info.wire().len() == 34,
        u16_at(info.wire(), 0) == info.min_block_size,
        u16_at(info.wire(), 2) == info.max_block_size,
        u24_at(info.wire(), 4) == info.min_frame_size % 0x100_0000,
        u24_at(info.wire(), 7) == info.max_frame_size % 0x100_0000,
        info.packed() >= 0 ==> u64_at(info.wire(), 10) == info.packed() % 0x1_0000_0000_0000_0000,
        info.wire().subrange(18, 34) == info.md5@,
{
    let bytes = info.wire();
    lemma_wire_layout(info);
    assert(u16_at(bytes, 0) == info.min_block_size) by {
        lemma_at_subrange(bytes, 0);
        lemma_u16_write_read(info.min_block_size as int);
    }
    assert(u16_at(bytes, 2) == info.max_block_size) by {
        lemma_at_subrange(bytes, 2);
        lemma_u16_write_read(info.max_block_size as int);
    }
    assert(u24_at(bytes, 4) == info.min_frame_size % 0x100_0000) by {
        lemma_at_subrange(bytes, 4);
        lemma_u24_write_read(info.min_frame_size as int);
    }
    assert(u24_at(bytes, 7) == info.max_frame_size % 0x100_0000) by {
        lemma_at_subrange(bytes, 7);
        lemma_u24_write_read(info.max_frame_size as int);
    }
    if info.packed() >= 0 {
        assert(u64_at(bytes, 10) == info.packed() % 0x1_0000_0000_0000_0000) by {
            lemma_at_subrange(bytes, 10);
            lemma_u64_write_read(info.packed());
        }
    }
}

/// Decoding the encoding of a legal record gives the record back.
pub proof fn lemma_stream_info_round_trip(
    info: StreamInfo,
    bytes: Seq<u8>,
    result: Result<StreamInfo, Error>,
)
    requires
        info.legal(),
        info.encodes(bytes),
        StreamInfo::decodes(bytes, result),
    ensures
        result == Ok::<StreamInfo, Error>(info),
{
    broadcast use vstd::array::group_array_axioms;

    lemma_reads_of_wire(info);
    lemma_unpack(info);
    let read = result->Ok_0;
    assert(read.md5@ == info.md5@);
    assert(read.md5 == info.md5);
    assert(read == info);
}

} // verus!
