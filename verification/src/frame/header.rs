//! The header of an audio frame, as far as its fields are named.

use vstd::prelude::*;

verus! {

/// The four bits by which a frame header says its sample rate.
#[derive(Debug, Clone, Copy, PartialEq, Eq, Structural)]
pub enum SampleRate {
    /// Taken from the stream parameters.
    FromMetaBlock,
    /// 88.2 kHz.
    Hz88_2k,
    /// 176.4 kHz.
    Hz176_4k,
    /// 192 kHz.
    Hz192k,
    /// 8 kHz.
    Hz8k,
    /// 16 kHz.
    Hz16k,
    /// 22.05 kHz.
    Hz22_05k,
    /// 24 kHz.
    Hz24k,
    /// 32 kHz.
    Hz32k,
    /// 44.1 kHz.
    Hz44_1k,
    /// 48 kHz.
    Hz48k,
    /// 96 kHz.
    Hz96k,
    /// Eight bits at the end of the header, in kHz.
    KHz8b,
    /// Sixteen bits at the end of the header, in Hz.
    Hz16b,
    /// Sixteen bits at the end of the header, in tens of Hz.
    Hz16bTens,
    /// Not allowed, so that no run of ones imitates a sync code.
    Invalid,
}

impl SampleRate {
    /// The four bits of the sample rate, as a number from 0 to 15.
    pub open spec fn code(self) -> u8 {
        match self {
            SampleRate::FromMetaBlock => 0,
            SampleRate::Hz88_2k => 1,
            SampleRate::Hz176_4k => 2,
            SampleRate::Hz192k => 3,
            SampleRate::Hz8k => 4,
            SampleRate::Hz16k => 5,
            SampleRate::Hz22_05k => 6,
            SampleRate::Hz24k => 7,
            SampleRate::Hz32k => 8,
            SampleRate::Hz44_1k => 9,
            SampleRate::Hz48k => 10,
            SampleRate::Hz96k => 11,
            SampleRate::KHz8b => 12,
            SampleRate::Hz16b => 13,
            SampleRate::Hz16bTens => 14,
            SampleRate::Invalid => 15,
        }
    }

    /// The sample rate with the bits `val`, a number from 0 to 15.
    pub fn from_u8(val: u8) -> (rate: SampleRate)
        requires
            val <= 15,
        ensures
            rate.code() == val,
    {
        match val {
            0b0000 => SampleRate::FromMetaBlock,
            0b0001 => SampleRate::Hz88_2k,
            0b0010 => SampleRate::Hz176_4k,
            0b0011 => SampleRate::Hz192k,
            0b0100 => SampleRate::Hz8k,
            0b0101 => SampleRate::Hz16k,
            0b0110 => SampleRate::Hz22_05k,
            0b0111 => SampleRate::Hz24k,
            0b1000 => SampleRate::Hz32k,
            0b1001 => SampleRate::Hz44_1k,
            0b1010 => SampleRate::Hz48k,
            0b1011 => SampleRate::Hz96k,
            0b1100 => SampleRate::KHz8b,
            0b1101 => SampleRate::Hz16b,
            0b1110 => SampleRate::Hz16bTens,
            _ => SampleRate::Invalid,
        }
    }

    /// The four bits of the sample rate.
    pub fn to_u8(&self) -> (val: u8)
        ensures
            val == self.code(),
            val <= 15,
    {
        match self {
            SampleRate::FromMetaBlock => 0b0000,
            SampleRate::Hz88_2k => 0b0001,
            SampleRate::Hz176_4k => 0b0010,
            SampleRate::Hz192k => 0b0011,
            SampleRate::Hz8k => 0b0100,
            SampleRate::Hz16k => 0b0101,
            SampleRate::Hz22_05k => 0b0110,
            SampleRate::Hz24k => 0b0111,
            SampleRate::Hz32k => 0b1000,
            SampleRate::Hz44_1k => 0b1001,
            SampleRate::Hz48k => 0b1010,
            SampleRate::Hz96k => 0b1011,
            SampleRate::KHz8b => 0b1100,
            SampleRate::Hz16b => 0b1101,
            SampleRate::Hz16bTens => 0b1110,
            SampleRate::Invalid => 0b1111,
        }
    }
}

impl From<SampleRate> for u8 {
    fn from(value: SampleRate) -> (val: u8) {
        value.to_u8()
    }
}

impl vstd::std_specs::convert::FromSpecImpl<SampleRate> for u8 {
    open spec fn obeys_from_spec() -> bool {
        true
    }

    open spec fn from_spec(value: SampleRate) -> u8 {
        value.code()
    }
}

/// The fields at the front of a frame header.
pub struct FrameHeader {
    sync_code: [u8; 2],
    reserved: bool,
    blocking_strategy: bool,
    block_size: u8,
    sample_rate: SampleRate,
}

} // verus!
