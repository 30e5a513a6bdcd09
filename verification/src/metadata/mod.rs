//! Metadata blocks: the envelope that every block shares and the conversion
//! between raw payloads and typed contents.

use vstd::prelude::*;
use crate::chain::{frame, RawBlock};
use crate::error::Error;
use crate::wire::{lemma_low_bytes, put_u24};

pub mod picture;
pub mod stream_info;
pub mod vorbis_comment;

pub use picture::{Picture, PictureType};
pub use stream_info::StreamInfo;
pub use vorbis_comment::VorbisComment;

verus! {

/// A block whose payload is still raw bytes.
pub type BlockBytes = Block<Vec<u8>>;

/// A type that can be decoded from and encoded to the payload of a block.
///
/// The two relations say what the methods may return; each implementation
/// defines them, and the functions of this crate that are generic over the
/// trait state their own results through them.
pub trait ConvertBytes: Sized {
    /// Whether `result` is an outcome of decoding the payload `buf`.
    spec fn decodes(buf: Seq<u8>, result: Result<Self, Error>) -> bool;

    /// Whether `bytes` is a payload that encodes `self`.
    spec fn encodes(&self, bytes: Seq<u8>) -> bool;

    /// Decodes a payload.
    fn from_bytes(buf: Vec<u8>) -> (result: Result<Self, Error>)
        ensures
            Self::decodes(buf@, result),
    ;

    /// Encodes `self` as a payload.
    fn into_bytes(self) -> (bytes: Vec<u8>)
        ensures
            self.encodes(bytes@),
    ;
}

/// A payload type with a block type of its own.
pub trait BlockType: ConvertBytes {
    /// The block type under which the payload is stored.
    const BLOCK_TYPE: u8;
}

impl BlockType for StreamInfo {
    const BLOCK_TYPE: u8 = 0;
}

impl BlockType for VorbisComment {
    const BLOCK_TYPE: u8 = 4;
}

impl BlockType for Picture {
    const BLOCK_TYPE: u8 = 6;
}

/// A metadata block: the header fields and the contents.
#[derive(Debug, Clone)]
pub struct Block<T> {
    last_metadata_block: bool,
    block_type: u8,
    block_size: u32,
    block_data: T,
}

/// The name of a block type: empty above 126, `reserved` from 7 on.
pub open spec fn block_type_name(block_type: u8) -> Seq<char> {
    if block_type == 0 {
        "STREAMINFO"@
    } else if block_type == 1 {
        "PADDING"@
    } else if block_type == 2 {
        "APPLICATION"@
    } else if block_type == 3 {
        "SEEKTABLE"@
    } else if block_type == 4 {
        "VORBIS_COMMENT"@
    } else if block_type == 5 {
        "CUESHEET"@
    } else if block_type == 6 {
        "PICTURE"@
    } else if block_type <= 126 {
        "reserved"@
    } else {
        ""@
    }
}

impl<T> Block<T> {
    /// The block type of the stream parameters.
    pub const STREAMINFO: u8 = 0;

    /// The block type of padding.
    pub const PADDING: u8 = 1;

    /// The block type of application data.
    pub const APPLICATION: u8 = 2;

    /// The block type of the seek index.
    pub const SEEKTABLE: u8 = 3;

    /// The block type of the tag dictionary.
    pub const VORBIS_COMMENT: u8 = 4;

    /// The block type of the cue sheet.
    pub const CUESHEET: u8 = 5;

    /// The block type of a picture.
    pub const PICTURE: u8 = 6;

    /// Whether the block is the last of its chain.
    pub closed spec fn spec_last_metadata_block(&self) -> bool {
        self.last_metadata_block
    }

    /// The block's type.
    pub closed spec fn spec_block_type(&self) -> u8 {
        self.block_type
    }

    /// The payload size that the header declared.
    pub closed spec fn spec_block_size(&self) -> u32 {
        self.block_size
    }

    /// The contents.
    pub closed spec fn spec_block_data(&self) -> &T {
        &self.block_data
    }

    /// A block with the given header fields and contents. The fields are
    /// stored as given: the size is not compared with the contents.
    pub fn new(last_block: bool, ty: u8, size: u32, data: T) -> (block: Block<T>)
        ensures
            block.last_metadata_block() == last_block,
            block.block_type() == ty,
            block.block_size() == size,
            *block.block_data() == data,
    {
        Self { last_metadata_block: last_block, block_type: ty, block_size: size, block_data: data }
    }

    /// Whether the block is the last of its chain.
    #[verifier::when_used_as_spec(spec_last_metadata_block)]
    pub fn last_metadata_block(&self) -> (last: bool)
        ensures
            last == self.last_metadata_block(),
    {
        self.last_metadata_block
    }

    /// The contents.
    #[verifier::when_used_as_spec(spec_block_data)]
    pub fn block_data(&self) -> (data: &T)
        ensures
            data == self.block_data(),
    {
        &self.block_data
    }

    /// The name of the block's type.
    pub fn block_type_str(&self) -> (name: &'static str)
        ensures
            name@ == block_type_name(self.block_type()),
    {
        let ty = self.block_type;
        if ty == 0 {
            "STREAMINFO"
        } else if ty == 1 {
            "PADDING"
        } else if ty == 2 {
            "APPLICATION"
        } else if ty == 3 {
            "SEEKTABLE"
        } else if ty == 4 {
            "VORBIS_COMMENT"
        } else if ty == 5 {
            "CUESHEET"
        } else if ty == 6 {
            "PICTURE"
        } else if ty <= 126 {
            "reserved"
        } else {
            ""
        }
    }

    /// Whether the block's type is that of `B`.
    pub fn is<B: BlockType>(&self) -> (same: bool)
        ensures
            same == (self.block_type() == B::BLOCK_TYPE),
    {
        self.block_type == B::BLOCK_TYPE
    }

    /// The block's type.
    #[verifier::when_used_as_spec(spec_block_type)]
    pub fn block_type(&self) -> (ty: u8)
        ensures
            ty == self.block_type(),
    {
        self.block_type
    }

    /// The payload size that the header declared.
    #[verifier::when_used_as_spec(spec_block_size)]
    pub fn block_size(&self) -> (size: u32)
        ensures
            size == self.block_size(),
    {
        self.block_size
    }

    /// The contents, without the header.
    pub fn into_inner(self) -> (data: T)
        ensures
            data == *self.block_data(),
    {
        self.block_data
    }
}

/// The blocks as they lie on the wire.
pub open spec fn chain_of(blocks: Seq<BlockBytes>) -> Seq<RawBlock> {
    blocks.map_values(|block: BlockBytes| block.raw())
}

impl<T: ConvertBytes> std::ops::Deref for Block<T> {
    type Target = T;

    fn deref(&self) -> (data: &T)
        ensures
            data == self.block_data(),
    {
        &self.block_data
    }
}

impl<T: ConvertBytes> std::ops::DerefMut for Block<T> {
    fn deref_mut(&mut self) -> (data: &mut T)
        ensures
            *data == *old(self).block_data(),
            *final(self).block_data() == *final(data),
            final(self).last_metadata_block() == old(self).last_metadata_block(),
            final(self).block_type() == old(self).block_type(),
            final(self).block_size() == old(self).block_size(),
    {
        &mut self.block_data
    }
}

impl Block<Vec<u8>> {
    /// The block as it lies on the wire.
    pub open spec fn raw(&self) -> RawBlock {
        RawBlock {
            last: self.last_metadata_block(),
            block_type: self.block_type(),
            size: self.block_size(),
            payload: self.block_data()@,
        }
    }

    /// Decodes the payload as a `T` and keeps the header fields as they are.
    /// The outcome is that of `T::from_bytes` on the payload.
    pub fn convert<T: ConvertBytes>(self) -> (result: Result<Block<T>, Error>)
        ensures
            match result {
                Ok(block) => {
                    &&& T::decodes(self.block_data()@, Ok(*block.block_data()))
                    &&& block.last_metadata_block() == self.last_metadata_block()
                    &&& block.block_type() == self.block_type()
                    &&& block.block_size() == self.block_size()
                },
                Err(e) => T::decodes(self.block_data()@, Err(e)),
            },
    {
        match T::from_bytes(self.block_data) {
            Ok(data) => Ok(
                Block {
                    last_metadata_block: self.last_metadata_block,
                    block_type: self.block_type,
                    block_size: self.block_size,
                    block_data: data,
                },
            ),
            Err(e) => Err(e),
        }
    }
}

impl<T: BlockType> Block<T> {
    /// The block as it stands in a chain: the header, then the encoded
    /// contents. The header carries the block type of `T` and the length of
    /// the fresh payload, whatever the stored fields say.
    pub fn to_bytes(self) -> (bytes: Vec<u8>)
        ensures
            exists|payload: Seq<u8>| #[trigger]
                self.block_data().encodes(payload) && bytes@ == frame(
                    self.last_metadata_block(),
                    T::BLOCK_TYPE,
                    payload,
                ),
    {
        let last = self.last_metadata_block;
        let ghost block = self;
        let payload = self.block_data.into_bytes();
        let tag = T::BLOCK_TYPE % 0x80;
        let mut buf: Vec<u8> = Vec::new();
        buf.push(if last { 0x80 + tag } else { tag });
        put_u24(&mut buf, (payload.len() % 0x100_0000) as u32);
        buf.extend_from_slice(payload.as_slice());
        proof {
            lemma_low_bytes(payload@.len() as int);
            assert(buf@ =~= frame(last, T::BLOCK_TYPE, payload@));
            assert(block.block_data().encodes(payload@));
        }
        buf
    }
}

} // verus!
