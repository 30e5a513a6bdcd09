//! Reading a chain that lies in memory.

use vstd::prelude::*;
use crate::chain::{
    blocks, first_block, is_magic, join, parse_chain, read_header, search, search_blocks, Search,
};
use crate::error::Error;
use crate::metadata::{chain_of, Block, BlockBytes, BlockType};
use crate::wire::u24_at;

verus! {

/// A cursor over bytes in memory that hands out the bytes in their order,
/// each once.
pub struct Stream<'a> {
    inner: &'a [u8],
    index: usize,
}

impl<'a> Stream<'a> {
    #[verifier::type_invariant]
    spec fn within(&self) -> bool {
        self.index <= self.inner@.len()
    }

    /// The bytes that the cursor runs over.
    pub closed spec fn data(&self) -> Seq<u8> {
        self.inner@
    }

    /// How many bytes have been taken.
    pub closed spec fn position(&self) -> nat {
        self.index as nat
    }

    /// The bytes that have not been taken.
    pub open spec fn remaining(&self) -> Seq<u8> {
        self.data().skip(self.position() as int)
    }

    /// A cursor at the start of `buf`.
    pub fn new(buf: &'a [u8]) -> (stream: Stream<'a>)
        ensures
            stream.data() == buf@,
            stream.position() == 0,
    {
        Stream { inner: buf, index: 0 }
    }

    /// The next `n` bytes. Where fewer than `n` are left, the cursor stays
    /// where it is and the call fails with `InvalidFormat`.
    pub fn take(&mut self, n: usize) -> (result: Result<&'a [u8], Error>)
        ensures
            final(self).data() == old(self).data(),
            final(self).position() <= final(self).data().len(),
            match result {
                Ok(bytes) => {
                    &&& old(self).position() + n <= old(self).data().len()
                    &&& bytes@ == old(self).data().subrange(
                        old(self).position() as int,
                        old(self).position() + n,
                    )
                    &&& final(self).position() == old(self).position() + n
                },
                Err(e) => {
                    &&& e is InvalidFormat
                    &&& old(self).position() + n > old(self).data().len()
                    &&& final(self).position() == old(self).position()
                },
            },
    {
        proof {
            use_type_invariant(&*self);
        }
        if n > self.inner.len() - self.index {
            return Err(Error::InvalidFormat);
        }
        let start = self.index;
        self.index = start + n;
        Ok(&self.inner[start..start + n])
    }
}

/// The chain that `buf` holds: the blocks from the signature up to the first
/// one flagged as last, each with its header fields and a copy of its
/// payload. Bytes that hold no chain are a format error; what follows the
/// chain is not looked at.
pub fn read_from_bytes(buf: &[u8]) -> (result: Result<Vec<BlockBytes>, Error>)
    ensures
        match parse_chain(buf@) {
            Some(chain) => result is Ok && chain_of(result->Ok_0@) == chain,
            None => result matches Err(Error::InvalidFormat),
        },
{
    let mut chain: Vec<BlockBytes> = Vec::new();
    let mut stream = Stream::new(buf);
    let signature = match stream.take(4) {
        Ok(bytes) => bytes,
        Err(e) => {
            return Err(e);
        },
    };
    if !is_magic(signature) {
        return Err(Error::InvalidFormat);
    }
    proof {
        assert(buf@.skip(4) =~= buf@.skip(stream.position() as int));
        assert(join(chain_of(chain@), blocks(buf@.skip(4))) == blocks(buf@.skip(4))) by {
            match blocks(buf@.skip(4)) {
                Some(more) => assert(chain_of(chain@) + more =~= more),
                None => {},
            }
        }
    }
    loop
        invariant
            stream.data() == buf@,
            stream.position() <= buf@.len(),
            parse_chain(buf@) == join(chain_of(chain@), blocks(stream.remaining())),
        decreases buf@.len() - stream.position(),
    {
        let ghost done = chain_of(chain@);
        let ghost here = stream.remaining();
        let ghost at = stream.position() as int;
        let four = match stream.take(4) {
            Ok(bytes) => bytes,
            Err(e) => {
                return Err(e);
            },
        };
        let (end, ty, size) = read_header(four);
        let payload = match stream.take(size as usize) {
            Ok(bytes) => bytes,
            Err(e) => {
                proof {
                    assert(u24_at(here, 1) == size) by {
                        assert(here.subrange(0, 4) =~= four@);
                    }
                }
                return Err(e);
            },
        };
        let mut data: Vec<u8> = Vec::new();
        data.extend_from_slice(payload);
        assert(data@ =~= payload@);
        let block = Block::new(end, ty, size, data);
        proof {
            assert(here.subrange(0, 4) =~= four@);
            assert(here[0] == four@[0]);
            assert(u24_at(here, 1) == size);
            assert(here.subrange(4, 4 + size) =~= payload@);
            assert(first_block(here) == Some(block.raw()));
            assert(here.skip(4 + size) =~= stream.remaining());
            assert(chain_of(chain@.push(block)) =~= done.push(block.raw()));
            match blocks(stream.remaining()) {
                Some(more) => assert(done + (seq![block.raw()] + more) =~= done.push(block.raw())
                    + more),
                None => {},
            }
            if end {
                assert(done + seq![block.raw()] =~= done.push(block.raw()));
            }
        }
        chain.push(block);
        if end {
            return Ok(chain);
        }
    }
}

/// The first block of the type of `B` in the chain that `bytes` holds,
/// decoded. The outcome is that of `B::from_bytes` on the payload of that
/// block; `None` if the chain ends without such a block; a format error if
/// the bytes are no chain, or end before the search is decided.
pub fn find_meta_from_bytes<B: BlockType>(bytes: &[u8]) -> (result: Result<Option<B>, Error>)
    ensures
        match search(bytes@, B::BLOCK_TYPE) {
            Search::Malformed => result matches Err(Error::InvalidFormat),
            Search::Absent => result matches Ok(None),
            Search::Found(payload) => match result {
                Ok(Some(found)) => B::decodes(payload, Ok(found)),
                Ok(None) => false,
                Err(e) => B::decodes(payload, Err(e)),
            },
        },
{
    let mut stream = Stream::new(bytes);
    let signature = match stream.take(4) {
        Ok(head) => head,
        Err(e) => {
            return Err(e);
        },
    };
    if !is_magic(signature) {
        return Err(Error::InvalidFormat);
    }
    proof {
        assert(bytes@.skip(4) =~= bytes@.skip(stream.position() as int));
    }
    loop
        invariant
            stream.data() == bytes@,
            stream.position() <= bytes@.len(),
            search(bytes@, B::BLOCK_TYPE) == search_blocks(stream.remaining(), B::BLOCK_TYPE),
        decreases bytes@.len() - stream.position(),
    {
        let ghost here = stream.remaining();
        let four = match stream.take(4) {
            Ok(head) => head,
            Err(e) => {
                return Err(e);
            },
        };
        let (end, ty, size) = read_header(four);
        proof {
            assert(here.subrange(0, 4) =~= four@);
            assert(here[0] == four@[0]);
            assert(u24_at(here, 1) == size);
        }
        let payload = match stream.take(size as usize) {
            Ok(body) => body,
            Err(e) => {
                return Err(e);
            },
        };
        proof {
            assert(here.subrange(4, 4 + size) =~= payload@);
            assert(here.skip(4 + size) =~= stream.remaining());
        }
        if B::BLOCK_TYPE == ty {
            let mut data: Vec<u8> = Vec::new();
            data.extend_from_slice(payload);
            assert(data@ =~= payload@);
            return match B::from_bytes(data) {
                Ok(found) => Ok(Some(found)),
                Err(e) => Err(e),
            };
        }
        if end {
            return Ok(None);
        }
    }
}

} // verus!
