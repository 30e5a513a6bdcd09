//! The layout of a metadata chain: the signature, then blocks that each carry
//! a four-byte header and a payload, up to the first block flagged as last.

use vstd::prelude::*;
use crate::wire::{be_u24, lemma_at_subrange, lemma_u24_write_read, u24_at, u24_bytes};

verus! {

/// The four bytes `fLaC` that open every stream.
pub open spec fn magic() -> Seq<u8> {
    seq![0x66u8, 0x4Cu8, 0x61u8, 0x43u8]
}

/// What a block is on the wire: its header fields and the payload bytes.
pub struct RawBlock {
    /// Whether the header marks the block as the last of the chain.
    pub last: bool,
    /// The block's type, the low seven bits of the first header byte.
    pub block_type: u8,
    /// The payload length that the header declares.
    pub size: u32,
    /// The payload.
    pub payload: Seq<u8>,
}

/// Whether the first byte of a header marks the last block.
pub open spec fn header_last(first: u8) -> bool {
    first >= 0x80
}

/// The block type that the first byte of a header carries.
pub open spec fn header_type(first: u8) -> u8 {
    (first % 0x80) as u8
}

/// The first byte of a header, from the flag and the block type. Of the type
/// only the low seven bits can be written.
pub open spec fn header_first(last: bool, block_type: u8) -> u8 {
    if last {
        (0x80 + block_type % 0x80) as u8
    } else {
        (block_type % 0x80) as u8
    }
}

/// One block on the wire: the header, with the payload length reduced to 24
/// bits, then the payload.
pub open spec fn frame(last: bool, block_type: u8, payload: Seq<u8>) -> Seq<u8> {
    seq![header_first(last, block_type)] + u24_bytes(payload.len() as int) + payload
}

/// The block that starts at the front of `s`, if `s` holds its header and as
/// many payload bytes as the header declares.
pub open spec fn first_block(s: Seq<u8>) -> Option<RawBlock> {
    if s.len() >= 4 && s.len() >= 4 + u24_at(s, 1) {
        Some(
            RawBlock {
                last: header_last(s[0]),
                block_type: header_type(s[0]),
                size: u24_at(s, 1) as u32,
                payload: s.subrange(4, 4 + u24_at(s, 1)),
            },
        )
    } else {
        None
    }
}

/// The blocks that `s` starts with, up to and including the first one flagged
/// as last; `None` if `s` ends before such a block is complete.
pub open spec fn blocks(s: Seq<u8>) -> Option<Seq<RawBlock>>
    decreases s.len(),
{
    match first_block(s) {
        None => None,
        Some(b) => if b.last {
            Some(seq![b])
        } else {
            match blocks(s.skip(4 + b.payload.len() as int)) {
                None => None,
                Some(rest) => Some(seq![b] + rest),
            }
        },
    }
}

/// Whether `s` starts with the signature.
pub open spec fn has_magic(s: Seq<u8>) -> bool {
    s.len() >= 4 && s.subrange(0, 4) == magic()
}

/// The chain that `s` holds: the blocks after the signature. `None` if the
/// signature is missing or the chain is incomplete.
pub open spec fn parse_chain(s: Seq<u8>) -> Option<Seq<RawBlock>> {
    if has_magic(s) {
        blocks(s.skip(4))
    } else {
        None
    }
}

/// How a search for the first block of one type ends.
pub enum Search {
    /// The bytes are no chain, or end before the search is decided.
    Malformed,
    /// The chain ended without a block of the type.
    Absent,
    /// The payload of the first block of the type.
    Found(Seq<u8>),
}

/// Searches the blocks at the front of `s` for the first one of type `target`.
pub open spec fn search_blocks(s: Seq<u8>, target: u8) -> Search
    decreases s.len(),
{
    match first_block(s) {
        None => Search::Malformed,
        Some(b) => if b.block_type == target {
            Search::Found(b.payload)
        } else if b.last {
            Search::Absent
        } else {
            search_blocks(s.skip(4 + b.payload.len() as int), target)
        },
    }
}

/// Searches the chain that `s` holds for the first block of type `target`.
pub open spec fn search(s: Seq<u8>, target: u8) -> Search {
    if has_magic(s) {
        search_blocks(s.skip(4), target)
    } else {
        Search::Malformed
    }
}

/// The fields of the header `four`: the flag, the block type and the payload
/// length.
pub fn read_header(four: &[u8]) -> (header: (bool, u8, u32))
    requires
        four@.len() == 4,
    ensures
        header.0 == header_last(four@[0]),
        header.1 == header_type(four@[0]),
        header.2 == u24_at(four@, 1),
        header.1 < 0x80,
        header.2 < 0x100_0000,
{
    let first = four[0];
    let last = first & 0x80 == 0x80;
    let ty = first & 0x7F;
    assert((first & 0x80 == 0x80) == (first >= 0x80)) by (bit_vector);
    assert(first & 0x7F == first % 0x80) by (bit_vector);
    proof {
        lemma_at_subrange(four@, 1);
    }
    let size = be_u24(&four[1..4]);
    (last, ty, size)
}

/// Whether `bytes` is the signature.
pub fn is_magic(bytes: &[u8]) -> (same: bool)
    ensures
        same == (bytes@ == magic()),
{
    let same = bytes.len() == 4 && bytes[0] == 0x66 && bytes[1] == 0x4C && bytes[2] == 0x61
        && bytes[3] == 0x43;
    proof {
        if same {
            assert(bytes@ =~= magic());
        }
    }
    same
}

/// Whether a block can be written as it is: its type takes seven bits, its
/// payload is shorter than 2^24 bytes, and its size is the length of its
/// payload.
pub open spec fn fits(block: RawBlock) -> bool {
    &&& block.block_type < 0x80
    &&& block.payload.len() < 0x100_0000
    &&& block.size == block.payload.len()
}

/// The bytes of a block.
pub open spec fn block_frame(block: RawBlock) -> Seq<u8> {
    frame(block.last, block.block_type, block.payload)
}

/// The bytes of blocks that follow each other.
pub open spec fn frames(blocks: Seq<RawBlock>) -> Seq<u8>
    decreases blocks.len(),
{
    if blocks.len() == 0 {
        Seq::empty()
    } else {
        block_frame(blocks.first()) + frames(blocks.drop_first())
    }
}

/// Whether every block can be written as it is and none is flagged as last.
pub open spec fn open_run(blocks: Seq<RawBlock>) -> bool {
    forall|i: int| 0 <= i < blocks.len() ==> fits(#[trigger] blocks[i]) && !blocks[i].last
}

/// Whether `blocks` is a whole chain: not empty, every block writable, and
/// the last block, and no other, flagged as last.
pub open spec fn is_chain(blocks: Seq<RawBlock>) -> bool {
    &&& blocks.len() > 0
    &&& open_run(blocks.drop_last())
    &&& fits(blocks.last())
    &&& blocks.last().last
}

/// The bytes of a chain: the signature and the blocks.
pub open spec fn chain_bytes(blocks: Seq<RawBlock>) -> Seq<u8> {
    magic() + frames(blocks)
}

/// `done` in front of what `rest` holds.
pub open spec fn join(done: Seq<RawBlock>, rest: Option<Seq<RawBlock>>) -> Option<Seq<RawBlock>> {
    match rest {
        Some(blocks) => Some(done + blocks),
        None => None,
    }
}

/// The index of the first block of type `target`, or the number of blocks if
/// there is none.
pub open spec fn first_of_type(blocks: Seq<RawBlock>, target: u8) -> int
    decreases blocks.len(),
{
    if blocks.len() == 0 || blocks.first().block_type == target {
        0
    } else {
        1 + first_of_type(blocks.drop_first(), target)
    }
}

/// A written block is read back, and what follows it is left.
pub proof fn lemma_frame_is_read_back(block: RawBlock, rest: Seq<u8>)
    requires
        fits(block),
    ensures
        first_block(block_frame(block) + rest) == Some(block),
        (block_frame(block) + rest).skip(4 + block.payload.len() as int) == rest,
{
    let s = block_frame(block) + rest;
    let size = block.payload.len() as int;
    lemma_u24_write_read(size);
    assert(s.subrange(1, 4) =~= u24_bytes(size));
    lemma_at_subrange(s, 1);
    assert(u24_at(s, 1) == size);
    assert(s.subrange(4, 4 + size) =~= block.payload);
    assert(s.skip(4 + size) =~= rest);
}

/// The bytes of a block, then those of more blocks.
pub proof fn lemma_frames_push(blocks: Seq<RawBlock>, block: RawBlock)
    ensures
        frames(blocks.push(block)) == frames(blocks) + block_frame(block),
    decreases blocks.len(),
{
    if blocks.len() == 0 {
        assert(blocks.push(block).drop_first() =~= blocks);
        assert(frames(blocks.push(block)) =~= frames(blocks) + block_frame(block));
    } else {
        lemma_frames_push(blocks.drop_first(), block);
        assert(blocks.push(block).drop_first() =~= blocks.drop_first().push(block));
        assert(frames(blocks.push(block)) =~= frames(blocks) + block_frame(block));
    }
}

/// Blocks that are not flagged as last are read back one by one, and reading
/// goes on with what follows them.
pub proof fn lemma_open_run_is_read_back(run: Seq<RawBlock>, rest: Seq<u8>)
    requires
        open_run(run),
    ensures
        blocks(frames(run) + rest) == join(run, blocks(rest)),
    decreases run.len(),
{
    if run.len() == 0 {
        assert(frames(run) + rest =~= rest);
        match blocks(rest) {
            Some(more) => assert(run + more =~= more),
            None => {},
        }
    } else {
        let head = run.first();
        let tail = run.drop_first();
        let after = frames(tail) + rest;
        assert(fits(run[0]) && !run[0].last);
        assert(open_run(tail)) by {
            assert forall|i: int| 0 <= i < tail.len() implies fits(#[trigger] tail[i])
                && !tail[i].last by {
                assert(tail[i] == run[i + 1]);
            }
        }
        assert(frames(run) + rest =~= block_frame(head) + after);
        lemma_frame_is_read_back(head, after);
        lemma_open_run_is_read_back(tail, rest);
        match blocks(rest) {
            Some(more) => assert(seq![head] + (tail + more) =~= run + more),
            None => {},
        }
    }
}

/// A whole chain is read back as it was written, whatever follows it: no
/// byte behind the block flagged as last is looked at.
pub proof fn lemma_chain_is_read_back(chain: Seq<RawBlock>, rest: Seq<u8>)
    requires
        is_chain(chain),
    ensures
        parse_chain(chain_bytes(chain) + rest) == Some(chain),
{
    let run = chain.drop_last();
    let end = chain.last();
    let s = chain_bytes(chain) + rest;
    assert(chain =~= run.push(end));
    lemma_frames_push(run, end);
    assert(s.subrange(0, 4) =~= magic());
    assert(s.skip(4) =~= frames(run) + (block_frame(end) + rest));
    lemma_open_run_is_read_back(run, block_frame(end) + rest);
    lemma_frame_is_read_back(end, rest);
    assert(run + seq![end] =~= chain);
}

/// The blocks that are read form a whole chain: each has the size of its
/// payload, and the last of them, and no other, is flagged as last.
pub proof fn lemma_blocks_form_chain(s: Seq<u8>)
    ensures
        blocks(s) matches Some(run) ==> is_chain(run),
    decreases s.len(),
{
    match first_block(s) {
        None => {},
        Some(b) => {
            assert(fits(b));
            if b.last {
                assert(seq![b].drop_last() =~= Seq::<RawBlock>::empty());
            } else {
                let after = s.skip(4 + b.payload.len() as int);
                lemma_blocks_form_chain(after);
                match blocks(after) {
                    Some(more) => {
                        let run = seq![b] + more;
                        assert(run.last() == more.last());
                        assert forall|i: int| 0 <= i < run.drop_last().len() implies fits(
                            #[trigger] run.drop_last()[i],
                        ) && !run.drop_last()[i].last by {
                            if i > 0 {
                                assert(run.drop_last()[i] == more.drop_last()[i - 1]);
                            }
                        }
                    },
                    None => {},
                }
            }
        },
    }
}

/// The chain that is read is a whole chain.
pub proof fn lemma_read_chain_is_chain(s: Seq<u8>)
    ensures
        parse_chain(s) matches Some(chain) ==> is_chain(chain),
{
    if has_magic(s) {
        lemma_blocks_form_chain(s.skip(4));
    }
}

/// Where a header declares more payload than there are bytes left, the bytes
/// hold no chain.
pub proof fn lemma_short_payload_is_refused(run: Seq<RawBlock>, header: Seq<u8>, tail: Seq<u8>)
    requires
        open_run(run),
        header.len() == 4,
        tail.len() < u24_at(header, 1),
    ensures
        parse_chain(magic() + frames(run) + header + tail) is None,
{
    let s = magic() + frames(run) + header + tail;
    assert(s.subrange(0, 4) =~= magic());
    assert(s.skip(4) =~= frames(run) + (header + tail));
    lemma_open_run_is_read_back(run, header + tail);
    assert(u24_at(header + tail, 1) == u24_at(header, 1));
    assert(first_block(header + tail) is None);
}

/// Bytes that end inside a header hold no chain.
pub proof fn lemma_short_header_is_refused(run: Seq<RawBlock>, tail: Seq<u8>)
    requires
        open_run(run),
        tail.len() < 4,
    ensures
        parse_chain(magic() + frames(run) + tail) is None,
{
    let s = magic() + frames(run) + tail;
    assert(s.subrange(0, 4) =~= magic());
    assert(s.skip(4) =~= frames(run) + tail);
    lemma_open_run_is_read_back(run, tail);
}

/// A search passes over blocks of other types that are not flagged as last.
pub proof fn lemma_search_passes(run: Seq<RawBlock>, rest: Seq<u8>, target: u8)
    requires
        open_run(run),
        forall|i: int| 0 <= i < run.len() ==> (#[trigger] run[i]).block_type != target,
    ensures
        search_blocks(frames(run) + rest, target) == search_blocks(rest, target),
    decreases run.len(),
{
    if run.len() == 0 {
        assert(frames(run) + rest =~= rest);
    } else {
        let head = run.first();
        let tail = run.drop_first();
        let after = frames(tail) + rest;
        assert(fits(run[0]) && !run[0].last && run[0].block_type != target);
        assert(open_run(tail)) by {
            assert forall|i: int| 0 <= i < tail.len() implies fits(#[trigger] tail[i])
                && !tail[i].last by {
                assert(tail[i] == run[i + 1]);
            }
        }
        assert forall|i: int| 0 <= i < tail.len() implies (#[trigger] tail[i]).block_type
            != target by {
            assert(tail[i] == run[i + 1]);
        }
        assert(frames(run) + rest =~= block_frame(head) + after);
        lemma_frame_is_read_back(head, after);
        lemma_search_passes(tail, rest, target);
    }
}

/// A search yields the payload of the first block of the type, whatever
/// follows that block: later blocks of the type are not looked at.
pub proof fn lemma_search_finds_first(
    before: Seq<RawBlock>,
    hit: RawBlock,
    rest: Seq<u8>,
    target: u8,
)
    requires
        open_run(before),
        forall|i: int| 0 <= i < before.len() ==> (#[trigger] before[i]).block_type != target,
        fits(hit),
        hit.block_type == target,
    ensures
        search(magic() + frames(before) + block_frame(hit) + rest, target) == Search::Found(
            hit.payload,
        ),
{
    let s = magic() + frames(before) + block_frame(hit) + rest;
    assert(s.subrange(0, 4) =~= magic());
    assert(s.skip(4) =~= frames(before) + (block_frame(hit) + rest));
    lemma_search_passes(before, block_frame(hit) + rest, target);
    lemma_frame_is_read_back(hit, rest);
}

/// A search through a whole chain without a block of the type ends with
/// `Absent`.
pub proof fn lemma_search_misses(chain: Seq<RawBlock>, rest: Seq<u8>, target: u8)
    requires
        is_chain(chain),
        forall|i: int| 0 <= i < chain.len() ==> (#[trigger] chain[i]).block_type != target,
    ensures
        search(chain_bytes(chain) + rest, target) == Search::Absent,
{
    let run = chain.drop_last();
    let end = chain.last();
    let s = chain_bytes(chain) + rest;
    assert(chain =~= run.push(end));
    lemma_frames_push(run, end);
    assert(s.subrange(0, 4) =~= magic());
    assert(s.skip(4) =~= frames(run) + (block_frame(end) + rest));
    assert forall|i: int| 0 <= i < run.len() implies (#[trigger] run[i]).block_type != target by {
        assert(run[i] == chain[i]);
    }
    assert(chain[chain.len() - 1].block_type != target);
    lemma_search_passes(run, block_frame(end) + rest, target);
    lemma_frame_is_read_back(end, rest);
}

/// What a search says, told from the blocks at the front of `s`: `Absent`
/// only where they run up to a block flagged as last and none is of the
/// type; `Found` with the payload of the first block of the type otherwise.
pub proof fn lemma_search_blocks_of_blocks(s: Seq<u8>, target: u8)
    ensures
        match search_blocks(s, target) {
            Search::Absent => {
                &&& blocks(s) matches Some(run)
                &&& first_of_type(run, target) == run.len()
            },
            Search::Found(payload) => blocks(s) matches Some(run) ==> {
                &&& first_of_type(run, target) < run.len()
                &&& run[first_of_type(run, target)].payload == payload
            },
            Search::Malformed => (blocks(s) is None),
        },
    decreases s.len(),
{
    match first_block(s) {
        None => {},
        Some(b) => {
            if b.block_type != target && !b.last {
                let after = s.skip(4 + b.payload.len() as int);
                lemma_search_blocks_of_blocks(after, target);
                match blocks(after) {
                    Some(more) => {
                        let run = seq![b] + more;
                        assert(run.first() == b);
                        assert(run.drop_first() =~= more);
                        lemma_first_of_type(more, target);
                        let at = first_of_type(more, target);
                        if at < more.len() {
                            assert(run[at + 1] == more[at]);
                        }
                    },
                    None => {},
                }
            } else if b.block_type != target {
                let run = seq![b];
                assert(run.drop_first() =~= Seq::<RawBlock>::empty());
                assert(first_of_type(run.drop_first(), target) == 0);
            } else {
                match blocks(s) {
                    Some(run) => {
                        assert(run.first() == b);
                    },
                    None => {},
                }
            }
        },
    }
}

/// What a search says of bytes that hold a chain: the payload of the first
/// block of the type, or `Absent` if the chain has none. It is `Absent` for
/// no other bytes.
pub proof fn lemma_search_of_chain(s: Seq<u8>, target: u8)
    ensures
        search(s, target) is Absent ==> parse_chain(s) is Some,
        parse_chain(s) matches Some(chain) ==> search(s, target) == (if first_of_type(chain, target)
            < chain.len() {
            Search::Found(chain[first_of_type(chain, target)].payload)
        } else {
            Search::Absent
        }),
{
    if has_magic(s) {
        lemma_search_blocks_of_blocks(s.skip(4), target);
        match parse_chain(s) {
            Some(chain) => {
                lemma_first_of_type(chain, target);
            },
            None => {},
        }
    }
}

/// `first_of_type` yields an index within the blocks or their number.
pub proof fn lemma_first_of_type(blocks: Seq<RawBlock>, target: u8)
    ensures
        0 <= first_of_type(blocks, target) <= blocks.len(),
        forall|i: int|
            0 <= i < first_of_type(blocks, target) ==> (#[trigger] blocks[i]).block_type != target,
        first_of_type(blocks, target) < blocks.len() ==> blocks[first_of_type(
            blocks,
            target,
        )].block_type == target,
    decreases blocks.len(),
{
    if !(blocks.len() == 0 || blocks.first().block_type == target) {
        let tail = blocks.drop_first();
        lemma_first_of_type(tail, target);
        assert forall|i: int| 0 <= i < first_of_type(blocks, target) implies (
        #[trigger] blocks[i]).block_type != target by {
            if i > 0 {
                assert(blocks[i] == tail[i - 1]);
            }
        }
        if first_of_type(blocks, target) < blocks.len() {
            assert(blocks[first_of_type(blocks, target)] == tail[first_of_type(tail, target)]);
        }
    }
}

} // verus!
