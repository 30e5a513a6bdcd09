//! Reading a chain piece by piece, for sources that hand out their bytes on
//! request: the reader says how many bytes it wants next, the caller fetches
//! them, and the reader says how to go on.

use vstd::prelude::*;
use crate::chain::{
    block_frame, blocks, chain_bytes, first_block, fits, frames, header_last, header_type,
    is_chain, is_magic, lemma_chain_is_read_back, lemma_frame_is_read_back, lemma_frames_push,
    magic, open_run, parse_chain, read_header, search, search_blocks, RawBlock, Search,
};
use crate::error::Error;
use crate::metadata::{chain_of, Block, BlockBytes};
use crate::wire::u24_at;

verus! {

/// The fields of a block header.
#[derive(Debug, Clone, Copy, PartialEq, Eq, Structural)]
pub struct Header {
    /// Whether the block is the last of its chain.
    pub last: bool,
    /// The block's type.
    pub block_type: u8,
    /// The length of the payload.
    pub size: u32,
}

/// What a reader waits for.
#[derive(Debug, Clone, Copy, PartialEq, Eq, Structural)]
pub enum Awaiting {
    /// The four bytes of the signature.
    Magic,
    /// The four bytes of a block header.
    Header,
    /// The payload of the block with this header.
    Payload(Header),
}

/// How reading goes on after a chunk: with more reading, or with a result.
#[derive(Debug)]
pub enum Progress<S, R> {
    /// More bytes are wanted; the state to go on with.
    More(S),
    /// Reading is over.
    Done(R),
}

/// What a chunk leads to.
pub enum Outcome<S, R> {
    /// More bytes are wanted; the state to go on with.
    More(S),
    /// Reading is over.
    Done(R),
    /// The source ended inside the signature or a header.
    Cut,
    /// The bytes have not the structure of a chain.
    Malformed,
}

impl Awaiting {
    /// How many bytes are awaited.
    pub open spec fn len(self) -> nat {
        match self {
            Awaiting::Magic => 4,
            Awaiting::Header => 4,
            Awaiting::Payload(header) => header.size as nat,
        }
    }

    /// How many bytes to fetch next.
    pub fn wanted(&self) -> (n: usize)
        ensures
            n == self.len(),
    {
        match self {
            Awaiting::Magic => 4,
            Awaiting::Header => 4,
            Awaiting::Payload(header) => header.size as usize,
        }
    }

    /// What the chunk `chunk` leads to where `self` is awaited. A signature
    /// or header cut short is `Cut`; a wrong signature, a payload of another
    /// length than its header declared, and a chunk longer than awaited are
    /// `Malformed`. A whole payload ends the block: `Done` with its header.
    pub open spec fn advance(self, chunk: Seq<u8>) -> Outcome<Awaiting, Header> {
        match self {
            Awaiting::Magic => if chunk.len() < 4 {
                Outcome::Cut
            } else if chunk == magic() {
                Outcome::More(Awaiting::Header)
            } else {
                Outcome::Malformed
            },
            Awaiting::Header => if chunk.len() < 4 {
                Outcome::Cut
            } else if chunk.len() == 4 {
                Outcome::More(
                    Awaiting::Payload(
                        Header {
                            last: header_last(chunk[0]),
                            block_type: header_type(chunk[0]),
                            size: u24_at(chunk, 1) as u32,
                        },
                    ),
                )
            } else {
                Outcome::Malformed
            },
            Awaiting::Payload(header) => if chunk.len() == header.size {
                Outcome::Done(header)
            } else {
                Outcome::Malformed
            },
        }
    }

    /// Sorts the chunk `chunk` as `advance` says.
    fn sort(self, chunk: &[u8]) -> (result: Result<Progress<Awaiting, Header>, Error>)
        ensures
            agrees(result, self.advance(chunk@)),
            match (result, self.advance(chunk@)) {
                (Ok(Progress::More(next)), Outcome::More(to)) => next == to,
                (Ok(Progress::Done(header)), Outcome::Done(of)) => header == of,
                _ => true,
            },
    {
        match self {
            Awaiting::Magic => {
                if chunk.len() < 4 {
                    Err(Error::IoError(unexpected_eof()))
                } else if is_magic(chunk) {
                    Ok(Progress::More(Awaiting::Header))
                } else {
                    Err(Error::InvalidFormat)
                }
            },
            Awaiting::Header => {
                if chunk.len() < 4 {
                    Err(Error::IoError(unexpected_eof()))
                } else if chunk.len() == 4 {
                    let (last, block_type, size) = read_header(chunk);
                    Ok(Progress::More(Awaiting::Payload(Header { last, block_type, size })))
                } else {
                    Err(Error::InvalidFormat)
                }
            },
            Awaiting::Payload(header) => {
                if chunk.len() == header.size as usize {
                    Ok(Progress::Done(header))
                } else {
                    Err(Error::InvalidFormat)
                }
            },
        }
    }
}

/// Whether a result says what an outcome says: the same way on, `IoError`
/// for `Cut` and `InvalidFormat` for `Malformed`.
pub open spec fn agrees<S, R, T, Q>(
    result: Result<Progress<S, R>, Error>,
    outcome: Outcome<T, Q>,
) -> bool {
    match outcome {
        Outcome::More(_) => result matches Ok(Progress::More(_)),
        Outcome::Done(_) => result matches Ok(Progress::Done(_)),
        Outcome::Cut => result matches Err(Error::IoError(_)),
        Outcome::Malformed => result matches Err(Error::InvalidFormat),
    }
}

/// Makes a `std::io::Error` of the kind `UnexpectedEof` with
/// `std::io::Error::from`: the error of a source that ends too early. The
/// type is carried as it is, so nothing is claimed of the value.
#[verifier::external_body]
fn unexpected_eof() -> std::io::Error {
    std::io::Error::from(std::io::ErrorKind::UnexpectedEof)
}

/// A reader that gathers the blocks of a chain.
#[derive(Debug)]
pub struct ChainReader {
    awaiting: Awaiting,
    blocks: Vec<BlockBytes>,
}

/// The state of a `ChainReader`.
pub struct ChainReaderView {
    /// What the reader waits for.
    pub awaiting: Awaiting,
    /// The blocks read so far.
    pub blocks: Seq<RawBlock>,
}

/// The block with the header `header` and the payload `payload`.
pub open spec fn block_of(header: Header, payload: Seq<u8>) -> RawBlock {
    RawBlock { last: header.last, block_type: header.block_type, size: header.size, payload }
}

/// What a bounded read takes from `input` when `n` bytes are asked for: `n`
/// bytes, or all there is if that is less.
pub open spec fn chunk_of(input: Seq<u8>, n: nat) -> Seq<u8> {
    if n <= input.len() {
        input.take(n as int)
    } else {
        input
    }
}

impl ChainReaderView {
    /// The state before anything was read.
    pub open spec fn start() -> ChainReaderView {
        ChainReaderView { awaiting: Awaiting::Magic, blocks: Seq::empty() }
    }

    /// The state at a block header, with `blocks` read so far.
    pub open spec fn at_header(blocks: Seq<RawBlock>) -> ChainReaderView {
        ChainReaderView { awaiting: Awaiting::Header, blocks }
    }

    /// What the chunk `chunk` leads to. A whole payload adds its block; the
    /// block flagged as last ends the reading, with all the blocks.
    pub open spec fn step(self, chunk: Seq<u8>) -> Outcome<ChainReaderView, Seq<RawBlock>> {
        match self.awaiting.advance(chunk) {
            Outcome::More(next) => Outcome::More(
                ChainReaderView { awaiting: next, blocks: self.blocks },
            ),
            Outcome::Done(header) => if header.last {
                Outcome::Done(self.blocks.push(block_of(header, chunk)))
            } else {
                Outcome::More(
                    ChainReaderView::at_header(self.blocks.push(block_of(header, chunk))),
                )
            },
            Outcome::Cut => Outcome::Cut,
            Outcome::Malformed => Outcome::Malformed,
        }
    }

    /// Where the reading ends if every request is answered from the front
    /// of `input`, as far as `input` reaches.
    pub open spec fn run(self, input: Seq<u8>) -> Outcome<ChainReaderView, Seq<RawBlock>>
        decreases input.len(), (if self.awaiting is Payload { 1int } else { 0int }),
    {
        let chunk = chunk_of(input, self.awaiting.len());
        match self.step(chunk) {
            Outcome::More(next) => next.run(input.skip(chunk.len() as int)),
            other => other,
        }
    }

    /// How many bytes are fetched until the reading ends, if every request
    /// is answered from the front of `input`, as far as `input` reaches.
    pub open spec fn taken(self, input: Seq<u8>) -> nat
        decreases input.len(), (if self.awaiting is Payload { 1int } else { 0int }),
    {
        let chunk = chunk_of(input, self.awaiting.len());
        match self.step(chunk) {
            Outcome::More(next) => chunk.len() + next.taken(input.skip(chunk.len() as int)),
            _ => chunk.len(),
        }
    }
}

impl View for ChainReader {
    type V = ChainReaderView;

    closed spec fn view(&self) -> ChainReaderView {
        ChainReaderView { awaiting: self.awaiting, blocks: chain_of(self.blocks@) }
    }
}

impl ChainReader {
    /// A reader that has read nothing.
    pub fn new() -> (reader: ChainReader)
        ensures
            reader@ == ChainReaderView::start(),
    {
        let reader = ChainReader { awaiting: Awaiting::Magic, blocks: Vec::new() };
        assert(reader@.blocks =~= Seq::empty());
        reader
    }

    /// How many bytes to fetch next.
    pub fn wanted(&self) -> (n: usize)
        ensures
            n == self@.awaiting.len(),
    {
        self.awaiting.wanted()
    }

    /// Takes the bytes that were fetched: as many as were wanted, or fewer
    /// if the source ended. The result says what `step` says: how to go on,
    /// the chain, `IoError` for a source that ended inside the signature or
    /// a header, and `InvalidFormat` for bytes that are no chain.
    pub fn accept(self, chunk: Vec<u8>) -> (result: Result<
        Progress<ChainReader, Vec<BlockBytes>>,
        Error,
    >)
        ensures
            agrees(result, self@.step(chunk@)),
            match (result, self@.step(chunk@)) {
                (Ok(Progress::More(next)), Outcome::More(to)) => next@ == to,
                (Ok(Progress::Done(chain)), Outcome::Done(of)) => chain_of(chain@) == of,
                _ => true,
            },
    {
        match self.awaiting.sort(chunk.as_slice()) {
            Ok(Progress::More(next)) => Ok(
                Progress::More(ChainReader { awaiting: next, blocks: self.blocks }),
            ),
            Ok(Progress::Done(header)) => {
                let ghost before = chain_of(self.blocks@);
                let ghost payload = chunk@;
                let mut blocks = self.blocks;
                blocks.push(Block::new(header.last, header.block_type, header.size, chunk));
                assert(chain_of(blocks@) =~= before.push(block_of(header, payload)));
                if header.last {
                    Ok(Progress::Done(blocks))
                } else {
                    Ok(Progress::More(ChainReader { awaiting: Awaiting::Header, blocks }))
                }
            },
            Err(e) => Err(e),
        }
    }
}

/// A reader at a block header, fed with `rest`, ends with the blocks read
/// before and those that `rest` holds; where `rest` holds no run of blocks
/// up to a last one, it ends with `Cut` or `Malformed`.
pub proof fn lemma_run_from_header(done: Seq<RawBlock>, rest: Seq<u8>)
    ensures
        match blocks(rest) {
            Some(more) => ChainReaderView::at_header(done).run(rest)
                == Outcome::<ChainReaderView, Seq<RawBlock>>::Done(done + more),
            None => {
                let end = ChainReaderView::at_header(done).run(rest);
                end is Cut || end is Malformed
            },
        },
    decreases rest.len(),
{
    let state = ChainReaderView::at_header(done);
    if rest.len() >= 4 {
        let four = rest.take(4);
        let header = Header {
            last: header_last(four[0]),
            block_type: header_type(four[0]),
            size: u24_at(four, 1) as u32,
        };
        assert(u24_at(four, 1) == u24_at(rest, 1));
        let next = ChainReaderView { awaiting: Awaiting::Payload(header), blocks: done };
        assert(state.step(four) == Outcome::<ChainReaderView, Seq<RawBlock>>::More(next));
        let after = rest.skip(4);
        assert(state.run(rest) == next.run(after));
        let chunk = chunk_of(after, header.size as nat);
        if header.size <= after.len() {
            assert(chunk =~= rest.subrange(4, 4 + header.size));
            let block = block_of(header, chunk);
            assert(first_block(rest) == Some(block));
            if header.last {
                assert(done.push(block) =~= done + seq![block]);
            } else {
                let tail = after.skip(header.size as int);
                assert(tail =~= rest.skip(4 + header.size));
                let on = ChainReaderView::at_header(done.push(block));
                assert(next.step(chunk) == Outcome::<ChainReaderView, Seq<RawBlock>>::More(on));
                assert(next.run(after) == on.run(tail));
                lemma_run_from_header(done.push(block), tail);
                match blocks(tail) {
                    Some(more) => assert(done.push(block) + more =~= done + (seq![block] + more)),
                    None => {},
                }
            }
        }
    }
}

/// What a reader at a block header fetches for one written block: the header
/// and the payload, and then, unless the block is flagged as last, what it
/// fetches for what follows.
proof fn lemma_taken_for_block(done: Seq<RawBlock>, block: RawBlock, tail: Seq<u8>)
    requires
        fits(block),
    ensures
        ChainReaderView::at_header(done).taken(
            block_frame(block) + tail,
        ) == 4 + block.payload.len() + (if block.last {
            0
        } else {
            ChainReaderView::at_header(done.push(block)).taken(tail)
        }),
{
    let state = ChainReaderView::at_header(done);
    let input = block_frame(block) + tail;
    lemma_frame_is_read_back(block, tail);
    let four = input.take(4);
    let header = Header { last: block.last, block_type: block.block_type, size: block.size };
    assert(u24_at(four, 1) == u24_at(input, 1));
    assert(four[0] == input[0]);
    let next = ChainReaderView { awaiting: Awaiting::Payload(header), blocks: done };
    assert(state.step(four) == Outcome::<ChainReaderView, Seq<RawBlock>>::More(next));
    let after = input.skip(4);
    assert(state.taken(input) == 4 + next.taken(after));
    let chunk = chunk_of(after, header.size as nat);
    assert(chunk =~= block.payload);
    assert(block_of(header, chunk) == block);
    assert(after.skip(chunk.len() as int) =~= tail);
}

/// What a reader at a block header fetches for blocks that are not flagged
/// as last: their bytes, and then what it fetches for what follows.
proof fn lemma_taken_for_run(done: Seq<RawBlock>, run: Seq<RawBlock>, tail: Seq<u8>)
    requires
        open_run(run),
    ensures
        ChainReaderView::at_header(done).taken(frames(run) + tail)
            == frames(run).len() + ChainReaderView::at_header(done + run).taken(tail),
    decreases run.len(),
{
    if run.len() == 0 {
        assert(frames(run) + tail =~= tail);
        assert(done + run =~= done);
    } else {
        let head = run.first();
        let more = run.drop_first();
        assert(fits(run[0]) && !run[0].last);
        assert(open_run(more)) by {
            assert forall|i: int| 0 <= i < more.len() implies fits(#[trigger] more[i])
                && !more[i].last by {
                assert(more[i] == run[i + 1]);
            }
        }
        assert(frames(run) + tail =~= block_frame(head) + (frames(more) + tail));
        lemma_taken_for_block(done, head, frames(more) + tail);
        lemma_taken_for_run(done.push(head), more, tail);
        assert(done.push(head) + more =~= done + run);
    }
}

/// What a reader at the first block header fetches for the blocks of a
/// whole chain and whatever follows them: the bytes of the blocks.
proof fn lemma_taken_for_chain(chain: Seq<RawBlock>, rest: Seq<u8>)
    requires
        is_chain(chain),
    ensures
        ChainReaderView::at_header(Seq::empty()).taken(frames(chain) + rest) == frames(chain).len(),
{
    let run = chain.drop_last();
    let end = chain.last();
    let none = Seq::<RawBlock>::empty();
    assert(chain =~= run.push(end));
    lemma_frames_push(run, end);
    assert(frames(chain) + rest =~= frames(run) + (block_frame(end) + rest));
    lemma_taken_for_run(none, run, block_frame(end) + rest);
    lemma_taken_for_block(none + run, end, rest);
}

/// A reader fed with a whole chain and whatever follows it ends with the
/// chain and has fetched the bytes of the chain, not one more.
pub proof fn lemma_reader_stops_at_the_end(chain: Seq<RawBlock>, rest: Seq<u8>)
    requires
        is_chain(chain),
    ensures
        ChainReaderView::start().run(chain_bytes(chain) + rest) == Outcome::<
            ChainReaderView,
            Seq<RawBlock>,
        >::Done(chain),
        ChainReaderView::start().taken(chain_bytes(chain) + rest) == chain_bytes(chain).len(),
{
    let input = chain_bytes(chain) + rest;
    assert(ChainReaderView::start().run(input) == Outcome::<ChainReaderView, Seq<RawBlock>>::Done(
        chain,
    )) by {
        lemma_chain_is_read_back(chain, rest);
        lemma_run_reads_chain(input);
    }
    let four = input.take(4);
    let after = input.skip(4);
    assert(four =~= magic());
    assert(after =~= frames(chain) + rest);
    let next = ChainReaderView::at_header(Seq::empty());
    assert(ChainReaderView::start().step(four) == Outcome::<
        ChainReaderView,
        Seq<RawBlock>,
    >::More(next));
    assert(ChainReaderView::start().taken(input) == 4 + next.taken(after));
    lemma_taken_for_chain(chain, rest);
}

/// A reader fed with `input` ends with the chain that `input` holds; where
/// `input` holds none, it ends with `Cut` or `Malformed`. So reading piece by
/// piece finds what reading from memory finds.
pub proof fn lemma_run_reads_chain(input: Seq<u8>)
    ensures
        match parse_chain(input) {
            Some(chain) => ChainReaderView::start().run(input) == Outcome::<
                ChainReaderView,
                Seq<RawBlock>,
            >::Done(chain),
            None => {
                let end = ChainReaderView::start().run(input);
                end is Cut || end is Malformed
            },
        },
{
    let state = ChainReaderView::start();
    if input.len() >= 4 {
        let four = input.take(4);
        assert(four =~= input.subrange(0, 4));
        if four == magic() {
            let next = ChainReaderView::at_header(Seq::empty());
            assert(state.step(four) == Outcome::<ChainReaderView, Seq<RawBlock>>::More(next));
            lemma_run_from_header(Seq::empty(), input.skip(4));
            match blocks(input.skip(4)) {
                Some(more) => assert(Seq::<RawBlock>::empty() + more =~= more),
                None => {},
            }
        }
    }
}

/// A reader that looks for the first block of one type.
#[derive(Debug)]
pub struct BlockSearch {
    target: u8,
    awaiting: Awaiting,
}

/// The state of a `BlockSearch`.
pub struct BlockSearchView {
    /// The block type that is looked for.
    pub target: u8,
    /// What the reader waits for.
    pub awaiting: Awaiting,
}

impl BlockSearchView {
    /// The state before anything was read.
    pub open spec fn start(target: u8) -> BlockSearchView {
        BlockSearchView { target, awaiting: Awaiting::Magic }
    }

    /// The state at a block header.
    pub open spec fn at_header(target: u8) -> BlockSearchView {
        BlockSearchView { target, awaiting: Awaiting::Header }
    }

    /// What the chunk `chunk` leads to. A whole payload ends the search if
    /// its block has the type looked for, with the payload, or if its block
    /// is flagged as last, with nothing; the type is looked at first.
    pub open spec fn step(self, chunk: Seq<u8>) -> Outcome<BlockSearchView, Option<Seq<u8>>> {
        match self.awaiting.advance(chunk) {
            Outcome::More(next) => Outcome::More(
                BlockSearchView { target: self.target, awaiting: next },
            ),
            Outcome::Done(header) => if header.block_type == self.target {
                Outcome::Done(Some(chunk))
            } else if header.last {
                Outcome::Done(None)
            } else {
                Outcome::More(BlockSearchView::at_header(self.target))
            },
            Outcome::Cut => Outcome::Cut,
            Outcome::Malformed => Outcome::Malformed,
        }
    }

    /// Where the search ends if every request is answered from the front of
    /// `input`, as far as `input` reaches.
    pub open spec fn run(self, input: Seq<u8>) -> Outcome<BlockSearchView, Option<Seq<u8>>>
        decreases input.len(), (if self.awaiting is Payload { 1int } else { 0int }),
    {
        let chunk = chunk_of(input, self.awaiting.len());
        match self.step(chunk) {
            Outcome::More(next) => next.run(input.skip(chunk.len() as int)),
            other => other,
        }
    }
}

impl View for BlockSearch {
    type V = BlockSearchView;

    closed spec fn view(&self) -> BlockSearchView {
        BlockSearchView { target: self.target, awaiting: self.awaiting }
    }
}

impl BlockSearch {
    /// A search for the first block of type `target` that has read nothing.
    pub fn new(target: u8) -> (find: BlockSearch)
        ensures
            find@ == BlockSearchView::start(target),
    {
        BlockSearch { target, awaiting: Awaiting::Magic }
    }

    /// How many bytes to fetch next.
    pub fn wanted(&self) -> (n: usize)
        ensures
            n == self@.awaiting.len(),
    {
        self.awaiting.wanted()
    }

    /// Takes the bytes that were fetched: as many as were wanted, or fewer
    /// if the source ended. The result says what `step` says: how to go on,
    /// the payload found or that there is none, `IoError` for a source that
    /// ended inside the signature or a header, and `InvalidFormat` for bytes
    /// that are no chain.
    pub fn accept(self, chunk: Vec<u8>) -> (result: Result<
        Progress<BlockSearch, Option<Vec<u8>>>,
        Error,
    >)
        ensures
            agrees(result, self@.step(chunk@)),
            match (result, self@.step(chunk@)) {
                (Ok(Progress::More(next)), Outcome::More(to)) => next@ == to,
                (Ok(Progress::Done(Some(payload))), Outcome::Done(Some(of))) => payload@ == of,
                (Ok(Progress::Done(None)), Outcome::Done(None)) => true,
                (Ok(Progress::Done(_)), Outcome::Done(_)) => false,
                _ => true,
            },
    {
        match self.awaiting.sort(chunk.as_slice()) {
            Ok(Progress::More(next)) => Ok(
                Progress::More(BlockSearch { target: self.target, awaiting: next }),
            ),
            Ok(Progress::Done(header)) => {
                if header.block_type == self.target {
                    Ok(Progress::Done(Some(chunk)))
                } else if header.last {
                    Ok(Progress::Done(None))
                } else {
                    Ok(
                        Progress::More(
                            BlockSearch { target: self.target, awaiting: Awaiting::Header },
                        ),
                    )
                }
            },
            Err(e) => Err(e),
        }
    }
}

/// Whether the end of a search piece by piece says what a search in memory
/// says: the same payload, the same absence, and `Cut` or `Malformed` where
/// the bytes are no chain.
pub open spec fn same_find(end: Outcome<BlockSearchView, Option<Seq<u8>>>, found: Search) -> bool {
    match found {
        Search::Found(payload) => end == Outcome::<BlockSearchView, Option<Seq<u8>>>::Done(
            Some(payload),
        ),
        Search::Absent => end == Outcome::<BlockSearchView, Option<Seq<u8>>>::Done(None),
        Search::Malformed => end is Cut || end is Malformed,
    }
}

/// A search at a block header, fed with `rest`, ends as the search through
/// the blocks of `rest` does.
pub proof fn lemma_search_from_header(target: u8, rest: Seq<u8>)
    ensures
        same_find(
            BlockSearchView::at_header(target).run(rest),
            search_blocks(rest, target),
        ),
    decreases rest.len(),
{
    let state = BlockSearchView::at_header(target);
    if rest.len() >= 4 {
        let four = rest.take(4);
        let header = Header {
            last: header_last(four[0]),
            block_type: header_type(four[0]),
            size: u24_at(four, 1) as u32,
        };
        assert(u24_at(four, 1) == u24_at(rest, 1));
        let next = BlockSearchView { target, awaiting: Awaiting::Payload(header) };
        assert(state.step(four) == Outcome::<BlockSearchView, Option<Seq<u8>>>::More(next));
        let after = rest.skip(4);
        assert(state.run(rest) == next.run(after));
        let chunk = chunk_of(after, header.size as nat);
        if header.size <= after.len() {
            assert(chunk =~= rest.subrange(4, 4 + header.size));
            assert(first_block(rest) == Some(block_of(header, chunk)));
            if header.block_type != target && !header.last {
                let tail = after.skip(header.size as int);
                assert(tail =~= rest.skip(4 + header.size));
                assert(next.step(chunk) == Outcome::<BlockSearchView, Option<Seq<u8>>>::More(
                    state,
                ));
                assert(next.run(after) == state.run(tail));
                lemma_search_from_header(target, tail);
            }
        }
    }
}

/// A search fed with `input` ends as the search through `input` in memory
/// does.
pub proof fn lemma_run_finds(target: u8, input: Seq<u8>)
    ensures
        same_find(BlockSearchView::start(target).run(input), search(input, target)),
{
    let state = BlockSearchView::start(target);
    if input.len() >= 4 {
        let four = input.take(4);
        assert(four =~= input.subrange(0, 4));
        if four == magic() {
            let next = BlockSearchView::at_header(target);
            assert(state.step(four) == Outcome::<BlockSearchView, Option<Seq<u8>>>::More(next));
            lemma_search_from_header(target, input.skip(4));
        }
    }
}

} // verus!
