use rotic_flac::metadata::BlockBytes;
use rotic_flac::reader::{Awaiting, BlockSearch, ChainReader, Header, Progress};
use rotic_flac::{read_from_bytes, Error};

fn block(last: bool, ty: u8, payload: &[u8]) -> Vec<u8> {
    let mut bytes = vec![ty | if last { 0x80 } else { 0 }];
    bytes.extend_from_slice(&(payload.len() as u32).to_be_bytes()[1..]);
    bytes.extend_from_slice(payload);
    bytes
}

fn sample() -> Vec<u8> {
    let mut bytes = b"fLaC".to_vec();
    bytes.extend(block(false, 1, &[1, 2, 3]));
    bytes.extend(block(false, 4, b"TITLE=x\0"));
    bytes.extend(block(false, 2, &[]));
    bytes.extend(block(true, 4, b"TITLE=y\0"));
    bytes
}

fn next_chunk(input: &[u8], at: &mut usize, wanted: usize) -> Vec<u8> {
    let end = input.len().min(*at + wanted);
    let chunk = input[*at..end].to_vec();
    *at = end;
    chunk
}

fn read_all(input: &[u8]) -> (Result<Vec<BlockBytes>, Error>, usize) {
    let mut reader = ChainReader::new();
    let mut at = 0;
    loop {
        let chunk = next_chunk(input, &mut at, reader.wanted());
        match reader.accept(chunk) {
            Ok(Progress::More(next)) => reader = next,
            Ok(Progress::Done(chain)) => return (Ok(chain), at),
            Err(e) => return (Err(e), at),
        }
    }
}

fn find(input: &[u8], target: u8) -> (Result<Option<Vec<u8>>, Error>, usize) {
    let mut search = BlockSearch::new(target);
    let mut at = 0;
    loop {
        let chunk = next_chunk(input, &mut at, search.wanted());
        match search.accept(chunk) {
            Ok(Progress::More(next)) => search = next,
            Ok(Progress::Done(found)) => return (Ok(found), at),
            Err(e) => return (Err(e), at),
        }
    }
}

#[test]
fn reader_asks_for_signature_header_and_payload() {
    let reader = ChainReader::new();
    assert_eq!(reader.wanted(), 4);
    let reader = match reader.accept(b"fLaC".to_vec()) {
        Ok(Progress::More(next)) => next,
        other => panic!("{:?}", other),
    };
    assert_eq!(reader.wanted(), 4);
    let reader = match reader.accept(vec![0x84, 0x00, 0x01, 0x02]) {
        Ok(Progress::More(next)) => next,
        other => panic!("{:?}", other),
    };
    assert_eq!(reader.wanted(), 0x0102);
    let chain = match reader.accept(vec![9; 0x0102]) {
        Ok(Progress::Done(chain)) => chain,
        other => panic!("{:?}", other),
    };
    assert_eq!(chain.len(), 1);
    assert!(chain[0].last_metadata_block());
    assert_eq!(chain[0].block_type(), 4);
    assert_eq!(chain[0].block_size(), 0x0102);
    assert_eq!(chain[0].block_data(), &vec![9u8; 0x0102]);
}

#[test]
fn reader_finds_what_reading_from_memory_finds() {
    let input = sample();
    let (chain, used) = read_all(&input);
    let chain = chain.unwrap();
    let expected = read_from_bytes(&input).unwrap();
    assert_eq!(chain.len(), 4);
    assert_eq!(used, input.len());
    for (a, b) in chain.iter().zip(expected.iter()) {
        assert_eq!(a.last_metadata_block(), b.last_metadata_block());
        assert_eq!(a.block_type(), b.block_type());
        assert_eq!(a.block_size(), b.block_size());
        assert_eq!(a.block_data(), b.block_data());
    }
}

#[test]
fn reader_takes_no_byte_behind_the_last_block() {
    let mut input = sample();
    let len = input.len();
    input.extend_from_slice(&[0xAA; 50]);
    let (chain, used) = read_all(&input);
    assert_eq!(chain.unwrap().len(), 4);
    assert_eq!(used, len);
}

#[test]
fn reader_wrong_signature_is_a_format_error() {
    let (result, used) = read_all(b"fLaXrest");
    assert!(matches!(result, Err(Error::InvalidFormat)));
    assert_eq!(used, 4);
}

#[test]
fn reader_source_ending_in_the_signature_is_an_io_error() {
    for len in 0..4 {
        let (result, _) = read_all(&b"fLaC"[..len]);
        match result {
            Err(Error::IoError(e)) => assert_eq!(e.kind(), std::io::ErrorKind::UnexpectedEof),
            other => panic!("{:?}", other),
        }
    }
}

#[test]
fn reader_source_ending_in_a_header_is_an_io_error() {
    let whole = sample();
    for len in [4usize, 5, 7, 11, 14] {
        let (result, _) = read_all(&whole[..len]);
        match result {
            Err(Error::IoError(e)) => assert_eq!(e.kind(), std::io::ErrorKind::UnexpectedEof),
            other => panic!("length {}: {:?}", len, other),
        }
    }
}

#[test]
fn reader_source_ending_in_a_payload_is_a_format_error() {
    let whole = sample();
    for len in [8usize, 9, 10, 16, whole.len() - 1] {
        let (result, _) = read_all(&whole[..len]);
        assert!(matches!(result, Err(Error::InvalidFormat)), "length {}", len);
    }
}

#[test]
fn reader_refuses_a_chunk_longer_than_wanted() {
    let reader = ChainReader::new();
    assert!(matches!(reader.accept(b"fLaC\0".to_vec()), Err(Error::InvalidFormat)));
    let reader = match ChainReader::new().accept(b"fLaC".to_vec()) {
        Ok(Progress::More(next)) => next,
        other => panic!("{:?}", other),
    };
    assert!(matches!(reader.accept(vec![0x80, 0, 0, 0, 0]), Err(Error::InvalidFormat)));
}

#[test]
fn search_finds_the_first_block_of_the_type() {
    let input = sample();
    let (found, used) = find(&input, 4);
    assert_eq!(found.unwrap(), Some(b"TITLE=x\0".to_vec()));
    assert_eq!(used, 4 + 7 + 4 + 8);
    let (found, used) = find(&input, 2);
    assert_eq!(found.unwrap(), Some(Vec::new()));
    assert_eq!(used, 4 + 7 + 12 + 4);
}

#[test]
fn search_without_a_match_ends_at_the_last_block() {
    let mut input = sample();
    let len = input.len();
    input.extend_from_slice(&[0x06, 0, 0, 0]);
    let (found, used) = find(&input, 6);
    assert_eq!(found.unwrap(), None);
    assert_eq!(used, len);
}

#[test]
fn search_looks_at_the_type_of_the_last_block() {
    let mut input = b"fLaC".to_vec();
    input.extend(block(true, 6, &[5]));
    let (found, _) = find(&input, 6);
    assert_eq!(found.unwrap(), Some(vec![5]));
}

#[test]
fn search_in_a_source_that_ends_early() {
    let whole = sample();
    let (result, _) = find(&whole[..whole.len() - 1], 6);
    assert!(matches!(result, Err(Error::InvalidFormat)));
    let (result, _) = find(&whole[..13], 6);
    assert!(matches!(result, Err(Error::IoError(_))));
    let (result, _) = find(b"abcd", 6);
    assert!(matches!(result, Err(Error::InvalidFormat)));
}

#[test]
fn awaiting_says_how_many_bytes() {
    assert_eq!(Awaiting::Magic.wanted(), 4);
    assert_eq!(Awaiting::Header.wanted(), 4);
    let header = Header { last: false, block_type: 1, size: 0xFF_FFFF };
    assert_eq!(Awaiting::Payload(header).wanted(), 0xFF_FFFF);
}
