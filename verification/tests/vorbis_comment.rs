use rotic_flac::metadata::vorbis_comment::append;
use rotic_flac::metadata::{Block, BlockType, ConvertBytes, VorbisComment};
use rotic_flac::text::remove_non_printing_char;

fn decode(payload: &[u8]) -> VorbisComment {
    VorbisComment::from_bytes(payload.to_vec()).unwrap()
}

fn value<'a>(tags: &'a VorbisComment, key: &str) -> Option<&'a str> {
    tags.get(key)
}

#[test]
fn tags_artist_and_album() {
    let tags = decode(b"ARTIST=Foo\0ALBUM=\"Bar\"\0");
    assert_eq!(tags.artist(), Some("Foo"));
    assert_eq!(tags.album(), Some("Bar"));
    assert_eq!(tags.refer(), "");
    assert_eq!(tags.vorbis_comment().len(), 2);
    assert_eq!(tags.title(), None);
}

#[test]
fn tags_keep_the_payload() {
    let payload = b"ARTIST=Foo\0\xFF\xFEALBUM=\"Bar\"\0";
    let tags = decode(payload);
    assert_eq!(tags.raw_vorbis_comment(), &payload[..]);
}

#[test]
fn tags_reference_string() {
    let tags = decode(b"  reference libFLAC 1.3.0 20130526 \0\0TITLE=Song\0\0");
    assert_eq!(tags.refer(), "reference libFLAC 1.3.0 20130526");
    assert_eq!(tags.title(), Some("Song"));
    assert_eq!(tags.vorbis_comment().len(), 1);
}

#[test]
fn tags_later_reference_replaces_the_earlier() {
    let tags = decode(b"reference one\0reference=two\0");
    assert_eq!(tags.refer(), "reference=two");
    assert_eq!(tags.vorbis_comment().len(), 0);
}

#[test]
fn tags_segments_without_equals_are_dropped() {
    let tags = decode(b"no equals here\0\0   \0TITLE=kept\0junk");
    assert_eq!(tags.vorbis_comment().len(), 1);
    assert_eq!(tags.title(), Some("kept"));
    assert_eq!(tags.refer(), "");
}

#[test]
fn tags_split_at_the_first_equals() {
    let tags = decode(b"KEY=a=b=c\0=empty key\0EMPTY=\0");
    assert_eq!(value(&tags, "KEY"), Some("a=b=c"));
    assert_eq!(value(&tags, ""), Some("empty key"));
    assert_eq!(value(&tags, "EMPTY"), Some(""));
}

#[test]
fn tags_date_keeps_only_digits() {
    let tags = decode(b"DATE= 2019-05-01 \"x\"\0");
    assert_eq!(value(&tags, "DATE"), Some("20190501"));
    assert_eq!(tags.year(), Some(20190501));
}

#[test]
fn tags_year() {
    assert_eq!(decode(b"DATE=1999").year(), Some(1999));
    assert_eq!(decode(b"DATE=0042").year(), Some(42));
    assert_eq!(decode(b"DATE=4294967295").year(), Some(u32::MAX));
    assert_eq!(decode(b"DATE=4294967296").year(), None);
    assert_eq!(decode(b"DATE=99999999999999999999").year(), None);
    assert_eq!(decode(b"DATE=unknown").year(), None);
    assert_eq!(decode(b"TITLE=x").year(), None);
    assert_eq!(decode(b"date=1999").year(), None);
}

#[test]
fn tags_values_lose_the_quotes_and_blanks_around_them() {
    let tags = decode(b"A= \"  hi there \" \0B=a\"b\0C=\"\"\0D=  \t plain\0");
    assert_eq!(value(&tags, "A"), Some("hi there"));
    assert_eq!(value(&tags, "B"), Some("a\"b"));
    assert_eq!(value(&tags, "C"), Some(""));
    assert_eq!(value(&tags, "D"), Some("plain"));
}

#[test]
fn tags_later_key_replaces_the_earlier() {
    let tags = decode(b"TITLE=one\0ARTIST=x\0TITLE=two\0");
    assert_eq!(tags.title(), Some("two"));
    assert_eq!(tags.artist(), Some("x"));
    assert_eq!(tags.vorbis_comment().len(), 2);
}

#[test]
fn tags_keys_are_not_folded() {
    let tags = decode(b"title=lower\0Title=mixed\0");
    assert_eq!(tags.title(), None);
    assert_eq!(value(&tags, "title"), Some("lower"));
    assert_eq!(value(&tags, "Title"), Some("mixed"));
}

#[test]
fn tags_named_accessors() {
    let tags = decode(b"TITLE=t\0ALBUM=a\0ARTIST=r\0ALBUMARTIST=aa\0LYRICS=la la\0DATE=2001\0");
    assert_eq!(tags.title(), Some("t"));
    assert_eq!(tags.album(), Some("a"));
    assert_eq!(tags.artist(), Some("r"));
    assert_eq!(tags.album_artist(), Some("aa"));
    assert_eq!(tags.lyrics(), Some("la la"));
    assert_eq!(tags.year(), Some(2001));
}

#[test]
fn tags_malformed_bytes_become_spaces() {
    let tags = decode(b"TITLE=a\xFFb\0ARTIST=x\xC3\0");
    assert_eq!(tags.title(), Some("a b"));
    assert_eq!(tags.artist(), Some("x"));
}

#[test]
fn tags_a_written_replacement_mark_becomes_a_space() {
    let tags = decode("TITLE=a\u{FFFD}b".as_bytes());
    assert_eq!(tags.title(), Some("a b"));
}

#[test]
fn tags_white_space_around_a_segment_is_trimmed() {
    let tags = decode("\t\n TITLE=x \u{3000}\u{A0}\r\n\0".as_bytes());
    assert_eq!(tags.title(), Some("x"));
}

#[test]
fn tags_characters_that_do_not_print_are_removed() {
    let tags = decode("TI\u{200B}TLE=a\u{7F}b\u{1}c\u{FEFF}\0".as_bytes());
    assert_eq!(tags.title(), Some("abc"));
}

#[test]
fn tags_tab_and_newline_inside_stay() {
    let tags = decode(b"LYRICS=one\ttwo\nthree\0");
    assert_eq!(tags.lyrics(), Some("one\ttwo\nthree"));
}

#[test]
fn tags_unicode_text_is_kept() {
    let tags = decode("ARTIST=Bj\u{f6}rk \u{6b4c}\0".as_bytes());
    assert_eq!(tags.artist(), Some("Bj\u{f6}rk \u{6b4c}"));
}

#[test]
fn tags_empty_payload() {
    let tags = decode(b"");
    assert_eq!(tags.refer(), "");
    assert_eq!(tags.vorbis_comment().len(), 0);
    assert_eq!(tags.into_bytes(), Vec::<u8>::new());
}

#[test]
fn tags_encode_entries_with_two_nul_bytes_each() {
    let tags = decode(b"ARTIST=Foo\0ALBUM=\"Bar\"\0");
    let bytes = tags.into_bytes();
    let one = b"ARTIST=Foo\0\0ALBUM=Bar\0\0".to_vec();
    let other = b"ALBUM=Bar\0\0ARTIST=Foo\0\0".to_vec();
    assert!(bytes == one || bytes == other);
}

#[test]
fn tags_encode_the_reference_first() {
    let tags = decode(b"TITLE=x\0reference enc\0");
    assert_eq!(tags.into_bytes(), b"reference enc\0\0TITLE=x\0\0".to_vec());
}

#[test]
fn tags_encode_then_decode_keeps_the_entries() {
    let tags = decode("reference r\0TITLE=caf\u{e9}\0DATE=2020\0ARTIST=\"x y\"\0".as_bytes());
    let again = decode(&tags.clone().into_bytes());
    assert_eq!(again.refer(), "reference r");
    assert_eq!(again.title(), Some("caf\u{e9}"));
    assert_eq!(again.year(), Some(2020));
    assert_eq!(again.artist(), Some("x y"));
    assert_eq!(again.vorbis_comment().len(), 3);
}

#[test]
fn tags_clone_holds_the_same() {
    let tags = decode(b"reference r\0TITLE=x\0");
    let copy = tags.clone();
    assert_eq!(copy.refer(), tags.refer());
    assert_eq!(copy.title(), tags.title());
    assert_eq!(copy.raw_vorbis_comment(), tags.raw_vorbis_comment());
}

#[test]
fn tags_remove_non_printing_char() {
    let text: Vec<char> = "a\u{0}b\u{200B}c\td\u{7F}e\u{E000}f\n".chars().collect();
    let kept: String = remove_non_printing_char(&text).into_iter().collect();
    assert_eq!(kept, "a\u{0}bc\tdef\n");
}

#[test]
fn tags_append_adds_two_nul_bytes() {
    let mut buf = vec![7u8];
    append(&mut buf, b"ab");
    assert_eq!(buf, vec![7, b'a', b'b', 0, 0]);
    append(&mut buf, b"");
    assert_eq!(buf, vec![7, b'a', b'b', 0, 0, 0, 0]);
}

#[test]
fn tags_block_is_framed_with_type_four() {
    let tags = decode(b"TITLE=x\0");
    let framed = Block::new(true, 9, 99, tags).to_bytes();
    assert_eq!(VorbisComment::BLOCK_TYPE, 4);
    assert_eq!(framed, b"\x84\x00\x00\x09TITLE=x\0\0".to_vec());
}
