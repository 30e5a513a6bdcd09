use rotic_flac::chain::{is_magic, read_header};
use rotic_flac::frame::header::SampleRate;
use rotic_flac::text::{
    chars_of, digits_of, find_from, is_blank, is_non_printing, is_word, same_text, starts_with,
    string_of, trimmed,
};
use rotic_flac::Error;

#[test]
fn error_messages() {
    assert_eq!(Error::InvalidFormat.message(), "Invalid format");
    assert_eq!(Error::Custom("no luck".to_string()).message(), "no luck");
    let io = std::io::Error::new(std::io::ErrorKind::Other, "disk on fire");
    assert_eq!(Error::IoError(io).message(), "disk on fire");
}

#[test]
fn error_from_io_error() {
    let io = std::io::Error::new(std::io::ErrorKind::NotFound, "gone");
    match Error::from(io) {
        Error::IoError(e) => assert_eq!(e.kind(), std::io::ErrorKind::NotFound),
        other => panic!("{:?}", other),
    }
}

#[test]
fn sample_rate_bits() {
    let rates = [
        SampleRate::FromMetaBlock,
        SampleRate::Hz88_2k,
        SampleRate::Hz176_4k,
        SampleRate::Hz192k,
        SampleRate::Hz8k,
        SampleRate::Hz16k,
        SampleRate::Hz22_05k,
        SampleRate::Hz24k,
        SampleRate::Hz32k,
        SampleRate::Hz44_1k,
        SampleRate::Hz48k,
        SampleRate::Hz96k,
        SampleRate::KHz8b,
        SampleRate::Hz16b,
        SampleRate::Hz16bTens,
        SampleRate::Invalid,
    ];
    for (bits, rate) in rates.iter().enumerate() {
        assert_eq!(SampleRate::from_u8(bits as u8), *rate);
        assert_eq!(rate.to_u8(), bits as u8);
        assert_eq!(u8::from(*rate), bits as u8);
    }
}

#[test]
fn header_fields() {
    assert_eq!(read_header(&[0x84, 0x01, 0x02, 0x03]), (true, 4, 0x01_0203));
    assert_eq!(read_header(&[0x7F, 0xFF, 0xFF, 0xFF]), (false, 127, 0xFF_FFFF));
    assert_eq!(read_header(&[0x80, 0, 0, 0]), (true, 0, 0));
    assert_eq!(read_header(&[0x00, 0, 0, 0x22]), (false, 0, 34));
}

#[test]
fn signature() {
    assert!(is_magic(b"fLaC"));
    assert!(!is_magic(b"flac"));
    assert!(!is_magic(b"fLa"));
    assert!(!is_magic(b"fLaCx"));
    assert!(!is_magic(&[0x66, 0x4C, 0x61, 0x44]));
}

#[test]
fn text_chars_and_strings() {
    assert_eq!(chars_of("a\u{e9}\u{6b4c}"), vec!['a', '\u{e9}', '\u{6b4c}']);
    assert_eq!(chars_of(""), Vec::<char>::new());
    assert_eq!(string_of(&['x', '\u{e9}', 'y']), "x\u{e9}y");
    assert_eq!(string_of(&[]), "");
}

#[test]
fn text_same_text() {
    assert!(same_text("abc", "abc"));
    assert!(same_text("", ""));
    assert!(!same_text("abc", "abd"));
    assert!(!same_text("abc", "ab"));
    assert!(!same_text("\u{e9}", "e"));
}

#[test]
fn text_find_from() {
    let text: Vec<char> = "a=b=c".chars().collect();
    assert_eq!(find_from(&text, 0, '='), 1);
    assert_eq!(find_from(&text, 1, '='), 1);
    assert_eq!(find_from(&text, 2, '='), 3);
    assert_eq!(find_from(&text, 4, '='), 5);
    assert_eq!(find_from(&text, 5, '='), 5);
    assert_eq!(find_from(&text, 0, 'z'), 5);
}

#[test]
fn text_trimmed() {
    let text: Vec<char> = " \t\"a b\" \u{2003}\n".chars().collect();
    assert_eq!(trimmed(&text, false), &text[2..7]);
    assert_eq!(trimmed(&text, true), &text[3..6]);
    let blank: Vec<char> = " \" ".chars().collect();
    assert_eq!(trimmed(&blank, true).len(), 0);
    assert_eq!(trimmed(&blank, false), &blank[1..2]);
    assert_eq!(trimmed(&[], true).len(), 0);
}

#[test]
fn text_blank_and_printing() {
    assert!(is_blank(' ', false));
    assert!(is_blank('\u{a0}', false));
    assert!(!is_blank('"', false));
    assert!(is_blank('"', true));
    assert!(!is_blank('a', true));
    assert!(!is_blank('\u{200B}', true));
    assert!(is_non_printing('\u{200B}'));
    assert!(is_non_printing('\u{7F}'));
    assert!(is_non_printing('\u{1}'));
    assert!(!is_non_printing('\0'));
    assert!(!is_non_printing('\n'));
    assert!(!is_non_printing('\''));
    assert!(!is_non_printing('\\'));
    assert!(!is_non_printing('u'));
    assert!(!is_non_printing('\u{e9}'));
}

#[test]
fn text_digits_and_words() {
    let text: Vec<char> = "2019-05/01 \u{663}x".chars().collect();
    assert_eq!(digits_of(&text), vec!['2', '0', '1', '9', '0', '5', '0', '1']);
    let date: Vec<char> = "DATE".chars().collect();
    assert!(is_word(&date, "DATE"));
    assert!(!is_word(&date, "DAT"));
    assert!(!is_word(&date, "DATES"));
    assert!(!is_word(&date, "date"));
    assert!(starts_with(&date, "DA"));
    assert!(starts_with(&date, ""));
    assert!(starts_with(&date, "DATE"));
    assert!(!starts_with(&date, "DATES"));
    assert!(!starts_with(&date, "AT"));
}
