//! Text as sequences of characters: decoding payload bytes, and the searching,
//! trimming and filtering that the tag dictionary needs.

use vstd::prelude::*;
use vstd::string::StringSliceAdditionalSpecFns;
use vstd::utf8::{decode_utf8, valid_utf8};

verus! {

/// The text that `String::from_utf8_lossy` makes of `bytes`.
pub uninterp spec fn utf8_lossy(bytes: Seq<u8>) -> Seq<char>;

/// Whether `char::is_whitespace` holds of `c`.
pub uninterp spec fn white_space(c: char) -> bool;

/// The text that the `Debug` format of `char` gives for `c`: the character or
/// its escape, between single quotes.
pub uninterp spec fn debug_form(c: char) -> Seq<char>;

/// The text of `bytes`, malformed or not: what valid UTF-8 decodes to, and
/// for other bytes what `utf8_lossy` names.
pub open spec fn lossy_text(bytes: Seq<u8>) -> Seq<char> {
    if valid_utf8(bytes) {
        decode_utf8(bytes)
    } else {
        utf8_lossy(bytes)
    }
}

/// Calls `String::from_utf8_lossy`, which decodes UTF-8 and puts U+FFFD in
/// place of what is malformed. The result is named by `utf8_lossy`; for bytes
/// that are valid UTF-8 nothing is replaced, so it is the decoded text.
#[verifier::external_body]
pub(crate) fn from_utf8_lossy(bytes: &[u8]) -> (text: String)
    ensures
        text@ == utf8_lossy(bytes@),
        text@ == lossy_text(bytes@),
{
    String::from_utf8_lossy(bytes).into_owned()
}

/// Calls `char::is_whitespace`, the Unicode property `White_Space`. The result
/// is named by `white_space`.
#[verifier::external_body]
pub(crate) fn is_whitespace(c: char) -> (b: bool)
    ensures
        b == white_space(c),
{
    c.is_whitespace()
}

/// Formats `c` with `{:?}`. The result is named by `debug_form`.
#[verifier::external_body]
pub(crate) fn debug_string(c: char) -> (s: String)
    ensures
        s@ == debug_form(c),
{
    format!("{:?}", c)
}

/// `String::push` appends one character.
pub assume_specification[ String::push ](s: &mut String, ch: char)
    ensures
        final(s)@ == old(s)@.push(ch),
;

/// The characters of `s`.
pub fn chars_of(s: &str) -> (chars: Vec<char>)
    ensures
        chars@ == s@,
{
    broadcast use vstd::string::group_string_axioms;

    let mut chars: Vec<char> = Vec::new();
    for c in it: s.chars()
        invariant
            it.seq() == s@,
            chars@ == it.seq().take(it.index() as int),
    {
        chars.push(c);
    }
    chars
}

/// The string made of `chars`.
pub fn string_of(chars: &[char]) -> (s: String)
    ensures
        s@ == chars@,
{
    let mut s = String::new();
    let mut i: usize = 0;
    while i < chars.len()
        invariant
            i <= chars@.len(),
            s@ == chars@.take(i as int),
        decreases chars@.len() - i,
    {
        s.push(chars[i]);
        i += 1;
    }
    s
}

/// Whether two strings hold the same text.
pub fn same_text(a: &str, b: &str) -> (same: bool)
    ensures
        same == (a@ == b@),
{
    broadcast use vstd::utf8::encode_utf8_decode_utf8;

    let x = a.as_bytes();
    let y = b.as_bytes();
    if x.len() != y.len() {
        return false;
    }
    let mut i: usize = 0;
    while i < x.len()
        invariant
            i <= x@.len(),
            x@.len() == y@.len(),
            x@ == a.spec_bytes(),
            y@ == b.spec_bytes(),
            x@.take(i as int) == y@.take(i as int),
        decreases x@.len() - i,
    {
        if x[i] != y[i] {
            return false;
        }
        assert(x@.take(i + 1) =~= x@.take(i as int).push(x@[i as int]));
        assert(y@.take(i + 1) =~= y@.take(i as int).push(y@[i as int]));
        i += 1;
    }
    assert(x@ =~= x@.take(i as int) && y@ =~= y@.take(i as int));
    assert(decode_utf8(a.spec_bytes()) == a@);
    assert(decode_utf8(b.spec_bytes()) == b@);
    true
}

/// The index of the first `c` in `s`, or the length of `s` if there is none.
pub open spec fn find_char(s: Seq<char>, c: char) -> nat
    decreases s.len(),
{
    if s.len() == 0 || s[0] == c {
        0
    } else {
        1 + find_char(s.skip(1), c)
    }
}

/// `find_char` yields the first index that holds `c`.
pub proof fn lemma_find_char(s: Seq<char>, c: char)
    ensures
        find_char(s, c) <= s.len(),
        forall|k: int| 0 <= k < find_char(s, c) ==> s[k] != c,
        find_char(s, c) < s.len() ==> s[find_char(s, c) as int] == c,
    decreases s.len(),
{
    if !(s.len() == 0 || s[0] == c) {
        let rest = s.skip(1);
        lemma_find_char(rest, c);
        assert forall|k: int| 0 <= k < find_char(s, c) implies s[k] != c by {
            if k > 0 {
                assert(s[k] == rest[k - 1]);
            }
        }
        if find_char(s, c) < s.len() {
            assert(s[find_char(s, c) as int] == rest[find_char(rest, c) as int]);
        }
    }
}

/// An index is the one `find_char` yields if no `c` stands before it and it
/// holds `c` or is the end.
pub proof fn lemma_find_char_is(s: Seq<char>, c: char, i: int)
    requires
        0 <= i <= s.len(),
        forall|k: int| 0 <= k < i ==> s[k] != c,
        i < s.len() ==> s[i] == c,
    ensures
        find_char(s, c) == i,
{
    lemma_find_char(s, c);
    let j = find_char(s, c) as int;
    if j < i {
        assert(s[j] != c);
    } else if i < j {
        assert(s[i] != c);
    }
}

/// The index of the first `c` in `text` at or after `from`, or the length of
/// `text` if there is none.
pub fn find_from(text: &[char], from: usize, c: char) -> (at: usize)
    requires
        from <= text@.len(),
    ensures
        from <= at <= text@.len(),
        at - from == find_char(text@.skip(from as int), c),
{
    let mut at = from;
    while at < text.len() && text[at] != c
        invariant
            from <= at <= text@.len(),
            forall|k: int| from <= k < at ==> text@[k] != c,
        decreases text@.len() - at,
    {
        at += 1;
    }
    proof {
        lemma_find_char_is(text@.skip(from as int), c, at - from);
    }
    at
}

/// The pieces of `s` between the occurrences of `sep`: one more than there
/// are occurrences, some of them perhaps empty.
pub open spec fn split(s: Seq<char>, sep: char) -> Seq<Seq<char>>
    decreases s.len(),
{
    let at = find_char(s, sep);
    if at >= s.len() {
        seq![s]
    } else {
        seq![s.take(at as int)] + split(s.skip(at as int + 1), sep)
    }
}

/// `s` without the characters at its front that `strip` holds of.
pub open spec fn trim_start(s: Seq<char>, strip: spec_fn(char) -> bool) -> Seq<char>
    decreases s.len(),
{
    if s.len() > 0 && strip(s[0]) {
        trim_start(s.skip(1), strip)
    } else {
        s
    }
}

/// `s` without the characters at its end that `strip` holds of.
pub open spec fn trim_end(s: Seq<char>, strip: spec_fn(char) -> bool) -> Seq<char>
    decreases s.len(),
{
    if s.len() > 0 && strip(s.last()) {
        trim_end(s.drop_last(), strip)
    } else {
        s
    }
}

/// `s` without the characters at either end that `strip` holds of.
pub open spec fn trim(s: Seq<char>, strip: spec_fn(char) -> bool) -> Seq<char> {
    trim_end(trim_start(s, strip), strip)
}

/// What trimming removes: white space, and the double quote too if `quotes`
/// is set.
pub open spec fn blank(quotes: bool) -> spec_fn(char) -> bool {
    |c: char| white_space(c) || (quotes && c == '"')
}

/// Whether `c` is white space, or a double quote where `quotes` is set.
pub fn is_blank(c: char, quotes: bool) -> (b: bool)
    ensures
        b == blank(quotes)(c),
{
    is_whitespace(c) || (quotes && c == '"')
}

/// The part of `text` that is left when white space, and with `quotes` double
/// quotes too, is taken from both ends.
pub fn trimmed(text: &[char], quotes: bool) -> (kept: &[char])
    ensures
        kept@ == trim(text@, blank(quotes)),
{
    let ghost strip = blank(quotes);
    let mut lo: usize = 0;
    let hi0 = text.len();
    assert(text@.skip(0) =~= text@);
    while lo < hi0 && is_blank(text[lo], quotes)
        invariant
            lo <= hi0 == text@.len(),
            strip == blank(quotes),
            trim_start(text@, strip) == trim_start(text@.skip(lo as int), strip),
        decreases hi0 - lo,
    {
        assert(text@.skip(lo as int).skip(1) =~= text@.skip(lo + 1));
        lo += 1;
    }
    let ghost front = text@.skip(lo as int);
    assert(trim_start(text@, strip) == front);
    let mut hi: usize = hi0;
    assert(front =~= text@.subrange(lo as int, hi as int));
    while lo < hi && is_blank(text[hi - 1], quotes)
        invariant
            lo <= hi <= text@.len(),
            strip == blank(quotes),
            front == text@.skip(lo as int),
            trim_end(front, strip) == trim_end(text@.subrange(lo as int, hi as int), strip),
        decreases hi - lo,
    {
        assert(text@.subrange(lo as int, hi as int).drop_last() =~= text@.subrange(
            lo as int,
            hi - 1,
        ));
        hi -= 1;
    }
    &text[lo..hi]
}

/// Whether the `Debug` format shows `c` as a `\u` escape: the characters that
/// do not print.
pub open spec fn non_printing(c: char) -> bool {
    let shown = debug_form(c);
    shown.len() >= 3 && shown[0] == '\'' && shown[1] == '\\' && shown[2] == 'u'
}

/// The characters that print.
pub open spec fn printing() -> spec_fn(char) -> bool {
    |c: char| !non_printing(c)
}

/// Whether `c` does not print.
pub fn is_non_printing(c: char) -> (b: bool)
    ensures
        b == non_printing(c),
{
    let shown = chars_of(debug_string(c).as_str());
    shown.len() >= 3 && shown[0] == '\'' && shown[1] == '\\' && shown[2] == 'u'
}

/// `pat` without the characters that do not print.
pub fn remove_non_printing_char(pat: &[char]) -> (kept: Vec<char>)
    ensures
        kept@ == pat@.filter(printing()),
{
    let mut kept: Vec<char> = Vec::new();
    let mut i: usize = 0;
    proof {
        reveal(Seq::filter);
    }
    while i < pat.len()
        invariant
            i <= pat@.len(),
            kept@ == pat@.take(i as int).filter(printing()),
        decreases pat@.len() - i,
    {
        let c = pat[i];
        proof {
            reveal(Seq::filter);
            assert(pat@.take(i + 1).drop_last() =~= pat@.take(i as int));
        }
        if !is_non_printing(c) {
            kept.push(c);
        }
        i += 1;
    }
    assert(pat@.take(i as int) =~= pat@);
    kept
}

/// An ASCII digit.
pub open spec fn ascii_digit() -> spec_fn(char) -> bool {
    |c: char| '0' <= c && c <= '9'
}

/// The ASCII digits of `text`, in their order.
pub fn digits_of(text: &[char]) -> (kept: Vec<char>)
    ensures
        kept@ == text@.filter(ascii_digit()),
{
    let mut kept: Vec<char> = Vec::new();
    let mut i: usize = 0;
    proof {
        reveal(Seq::filter);
    }
    while i < text.len()
        invariant
            i <= text@.len(),
            kept@ == text@.take(i as int).filter(ascii_digit()),
        decreases text@.len() - i,
    {
        let c = text[i];
        proof {
            reveal(Seq::filter);
            assert(text@.take(i + 1).drop_last() =~= text@.take(i as int));
        }
        if '0' <= c && c <= '9' {
            kept.push(c);
        }
        i += 1;
    }
    assert(text@.take(i as int) =~= text@);
    kept
}

/// Whether `text` begins with `prefix`.
pub fn starts_with(text: &[char], prefix: &str) -> (b: bool)
    ensures
        b == prefix@.is_prefix_of(text@),
{
    let want = chars_of(prefix);
    if want.len() > text.len() {
        return false;
    }
    let mut i: usize = 0;
    while i < want.len()
        invariant
            i <= want@.len() <= text@.len(),
            want@ == prefix@,
            want@.take(i as int) == text@.take(i as int),
        decreases want@.len() - i,
    {
        if want[i] != text[i] {
            assert(want@[i as int] != text@.subrange(0, want@.len() as int)[i as int]);
            return false;
        }
        assert(want@.take(i + 1) =~= want@.take(i as int).push(want@[i as int]));
        assert(text@.take(i + 1) =~= text@.take(i as int).push(text@[i as int]));
        i += 1;
    }
    assert(want@ =~= want@.take(i as int));
    assert(text@.take(i as int) =~= text@.subrange(0, want@.len() as int));
    true
}

/// Whether `text` is the word `word`.
pub fn is_word(text: &[char], word: &str) -> (b: bool)
    ensures
        b == (text@ == word@),
{
    let want = chars_of(word);
    let same = want.len() == text.len() && starts_with(text, word);
    proof {
        if same {
            assert(text@.subrange(0, want@.len() as int) =~= text@);
        }
    }
    same
}

} // verus!
