//! The tag dictionary: a reference string and a mapping from keys to values,
//! read from a payload of NUL-separated text.

use vstd::prelude::*;
use vstd::utf8::encode_utf8;
use crate::error::Error;
use crate::metadata::ConvertBytes;
use crate::text::{
    ascii_digit, blank, chars_of, digits_of, find_char, find_from, from_utf8_lossy, is_word,
    lemma_find_char, lossy_text, printing, remove_non_printing_char, same_text, split,
    starts_with, string_of, trim, trimmed,
};

verus! {

/// A key and its value.
pub type Pair = (Seq<char>, Seq<char>);

/// What a payload says: the reference string, empty if there is none, and the
/// values by key.
pub struct Tags {
    /// The reference string.
    pub refer: Seq<char>,
    /// The values by key.
    pub dict: Map<Seq<char>, Seq<char>>,
}

/// A space in place of U+FFFD, the mark that lossy decoding leaves where the
/// bytes were malformed.
pub open spec fn mend(c: char) -> char {
    if c == '\u{FFFD}' {
        ' '
    } else {
        c
    }
}

/// The text of a payload: decoded lossily, with a space for every U+FFFD.
pub open spec fn readable(payload: Seq<u8>) -> Seq<char> {
    lossy_text(payload).map_values(mending())
}

/// `mend` as a function value.
pub open spec fn mending() -> spec_fn(char) -> char {
    |c: char| mend(c)
}

/// A segment without the white space around it and without the characters
/// that do not print.
pub open spec fn clean(segment: Seq<char>) -> Seq<char> {
    trim(segment, blank(false)).filter(printing())
}

/// Whether every character of `s` is an ASCII digit.
pub open spec fn all_digits(s: Seq<char>) -> bool {
    forall|i: int| 0 <= i < s.len() ==> ascii_digit()(#[trigger] s[i])
}

/// The value stored for `key` when `rest` follows the `=`: for `DATE` the
/// digits of `rest`, for any other key `rest` without the white space and
/// double quotes around it.
pub open spec fn value_for(key: Seq<char>, rest: Seq<char>) -> Seq<char> {
    if key == "DATE"@ {
        rest.filter(ascii_digit())
    } else {
        trim(rest, blank(true))
    }
}

/// The tags after one more segment. A segment that is empty once cleaned, or
/// that holds no `=`, changes nothing; one that begins with `reference`
/// becomes the reference string; any other sets the value of its key.
pub open spec fn note(tags: Tags, segment: Seq<char>) -> Tags {
    let text = clean(segment);
    let eq = find_char(text, '=') as int;
    if text.len() == 0 {
        tags
    } else if "reference"@.is_prefix_of(text) {
        Tags { refer: text, dict: tags.dict }
    } else if eq >= text.len() {
        tags
    } else {
        let key = text.take(eq);
        Tags { refer: tags.refer, dict: tags.dict.insert(key, value_for(key, text.skip(eq + 1))) }
    }
}

/// The tags that a run of segments leaves, each noted in its turn.
pub open spec fn gather(segments: Seq<Seq<char>>) -> Tags
    decreases segments.len(),
{
    if segments.len() == 0 {
        Tags { refer: Seq::empty(), dict: Map::empty() }
    } else {
        note(gather(segments.drop_last()), segments.last())
    }
}

/// The tags that a payload holds: those of its text, split at every NUL.
pub open spec fn decode_tags(payload: Seq<u8>) -> Tags {
    gather(split(readable(payload), '\0'))
}

/// Whether the value of `DATE`, if there is one, is made of ASCII digits.
pub open spec fn dated(dict: Map<Seq<char>, Seq<char>>) -> bool {
    dict.contains_key("DATE"@) ==> all_digits(dict["DATE"@])
}

/// Whatever the segments hold, the value that they leave for `DATE` is made
/// of ASCII digits.
pub proof fn lemma_dates_are_digits(segments: Seq<Seq<char>>)
    ensures
        dated(gather(segments).dict),
    decreases segments.len(),
{
    if segments.len() > 0 {
        lemma_dates_are_digits(segments.drop_last());
        let text = clean(segments.last());
        let eq = find_char(text, '=') as int;
        let rest = text.skip(eq + 1);
        assert forall|i: int| 0 <= i < rest.filter(ascii_digit()).len() implies ascii_digit()(
            #[trigger] rest.filter(ascii_digit())[i],
        ) by {
            rest.lemma_filter_pred(ascii_digit(), i);
        }
    }
}

/// Whether no key occurs twice.
pub open spec fn distinct_keys(pairs: Seq<Pair>) -> bool {
    forall|i: int, j: int|
        0 <= i < j < pairs.len() ==> (#[trigger] pairs[i]).0 != (#[trigger] pairs[j]).0
}

/// The mapping that a list of pairs stands for; of two pairs with one key the
/// later counts.
pub open spec fn dict_of(pairs: Seq<Pair>) -> Map<Seq<char>, Seq<char>>
    decreases pairs.len(),
{
    if pairs.len() == 0 {
        Map::empty()
    } else {
        dict_of(pairs.drop_last()).insert(pairs.last().0, pairs.last().1)
    }
}

/// The pairs as text.
pub open spec fn pairs_of(entries: Seq<(String, String)>) -> Seq<Pair> {
    entries.map_values(|e: (String, String)| (e.0@, e.1@))
}

/// Whether one of the pairs has the key `key`.
pub open spec fn has_key(pairs: Seq<Pair>, key: Seq<char>) -> bool {
    exists|i: int| 0 <= i < pairs.len() && (#[trigger] pairs[i]).0 == key
}

/// The keys of `dict_of(pairs)` are the keys of the pairs, and where no key
/// occurs twice each pair gives the value of its key.
pub proof fn lemma_dict_of(pairs: Seq<Pair>)
    ensures
        forall|k: Seq<char>| #[trigger] dict_of(pairs).contains_key(k) <==> has_key(pairs, k),
        distinct_keys(pairs) ==> forall|i: int|
            0 <= i < pairs.len() ==> dict_of(pairs)[(#[trigger] pairs[i]).0] == pairs[i].1,
    decreases pairs.len(),
{
    if pairs.len() > 0 {
        let front = pairs.drop_last();
        let last = pairs.last();
        lemma_dict_of(front);
        assert forall|k: Seq<char>| #[trigger]
            dict_of(pairs).contains_key(k) <==> has_key(pairs, k) by {
            if dict_of(pairs).contains_key(k) {
                if k == last.0 {
                    assert(pairs[pairs.len() - 1].0 == k);
                } else {
                    assert(dict_of(front).contains_key(k));
                    assert(has_key(front, k));
                    let i = choose|i: int| 0 <= i < front.len() && (#[trigger] front[i]).0 == k;
                    assert(pairs[i].0 == k);
                }
            }
            if has_key(pairs, k) {
                let i = choose|i: int| 0 <= i < pairs.len() && (#[trigger] pairs[i]).0 == k;
                if i < front.len() {
                    assert(front[i].0 == k);
                    assert(has_key(front, k));
                    assert(dict_of(front).contains_key(k));
                }
            }
        }
        if distinct_keys(pairs) {
            assert(distinct_keys(front)) by {
                assert forall|i: int, j: int| 0 <= i < j < front.len() implies (
                #[trigger] front[i]).0 != (#[trigger] front[j]).0 by {
                    assert(pairs[i].0 != pairs[j].0);
                }
            }
            assert forall|i: int| 0 <= i < pairs.len() implies dict_of(pairs)[(
            #[trigger] pairs[i]).0] == pairs[i].1 by {
                if i < front.len() {
                    assert(front[i] == pairs[i]);
                    assert(pairs[i].0 != pairs[pairs.len() - 1].0);
                    assert(dict_of(front)[front[i].0] == front[i].1);
                }
            }
        }
    }
}

/// Replacing the value of a pair sets the value of its key, where no key
/// occurs twice.
pub proof fn lemma_dict_of_update(pairs: Seq<Pair>, at: int, value: Seq<char>)
    requires
        0 <= at < pairs.len(),
        distinct_keys(pairs),
    ensures
        distinct_keys(pairs.update(at, (pairs[at].0, value))),
        dict_of(pairs.update(at, (pairs[at].0, value))) == dict_of(pairs).insert(
            pairs[at].0,
            value,
        ),
    decreases pairs.len(),
{
    let key = pairs[at].0;
    let next = pairs.update(at, (key, value));
    assert(distinct_keys(next)) by {
        assert forall|i: int, j: int| 0 <= i < j < next.len() implies (#[trigger] next[i]).0 != (
        #[trigger] next[j]).0 by {
            assert(pairs[i].0 != pairs[j].0);
        }
    }
    let front = pairs.drop_last();
    let last = pairs.last();
    if at == pairs.len() - 1 {
        assert(next.drop_last() =~= front);
        assert(dict_of(next) =~= dict_of(pairs).insert(key, value));
    } else {
        assert(distinct_keys(front)) by {
            assert forall|i: int, j: int| 0 <= i < j < front.len() implies (#[trigger] front[i]).0
                != (#[trigger] front[j]).0 by {
                assert(pairs[i].0 != pairs[j].0);
            }
        }
        lemma_dict_of_update(front, at, value);
        assert(next.drop_last() =~= front.update(at, (key, value)));
        assert(next.last() == last);
        assert(pairs[at].0 != pairs[pairs.len() - 1].0);
        assert(dict_of(next) =~= dict_of(pairs).insert(key, value));
    }
}

/// The index of the entry with the key `key`, if there is one.
fn position(entries: &Vec<(String, String)>, key: &str) -> (at: Option<usize>)
    ensures
        match at {
            Some(i) => i < entries@.len() && entries@[i as int].0@ == key@,
            None => forall|i: int| 0 <= i < entries@.len() ==> (#[trigger] entries@[i]).0@ != key@,
        },
{
    let mut i: usize = 0;
    while i < entries.len()
        invariant
            i <= entries@.len(),
            forall|k: int| 0 <= k < i ==> (#[trigger] entries@[k]).0@ != key@,
        decreases entries@.len() - i,
    {
        if same_text(entries[i].0.as_str(), key) {
            return Some(i);
        }
        i += 1;
    }
    None
}

/// Sets the value of `key`: in place where the key is present, at the end
/// where it is new.
fn set_entry(entries: &mut Vec<(String, String)>, key: String, value: String)
    requires
        distinct_keys(pairs_of(old(entries)@)),
    ensures
        distinct_keys(pairs_of(final(entries)@)),
        dict_of(pairs_of(final(entries)@)) == dict_of(pairs_of(old(entries)@)).insert(
            key@,
            value@,
        ),
{
    let ghost before = pairs_of(entries@);
    match position(entries, key.as_str()) {
        Some(i) => {
            entries[i] = (key, value);
            proof {
                assert(before[i as int].0 == key@);
                lemma_dict_of_update(before, i as int, value@);
                assert(pairs_of(entries@) =~= before.update(i as int, (key@, value@)));
            }
        },
        None => {
            entries.push((key, value));
            proof {
                let after = pairs_of(entries@);
                assert(after =~= before.push((key@, value@)));
                assert(after.drop_last() =~= before);
                assert forall|i: int, j: int| 0 <= i < j < after.len() implies (
                #[trigger] after[i]).0 != (#[trigger] after[j]).0 by {
                    if j < before.len() {
                        assert(before[i].0 != before[j].0);
                    } else {
                        assert(before[i] == (old(entries)@[i].0@, old(entries)@[i].1@));
                    }
                }
            }
        },
    }
}

/// The text of a payload, as `readable` defines it.
fn readable_chars(payload: &[u8]) -> (text: Vec<char>)
    ensures
        text@ == readable(payload@),
{
    let decoded = from_utf8_lossy(payload);
    let mut text = chars_of(decoded.as_str());
    let mut i: usize = 0;
    while i < text.len()
        invariant
            i <= text@.len(),
            text@.len() == decoded@.len(),
            forall|k: int| 0 <= k < i ==> text@[k] == mend(decoded@[k]),
            forall|k: int| i <= k < text@.len() ==> text@[k] == decoded@[k],
        decreases text@.len() - i,
    {
        if text[i] == '\u{FFFD}' {
            text[i] = ' ';
        }
        i += 1;
    }
    assert(text@ =~= decoded@.map_values(mending()));
    text
}

/// Notes one segment in the reference string and the entries.
fn note_segment(segment: &[char], refer: &mut String, entries: &mut Vec<(String, String)>)
    requires
        distinct_keys(pairs_of(old(entries)@)),
    ensures
        distinct_keys(pairs_of(final(entries)@)),
        final(refer)@ == note(
            Tags { refer: old(refer)@, dict: dict_of(pairs_of(old(entries)@)) },
            segment@,
        ).refer,
        dict_of(pairs_of(final(entries)@)) == note(
            Tags { refer: old(refer)@, dict: dict_of(pairs_of(old(entries)@)) },
            segment@,
        ).dict,
{
    let cleaned = remove_non_printing_char(trimmed(segment, false));
    let text = cleaned.as_slice();
    if text.len() == 0 {
        return ;
    }
    if starts_with(text, "reference") {
        *refer = string_of(text);
        return ;
    }
    let eq = find_from(text, 0, '=');
    assert(text@.skip(0) =~= text@);
    if eq == text.len() {
        return ;
    }
    let key = &text[0..eq];
    let rest = &text[eq + 1..text.len()];
    assert(key@ =~= text@.take(eq as int));
    assert(rest@ =~= text@.skip(eq + 1));
    let value = if is_word(key, "DATE") {
        string_of(digits_of(rest).as_slice())
    } else {
        string_of(trimmed(rest, true))
    };
    set_entry(entries, string_of(key), value);
}

/// The bytes of one entry: the key, `=`, the value and two NUL bytes.
pub open spec fn entry_wire(pair: Pair) -> Seq<u8> {
    encode_utf8(pair.0) + seq![0x3Du8] + encode_utf8(pair.1) + seq![0u8, 0u8]
}

/// The bytes of the entries, one after the other.
pub open spec fn entries_wire(pairs: Seq<Pair>) -> Seq<u8>
    decreases pairs.len(),
{
    if pairs.len() == 0 {
        Seq::empty()
    } else {
        entries_wire(pairs.drop_last()) + entry_wire(pairs.last())
    }
}

/// The bytes of a dictionary whose entries are written in the order of
/// `pairs`: the reference string and two NUL bytes, unless it is empty, then
/// the entries.
pub open spec fn tags_wire(refer: Seq<char>, pairs: Seq<Pair>) -> Seq<u8> {
    if refer.len() == 0 {
        entries_wire(pairs)
    } else {
        encode_utf8(refer) + seq![0u8, 0u8] + entries_wire(pairs)
    }
}

/// Appends `content` and two NUL bytes to `buf`.
pub fn append(buf: &mut Vec<u8>, content: &[u8])
    ensures
        final(buf)@ == old(buf)@ + content@ + seq![0u8, 0u8],
{
    buf.extend_from_slice(content);
    buf.push(0);
    buf.push(0);
    assert(buf@ =~= old(buf)@ + content@ + seq![0u8, 0u8]);
}

/// The number that a run of decimal digits writes.
pub open spec fn decimal(digits: Seq<char>) -> nat
    decreases digits.len(),
{
    if digits.len() == 0 {
        0
    } else {
        decimal(digits.drop_last()) * 10 + (digits.last() as nat - '0' as nat) as nat
    }
}

/// The number that `text` writes, if `text` is one or more ASCII digits and
/// the number fits in 32 bits.
pub open spec fn decimal_u32(text: Seq<char>) -> Option<u32> {
    if text.len() > 0 && all_digits(text) && decimal(text) <= u32::MAX {
        Some(decimal(text) as u32)
    } else {
        None
    }
}

/// A longer run of digits writes no smaller a number than its front.
proof fn lemma_decimal_grows(digits: Seq<char>, n: int)
    requires
        0 <= n <= digits.len(),
    ensures
        decimal(digits.take(n)) <= decimal(digits),
    decreases digits.len(),
{
    if n == digits.len() {
        assert(digits.take(n) =~= digits);
    } else {
        assert(digits.drop_last().take(n) =~= digits.take(n));
        lemma_decimal_grows(digits.drop_last(), n);
    }
}

/// Reads `text` as a decimal number.
fn parse_decimal(text: &str) -> (number: Option<u32>)
    ensures
        number == decimal_u32(text@),
{
    let digits = chars_of(text);
    if digits.len() == 0 {
        return None;
    }
    let mut number: u32 = 0;
    let mut i: usize = 0;
    while i < digits.len()
        invariant
            i <= digits@.len(),
            digits@ == text@,
            all_digits(digits@.take(i as int)),
            number == decimal(digits@.take(i as int)),
        decreases digits@.len() - i,
    {
        let c = digits[i];
        if !('0' <= c && c <= '9') {
            assert(!ascii_digit()(digits@[i as int]));
            return None;
        }
        let d = c as u32 - '0' as u32;
        proof {
            assert(digits@.take(i + 1).drop_last() =~= digits@.take(i as int));
            assert(digits@.take(i + 1).last() == c);
            lemma_decimal_grows(digits@, i + 1);
            assert forall|k: int| 0 <= k < i + 1 implies ascii_digit()(
                #[trigger] digits@.take(i + 1)[k],
            ) by {
                if k < i {
                    assert(digits@.take(i as int)[k] == digits@.take(i + 1)[k]);
                }
            }
        }
        if number > (u32::MAX - d) / 10 {
            return None;
        }
        number = number * 10 + d;
        i += 1;
    }
    assert(digits@.take(i as int) =~= digits@);
    Some(number)
}

/// A tag dictionary.
#[derive(Debug)]
pub struct VorbisComment {
    refer: String,
    entries: Vec<(String, String)>,
    raw: Vec<u8>,
}

/// What a tag dictionary holds.
pub struct VorbisCommentView {
    /// The reference string, empty if the payload had none.
    pub refer: Seq<char>,
    /// The values by key.
    pub tags: Map<Seq<char>, Seq<char>>,
    /// The payload that the dictionary was decoded from.
    pub raw: Seq<u8>,
}

impl View for VorbisComment {
    type V = VorbisCommentView;

    closed spec fn view(&self) -> VorbisCommentView {
        VorbisCommentView {
            refer: self.refer@,
            tags: dict_of(pairs_of(self.entries@)),
            raw: self.raw@,
        }
    }
}

/// Whether `pairs` lists the entries of `tags`, each once.
pub open spec fn lists(pairs: Seq<Pair>, tags: Map<Seq<char>, Seq<char>>) -> bool {
    distinct_keys(pairs) && dict_of(pairs) == tags
}

/// Whether `value` is what `tags` holds for `key`.
pub open spec fn is_value_of(
    value: Option<&str>,
    tags: Map<Seq<char>, Seq<char>>,
    key: Seq<char>,
) -> bool {
    match value {
        Some(text) => tags.contains_key(key) && text@ == tags[key],
        None => !tags.contains_key(key),
    }
}

/// The year that `tags` gives: the number that the value of `DATE` writes.
pub open spec fn year_of(tags: Map<Seq<char>, Seq<char>>) -> Option<u32> {
    if tags.contains_key("DATE"@) {
        decimal_u32(tags["DATE"@])
    } else {
        None
    }
}

impl VorbisComment {
    #[verifier::type_invariant]
    spec fn no_key_twice(&self) -> bool {
        distinct_keys(pairs_of(self.entries@))
    }

    /// The reference string, empty if there is none.
    pub fn refer(&self) -> (text: &str)
        ensures
            text@ == self@.refer,
    {
        self.refer.as_str()
    }

    /// The payload as it was before decoding.
    pub fn raw_vorbis_comment(&self) -> (raw: &[u8])
        ensures
            raw@ == self@.raw,
    {
        self.raw.as_slice()
    }

    /// The entries, each key once, in no order that callers may rely on.
    pub fn vorbis_comment(&self) -> (entries: &Vec<(String, String)>)
        ensures
            lists(pairs_of(entries@), self@.tags),
    {
        proof {
            use_type_invariant(self);
        }
        &self.entries
    }

    /// The value of `key`.
    pub fn get(&self, key: &str) -> (value: Option<&str>)
        ensures
            is_value_of(value, self@.tags, key@),
    {
        proof {
            use_type_invariant(self);
            lemma_dict_of(pairs_of(self.entries@));
        }
        match position(&self.entries, key) {
            Some(i) => {
                proof {
                    let pairs = pairs_of(self.entries@);
                    assert(pairs[i as int].0 == key@);
                    assert(has_key(pairs, key@));
                }
                Some(self.entries[i].1.as_str())
            },
            None => {
                proof {
                    let pairs = pairs_of(self.entries@);
                    if has_key(pairs, key@) {
                        let i = choose|i: int|
                            0 <= i < pairs.len() && (#[trigger] pairs[i]).0 == key@;
                        assert(self.entries@[i].0@ == key@);
                    }
                }
                None
            },
        }
    }

    /// The value of `TITLE`.
    pub fn title(&self) -> (value: Option<&str>)
        ensures
            is_value_of(value, self@.tags, "TITLE"@),
    {
        self.get("TITLE")
    }

    /// The value of `DATE` as a number: `None` if there is no such value, if
    /// it is not one or more ASCII digits, or if the number exceeds 32 bits.
    pub fn year(&self) -> (year: Option<u32>)
        ensures
            year == year_of(self@.tags),
    {
        match self.get("DATE") {
            Some(text) => parse_decimal(text),
            None => None,
        }
    }

    /// The value of `ALBUM`.
    pub fn album(&self) -> (value: Option<&str>)
        ensures
            is_value_of(value, self@.tags, "ALBUM"@),
    {
        self.get("ALBUM")
    }

    /// The value of `ARTIST`.
    pub fn artist(&self) -> (value: Option<&str>)
        ensures
            is_value_of(value, self@.tags, "ARTIST"@),
    {
        self.get("ARTIST")
    }

    /// The value of `ALBUMARTIST`.
    pub fn album_artist(&self) -> (value: Option<&str>)
        ensures
            is_value_of(value, self@.tags, "ALBUMARTIST"@),
    {
        self.get("ALBUMARTIST")
    }

    /// The value of `LYRICS`.
    pub fn lyrics(&self) -> (value: Option<&str>)
        ensures
            is_value_of(value, self@.tags, "LYRICS"@),
    {
        self.get("LYRICS")
    }
}

impl Clone for VorbisComment {
    fn clone(&self) -> (copy: Self)
        ensures
            copy@ == self@,
    {
        proof {
            use_type_invariant(self);
        }
        let mut entries: Vec<(String, String)> = Vec::new();
        let mut i: usize = 0;
        while i < self.entries.len()
            invariant
                i <= self.entries@.len(),
                entries@ == self.entries@.take(i as int),
            decreases self.entries@.len() - i,
        {
            entries.push((self.entries[i].0.clone(), self.entries[i].1.clone()));
            assert(entries@ =~= self.entries@.take(i + 1));
            i += 1;
        }
        assert(entries@ =~= self.entries@);
        let raw = self.raw.clone();
        assert(raw@ =~= self.raw@);
        VorbisComment { refer: self.refer.clone(), entries, raw }
    }
}

impl ConvertBytes for VorbisComment {
    /// Decoding never fails: it yields the tags of the payload and keeps the
    /// payload itself.
    open spec fn decodes(buf: Seq<u8>, result: Result<Self, Error>) -> bool {
        &&& result is Ok
        &&& result->Ok_0@.refer == decode_tags(buf).refer
        &&& result->Ok_0@.tags == decode_tags(buf).dict
        &&& result->Ok_0@.raw == buf
    }

    /// The bytes are the reference string and the entries, each entry once,
    /// in some order.
    open spec fn encodes(&self, bytes: Seq<u8>) -> bool {
        exists|order: Seq<Pair>| #[trigger]
            lists(order, self@.tags) && bytes == tags_wire(self@.refer, order)
    }

    fn from_bytes(buf: Vec<u8>) -> (result: Result<Self, Error>) {
        let text = readable_chars(buf.as_slice());
        let mut refer = String::new();
        let mut entries: Vec<(String, String)> = Vec::new();
        let mut start: usize = 0;
        let mut finished = false;
        let ghost mut done: Seq<Seq<char>> = Seq::empty();
        proof {
            assert(text@.skip(0) =~= text@);
            assert(done + split(text@, '\0') =~= split(text@, '\0'));
        }
        while !finished
            invariant
                start <= text@.len(),
                distinct_keys(pairs_of(entries@)),
                refer@ == gather(done).refer,
                dict_of(pairs_of(entries@)) == gather(done).dict,
                finished ==> done == split(text@, '\0'),
                !finished ==> split(text@, '\0') == done + split(text@.skip(start as int), '\0'),
            decreases text@.len() - start + (if finished { 0int } else { 1int }),
        {
            let end = find_from(text.as_slice(), start, '\0');
            let segment = &text.as_slice()[start..end];
            note_segment(segment, &mut refer, &mut entries);
            proof {
                let tail = text@.skip(start as int);
                lemma_find_char(tail, '\0');
                assert(done.push(segment@).drop_last() =~= done);
                if end == text@.len() {
                    assert(segment@ =~= tail);
                    assert(done + seq![tail] =~= done.push(segment@));
                } else {
                    assert(segment@ =~= tail.take(end - start));
                    assert(tail.skip(end - start + 1) =~= text@.skip(end + 1));
                    assert(done + (seq![segment@] + split(text@.skip(end + 1), '\0'))
                        =~= done.push(segment@) + split(text@.skip(end + 1), '\0'));
                }
                done = done.push(segment@);
            }
            if end == text.len() {
                finished = true;
            } else {
                start = end + 1;
            }
        }
        Ok(VorbisComment { refer, entries, raw: buf })
    }

    fn into_bytes(self) -> (bytes: Vec<u8>) {
        proof {
            use_type_invariant(&self);
        }
        let mut buf: Vec<u8> = Vec::new();
        if !self.refer.as_str().is_empty() {
            append(&mut buf, self.refer.as_str().as_bytes());
        }
        let ghost pairs = pairs_of(self.entries@);
        let ghost head = buf@;
        let mut i: usize = 0;
        while i < self.entries.len()
            invariant
                i <= self.entries@.len(),
                pairs == pairs_of(self.entries@),
                buf@ == head + entries_wire(pairs.take(i as int)),
            decreases self.entries@.len() - i,
        {
            let ghost before = buf@;
            buf.extend_from_slice(self.entries[i].0.as_str().as_bytes());
            buf.push(0x3D);
            append(&mut buf, self.entries[i].1.as_str().as_bytes());
            proof {
                assert(pairs.take(i + 1).drop_last() =~= pairs.take(i as int));
                assert(pairs.take(i + 1).last() == pairs[i as int]);
                assert(buf@ =~= before + entry_wire(pairs[i as int]));
                assert(buf@ =~= head + entries_wire(pairs.take(i + 1)));
            }
            i += 1;
        }
        proof {
            assert(pairs.take(i as int) =~= pairs);
            assert(buf@ =~= tags_wire(self@.refer, pairs));
            assert(lists(pairs, self@.tags));
        }
        buf
    }
}

} // verus!
