//! The embedded picture: its kind, two strings, four numbers and the image
//! bytes.

use vstd::prelude::*;
use vstd::utf8::encode_utf8;
use crate::error::Error;
use crate::metadata::ConvertBytes;
use crate::read::Stream;
use crate::text::{from_utf8_lossy, lossy_text};
use crate::wire::{
    be_u32, lemma_at_subrange, lemma_low_bytes, lemma_u32_write_read, put_u32, u32_at, u32_bytes,
};

verus! {

/// What a picture shows. The kinds are numbered from 0 to 20 in the order in
/// which they stand here.
#[derive(Debug, Clone, Copy, PartialEq, Eq, PartialOrd, Ord, Structural)]
pub enum PictureType {
    Other,
    FileIcon,
    OtherFileIcon,
    CoverFont,
    CoverBack,
    LeafletPage,
    Media,
    Lead,
    Artist,
    Conductor,
    Band,
    Composer,
    Lyricist,
    RecordingLocation,
    DuringRecording,
    DuringPerformance,
    VideoScreenCapture,
    BrightColouredFish,
    Illustration,
    BandLogoType,
    PublisherLogoType,
}

impl PictureType {
    /// The number of the kind.
    pub open spec fn code(self) -> u8 {
        match self {
            PictureType::Other => 0,
            PictureType::FileIcon => 1,
            PictureType::OtherFileIcon => 2,
            PictureType::CoverFont => 3,
            PictureType::CoverBack => 4,
            PictureType::LeafletPage => 5,
            PictureType::Media => 6,
            PictureType::Lead => 7,
            PictureType::Artist => 8,
            PictureType::Conductor => 9,
            PictureType::Band => 10,
            PictureType::Composer => 11,
            PictureType::Lyricist => 12,
            PictureType::RecordingLocation => 13,
            PictureType::DuringRecording => 14,
            PictureType::DuringPerformance => 15,
            PictureType::VideoScreenCapture => 16,
            PictureType::BrightColouredFish => 17,
            PictureType::Illustration => 18,
            PictureType::BandLogoType => 19,
            PictureType::PublisherLogoType => 20,
        }
    }

    /// The kind with the number `value`, if `value` is at most 20.
    pub open spec fn from_code(value: u8) -> Option<PictureType> {
        if value == 0 {
            Some(PictureType::Other)
        } else if value == 1 {
            Some(PictureType::FileIcon)
        } else if value == 2 {
            Some(PictureType::OtherFileIcon)
        } else if value == 3 {
            Some(PictureType::CoverFont)
        } else if value == 4 {
            Some(PictureType::CoverBack)
        } else if value == 5 {
            Some(PictureType::LeafletPage)
        } else if value == 6 {
            Some(PictureType::Media)
        } else if value == 7 {
            Some(PictureType::Lead)
        } else if value == 8 {
            Some(PictureType::Artist)
        } else if value == 9 {
            Some(PictureType::Conductor)
        } else if value == 10 {
            Some(PictureType::Band)
        } else if value == 11 {
            Some(PictureType::Composer)
        } else if value == 12 {
            Some(PictureType::Lyricist)
        } else if value == 13 {
            Some(PictureType::RecordingLocation)
        } else if value == 14 {
            Some(PictureType::DuringRecording)
        } else if value == 15 {
            Some(PictureType::DuringPerformance)
        } else if value == 16 {
            Some(PictureType::VideoScreenCapture)
        } else if value == 17 {
            Some(PictureType::BrightColouredFish)
        } else if value == 18 {
            Some(PictureType::Illustration)
        } else if value == 19 {
            Some(PictureType::BandLogoType)
        } else if value == 20 {
            Some(PictureType::PublisherLogoType)
        } else {
            None
        }
    }

    /// The kind with the number `value`; `None` above 20.
    pub fn from_u8(value: u8) -> (kind: Option<PictureType>)
        ensures
            kind == Self::from_code(value),
            kind is Some <==> value <= 20,
            kind matches Some(k) ==> k.code() == value,
    {
        let kind = match value {
            0 => Self::Other,
            1 => Self::FileIcon,
            2 => Self::OtherFileIcon,
            3 => Self::CoverFont,
            4 => Self::CoverBack,
            5 => Self::LeafletPage,
            6 => Self::Media,
            7 => Self::Lead,
            8 => Self::Artist,
            9 => Self::Conductor,
            10 => Self::Band,
            11 => Self::Composer,
            12 => Self::Lyricist,
            13 => Self::RecordingLocation,
            14 => Self::DuringRecording,
            15 => Self::DuringPerformance,
            16 => Self::VideoScreenCapture,
            17 => Self::BrightColouredFish,
            18 => Self::Illustration,
            19 => Self::BandLogoType,
            20 => Self::PublisherLogoType,
            _ => return None,
        };
        Some(kind)
    }

    /// The number of the kind.
    pub fn to_u8(self) -> (value: u8)
        ensures
            value == self.code(),
            value <= 20,
            Self::from_code(value) == Some(self),
    {
        match self {
            PictureType::Other => 0,
            PictureType::FileIcon => 1,
            PictureType::OtherFileIcon => 2,
            PictureType::CoverFont => 3,
            PictureType::CoverBack => 4,
            PictureType::LeafletPage => 5,
            PictureType::Media => 6,
            PictureType::Lead => 7,
            PictureType::Artist => 8,
            PictureType::Conductor => 9,
            PictureType::Band => 10,
            PictureType::Composer => 11,
            PictureType::Lyricist => 12,
            PictureType::RecordingLocation => 13,
            PictureType::DuringRecording => 14,
            PictureType::DuringPerformance => 15,
            PictureType::VideoScreenCapture => 16,
            PictureType::BrightColouredFish => 17,
            PictureType::Illustration => 18,
            PictureType::BandLogoType => 19,
            PictureType::PublisherLogoType => 20,
        }
    }
}

/// An embedded picture.
#[derive(Debug, Clone)]
pub struct Picture {
    ty: PictureType,
    mime: String,
    description: String,
    width: u32,
    height: u32,
    color_depth: u32,
    indexed_color_pictures: u32,
    picture: Vec<u8>,
}

/// What a picture holds.
pub struct PictureView {
    /// What the picture shows.
    pub ty: PictureType,
    /// The MIME type of the image.
    pub mime: Seq<char>,
    /// A description of the picture.
    pub description: Seq<char>,
    /// The width in pixels.
    pub width: u32,
    /// The height in pixels.
    pub height: u32,
    /// The colour depth in bits per pixel.
    pub color_depth: u32,
    /// The number of colours of an indexed image, 0 for any other.
    pub indexed_color_pictures: u32,
    /// The image itself.
    pub picture: Seq<u8>,
}

/// The fields of a picture as they lie in a payload, the strings still bytes
/// and the kind still a number.
pub struct PictureFields {
    /// The number of the kind.
    pub code: u8,
    /// The bytes of the MIME type.
    pub mime: Seq<u8>,
    /// The bytes of the description.
    pub description: Seq<u8>,
    /// The width in pixels.
    pub width: u32,
    /// The height in pixels.
    pub height: u32,
    /// The colour depth in bits per pixel.
    pub color_depth: u32,
    /// The number of colours of an indexed image.
    pub indexed_color_pictures: u32,
    /// The image itself.
    pub picture: Seq<u8>,
}

/// The fields that the payload `s` holds, one after the other: four bytes of
/// which the last is the kind; the MIME type and the description, each behind
/// its length in four bytes; width, height, colour depth and number of
/// colours, four bytes each; the image behind its length in four bytes. `None`
/// if `s` ends before the image does. What follows the image is ignored.
pub open spec fn picture_fields(s: Seq<u8>) -> Option<PictureFields> {
    if s.len() < 8 {
        None
    } else {
        let mime_end = 8 + u32_at(s, 4);
        if s.len() < mime_end + 4 {
            None
        } else {
            let text_end = mime_end + 4 + u32_at(s, mime_end);
            if s.len() < text_end + 20 {
                None
            } else {
                let image_end = text_end + 20 + u32_at(s, text_end + 16);
                if s.len() < image_end {
                    None
                } else {
                    Some(
                        PictureFields {
                            code: s[3],
                            mime: s.subrange(8, mime_end),
                            description: s.subrange(mime_end + 4, text_end),
                            width: u32_at(s, text_end) as u32,
                            height: u32_at(s, text_end + 4) as u32,
                            color_depth: u32_at(s, text_end + 8) as u32,
                            indexed_color_pictures: u32_at(s, text_end + 12) as u32,
                            picture: s.subrange(text_end + 20, image_end),
                        },
                    )
                }
            }
        }
    }
}

/// The picture that the fields make, for a kind `ty`: the strings are the
/// text of their bytes.
pub open spec fn picture_of(ty: PictureType, fields: PictureFields) -> PictureView {
    PictureView {
        ty,
        mime: lossy_text(fields.mime),
        description: lossy_text(fields.description),
        width: fields.width,
        height: fields.height,
        color_depth: fields.color_depth,
        indexed_color_pictures: fields.indexed_color_pictures,
        picture: fields.picture,
    }
}

/// The length of `content` in four bytes, reduced to 32 bits, and then
/// `content`.
pub open spec fn sized(content: Seq<u8>) -> Seq<u8> {
    u32_bytes(content.len() as int) + content
}

/// Four numbers of four bytes each.
pub open spec fn numbers(a: u32, b: u32, c: u32, d: u32) -> Seq<u8> {
    u32_bytes(a as int) + u32_bytes(b as int) + u32_bytes(c as int) + u32_bytes(d as int)
}

/// The payload of a picture: three zero bytes and the kind; the MIME type and
/// the description, each behind its length; width, height, colour depth and
/// number of colours; the image behind its length.
pub open spec fn picture_wire(picture: PictureView) -> Seq<u8> {
    seq![0u8, 0u8, 0u8, picture.ty.code()] + sized(encode_utf8(picture.mime)) + sized(
        encode_utf8(picture.description),
    ) + numbers(
        picture.width,
        picture.height,
        picture.color_depth,
        picture.indexed_color_pictures,
    ) + sized(picture.picture)
}

impl View for Picture {
    type V = PictureView;

    closed spec fn view(&self) -> PictureView {
        PictureView {
            ty: self.ty,
            mime: self.mime@,
            description: self.description@,
            width: self.width,
            height: self.height,
            color_depth: self.color_depth,
            indexed_color_pictures: self.indexed_color_pictures,
            picture: self.picture@,
        }
    }
}

impl Picture {
    /// What the picture shows.
    pub fn picture_type(&self) -> (ty: PictureType)
        ensures
            ty == self@.ty,
    {
        self.ty
    }

    /// The width in pixels.
    pub fn width(&self) -> (width: u32)
        ensures
            width == self@.width,
    {
        self.width
    }

    /// The height in pixels.
    pub fn height(&self) -> (height: u32)
        ensures
            height == self@.height,
    {
        self.height
    }

    /// The MIME type of the image.
    pub fn mime_type(&self) -> (mime: &str)
        ensures
            mime@ == self@.mime,
    {
        self.mime.as_str()
    }

    /// The description of the picture.
    pub fn description(&self) -> (description: &str)
        ensures
            description@ == self@.description,
    {
        self.description.as_str()
    }

    /// The colour depth in bits per pixel.
    pub fn color_depth(&self) -> (depth: u32)
        ensures
            depth == self@.color_depth,
    {
        self.color_depth
    }

    /// The number of colours of an indexed image.
    pub fn indexed_color_pictures(&self) -> (colors: u32)
        ensures
            colors == self@.indexed_color_pictures,
    {
        self.indexed_color_pictures
    }

    /// The image itself, as it is to be written to a file.
    pub fn picture_data(&self) -> (data: &[u8])
        ensures
            data@ == self@.picture,
    {
        self.picture.as_slice()
    }
}

/// Takes four bytes from `stream` and reads them as a number.
fn take_u32(stream: &mut Stream) -> (result: Result<u32, Error>)
    ensures
        final(stream).data() == old(stream).data(),
        final(stream).position() <= final(stream).data().len(),
        match result {
            Ok(value) => {
                &&& old(stream).position() + 4 <= old(stream).data().len()
                &&& value == u32_at(old(stream).data(), old(stream).position() as int)
                &&& final(stream).position() == old(stream).position() + 4
            },
            Err(e) => {
                &&& e is InvalidFormat
                &&& old(stream).position() + 4 > old(stream).data().len()
                &&& final(stream).position() == old(stream).position()
            },
        },
{
    match stream.take(4) {
        Ok(bytes) => {
            proof {
                lemma_at_subrange(old(stream).data(), old(stream).position() as int);
            }
            Ok(be_u32(bytes))
        },
        Err(e) => Err(e),
    }
}

/// Takes a length in four bytes from `stream`, and then as many bytes.
fn take_sized<'a>(stream: &mut Stream<'a>) -> (result: Result<&'a [u8], Error>)
    ensures
        final(stream).data() == old(stream).data(),
        final(stream).position() <= final(stream).data().len(),
        match result {
            Ok(bytes) => {
                let from = old(stream).position() as int + 4;
                let len = u32_at(old(stream).data(), old(stream).position() as int);
                &&& from + len <= old(stream).data().len()
                &&& bytes@ == old(stream).data().subrange(from, from + len)
                &&& final(stream).position() == from + len
            },
            Err(e) => {
                &&& e is InvalidFormat
                &&& (old(stream).position() + 4 > old(stream).data().len() || old(stream).position()
                    + 4 + u32_at(old(stream).data(), old(stream).position() as int) > old(
                    stream,
                ).data().len())
            },
        },
{
    let len = match take_u32(stream) {
        Ok(len) => len,
        Err(e) => {
            return Err(e);
        },
    };
    stream.take(len as usize)
}

impl ConvertBytes for Picture {
    /// A payload decodes to the picture that its fields make, if it holds all
    /// the fields and the kind is one of the 21; any other payload is a format
    /// error.
    open spec fn decodes(buf: Seq<u8>, result: Result<Self, Error>) -> bool {
        match picture_fields(buf) {
            Some(fields) => match PictureType::from_code(fields.code) {
                Some(ty) => result is Ok && result->Ok_0@ == picture_of(ty, fields),
                None => result matches Err(Error::InvalidFormat),
            },
            None => result matches Err(Error::InvalidFormat),
        }
    }

    /// The bytes are the payload of the picture.
    open spec fn encodes(&self, bytes: Seq<u8>) -> bool {
        bytes == picture_wire(self@)
    }

    fn from_bytes(buf: Vec<u8>) -> (result: Result<Self, Error>) {
        let mut stream = Stream::new(buf.as_slice());
        let head = match stream.take(4) {
            Ok(head) => head,
            Err(e) => {
                return Err(e);
            },
        };
        let ty = match PictureType::from_u8(head[3]) {
            Some(ty) => ty,
            None => {
                return Err(Error::InvalidFormat);
            },
        };
        let mime = match take_sized(&mut stream) {
            Ok(bytes) => from_utf8_lossy(bytes),
            Err(e) => {
                return Err(e);
            },
        };
        let description = match take_sized(&mut stream) {
            Ok(bytes) => from_utf8_lossy(bytes),
            Err(e) => {
                return Err(e);
            },
        };
        let width = match take_u32(&mut stream) {
            Ok(value) => value,
            Err(e) => {
                return Err(e);
            },
        };
        let height = match take_u32(&mut stream) {
            Ok(value) => value,
            Err(e) => {
                return Err(e);
            },
        };
        let color_depth = match take_u32(&mut stream) {
            Ok(value) => value,
            Err(e) => {
                return Err(e);
            },
        };
        let indexed_color_pictures = match take_u32(&mut stream) {
            Ok(value) => value,
            Err(e) => {
                return Err(e);
            },
        };
        let mut picture: Vec<u8> = Vec::new();
        match take_sized(&mut stream) {
            Ok(bytes) => picture.extend_from_slice(bytes),
            Err(e) => {
                return Err(e);
            },
        }
        let decoded = Picture {
            ty,
            mime,
            description,
            width,
            height,
            color_depth,
            indexed_color_pictures,
            picture,
        };
        proof {
            let fields = picture_fields(buf@)->Some_0;
            assert(decoded@.picture =~= fields.picture);
        }
        Ok(decoded)
    }

    fn into_bytes(self) -> (bytes: Vec<u8>) {
        let mut bytes: Vec<u8> = Vec::new();
        bytes.push(0);
        bytes.push(0);
        bytes.push(0);
        bytes.push(self.ty.to_u8());
        put_sized(&mut bytes, self.mime.as_str().as_bytes());
        put_sized(&mut bytes, self.description.as_str().as_bytes());
        let ghost front = bytes@;
        put_u32(&mut bytes, self.width);
        put_u32(&mut bytes, self.height);
        put_u32(&mut bytes, self.color_depth);
        put_u32(&mut bytes, self.indexed_color_pictures);
        assert(bytes@ =~= front + numbers(
            self.width,
            self.height,
            self.color_depth,
            self.indexed_color_pictures,
        ));
        put_sized(&mut bytes, self.picture.as_slice());
        assert(bytes@ =~= picture_wire(self@));
        bytes
    }
}

/// Appends the length of `content` in four bytes, reduced to 32 bits, and then
/// `content`.
fn put_sized(buf: &mut Vec<u8>, content: &[u8])
    ensures
        final(buf)@ == old(buf)@ + sized(content@),
{
    put_u32(buf, (content.len() as u64 % 0x1_0000_0000) as u32);
    buf.extend_from_slice(content);
    proof {
        lemma_low_bytes(content@.len() as int);
        assert(buf@ =~= old(buf)@ + sized(content@));
    }
}

/// A number written at `at` is read back from there.
proof fn lemma_number_at(s: Seq<u8>, at: int, value: int)
    requires
        0 <= at,
        at + 4 <= s.len(),
        0 <= value < 0x1_0000_0000,
        s.subrange(at, at + 4) == u32_bytes(value),
    ensures
        u32_at(s, at) == value,
{
    lemma_at_subrange(s, at);
    lemma_u32_write_read(value);
}

/// The text of the bytes that encode `text` is `text`.
pub proof fn lemma_text_of_encoding(text: Seq<char>)
    ensures
        lossy_text(encode_utf8(text)) == text,
{
    vstd::utf8::encode_utf8_valid_utf8(text);
    vstd::utf8::encode_utf8_decode_utf8(text);
}

/// Where `piece` lies in `front + piece + back`.
proof fn lemma_piece(s: Seq<u8>, front: Seq<u8>, piece: Seq<u8>, back: Seq<u8>)
    requires
        s == front + piece + back,
    ensures
        s.len() == front.len() + piece.len() + back.len(),
        s.subrange(front.len() as int, front.len() as int + piece.len()) == piece,
{
    assert(s.subrange(front.len() as int, front.len() as int + piece.len()) =~= piece);
}

/// The bytes of a length below 2^32 and the content behind it, read back
/// from where they lie.
proof fn lemma_sized_at(s: Seq<u8>, front: Seq<u8>, content: Seq<u8>, back: Seq<u8>)
    requires
        content.len() < 0x1_0000_0000,
        s == front + sized(content) + back,
    ensures
        s.len() == front.len() + 4 + content.len() + back.len(),
        u32_at(s, front.len() as int) == content.len(),
        s.subrange(front.len() as int + 4, front.len() as int + 4 + content.len()) == content,
{
    let at = front.len() as int;
    let sized = sized(content);
    lemma_piece(s, front, sized, back);
    assert(s.subrange(at, at + 4) =~= u32_bytes(content.len() as int)) by {
        assert(s.subrange(at, at + 4) =~= sized.subrange(0, 4));
    }
    lemma_number_at(s, at, content.len() as int);
    assert(s.subrange(at + 4, at + 4 + content.len()) =~= content) by {
        assert(s.subrange(at + 4, at + 4 + content.len()) =~= sized.subrange(
            4,
            4 + content.len() as int,
        ));
    }
}

/// Four numbers in a row, read back from where they lie.
proof fn lemma_numbers_at(s: Seq<u8>, front: Seq<u8>, a: u32, b: u32, c: u32, d: u32, back: Seq<u8>)
    requires
        s == front + numbers(a, b, c, d) + back,
    ensures
        s.len() == front.len() + 16 + back.len(),
        u32_at(s, front.len() as int) == a,
        u32_at(s, front.len() as int + 4) == b,
        u32_at(s, front.len() as int + 8) == c,
        u32_at(s, front.len() as int + 12) == d,
{
    let at = front.len() as int;
    let four = numbers(a, b, c, d);
    lemma_piece(s, front, four, back);
    assert(s.subrange(at, at + 4) =~= u32_bytes(a as int)) by {
        assert(s.subrange(at, at + 4) =~= four.subrange(0, 4));
    }
    assert(s.subrange(at + 4, at + 8) =~= u32_bytes(b as int)) by {
        assert(s.subrange(at + 4, at + 8) =~= four.subrange(4, 8));
    }
    assert(s.subrange(at + 8, at + 12) =~= u32_bytes(c as int)) by {
        assert(s.subrange(at + 8, at + 12) =~= four.subrange(8, 12));
    }
    assert(s.subrange(at + 12, at + 16) =~= u32_bytes(d as int)) by {
        assert(s.subrange(at + 12, at + 16) =~= four.subrange(12, 16));
    }
    lemma_number_at(s, at, a as int);
    lemma_number_at(s, at + 4, b as int);
    lemma_number_at(s, at + 8, c as int);
    lemma_number_at(s, at + 12, d as int);
}

/// What lies where in the payload of a picture whose strings and image are
/// shorter than 2^32 bytes.
proof fn lemma_wire_reads(picture: PictureView, s: Seq<u8>, mime_end: int, text_end: int)
    requires
        encode_utf8(picture.mime).len() < 0x1_0000_0000,
        encode_utf8(picture.description).len() < 0x1_0000_0000,
        picture.picture.len() < 0x1_0000_0000,
        s == picture_wire(picture),
        mime_end == 8 + encode_utf8(picture.mime).len(),
        text_end == mime_end + 4 + encode_utf8(picture.description).len(),
    ensures
        s.len() == text_end + 20 + picture.picture.len(),
        s[3] == picture.ty.code(),
        u32_at(s, 4) == encode_utf8(picture.mime).len(),
        s.subrange(8, mime_end) == encode_utf8(picture.mime),
        u32_at(s, mime_end) == encode_utf8(picture.description).len(),
        s.subrange(mime_end + 4, text_end) == encode_utf8(picture.description),
        u32_at(s, text_end) == picture.width,
        u32_at(s, text_end + 4) == picture.height,
        u32_at(s, text_end + 8) == picture.color_depth,
        u32_at(s, text_end + 12) == picture.indexed_color_pictures,
        u32_at(s, text_end + 16) == picture.picture.len(),
        s.subrange(text_end + 20, text_end + 20 + picture.picture.len()) == picture.picture,
{
    let head = seq![0u8, 0u8, 0u8, picture.ty.code()];
    let mime = sized(encode_utf8(picture.mime));
    let text = sized(encode_utf8(picture.description));
    let image = sized(picture.picture);
    let four = numbers(
        picture.width,
        picture.height,
        picture.color_depth,
        picture.indexed_color_pictures,
    );
    assert(s == head + mime + text + four + image);
    lemma_regroup(head, mime, text, four, image);
    assert(head.len() == 4);
    assert(mime.len() == 4 + encode_utf8(picture.mime).len());
    assert(text.len() == 4 + encode_utf8(picture.description).len());
    assert(four.len() == 16);
    assert(s[3] == picture.ty.code()) by {
        lemma_piece(s, Seq::empty(), head, mime + text + four + image);
        assert(s[3] == s.subrange(0, 4)[3]);
    }
    assert(u32_at(s, 4) == encode_utf8(picture.mime).len() && s.subrange(8, mime_end)
        == encode_utf8(picture.mime)) by {
        lemma_sized_at(s, head, encode_utf8(picture.mime), text + four + image);
    }
    assert(u32_at(s, mime_end) == encode_utf8(picture.description).len() && s.subrange(
        mime_end + 4,
        text_end,
    ) == encode_utf8(picture.description)) by {
        lemma_sized_at(s, head + mime, encode_utf8(picture.description), four + image);
    }
    assert(u32_at(s, text_end) == picture.width && u32_at(s, text_end + 4) == picture.height
        && u32_at(s, text_end + 8) == picture.color_depth && u32_at(s, text_end + 12)
        == picture.indexed_color_pictures) by {
        lemma_numbers_at(
            s,
            head + mime + text,
            picture.width,
            picture.height,
            picture.color_depth,
            picture.indexed_color_pictures,
            image,
        );
    }
    assert(s.len() == text_end + 20 + picture.picture.len() && u32_at(s, text_end + 16)
        == picture.picture.len() && s.subrange(
        text_end + 20,
        text_end + 20 + picture.picture.len(),
    ) == picture.picture) by {
        lemma_sized_at(s, head + mime + text + four, picture.picture, Seq::empty());
    }
}

/// The fields that lie in the payload of a picture whose strings and image
/// are shorter than 2^32 bytes.
proof fn lemma_fields_of_wire(picture: PictureView)
    requires
        encode_utf8(picture.mime).len() < 0x1_0000_0000,
        encode_utf8(picture.description).len() < 0x1_0000_0000,
        picture.picture.len() < 0x1_0000_0000,
    ensures
        picture_fields(picture_wire(picture)) == Some(
            PictureFields {
                code: picture.ty.code(),
                mime: encode_utf8(picture.mime),
                description: encode_utf8(picture.description),
                width: picture.width,
                height: picture.height,
                color_depth: picture.color_depth,
                indexed_color_pictures: picture.indexed_color_pictures,
                picture: picture.picture,
            },
        ),
{
    let s = picture_wire(picture);
    let mime_end = 8 + encode_utf8(picture.mime).len() as int;
    let text_end = mime_end + 4 + encode_utf8(picture.description).len() as int;
    lemma_wire_reads(picture, s, mime_end, text_end);
}

/// Five pieces in a row, split around each of them.
proof fn lemma_regroup(a: Seq<u8>, b: Seq<u8>, c: Seq<u8>, d: Seq<u8>, e: Seq<u8>)
    ensures
        a + b + c + d + e == Seq::<u8>::empty() + a + (b + c + d + e),
        a + b + c + d + e == a + b + (c + d + e),
        a + b + c + d + e == (a + b) + c + (d + e),
        a + b + c + d + e == (a + b + c) + d + e,
        a + b + c + d + e == (a + b + c + d) + e + Seq::<u8>::empty(),
{
    let s = a + b + c + d + e;
    assert(s =~= Seq::<u8>::empty() + a + (b + c + d + e));
    assert(s =~= a + b + (c + d + e));
    assert(s =~= (a + b) + c + (d + e));
    assert(s =~= (a + b + c + d) + e + Seq::<u8>::empty());
}

/// Decoding the payload of a picture gives the picture back, where its
/// strings and its image are shorter than 2^32 bytes.
pub proof fn lemma_picture_round_trip(
    picture: Picture,
    bytes: Seq<u8>,
    result: Result<Picture, Error>,
)
    requires
        encode_utf8(picture@.mime).len() < 0x1_0000_0000,
        encode_utf8(picture@.description).len() < 0x1_0000_0000,
        picture@.picture.len() < 0x1_0000_0000,
        picture.encodes(bytes),
        Picture::decodes(bytes, result),
    ensures
        result is Ok,
        result->Ok_0@ == picture@,
{
    lemma_fields_of_wire(picture@);
    lemma_text_of_encoding(picture@.mime);
    lemma_text_of_encoding(picture@.description);
}

/// A payload whose kind is above 20 is refused, whatever follows.
pub proof fn lemma_unknown_kind_refused(buf: Seq<u8>, result: Result<Picture, Error>)
    requires
        buf.len() >= 4,
        buf[3] > 20,
        Picture::decodes(buf, result),
    ensures
        result matches Err(Error::InvalidFormat),
{
}

} // verus!
