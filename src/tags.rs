//! The tag reader: title, artist and album from an ID3 tag, and the first
//! embedded JPEG or PNG picture as base64 text. A tag that cannot be read
//! counts as no tag; nothing here fails its caller.

use vstd::prelude::*;
use base64::Engine;
use id3::TagLike;
use crate::classify::{is_tagged_name, wants_tags};

verus! {

#[verifier::external_type_specification]
#[verifier::external_body]
pub struct ExTag(id3::Tag);

#[verifier::external_type_specification]
#[verifier::external_body]
pub struct ExId3Error(id3::Error);

/// Title, artist and album as a tag gives them; each may be absent.
pub struct TagFields {
    pub title: Option<String>,
    pub artist: Option<String>,
    pub album: Option<String>,
}

/// One embedded picture: its MIME type and its bytes.
pub struct PictureData {
    pub mime_type: String,
    pub data: Vec<u8>,
}

/// A cover image: the picture's bytes as base64 text, and its MIME type.
pub struct CoverArt {
    pub data: String,
    pub mime_type: String,
}

impl TagFields {
    pub open spec fn is_empty(&self) -> bool {
        self.title is None && self.artist is None && self.album is None
    }

    /// No title, artist or album.
    pub fn none() -> (r: TagFields)
        ensures
            r.is_empty(),
    {
        TagFields { title: None, artist: None, album: None }
    }
}

/// The standard base64 alphabet.
pub open spec fn base64_alphabet() -> Seq<char> {
    "ABCDEFGHIJKLMNOPQRSTUVWXYZabcdefghijklmnopqrstuvwxyz0123456789+/"@
}

pub open spec fn digit(v: int) -> char {
    base64_alphabet()[v]
}

/// Base64 with the standard alphabet and `=` padding: each group of three
/// bytes gives four digits of six bits each; a last group of one or two
/// bytes is padded out to four characters.
pub open spec fn base64_of(b: Seq<u8>) -> Seq<char>
    decreases b.len(),
{
    if b.len() == 0 {
        Seq::empty()
    } else {
        let x = b[0] as int;
        let y = if b.len() > 1 { b[1] as int } else { 0 };
        let z = if b.len() > 2 { b[2] as int } else { 0 };
        let head = digit(x / 4);
        let second = digit((x % 4) * 16 + y / 16);
        if b.len() == 1 {
            seq![head, second, '=', '=']
        } else if b.len() == 2 {
            seq![head, second, digit((y % 16) * 4), '=']
        } else {
            seq![head, second, digit((y % 16) * 4 + z / 64), digit(z % 64)] + base64_of(
                b.subrange(3, b.len() as int),
            )
        }
    }
}

/// Bytes whose base64 text has a length that fits in `usize`.
pub open spec fn encodable(n: int) -> bool {
    (n + 2) / 3 <= usize::MAX as int / 4
}

/// Relies on `base64::engine::general_purpose::STANDARD.encode`: standard
/// alphabet, padded, four characters per started group of three bytes. It
/// panics where that length overflows `usize`.
#[verifier::external_body]
fn encode_base64(data: &Vec<u8>) -> (r: String)
    requires
        encodable(data@.len() as int),
    ensures
        r@ == base64_of(data@),
        r@.len() == 4 * ((data@.len() + 2) / 3),
{
    base64::engine::general_purpose::STANDARD.encode(data)
}

/// Whether `id3::Tag::read_from2` reads a tag from these bytes.
pub uninterp spec fn id3_readable(b: Seq<u8>) -> bool;

/// The title that `id3::TagLike::title` gives of the tag read from the bytes.
pub uninterp spec fn id3_title_of(b: Seq<u8>) -> Option<Seq<char>>;

/// The artist that `id3::TagLike::artist` gives of the tag read from the bytes.
pub uninterp spec fn id3_artist_of(b: Seq<u8>) -> Option<Seq<char>>;

/// The album that `id3::TagLike::album` gives of the tag read from the bytes.
pub uninterp spec fn id3_album_of(b: Seq<u8>) -> Option<Seq<char>>;

/// The pictures, MIME type and data, that `id3::Tag::pictures` gives of the
/// tag read from the bytes, in stored order.
pub uninterp spec fn id3_pictures_of(b: Seq<u8>) -> Seq<(Seq<char>, Seq<u8>)>;

pub open spec fn opt_text(o: Option<String>) -> Option<Seq<char>> {
    match o {
        None => None,
        Some(s) => Some(s@),
    }
}

/// A tag read from a file's contents, with the contents it was read from.
pub struct TagRead {
    tag: id3::Tag,
    bytes: Ghost<Seq<u8>>,
}

impl TagRead {
    pub closed spec fn source(&self) -> Seq<u8> {
        self.bytes@
    }
}

/// Relies on `id3::Tag::read_from2`, reading the tag from the file's bytes:
/// a tag comes back exactly when the bytes hold a readable one.
#[verifier::external_body]
fn read_tag(contents: &Vec<u8>) -> (r: Option<TagRead>)
    ensures
        r is Some <==> id3_readable(contents@),
        r matches Some(t) ==> t.source() == contents@,
{
    id3::Tag::read_from2(std::io::Cursor::new(contents.as_slice())).ok().map(|tag| TagRead { tag, bytes: Ghost(contents@) })
}

/// Relies on `id3::TagLike::title`: the tag's title frame, if any.
#[verifier::external_body]
fn tag_title(t: &TagRead) -> (r: Option<String>)
    ensures
        opt_text(r) == id3_title_of(t.source()),
{
    t.tag.title().map(String::from)
}

/// Relies on `id3::TagLike::artist`: the tag's artist frame, if any.
#[verifier::external_body]
fn tag_artist(t: &TagRead) -> (r: Option<String>)
    ensures
        opt_text(r) == id3_artist_of(t.source()),
{
    t.tag.artist().map(String::from)
}

/// Relies on `id3::TagLike::album`: the tag's album frame, if any.
#[verifier::external_body]
fn tag_album(t: &TagRead) -> (r: Option<String>)
    ensures
        opt_text(r) == id3_album_of(t.source()),
{
    t.tag.album().map(String::from)
}

/// Relies on `id3::Tag::pictures`: the tag's pictures in stored order.
#[verifier::external_body]
fn tag_pictures(t: &TagRead) -> (r: Vec<PictureData>)
    ensures
        pic_views(r@) == id3_pictures_of(t.source()),
{
    t.tag.pictures().map(|p| PictureData { mime_type: p.mime_type.clone(), data: p.data.clone() }).collect()
}

/// What the tag reader gives for a file with the given contents: for an
/// `.mp3` whose contents hold a readable ID3 tag, its title, artist and
/// album; otherwise nothing.
pub open spec fn metadata_of(file_name: Seq<char>, contents: Option<Vec<u8>>, r: TagFields) -> bool {
    if !is_tagged_name(file_name) {
        r.is_empty()
    } else {
        match contents {
            None => r.is_empty(),
            Some(b) => if id3_readable(b@) {
                &&& opt_text(r.title) == id3_title_of(b@)
                &&& opt_text(r.artist) == id3_artist_of(b@)
                &&& opt_text(r.album) == id3_album_of(b@)
            } else {
                r.is_empty()
            },
        }
    }
}

/// Reads title, artist and album of a file from its contents (`None` when
/// they could not be read). Only `.mp3` files are read; for any other file,
/// and for contents that hold no readable tag, every field is absent.
pub fn parse_metadata(file_name: &str, contents: &Option<Vec<u8>>) -> (r: TagFields)
    ensures
        metadata_of(file_name@, *contents, r),
{
    if !wants_tags(file_name) {
        return TagFields::none();
    }
    match contents {
        None => TagFields::none(),
        Some(bytes) => match read_tag(bytes) {
            None => TagFields::none(),
            Some(tag) => TagFields {
                title: tag_title(&tag),
                artist: tag_artist(&tag),
                album: tag_album(&tag),
            },
        },
    }
}

pub open spec fn is_cover_mime(m: Seq<char>) -> bool {
    m == "image/jpeg"@ || m == "image/png"@
}

/// The pictures as MIME type and data.
pub open spec fn pic_views(pics: Seq<PictureData>) -> Seq<(Seq<char>, Seq<u8>)> {
    pics.map_values(|p: PictureData| (p.mime_type@, p.data@))
}

/// Picture `i` is the first whose MIME type is JPEG or PNG.
pub open spec fn is_first_cover(ps: Seq<(Seq<char>, Seq<u8>)>, i: int) -> bool {
    &&& 0 <= i < ps.len()
    &&& is_cover_mime(ps[i].0)
    &&& forall|j: int| 0 <= j < i ==> !is_cover_mime(#[trigger] ps[j].0)
}

/// The cover that picture `i` gives: its MIME type, and its data as base64
/// text of four characters per started group of three bytes.
pub open spec fn cover_of(ps: Seq<(Seq<char>, Seq<u8>)>, i: int, c: CoverArt) -> bool {
    &&& c.mime_type@ == ps[i].0
    &&& c.data@ == base64_of(ps[i].1)
    &&& c.data@.len() == 4 * ((ps[i].1.len() + 2) / 3)
}

/// The cover chosen from the pictures: none exactly when no picture is JPEG
/// or PNG, else the first such picture.
pub open spec fn cover_result(ps: Seq<(Seq<char>, Seq<u8>)>, r: Option<CoverArt>) -> bool {
    match r {
        None => forall|j: int| 0 <= j < ps.len() ==> !is_cover_mime(#[trigger] ps[j].0),
        Some(c) => exists|i: int| is_first_cover(ps, i) && cover_of(ps, i, c),
    }
}

pub open spec fn all_encodable(ps: Seq<(Seq<char>, Seq<u8>)>) -> bool {
    forall|i: int| 0 <= i < ps.len() ==> encodable(#[trigger] ps[i].1.len() as int)
}

/// The first picture whose MIME type is exactly `image/jpeg` or `image/png`,
/// base64-encoded; pictures of other types are skipped.
pub fn cover_from_pictures(pics: &Vec<PictureData>) -> (r: Option<CoverArt>)
    requires
        all_encodable(pic_views(pics@)),
    ensures
        cover_result(pic_views(pics@), r),
{
    let ghost ps = pic_views(pics@);
    let jpeg = String::from_str("image/jpeg");
    let png = String::from_str("image/png");
    let mut i: usize = 0;
    while i < pics.len()
        invariant
            i <= pics@.len(),
            ps == pic_views(pics@),
            jpeg@ == "image/jpeg"@,
            png@ == "image/png"@,
            all_encodable(ps),
            forall|j: int| 0 <= j < i ==> !is_cover_mime(#[trigger] ps[j].0),
        decreases pics.len() - i,
    {
        let p = &pics[i];
        assert(ps[i as int] == (p.mime_type@, p.data@));
        if p.mime_type == jpeg || p.mime_type == png {
            assert(encodable(ps[i as int].1.len() as int));
            let data = encode_base64(&p.data);
            let c = CoverArt { data, mime_type: p.mime_type.clone() };
            assert(is_first_cover(ps, i as int) && cover_of(ps, i as int, c));
            return Some(c);
        }
        i = i + 1;
    }
    None
}

fn encodable_exec(data: &Vec<u8>) -> (r: bool)
    ensures
        r == encodable(data@.len() as int),
{
    let n = data.len();
    let groups = n / 3 + if n % 3 == 0 { 0 } else { 1 };
    groups <= usize::MAX / 4
}

/// What the cover lookup gives for a file with the given contents: for an
/// `.mp3` whose contents hold a readable ID3 tag, the cover its pictures
/// give; otherwise none. A tag holding a picture too large to encode gives
/// none.
pub open spec fn cover_art_of(file_name: Seq<char>, contents: Option<Vec<u8>>, r: Option<CoverArt>) -> bool {
    if !is_tagged_name(file_name) {
        r is None
    } else {
        match contents {
            None => r is None,
            Some(b) => if !id3_readable(b@) {
                r is None
            } else if all_encodable(id3_pictures_of(b@)) {
                cover_result(id3_pictures_of(b@), r)
            } else {
                r is None
            },
        }
    }
}

/// The cover of a file from its contents (`None` when they could not be
/// read): the first JPEG or PNG picture of its ID3 tag. Files other than
/// `.mp3`, contents without a readable tag, and tags without such a picture
/// give no cover; so does a tag holding a picture too large to encode.
pub fn get_cover_art(file_name: &str, contents: &Option<Vec<u8>>) -> (r: Option<CoverArt>)
    ensures
        cover_art_of(file_name@, *contents, r),
{
    if !wants_tags(file_name) {
        return None;
    }
    match contents {
        None => None,
        Some(bytes) => match read_tag(bytes) {
            None => None,
            Some(tag) => {
                let pics = tag_pictures(&tag);
                let ghost ps = pic_views(pics@);
                let mut i: usize = 0;
                while i < pics.len()
                    invariant
                        i <= pics@.len(),
                        ps == pic_views(pics@),
                        ps == id3_pictures_of(bytes@),
                        id3_readable(bytes@),
                        is_tagged_name(file_name@),
                        *contents == Some(*bytes),
                        forall|j: int| 0 <= j < i ==> encodable(#[trigger] ps[j].1.len() as int),
                    decreases pics.len() - i,
                {
                    assert(ps[i as int].1 == pics@[i as int].data@);
                    if !encodable_exec(&pics[i].data) {
                        assert(!encodable(ps[i as int].1.len() as int));
                        return None;
                    }
                    i = i + 1;
                }
                cover_from_pictures(&pics)
            },
        },
    }
}

} // verus!
