//! The classifier: a file is audio or image by its extension, lower-cased,
//! against fixed allow-lists. No content is sniffed.

use vstd::prelude::*;
use crate::names::{ext_of, extension_of};

verus! {

/// What `str::to_lowercase` makes of a string.
pub uninterp spec fn lower_of(s: Seq<char>) -> Seq<char>;

/// Relies on `str::to_lowercase`: the lower-case form depends on the
/// characters alone.
#[verifier::external_body]
pub(crate) fn lowercase(s: &str) -> (r: String)
    ensures
        r@ == lower_of(s@),
{
    s.to_lowercase()
}

pub open spec fn is_audio_ext(e: Seq<char>) -> bool {
    ||| e == "mp3"@
    ||| e == "flac"@
    ||| e == "wav"@
    ||| e == "ogg"@
    ||| e == "m4a"@
    ||| e == "aac"@
    ||| e == "wma"@
}

pub open spec fn is_image_ext(e: Seq<char>) -> bool {
    ||| e == "png"@
    ||| e == "jpg"@
    ||| e == "jpeg"@
    ||| e == "webp"@
    ||| e == "gif"@
}

/// The lower-cased extension of a file name, if it has one.
pub open spec fn lower_ext(name: Seq<char>) -> Option<Seq<char>> {
    match ext_of(name) {
        None => None,
        Some(e) => Some(lower_of(e)),
    }
}

pub open spec fn is_audio_name(name: Seq<char>) -> bool {
    match lower_ext(name) {
        None => false,
        Some(e) => is_audio_ext(e),
    }
}

pub open spec fn is_image_name(name: Seq<char>) -> bool {
    match lower_ext(name) {
        None => false,
        Some(e) => is_image_ext(e),
    }
}

/// The one container whose tags are read: ID3, on `.mp3` files.
pub open spec fn is_tagged_name(name: Seq<char>) -> bool {
    lower_ext(name) == Some("mp3"@)
}

fn is(s: &String, lit: &str) -> (r: bool)
    ensures
        r == (s@ == lit@),
{
    *s == String::from_str(lit)
}

fn lower_extension(name: &str) -> (r: Option<String>)
    ensures
        match r {
            None => lower_ext(name@) is None,
            Some(e) => lower_ext(name@) == Some(e@),
        },
{
    match extension_of(name) {
        None => None,
        Some(e) => Some(lowercase(e.as_str())),
    }
}

/// Whether the file name has an audio extension (mp3, flac, wav, ogg, m4a,
/// aac, wma), whatever its case.
pub fn is_audio(name: &str) -> (r: bool)
    ensures
        r == is_audio_name(name@),
{
    match lower_extension(name) {
        None => false,
        Some(e) => is(&e, "mp3") || is(&e, "flac") || is(&e, "wav") || is(&e, "ogg")
            || is(&e, "m4a") || is(&e, "aac") || is(&e, "wma"),
    }
}

/// Whether the file name has an image extension (png, jpg, jpeg, webp, gif),
/// whatever its case.
pub fn is_image(name: &str) -> (r: bool)
    ensures
        r == is_image_name(name@),
{
    match lower_extension(name) {
        None => false,
        Some(e) => is(&e, "png") || is(&e, "jpg") || is(&e, "jpeg") || is(&e, "webp")
            || is(&e, "gif"),
    }
}

/// Whether tags are read from the file: only `.mp3` files, whatever the case.
pub fn wants_tags(name: &str) -> (r: bool)
    ensures
        r == is_tagged_name(name@),
{
    match lower_extension(name) {
        None => false,
        Some(e) => is(&e, "mp3"),
    }
}

} // verus!
