//! Recognising addresses.

use vstd::prelude::*;
use vstd::string::*;
use crate::chars::{chars_of, ends_with, last_index, rfind_char, starts_with, string_of};

verus! {

/// Whether `s` reads as an address: it starts with `http://` or `https://`.
pub open spec fn url_like(s: Seq<char>) -> bool {
    "http://"@.is_prefix_of(s) || "https://"@.is_prefix_of(s)
}

/// Whether `s` reads as the address of an image: an address that ends in
/// `.png`, `.jpg`, `.gif` or `.webp`.
pub open spec fn image_url_like(s: Seq<char>) -> bool {
    url_like(s) && (".png"@.is_suffix_of(s) || ".jpg"@.is_suffix_of(s) || ".gif"@.is_suffix_of(s)
        || ".webp"@.is_suffix_of(s))
}

/// Whether the characters `s` read as an address.
pub(crate) fn is_url_chars(s: &[char]) -> (r: bool)
    ensures
        r == url_like(s@),
{
    starts_with(s, "http://") || starts_with(s, "https://")
}

/// Whether the characters `s` read as the address of an image.
pub(crate) fn is_image_url_chars(s: &[char]) -> (r: bool)
    ensures
        r == image_url_like(s@),
{
    is_url_chars(s) && (ends_with(s, ".png") || ends_with(s, ".jpg") || ends_with(s, ".gif")
        || ends_with(s, ".webp"))
}

/// Whether `s` reads as an address.
pub fn is_url(s: &str) -> (r: bool)
    ensures
        r == url_like(s@),
{
    let chars = chars_of(s);
    is_url_chars(chars.as_slice())
}

/// Whether `s` reads as the address of an image.
pub fn is_image_url(s: &str) -> (r: bool)
    ensures
        r == image_url_like(s@),
{
    let chars = chars_of(s);
    is_image_url_chars(chars.as_slice())
}

/// What an address points at, as far as its path tells.
#[derive(Debug, PartialEq, Eq)]
pub enum UrlKind {
    /// The path ends in the extension of an image format.
    Image,
    /// Anything else.
    Other,
}

/// The path of the absolute URL that `s` parses to, as `url::Url::parse`
/// and `url::Url::path_segments` give it: `None` where `s` does not parse,
/// `Some(None)` where the URL cannot be a base and so has no segments, and
/// else the segments between the slashes of its path.
pub uninterp spec fn url_path_segments(s: Seq<char>) -> Option<Option<Seq<Seq<char>>>>;

/// The top-level media type that `mime_guess` associates with the file
/// extension `ext`: that of the first type it lists for `ext`, and that of
/// `application/octet-stream` where it lists none.
pub uninterp spec fn media_type_of_extension(ext: Seq<char>) -> Seq<char>;

/// The character sequences of a list of segments.
pub open spec fn segments_view(segments: Option<Option<Vec<String>>>) -> Option<
    Option<Seq<Seq<char>>>,
> {
    match segments {
        None => None,
        Some(None) => Some(None),
        Some(Some(list)) => Some(Some(Seq::new(list@.len(), |i: int| list@[i]@))),
    }
}

/// The extension of a file name: what follows its last dot, or the whole
/// name where it holds no dot.
pub open spec fn extension_of(name: Seq<char>) -> Seq<char> {
    name.skip(last_index(name, '.') + 1)
}

/// The kind of address that a top-level media type stands for.
pub open spec fn media_kind(media_type: Seq<char>) -> UrlKind {
    if media_type == "image"@ {
        UrlKind::Image
    } else {
        UrlKind::Other
    }
}

/// The kind of an address with the given path segments.
pub open spec fn segments_kind(segments: Option<Option<Seq<Seq<char>>>>) -> Option<UrlKind> {
    match segments {
        None => None,
        Some(None) => Some(UrlKind::Other),
        Some(Some(list)) => if list.len() == 0 {
            Some(UrlKind::Other)
        } else {
            Some(media_kind(media_type_of_extension(extension_of(list.last()))))
        },
    }
}

/// The kind of the address `s`: none where `s` is not an absolute URL, and
/// else the kind that the extension of its last path segment stands for.
pub open spec fn url_kind(s: Seq<char>) -> Option<UrlKind> {
    segments_kind(url_path_segments(s))
}

/// Calls `url::Url::parse` on `s` and `url::Url::path_segments` on the URL
/// it returns, and copies the segments out. The result is a function of
/// `s` alone, named `url_path_segments`; nothing else is claimed of it.
#[verifier::external_body]
fn parse_path_segments(s: &str) -> (segments: Option<Option<Vec<String>>>)
    ensures
        segments_view(segments) == url_path_segments(s@),
{
    match url::Url::parse(s) {
        Ok(parsed) => Some(
            parsed.path_segments().map(|segments| segments.map(|part| part.to_string()).collect()),
        ),
        Err(_) => None,
    }
}

/// Calls `mime_guess::from_ext` on `ext` and takes the top-level type of
/// `first_or_octet_stream()` of the guess. The result is a function of
/// `ext` alone, named `media_type_of_extension`; nothing else is claimed
/// of it.
#[verifier::external_body]
fn guess_media_type(ext: &str) -> (media_type: String)
    ensures
        media_type@ == media_type_of_extension(ext@),
{
    mime_guess::from_ext(ext).first_or_octet_stream().type_().as_str().to_string()
}

/// The extension of the file name `name`.
pub fn file_extension(name: &str) -> (ext: String)
    ensures
        ext@ == extension_of(name@),
{
    let chars = chars_of(name);
    let n = chars.len();
    let start: usize = match rfind_char(chars.as_slice(), '.') {
        Some(dot) => dot + 1,
        None => 0,
    };
    string_of(&chars.as_slice()[start..n])
}

/// The kind of address that the top-level media type `media_type` stands
/// for: an image where it is `image`.
pub fn kind_of_media_type(media_type: &str) -> (kind: UrlKind)
    ensures
        kind == media_kind(media_type@),
{
    let chars = chars_of(media_type);
    proof {
        reveal_strlit("image");
    }
    if chars.len() == 5 && starts_with(chars.as_slice(), "image") {
        assert(chars@ =~= "image"@);
        UrlKind::Image
    } else {
        UrlKind::Other
    }
}

/// The kind of an address whose path was split into `segments`: that of
/// the media type that goes with the extension of the last of them.
pub fn kind_of_segments(segments: &Option<Option<Vec<String>>>) -> (kind: Option<UrlKind>)
    ensures
        kind == segments_kind(segments_view(*segments)),
{
    match segments {
        None => None,
        Some(None) => Some(UrlKind::Other),
        Some(Some(list)) => {
            if list.len() == 0 {
                Some(UrlKind::Other)
            } else {
                let ext = file_extension(list[list.len() - 1].as_str());
                let media_type = guess_media_type(ext.as_str());
                Some(kind_of_media_type(media_type.as_str()))
            }
        },
    }
}

/// The kind of the address `s`: `None` where `s` is not an absolute URL,
/// an image where the extension of its last path segment is that of an
/// image format, and else something other.
pub fn infer_url_kind(s: &str) -> (kind: Option<UrlKind>)
    ensures
        kind == url_kind(s@),
{
    let segments = parse_path_segments(s);
    kind_of_segments(&segments)
}

} // verus!
