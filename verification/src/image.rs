//! The source of an image: its bytes as a `data:` URI.
//!
//! The host reads the file. What kind of image it is follows from the
//! extension of its path alone.

use vstd::prelude::*;
use vstd::string::StringExecFns;
use crate::text::{chars_of, extension_spec, extension_start, fold_case, same_folded};

verus! {

/// The kinds of image that can be shown.
#[derive(Clone, Copy, Debug, PartialEq, Eq)]
pub enum ImageKind {
    Bmp,
    Jpeg,
    Png,
    Gif,
}

/// Why a file gives no image.
#[derive(Debug, PartialEq, Eq)]
pub enum ImageError {
    /// The path has no extension.
    NoExtension,
    /// The extension of the path names no kind of image that can be shown.
    Unsupported,
    /// The file is too large for its source to be addressed.
    TooLarge,
}

/// The kind of image that the extension of a path names, letter case aside.
pub open spec fn kind_of(extension: Seq<char>) -> Option<ImageKind> {
    let folded = fold_case(extension);
    if folded == fold_case("bmp"@) {
        Some(ImageKind::Bmp)
    } else if folded == fold_case("jpg"@) || folded == fold_case("jpeg"@) {
        Some(ImageKind::Jpeg)
    } else if folded == fold_case("png"@) {
        Some(ImageKind::Png)
    } else if folded == fold_case("gif"@) {
        Some(ImageKind::Gif)
    } else {
        None
    }
}

/// The media type of a kind of image.
pub open spec fn media_type(kind: ImageKind) -> Seq<char> {
    match kind {
        ImageKind::Bmp => "image/bmp"@,
        ImageKind::Jpeg => "image/jpeg"@,
        ImageKind::Png => "image/png"@,
        ImageKind::Gif => "image/gif"@,
    }
}

/// The text that `base64::encode` makes of `data`.
pub uninterp spec fn base64_text(data: Seq<u8>) -> Seq<char>;

/// Whether `base64::encode` can size its output for `len` bytes: four
/// characters for every three bytes, the last group padded.
pub open spec fn encodable(len: nat) -> bool {
    len / 3 <= (usize::MAX - 4) / 4
}

/// The source of an image of `kind` whose bytes are encoded as `encoded`.
pub open spec fn source_of(kind: ImageKind, encoded: Seq<char>) -> Seq<char> {
    "data:"@ + media_type(kind) + ";base64,"@ + encoded
}

/// `mime::IMAGE_BMP` as text. The crate declares it as `image/bmp` and
/// displays a media type as it was declared.
#[verifier::external_body]
fn bmp_type() -> (name: String)
    ensures
        name@ == "image/bmp"@,
{
    mime::IMAGE_BMP.to_string()
}

/// `mime::IMAGE_JPEG` as text. The crate declares it as `image/jpeg` and
/// displays a media type as it was declared.
#[verifier::external_body]
fn jpeg_type() -> (name: String)
    ensures
        name@ == "image/jpeg"@,
{
    mime::IMAGE_JPEG.to_string()
}

/// `mime::IMAGE_PNG` as text. The crate declares it as `image/png` and
/// displays a media type as it was declared.
#[verifier::external_body]
fn png_type() -> (name: String)
    ensures
        name@ == "image/png"@,
{
    mime::IMAGE_PNG.to_string()
}

/// `mime::IMAGE_GIF` as text. The crate declares it as `image/gif` and
/// displays a media type as it was declared.
#[verifier::external_body]
fn gif_type() -> (name: String)
    ensures
        name@ == "image/gif"@,
{
    mime::IMAGE_GIF.to_string()
}

/// `base64::encode` on `data`. It panics where it cannot size its output,
/// which `encodable` rules out; what it returns is a function of the bytes
/// alone, and is given the name `base64_text`.
#[verifier::external_body]
fn encode(data: &Vec<u8>) -> (text: String)
    requires
        encodable(data@.len()),
    ensures
        text@ == base64_text(data@),
{
    base64::encode(data)
}

/// The kind of image that the extension of `path` names.
pub fn image_kind(path: &str) -> (r: Result<ImageKind, ImageError>)
    ensures
        match r {
            Ok(kind) => extension_spec(path@) is Some && kind_of(extension_spec(path@).unwrap())
                == Some(kind),
            Err(e) => match extension_spec(path@) {
                Some(extension) => kind_of(extension) is None && e == ImageError::Unsupported,
                None => e == ImageError::NoExtension,
            },
        },
{
    let v = chars_of(path);
    match extension_start(&v) {
        None => Err(ImageError::NoExtension),
        Some(at) => {
            if same_folded(&v, at, "bmp") {
                Ok(ImageKind::Bmp)
            } else if same_folded(&v, at, "jpg") || same_folded(&v, at, "jpeg") {
                Ok(ImageKind::Jpeg)
            } else if same_folded(&v, at, "png") {
                Ok(ImageKind::Png)
            } else if same_folded(&v, at, "gif") {
                Ok(ImageKind::Gif)
            } else {
                Err(ImageError::Unsupported)
            }
        },
    }
}

/// The source of an image of `kind` whose bytes are encoded as `encoded`.
pub fn data_uri(kind: ImageKind, encoded: &str) -> (uri: String)
    ensures
        uri@ == source_of(kind, encoded@),
{
    let name = match kind {
        ImageKind::Bmp => bmp_type(),
        ImageKind::Jpeg => jpeg_type(),
        ImageKind::Png => png_type(),
        ImageKind::Gif => gif_type(),
    };
    let mut uri = String::from_str("data:");
    uri.append(name.as_str());
    uri.append(";base64,");
    uri.append(encoded);
    uri
}

/// The source of the image at `path` whose bytes are `data`.
pub fn try_get_source_image(path: &str, data: &Vec<u8>) -> (r: Result<String, ImageError>)
    ensures
        match r {
            Ok(uri) => extension_spec(path@) is Some && kind_of(extension_spec(path@).unwrap())
                is Some && encodable(data@.len()) && uri@ == source_of(
                kind_of(extension_spec(path@).unwrap()).unwrap(),
                base64_text(data@),
            ),
            Err(e) => match extension_spec(path@) {
                None => e == ImageError::NoExtension,
                Some(extension) => match kind_of(extension) {
                    None => e == ImageError::Unsupported,
                    Some(_) => !encodable(data@.len()) && e == ImageError::TooLarge,
                },
            },
        },
{
    match image_kind(path) {
        Err(e) => Err(e),
        Ok(kind) => {
            if data.len() / 3 > (usize::MAX - 4) / 4 {
                Err(ImageError::TooLarge)
            } else {
                let encoded = encode(data);
                Ok(data_uri(kind, encoded.as_str()))
            }
        },
    }
}

} // verus!
