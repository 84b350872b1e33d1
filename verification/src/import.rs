//! Choosing the loader of an image file by its extension, and the errors of
//! an import.

use vstd::prelude::*;
use vstd::std_specs::convert::FromSpecImpl;
use vstd::string::StrSliceExecFns;

verus! {

/// `std::io::Error`, carried through unopened.
#[verifier::external_type_specification]
#[verifier::external_body]
pub struct ExIoError(std::io::Error);

/// `image::error::ImageError`, carried through unopened.
#[verifier::external_type_specification]
#[verifier::external_body]
pub struct ExImageError(image::error::ImageError);

/// `zip::result::ZipError`, opened only by `zip_error_io`.
#[verifier::external_type_specification]
#[verifier::external_body]
pub struct ExZipError(zip::result::ZipError);

/// Why an image could not be imported.
#[derive(Debug)]
pub enum ImageImportError {
    /// The file or stream could not be read.
    IoError(std::io::Error),
    /// The codec rejected the data.
    DecodeError(image::error::ImageError),
    /// No loader is known for the file, or its container failed in a way
    /// that has no closer description.
    UnsupportedFormat,
    /// The container was read and held no layer or frame.
    NoContent,
}

/// The reader that a file is handed to.
#[derive(Clone, Copy, Debug, PartialEq, Eq, Structural)]
pub enum Loader {
    OpenRaster,
    GifAnimation,
    FlatImage,
}

/// The I/O error that a `zip::result::ZipError` wraps: the field of its
/// variant `Io`, and `None` for every other variant.
pub uninterp spec fn zip_io_cause(err: zip::result::ZipError) -> Option<std::io::Error>;

/// Matches on a `zip::result::ZipError` and moves the I/O error out of its
/// variant `Io`; every other variant gives `None`.
#[verifier::external_body]
fn zip_error_io(err: zip::result::ZipError) -> (cause: Option<std::io::Error>)
    ensures
        cause == zip_io_cause(err),
{
    match err {
        zip::result::ZipError::Io(io) => Some(io),
        _ => None,
    }
}

/// The import error of a failed container: the I/O error where the failure
/// wraps one, and an unsupported format for every other failure.
pub open spec fn container_failure(cause: Option<std::io::Error>) -> ImageImportError {
    match cause {
        Some(io) => ImageImportError::IoError(io),
        None => ImageImportError::UnsupportedFormat,
    }
}

/// Turns what a container failure wraps into the import error.
pub fn from_container_cause(cause: Option<std::io::Error>) -> (r: ImageImportError)
    ensures
        r == container_failure(cause),
{
    match cause {
        Some(io) => ImageImportError::IoError(io),
        None => ImageImportError::UnsupportedFormat,
    }
}

impl From<std::io::Error> for ImageImportError {
    fn from(err: std::io::Error) -> (r: ImageImportError) {
        ImageImportError::IoError(err)
    }
}

impl FromSpecImpl<std::io::Error> for ImageImportError {
    open spec fn obeys_from_spec() -> bool {
        true
    }

    open spec fn from_spec(err: std::io::Error) -> ImageImportError {
        ImageImportError::IoError(err)
    }
}

impl From<image::error::ImageError> for ImageImportError {
    fn from(err: image::error::ImageError) -> (r: ImageImportError) {
        ImageImportError::DecodeError(err)
    }
}

impl FromSpecImpl<image::error::ImageError> for ImageImportError {
    open spec fn obeys_from_spec() -> bool {
        true
    }

    open spec fn from_spec(err: image::error::ImageError) -> ImageImportError {
        ImageImportError::DecodeError(err)
    }
}

impl From<zip::result::ZipError> for ImageImportError {
    fn from(err: zip::result::ZipError) -> (r: ImageImportError) {
        from_container_cause(zip_error_io(err))
    }
}

impl FromSpecImpl<zip::result::ZipError> for ImageImportError {
    open spec fn obeys_from_spec() -> bool {
        true
    }

    /// An I/O error inside the container stays an I/O error; every other
    /// failure of the container is an unsupported format.
    open spec fn from_spec(err: zip::result::ZipError) -> ImageImportError {
        container_failure(zip_io_cause(err))
    }
}

/// The lower case of an ASCII capital; every other character is itself.
pub open spec fn ascii_lower(c: char) -> char {
    if 'A' <= c && c <= 'Z' {
        ((c as u32) + 32) as char
    } else {
        c
    }
}

pub open spec fn ascii_lowercase(s: Seq<char>) -> Seq<char> {
    Seq::new(s.len(), |i: int| ascii_lower(s[i]))
}

/// The loader of a file with the given extension: the OpenRaster reader
/// for `ora`, the animation reader for `gif`, in any mix of cases, and the
/// flat image reader for everything else.
pub open spec fn loader_for(extension: Seq<char>) -> Loader {
    let lower = ascii_lowercase(extension);
    if lower == seq!['o', 'r', 'a'] {
        Loader::OpenRaster
    } else if lower == seq!['g', 'i', 'f'] {
        Loader::GifAnimation
    } else {
        Loader::FlatImage
    }
}

fn lower_char(c: char) -> (r: char)
    ensures
        r == ascii_lower(c),
{
    if 'A' <= c && c <= 'Z' {
        ((c as u8) + 32) as char
    } else {
        c
    }
}

/// Whether `extension`, in lower case, is the three given characters.
fn is_extension(extension: &str, a: char, b: char, c: char) -> (r: bool)
    ensures
        r == (ascii_lowercase(extension@) == seq![a, b, c]),
{
    if extension.unicode_len() != 3 {
        assert(ascii_lowercase(extension@).len() != seq![a, b, c].len());
        return false;
    }
    let r = lower_char(extension.get_char(0)) == a && lower_char(extension.get_char(1)) == b
        && lower_char(extension.get_char(2)) == c;
    proof {
        let lower = ascii_lowercase(extension@);
        if r {
            assert(lower =~= seq![a, b, c]);
        } else {
            assert(seq![a, b, c][0] == a && seq![a, b, c][1] == b && seq![a, b, c][2] == c);
        }
    }
    r
}

/// Chooses the loader for a file extension. A file without an extension
/// has no loader.
pub fn loader_for_extension(extension: Option<&str>) -> (r: Result<Loader, ImageImportError>)
    ensures
        extension is None ==> r is Err && r->Err_0 is UnsupportedFormat,
        extension is Some ==> r is Ok && r->Ok_0 == loader_for(extension->0@),
{
    match extension {
        None => Err(ImageImportError::UnsupportedFormat),
        Some(e) => {
            if is_extension(e, 'o', 'r', 'a') {
                Ok(Loader::OpenRaster)
            } else if is_extension(e, 'g', 'i', 'f') {
                Ok(Loader::GifAnimation)
            } else {
                Ok(Loader::FlatImage)
            }
        },
    }
}

/// Whether `extension` could be the extension of `path`: it holds no dot,
/// and it stands in `path` right after one.
pub open spec fn follows_dot(path: Seq<char>, extension: Seq<char>) -> bool {
    &&& !extension.contains('.')
    &&& exists|i: int|
        0 <= i && i + 1 + extension.len() <= path.len() && path[i] == '.' && #[trigger] path.subrange(
            i + 1,
            i + 1 + extension.len(),
        ) == extension
}

/// The extension of a path as `std::path::Path::extension` finds it, where
/// it is valid Unicode. An extension is what follows the last dot in the
/// final component of the path, so it holds no dot and stands in the path
/// right after one. Which part of a path is its final component is the
/// platform's matter, and nothing is claimed of that: not when there is an
/// extension, nor where in the path it ends.
#[verifier::external_body]
fn path_extension(path: &str) -> (extension: Option<String>)
    ensures
        extension is Some ==> follows_dot(path@, extension->0@),
{
    std::path::Path::new(path).extension().and_then(|s| s.to_str()).map(|s| s.to_string())
}

/// Chooses the loader for the file at `path` without touching the file.
/// The loader is the one of an extension that the path holds after a dot;
/// a path without a dot has no extension and so no loader. The only
/// failure is that of a path without an extension.
pub fn loader_for_path(path: &str) -> (r: Result<Loader, ImageImportError>)
    ensures
        r is Err ==> r->Err_0 is UnsupportedFormat,
        !path@.contains('.') ==> r is Err,
        r is Ok ==> exists|extension: Seq<char>|
            follows_dot(path@, extension) && r->Ok_0 == #[trigger] loader_for(extension),
{
    match path_extension(path) {
        None => loader_for_extension(None),
        Some(extension) => {
            proof {
                let i = choose|i: int|
                    0 <= i && i + 1 + extension@.len() <= path@.len() && path@[i] == '.'
                        && #[trigger] path@.subrange(i + 1, i + 1 + extension@.len())
                        == extension@;
                assert(path@[i] == '.');
                assert(path@.contains('.'));
            }
            let r = loader_for_extension(Some(extension.as_str()));
            assert(follows_dot(path@, extension@) && r->Ok_0 == loader_for(extension@));
            r
        },
    }
}

} // verus!
