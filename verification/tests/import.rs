use dpcolor::import::{
    from_container_cause, loader_for_extension, loader_for_path, ImageImportError, Loader,
};
use image::error::{ImageError, LimitError, LimitErrorKind};
use std::io;
use zip::result::ZipError;

#[test]
fn ora_is_matched_in_any_case() {
    assert!(matches!(loader_for_path("x.ORA"), Ok(Loader::OpenRaster)));
    assert!(matches!(loader_for_path("x.ora"), Ok(Loader::OpenRaster)));
    assert!(matches!(loader_for_path("dir.gif/x.oRa"), Ok(Loader::OpenRaster)));
    assert!(matches!(loader_for_extension(Some("Ora")), Ok(Loader::OpenRaster)));
}

#[test]
fn gif_goes_to_the_animation_loader() {
    assert!(matches!(loader_for_path("anim.gif"), Ok(Loader::GifAnimation)));
    assert!(matches!(loader_for_path("ANIM.GIF"), Ok(Loader::GifAnimation)));
    assert!(matches!(loader_for_extension(Some("gIf")), Ok(Loader::GifAnimation)));
}

#[test]
fn a_path_without_extension_is_unsupported() {
    assert!(matches!(loader_for_path("x"), Err(ImageImportError::UnsupportedFormat)));
    assert!(matches!(loader_for_path(""), Err(ImageImportError::UnsupportedFormat)));
    assert!(matches!(loader_for_path(".ora"), Err(ImageImportError::UnsupportedFormat)));
    assert!(matches!(loader_for_path("ora"), Err(ImageImportError::UnsupportedFormat)));
    assert!(matches!(loader_for_path("dir.ora/picture"), Err(ImageImportError::UnsupportedFormat)));
    assert!(matches!(loader_for_extension(None), Err(ImageImportError::UnsupportedFormat)));
}

#[test]
fn any_other_extension_goes_to_the_flat_loader() {
    assert!(matches!(loader_for_path("x.unknownext"), Ok(Loader::FlatImage)));
    assert!(matches!(loader_for_path("x.png"), Ok(Loader::FlatImage)));
    assert!(matches!(loader_for_path("x.ora.jpeg"), Ok(Loader::FlatImage)));
    assert!(matches!(loader_for_path("x."), Ok(Loader::FlatImage)));
    assert!(matches!(loader_for_extension(Some("orag")), Ok(Loader::FlatImage)));
    assert!(matches!(loader_for_extension(Some("or")), Ok(Loader::FlatImage)));
    assert!(matches!(loader_for_extension(Some("\u{f6}ra")), Ok(Loader::FlatImage)));
    assert!(matches!(loader_for_extension(Some("")), Ok(Loader::FlatImage)));
}

#[test]
fn a_zip_io_error_stays_an_io_error() {
    let inner = io::Error::new(io::ErrorKind::UnexpectedEof, "short read");
    match ImageImportError::from(ZipError::Io(inner)) {
        ImageImportError::IoError(e) => assert_eq!(e.kind(), io::ErrorKind::UnexpectedEof),
        other => panic!("{:?}", other),
    }
}

#[test]
fn any_other_zip_error_is_an_unsupported_format() {
    assert!(matches!(
        ImageImportError::from(ZipError::FileNotFound),
        ImageImportError::UnsupportedFormat
    ));
    assert!(matches!(
        ImageImportError::from(ZipError::InvalidArchive("bad")),
        ImageImportError::UnsupportedFormat
    ));
    assert!(matches!(
        ImageImportError::from(ZipError::UnsupportedArchive("new")),
        ImageImportError::UnsupportedFormat
    ));
}

#[test]
fn an_io_error_becomes_an_io_failure() {
    let err = io::Error::new(io::ErrorKind::NotFound, "missing");
    match ImageImportError::from(err) {
        ImageImportError::IoError(e) => assert_eq!(e.kind(), io::ErrorKind::NotFound),
        other => panic!("{:?}", other),
    }
}

#[test]
fn a_codec_error_becomes_a_decode_failure() {
    let err = ImageError::Limits(LimitError::from_kind(LimitErrorKind::DimensionError));
    assert!(matches!(ImageImportError::from(err), ImageImportError::DecodeError(_)));
    let io_inside = ImageError::IoError(io::Error::new(io::ErrorKind::Other, "stream"));
    assert!(matches!(ImageImportError::from(io_inside), ImageImportError::DecodeError(_)));
}

#[test]
fn a_container_cause_decides_the_error() {
    let inner = io::Error::new(io::ErrorKind::PermissionDenied, "locked");
    match from_container_cause(Some(inner)) {
        ImageImportError::IoError(e) => assert_eq!(e.kind(), io::ErrorKind::PermissionDenied),
        other => panic!("{:?}", other),
    }
    assert!(matches!(from_container_cause(None), ImageImportError::UnsupportedFormat));
}

#[test]
fn a_path_without_a_dot_has_no_loader() {
    for path in ["picture", "dir/picture", "a/b/c/gif", "ora/", "/"] {
        assert!(matches!(loader_for_path(path), Err(ImageImportError::UnsupportedFormat)));
    }
}

#[test]
fn the_loader_is_that_of_what_follows_the_last_dot() {
    assert!(matches!(loader_for_path("a.gif.ora"), Ok(Loader::OpenRaster)));
    assert!(matches!(loader_for_path("a.ora.gif"), Ok(Loader::GifAnimation)));
    assert!(matches!(loader_for_path("dir.gif/a.ora.png"), Ok(Loader::FlatImage)));
}
