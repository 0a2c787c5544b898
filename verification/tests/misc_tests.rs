use plutonium_engine::error::EngineError;
use plutonium_engine::renderer::{choose_surface_capability, WgpuRenderer};
use plutonium_engine::text::FontError;
use plutonium_engine::{
    GlyphSet, HaloMode, RasterHintingMode, RasterTextureLoadError, TextureFit, WarmStats,
};
use std::io;

#[test]
fn defaults() {
    assert_eq!(TextureFit::default(), TextureFit::Contain);
    assert!(matches!(GlyphSet::default(), GlyphSet::AsciiCore));
    assert_eq!(RasterHintingMode::default(), RasterHintingMode::Auto);
    assert_eq!(HaloMode::default(), HaloMode::Glow);
    let s = WarmStats::default();
    assert_eq!(
        (s.requested_sizes, s.warmed_sizes, s.already_loaded_sizes, s.glyphs_rasterized),
        (0, 0, 0, 0)
    );
    let _r = WgpuRenderer::new();
}

#[test]
fn raster_texture_error_messages() {
    let e = RasterTextureLoadError::HttpStatus {
        status: 404,
        status_text: "Not Found".to_string(),
        url: "a.png".to_string(),
    };
    assert_eq!(e.message(), "http error while fetching 'a.png': 404 Not Found");
    assert_eq!(
        RasterTextureLoadError::InvalidResponse("u".to_string()).message(),
        "invalid fetch response type for 'u'"
    );
    assert_eq!(
        RasterTextureLoadError::FetchFailed("x".to_string()).message(),
        "fetch failed: x"
    );
    assert_eq!(
        RasterTextureLoadError::BodyReadFailed("x".to_string()).message(),
        "failed reading response body: x"
    );
    assert_eq!(
        RasterTextureLoadError::ImageDecodeFailed("x".to_string()).message(),
        "image decode failed: x"
    );
    assert_eq!(
        RasterTextureLoadError::TextureCreateFailed("x".to_string()).message(),
        "texture creation failed: x"
    );
    let zero = RasterTextureLoadError::HttpStatus {
        status: 0,
        status_text: String::new(),
        url: String::new(),
    };
    assert_eq!(zero.message(), "http error while fetching '': 0 ");
}

#[test]
fn engine_error_messages() {
    assert_eq!(
        EngineError::AdapterUnavailable.message(),
        "no compatible GPU adapter available"
    );
    assert_eq!(
        EngineError::SurfaceError("lost".to_string()).message(),
        "surface error: lost"
    );
    assert_eq!(
        EngineError::FontError(FontError::InvalidFontData).message(),
        "font error: invalid font data"
    );
    assert_eq!(
        EngineError::InvalidResource("bad".to_string()).message(),
        "invalid resource: bad"
    );
    assert!(EngineError::AdapterUnavailable.source().is_none());
}

#[test]
fn engine_error_from_io_keeps_kind_and_message() {
    let err = EngineError::from(io::Error::new(io::ErrorKind::PermissionDenied, "nope"));
    match &err {
        EngineError::IoError { kind, message } => {
            assert_eq!(*kind, io::ErrorKind::PermissionDenied);
            assert_eq!(message, "nope");
        }
        _ => panic!("expected an I/O error"),
    }
    assert_eq!(err.message(), "I/O error: nope");
    assert!(err.source().is_none());
}

#[test]
fn font_error_messages() {
    assert_eq!(FontError::AtlasRenderError.message(), "failed to render font atlas");
    assert_eq!(
        FontError::FreeTypeError("x".to_string()).message(),
        "FreeType error: x"
    );
    assert_eq!(
        FontError::MetadataParseError("m".to_string()).message(),
        "font metadata parse error: m"
    );
}

#[test]
fn engine_error_wraps_font_error() {
    let e = EngineError::from(FontError::ImageDecodeError("png".to_string()));
    assert!(matches!(e.source(), Some(FontError::ImageDecodeError(_))));
    assert_eq!(e.message(), "font error: font image decode error: png");
}

#[test]
fn surface_choice_prefers_first_wanted_else_first_offered() {
    assert_eq!(choose_surface_capability(&vec![false, true, true]), Some(1));
    assert_eq!(choose_surface_capability(&vec![false, false]), Some(0));
    assert_eq!(choose_surface_capability(&vec![true]), Some(0));
    assert_eq!(choose_surface_capability(&vec![]), None);
}

#[test]
fn font_error_from_io_keeps_kind() {
    let err = FontError::from(io::Error::new(io::ErrorKind::UnexpectedEof, "short read"));
    match err {
        FontError::IoError { kind, message } => {
            assert_eq!(kind, io::ErrorKind::UnexpectedEof);
            assert_eq!(message, "short read");
        }
        _ => panic!("expected an I/O error"),
    }
}
