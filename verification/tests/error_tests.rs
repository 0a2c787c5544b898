use plutonium_engine::text::FontError;
use plutonium_engine::EngineError;
use std::io;

#[test]
fn missing_asset_io_converts_to_cloneable_errors_without_panicking() {
    let io_err = io::Error::new(io::ErrorKind::NotFound, "missing test asset");

    let font_err = FontError::from(io_err);
    let cloned_font_err = font_err.clone();
    assert!(matches!(
        cloned_font_err,
        FontError::IoError {
            kind: io::ErrorKind::NotFound,
            ..
        }
    ));

    let engine_err = EngineError::from(font_err);
    assert!(engine_err.source().is_some());
    assert!(engine_err.message().contains("font error"));
}
