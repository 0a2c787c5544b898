//! Verified core of a retained/immediate 2D graphics engine: deterministic RNG streams, the
//! modal popup runtime and message wrapping, text editing over UTF-8 byte positions and greedy
//! word wrapping, input bindings and held keys, raster-font bookkeeping (glyph sets, variant
//! choice and the per-frame warm queue), the frame's z-ordered, batched draw plan,
//! instance-buffer pooling and the engine's error types.
use vstd::prelude::*;

pub mod app;
pub mod error;
pub mod font_raster;
pub mod instance_pool;
pub mod input;
pub mod pluto_objects;
pub mod popup;
pub mod popup_wrap;
pub mod render_plan;
pub mod renderer;
pub mod rng;
pub mod text;

pub use app::{Key, Keys, NamedKey, WindowConfig};
pub use error::EngineError;
pub use popup::{
    PopupAction, PopupActionStyle, PopupConfig, PopupDismissReason, PopupEvent, PopupSize,
};

use crate::text::{concat_str, u64_to_decimal};

verus! {

broadcast use vstd::string::group_string_axioms;

/// Options for texture fit.
#[derive(Debug, Clone, Copy, PartialEq, Eq)]
pub enum TextureFit {
    /// Contain option.
    Contain,
    /// Stretch fill option.
    StretchFill,
    /// Cover option.
    Cover,
}

impl Default for TextureFit {
    fn default() -> (r: Self)
        ensures
            r == TextureFit::Contain,
    {
        TextureFit::Contain
    }
}

/// Options for glyph set.
#[derive(Debug, Clone)]
pub enum GlyphSet {
    /// Ascii core option: the printable ASCII chars.
    AsciiCore,
    /// Custom option.
    Custom(Vec<char>),
}

impl Default for GlyphSet {
    fn default() -> (r: Self)
        ensures
            r is AsciiCore,
    {
        Self::AsciiCore
    }
}

/// Options for raster hinting mode.
#[derive(Debug, Clone, Copy, PartialEq, Eq)]
pub enum RasterHintingMode {
    /// Auto option.
    Auto,
    /// No hinting option.
    Disabled,
}

impl Default for RasterHintingMode {
    fn default() -> (r: Self)
        ensures
            r == RasterHintingMode::Auto,
    {
        RasterHintingMode::Auto
    }
}

/// WarmStats data.
#[derive(Debug, Clone, Copy)]
pub struct WarmStats {
    /// Requested sizes value.
    pub requested_sizes: usize,
    /// Warmed sizes value.
    pub warmed_sizes: usize,
    /// Already loaded sizes value.
    pub already_loaded_sizes: usize,
    /// Glyphs rasterized value.
    pub glyphs_rasterized: usize,
}

impl Default for WarmStats {
    fn default() -> (r: Self)
        ensures
            r.requested_sizes == 0,
            r.warmed_sizes == 0,
            r.already_loaded_sizes == 0,
            r.glyphs_rasterized == 0,
    {
        WarmStats { requested_sizes: 0, warmed_sizes: 0, already_loaded_sizes: 0, glyphs_rasterized: 0 }
    }
}

/// Options for raster texture load error.
#[derive(Debug, Clone)]
pub enum RasterTextureLoadError {
    /// Fetch failed option.
    FetchFailed(String),
    /// Invalid response option.
    InvalidResponse(String),
    /// Http status option.
    HttpStatus {
        /// Item value.
        status: u16,
        /// Item value.
        status_text: String,
        /// Item value.
        url: String,
    },
    /// Body read failed option.
    BodyReadFailed(String),
    /// Image decode failed option.
    ImageDecodeFailed(String),
    /// Texture create failed option.
    TextureCreateFailed(String),
}

impl RasterTextureLoadError {
    /// Human-readable description of the error.
    pub open spec fn spec_message(&self) -> Seq<char> {
        match self {
            RasterTextureLoadError::FetchFailed(msg) => "fetch failed: "@ + msg@,
            RasterTextureLoadError::InvalidResponse(url) => "invalid fetch response type for '"@
                + url@ + "'"@,
            RasterTextureLoadError::HttpStatus { status, status_text, url } =>
                "http error while fetching '"@ + url@ + "': "@ + crate::text::decimal(*status as nat)
                + " "@ + status_text@,
            RasterTextureLoadError::BodyReadFailed(msg) => "failed reading response body: "@ + msg@,
            RasterTextureLoadError::ImageDecodeFailed(msg) => "image decode failed: "@ + msg@,
            RasterTextureLoadError::TextureCreateFailed(msg) => "texture creation failed: "@ + msg@,
        }
    }

    /// Human-readable description of the error.
    pub fn message(&self) -> (r: String)
        ensures
            r@ == self.spec_message(),
    {
        match self {
            RasterTextureLoadError::FetchFailed(msg) => concat_str("fetch failed: ", msg.as_str()),
            RasterTextureLoadError::InvalidResponse(url) => {
                let a = concat_str("invalid fetch response type for '", url.as_str());
                concat_str(a.as_str(), "'")
            },
            RasterTextureLoadError::HttpStatus { status, status_text, url } => {
                let a = concat_str("http error while fetching '", url.as_str());
                let b = concat_str(a.as_str(), "': ");
                let digits = u64_to_decimal(*status as u64);
                let c = concat_str(b.as_str(), digits.as_str());
                let d = concat_str(c.as_str(), " ");
                let r = concat_str(d.as_str(), status_text.as_str());
                proof {
                    assert(r@ =~= self.spec_message());
                }
                r
            },
            RasterTextureLoadError::BodyReadFailed(msg) => concat_str(
                "failed reading response body: ",
                msg.as_str(),
            ),
            RasterTextureLoadError::ImageDecodeFailed(msg) => concat_str(
                "image decode failed: ",
                msg.as_str(),
            ),
            RasterTextureLoadError::TextureCreateFailed(msg) => concat_str(
                "texture creation failed: ",
                msg.as_str(),
            ),
        }
    }
}

/// Halo rendering mode.
#[derive(Debug, Clone, Copy, PartialEq)]
pub enum HaloMode {
    /// Soft outside glow (default).
    Glow,
    /// Border-only highlight.
    Border,
}

impl Default for HaloMode {
    fn default() -> (r: Self)
        ensures
            r is Glow,
    {
        HaloMode::Glow
    }
}

/// Predefined halo styles for common tutorial/highlight scenarios.
#[derive(Debug, Clone, Copy, PartialEq, Eq)]
pub enum HaloPreset {
    /// Default tutorial highlight: clear, balanced attention cue.
    TutorialPrimary,
    /// Softer highlight for low-priority guidance.
    TutorialSubtle,
    /// Strong highlight for urgent/critical interactions.
    TutorialUrgent,
}

} // verus!
