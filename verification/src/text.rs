//! Font errors and the string helpers used to describe errors.
use vstd::prelude::*;

use std::io;
use vstd::std_specs::convert::FromSpecImpl;

verus! {

broadcast use vstd::string::group_string_axioms;

/// Declares `std::io::ErrorKind`, carried in I/O errors.
#[verifier::external_type_specification]
#[verifier::external_body]
pub struct ExIoErrorKind(io::ErrorKind);

/// `io::ErrorKind` is `Copy`: its `clone` returns the same kind.
pub assume_specification[ <io::ErrorKind as Clone>::clone ](kind: &io::ErrorKind) -> (r: io::ErrorKind)
    ensures
        r == *kind,
;

/// Declares `std::io::Error`, converted into the crate's error types.
#[verifier::external_type_specification]
#[verifier::external_body]
pub struct ExIoError(io::Error);

/// Font loading, metadata parsing, or atlas generation failure.
#[derive(Clone, Debug)]
pub enum FontError {
    /// Reading font data failed.
    IoError { kind: io::ErrorKind, message: String },
    /// The font data could not be parsed.
    InvalidFontData,
    /// Rendering the glyph atlas failed.
    AtlasRenderError,
    /// Font metadata (such as an MSDF JSON description) was malformed.
    MetadataParseError(String),
    /// An atlas image could not be decoded.
    ImageDecodeError(String),
    /// The FreeType rasterizer reported an error.
    FreeTypeError(String),
}

/// Appends a char to a `String`.
///
/// Calls `String::push`, which std documents as appending the given char to the end of the string.
#[verifier::external_body]
pub(crate) fn string_push(s: &mut String, c: char)
    ensures
        final(s)@ == old(s)@.push(c),
{
    s.push(c);
}

/// Appends a string slice to a `String`.
///
/// Calls `String::push_str`, which std documents as appending the given slice to the end.
#[verifier::external_body]
pub(crate) fn string_push_str(s: &mut String, t: &str)
    ensures
        final(s)@ == old(s)@ + t@,
{
    s.push_str(t);
}

/// `prefix` followed by `rest`.
pub fn concat_str(prefix: &str, rest: &str) -> (r: String)
    ensures
        r@ == prefix@ + rest@,
{
    let mut out = prefix.to_string();
    string_push_str(&mut out, rest);
    out
}

/// The decimal digit char for `d < 10`.
pub open spec fn digit_char(d: nat) -> char {
    (('0' as u32) + d) as char
}

/// Decimal representation of `n`, without leading zeros.
pub open spec fn decimal(n: nat) -> Seq<char>
    decreases n,
{
    if n < 10 {
        seq![digit_char(n)]
    } else {
        decimal(n / 10).push(digit_char(n % 10))
    }
}

fn digit_char_exec(d: u64) -> (r: char)
    requires
        d < 10,
    ensures
        r == digit_char(d as nat),
{
    let v = (d as u8) + 48u8;
    let c = v as char;
    assert(c == digit_char(d as nat)) by {
        assert(('0' as u32) == 48);
    }
    c
}

/// Decimal representation of `n`.
pub fn u64_to_decimal(n: u64) -> (r: String)
    ensures
        r@ == decimal(n as nat),
{
    // digits, least significant first
    let mut rev: Vec<char> = Vec::new();
    let mut m = n;
    let ghost mut suffix: Seq<char> = Seq::empty();
    loop
        invariant_except_break
            decimal(n as nat) == decimal(m as nat) + suffix,
            rev@ == suffix.reverse(),
        ensures
            decimal(n as nat) == suffix,
            rev@ == suffix.reverse(),
        decreases m,
    {
        if m < 10 {
            rev.push(digit_char_exec(m));
            proof {
                assert(decimal(m as nat) =~= seq![digit_char(m as nat)]);
                assert(decimal(m as nat) + suffix =~= seq![digit_char(m as nat)] + suffix);
                suffix = seq![digit_char(m as nat)] + suffix;
                assert(rev@ =~= suffix.reverse());
            }
            break;
        }
        let d = m % 10;
        rev.push(digit_char_exec(d));
        proof {
            assert(decimal(m as nat) == decimal((m / 10) as nat).push(digit_char(d as nat)));
            assert(decimal((m / 10) as nat).push(digit_char(d as nat)) + suffix =~= decimal(
                (m / 10) as nat,
            ) + (seq![digit_char(d as nat)] + suffix));
            suffix = seq![digit_char(d as nat)] + suffix;
            assert(rev@ =~= suffix.reverse());
        }
        m = m / 10;
    }
    let mut out = String::new();
    let mut i = rev.len();
    while i > 0
        invariant
            i <= rev@.len(),
            rev@ == suffix.reverse(),
            decimal(n as nat) == suffix,
            out@ == suffix.take(rev@.len() - i),
        decreases i,
    {
        i = i - 1;
        string_push(&mut out, rev[i]);
        assert(suffix.take(rev@.len() - i) =~= suffix.take(rev@.len() - i - 1).push(
            rev@[i as int],
        ));
    }
    assert(suffix.take(rev@.len() as int) =~= suffix);
    out
}

impl FontError {
    /// Human-readable description of the error.
    pub open spec fn spec_message(&self) -> Seq<char> {
        match self {
            FontError::IoError { message, .. } => "I/O error: "@ + message@,
            FontError::InvalidFontData => "invalid font data"@,
            FontError::AtlasRenderError => "failed to render font atlas"@,
            FontError::MetadataParseError(m) => "font metadata parse error: "@ + m@,
            FontError::ImageDecodeError(m) => "font image decode error: "@ + m@,
            FontError::FreeTypeError(m) => "FreeType error: "@ + m@,
        }
    }

    /// Human-readable description of the error.
    pub fn message(&self) -> (r: String)
        ensures
            r@ == self.spec_message(),
    {
        match self {
            FontError::IoError { message, .. } => concat_str("I/O error: ", message.as_str()),
            FontError::InvalidFontData => "invalid font data".to_string(),
            FontError::AtlasRenderError => "failed to render font atlas".to_string(),
            FontError::MetadataParseError(m) => concat_str("font metadata parse error: ", m.as_str()),
            FontError::ImageDecodeError(m) => concat_str("font image decode error: ", m.as_str()),
            FontError::FreeTypeError(m) => concat_str("FreeType error: ", m.as_str()),
        }
    }
}

/// The kind of the I/O error `err`, as `io::Error::kind` reports it.
pub uninterp spec fn io_error_kind_of(err: io::Error) -> io::ErrorKind;

/// The kind of an I/O error.
///
/// Calls `io::Error::kind`, which returns the kind the error was made with (or, for an OS
/// error, the kind decoded from its error code); the contract claims only that the result is
/// that kind, `io_error_kind_of(*err)`.
#[verifier::external_body]
pub(crate) fn io_error_kind(err: &io::Error) -> (r: io::ErrorKind)
    ensures
        r == io_error_kind_of(*err),
{
    err.kind()
}

/// The message of an I/O error: its `Display` text.
///
/// Calls `ToString::to_string`; nothing is stated of the text, which is read from the opaque
/// error.
#[verifier::external_body]
pub(crate) fn io_error_message(err: &io::Error) -> String {
    err.to_string()
}

impl From<io::Error> for FontError {
    /// Converts an I/O error, keeping its kind and its message.
    fn from(err: io::Error) -> (r: Self)
        ensures
            r matches FontError::IoError { kind, .. } && kind == io_error_kind_of(err),
    {
        let kind = io_error_kind(&err);
        let message = io_error_message(&err);
        FontError::IoError { kind, message }
    }
}

impl FromSpecImpl<io::Error> for FontError {
    /// The message is the error's `Display` text, which depends on the platform and locale, so
    /// no spec function of the error describes the whole result.
    open spec fn obeys_from_spec() -> bool {
        false
    }

    open spec fn from_spec(v: io::Error) -> FontError {
        FontError::IoError { kind: io_error_kind_of(v), message: vstd::pervasive::arbitrary() }
    }
}

} // verus!
