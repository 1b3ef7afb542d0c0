//! Document-level text settings: the font selection and the text direction.

use crate::error::Error;
use crate::strutil::str_eq;
use vstd::prelude::*;

verus! {

/// The font a document asks for; anything unrecognised is a custom font
/// whose payload the document carries verbatim.
#[derive(Clone, Copy, Debug, PartialEq, Eq, Structural)]
pub enum Font {
    AsciiSmall,
    UnicodeEuropeanSmall,
    UnicodeEuropeanLarge,
    UnicodeAsian,
    Arabic,
    Custom,
}

impl Default for Font {
    fn default() -> (r: Self)
        ensures
            r == Font::AsciiSmall,
    {
        Font::AsciiSmall
    }
}

/// The font a `DEFAULT_FONT` payload names.
pub open spec fn font_of(s: Seq<char>) -> Font {
    if s == "unicode_european_small"@ {
        Font::UnicodeEuropeanSmall
    } else if s == "unicode_european_large"@ {
        Font::UnicodeEuropeanLarge
    } else if s == "unicode_asian"@ {
        Font::UnicodeAsian
    } else if s == "arabic"@ {
        Font::Arabic
    } else {
        Font::Custom
    }
}

impl Font {
    /// Decodes a `DEFAULT_FONT` payload.
    pub fn from(s: &str) -> (f: Font)
        ensures
            f == font_of(s@),
    {
        if str_eq(s, "unicode_european_small") {
            Font::UnicodeEuropeanSmall
        } else if str_eq(s, "unicode_european_large") {
            Font::UnicodeEuropeanLarge
        } else if str_eq(s, "unicode_asian") {
            Font::UnicodeAsian
        } else if str_eq(s, "arabic") {
            Font::Arabic
        } else {
            Font::Custom
        }
    }

    /// The payload that names this font; the default and custom fonts have
    /// none.
    pub fn to_string(&self) -> (r: Result<String, Error>)
        ensures
            match *self {
                Font::UnicodeEuropeanSmall => r matches Ok(s) && s@ == "unicode_european_small"@,
                Font::UnicodeEuropeanLarge => r matches Ok(s) && s@ == "unicode_european_large"@,
                Font::UnicodeAsian => r matches Ok(s) && s@ == "unicode_asian"@,
                Font::Arabic => r matches Ok(s) && s@ == "arabic"@,
                Font::AsciiSmall => r matches Err(e) && e == Error::Font,
                Font::Custom => r matches Err(e) && e == Error::Font,
            },
    {
        match self {
            Font::UnicodeEuropeanSmall => Ok(String::from_str("unicode_european_small")),
            Font::UnicodeEuropeanLarge => Ok(String::from_str("unicode_european_large")),
            Font::UnicodeAsian => Ok(String::from_str("unicode_asian")),
            Font::Arabic => Ok(String::from_str("arabic")),
            _ => Err(Error::Font),
        }
    }
}

/// Whether text runs left to right or right to left.
#[derive(Clone, Copy, Debug, PartialEq, Eq, Structural)]
pub enum TextDirection {
    LeftToRight,
    RightToLeft,
}

impl Default for TextDirection {
    fn default() -> (r: Self)
        ensures
            r == TextDirection::LeftToRight,
    {
        TextDirection::LeftToRight
    }
}

} // verus!
