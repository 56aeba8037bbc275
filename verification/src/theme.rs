//! Themes for choosing swatches.
use crate::error::Error;
use vstd::prelude::*;

verus! {

/// The themes by which swatches can be chosen; `Basic` ranks swatches by
/// their share of the image alone.
#[derive(Debug, Clone, Copy, PartialEq, Eq, Structural)]
pub enum Theme {
    Basic,
    Colorful,
    Vivid,
    Muted,
    Light,
    Dark,
}

/// The lowercase mapping of `s`, as `str::to_lowercase` computes it.
pub uninterp spec fn lowercase(s: Seq<char>) -> Seq<char>;

/// Calls `str::to_lowercase`.
///
/// Claims only that the result is a function of the characters of `s`
/// (Unicode's lowercase mapping, which depends on nothing else); the mapping
/// itself is left unstated.
#[verifier::external_body]
fn to_lowercase(s: &str) -> (r: String)
    ensures
        r@ == lowercase(s@),
{
    s.to_lowercase()
}

/// The theme whose name is `name`, all in lower case.
pub open spec fn theme_named(name: Seq<char>) -> Option<Theme> {
    if name == "basic"@ {
        Some(Theme::Basic)
    } else if name == "colorful"@ {
        Some(Theme::Colorful)
    } else if name == "vivid"@ {
        Some(Theme::Vivid)
    } else if name == "muted"@ {
        Some(Theme::Muted)
    } else if name == "light"@ {
        Some(Theme::Light)
    } else if name == "dark"@ {
        Some(Theme::Dark)
    } else {
        None
    }
}

impl Theme {
    /// The theme whose name is `name`, which is already in lower case.
    pub fn from_lowercase_name(name: &str) -> (r: Option<Theme>)
        ensures
            r == theme_named(name@),
    {
        let owned = name.to_owned();
        if owned == "basic".to_owned() {
            Some(Theme::Basic)
        } else if owned == "colorful".to_owned() {
            Some(Theme::Colorful)
        } else if owned == "vivid".to_owned() {
            Some(Theme::Vivid)
        } else if owned == "muted".to_owned() {
            Some(Theme::Muted)
        } else if owned == "light".to_owned() {
            Some(Theme::Light)
        } else if owned == "dark".to_owned() {
            Some(Theme::Dark)
        } else {
            None
        }
    }

    /// Parses a theme from its name, ignoring case.
    pub fn from_name(s: &str) -> (r: Result<Theme, Error>)
        ensures
            theme_named(lowercase(s@)) matches Some(t) ==> r == Ok::<Theme, Error>(t),
            theme_named(lowercase(s@)) is None ==> (r matches Err(Error::UnsupportedTheme { name })
                && name@ == s@),
    {
        let lowered = to_lowercase(s);
        match Theme::from_lowercase_name(lowered.as_str()) {
            Some(theme) => Ok(theme),
            None => Err(Error::UnsupportedTheme { name: s.to_owned() }),
        }
    }
}

impl std::str::FromStr for Theme {
    type Err = Error;

    fn from_str(s: &str) -> (r: Result<Theme, Error>)
        ensures
            theme_named(lowercase(s@)) matches Some(t) ==> r == Ok::<Theme, Error>(t),
            theme_named(lowercase(s@)) is None ==> (r matches Err(Error::UnsupportedTheme { name })
                && name@ == s@),
    {
        Theme::from_name(s)
    }
}

} // verus!
