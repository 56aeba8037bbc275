//! Errors reported by the palette API.
use vstd::prelude::*;
use vstd::string::StringExecFns;

verus! {

/// Errors reported by the palette API.
#[derive(Debug, Clone, PartialEq, Eq)]
pub enum Error {
    /// The name given for a theme is not one of the theme names.
    UnsupportedTheme { name: String },
}

/// The message of an unsupported theme name.
pub open spec fn unsupported_theme_message(name: Seq<char>) -> Seq<char> {
    "Unsupported theme specified: '"@ + name + "'"@
}

impl Error {
    /// The human-readable message of this error.
    pub fn to_string(&self) -> (s: String)
        ensures
            self matches Error::UnsupportedTheme { name } ==> s@ == unsupported_theme_message(name@),
    {
        match self {
            Error::UnsupportedTheme { name } => {
                let mut message = String::from_str("Unsupported theme specified: '");
                message.append(name.as_str());
                message.append("'");
                message
            },
        }
    }
}

} // verus!
