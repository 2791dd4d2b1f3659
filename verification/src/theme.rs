//! Color themes of the rendered output.

use vstd::prelude::*;
use crate::text::{chars_of, lowercase, str_eq, string_from, string_of, to_lowercase, trim, trim_slice};

verus! {

/// Dark or light colors.
#[derive(Clone, Copy, Debug, PartialEq, Eq, Structural)]
pub enum Theme {
    Dark,
    Light,
}

/// The theme a (trimmed, lower-cased) word names: empty or `dark` for the
/// dark theme, `light` for the light one.
pub open spec fn theme_word(w: Seq<char>) -> Option<Theme> {
    if w == ""@ || w == "dark"@ {
        Some(Theme::Dark)
    } else if w == "light"@ {
        Some(Theme::Light)
    } else {
        None
    }
}

impl Theme {
    /// The theme a name gives, ignoring surrounding whitespace and letter
    /// case; an unknown name is an error that names it.
    pub fn parse(s: &str) -> (r: Result<Theme, String>)
        ensures
            match theme_word(lowercase(trim(s@))) {
                Some(t) => r == Ok::<Theme, String>(t),
                None => r matches Err(m) && m@ == "unknown theme '"@ + lowercase(trim(s@)) + "' (expected dark|light)"@,
            },
    {
        let cs = chars_of(s);
        let t = string_of(trim_slice(cs.as_slice()));
        let low = to_lowercase(t.as_str());
        let w = low.as_str();
        if str_eq(w, "") || str_eq(w, "dark") {
            Ok(Theme::Dark)
        } else if str_eq(w, "light") {
            Ok(Theme::Light)
        } else {
            let mut m = string_from("unknown theme '");
            m.append(w);
            m.append("' (expected dark|light)");
            Err(m)
        }
    }

    /// Page background color.
    pub fn background(self) -> (r: &'static str)
        ensures
            r@ == match self {
                Theme::Dark => "#1a1a2e"@,
                Theme::Light => "#ffffff"@,
            },
    {
        match self {
            Theme::Dark => "#1a1a2e",
            Theme::Light => "#ffffff",
        }
    }

    /// Muted text color.
    pub fn muted(self) -> (r: &'static str)
        ensures
            r@ == match self {
                Theme::Dark => "#94a3b8"@,
                Theme::Light => "#64748b"@,
            },
    {
        match self {
            Theme::Dark => "#94a3b8",
            Theme::Light => "#64748b",
        }
    }
}

} // verus!
