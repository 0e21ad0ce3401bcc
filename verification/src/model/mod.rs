//! The value types of a resolution: where a repository is, which point of its
//! history is meant, what a module declares and what a lock file pins.

use vstd::prelude::*;
use vstd::string::to_string_from_display_ensures;
use vstd::std_specs::convert::FromSpecImpl;

pub mod coordinate;
pub mod dependency;
pub mod lock_file;

pub use coordinate::{Coordinate, CoordinateView, Protocol};
pub use dependency::{
    Dependency, DependencyEntry, DependencyView, Descriptor, DescriptorDocument, DescriptorView,
    Revision, RevisionView,
};
pub use lock_file::{
    LockDocument, LockFile, LockFileView, LockedDependency, LockedDependencyView, LockedEntry,
};

verus! {

/// Why a configuration artifact or a repository reference could not be read.
#[derive(Debug)]
pub enum ParseError {
    /// The artifact could not be read at all.
    IO(std::io::Error),
    /// The artifact is not well-formed TOML.
    Toml(toml::de::Error),
    /// A numeric field does not hold a number.
    Parse(std::num::ParseIntError),
    /// A required key is absent; the field names the key.
    MissingKey(String),
    /// A repository reference lacks a component; the fields name the
    /// component and hold the offending reference.
    MissingUrlComponent(String, String),
}

impl From<std::io::Error> for ParseError {
    fn from(error: std::io::Error) -> (r: ParseError) {
        ParseError::IO(error)
    }
}

impl FromSpecImpl<std::io::Error> for ParseError {
    open spec fn obeys_from_spec() -> bool {
        true
    }

    open spec fn from_spec(error: std::io::Error) -> ParseError {
        ParseError::IO(error)
    }
}

impl From<toml::de::Error> for ParseError {
    fn from(error: toml::de::Error) -> (r: ParseError) {
        ParseError::Toml(error)
    }
}

impl FromSpecImpl<toml::de::Error> for ParseError {
    open spec fn obeys_from_spec() -> bool {
        true
    }

    open spec fn from_spec(error: toml::de::Error) -> ParseError {
        ParseError::Toml(error)
    }
}

impl From<std::num::ParseIntError> for ParseError {
    fn from(error: std::num::ParseIntError) -> (r: ParseError) {
        ParseError::Parse(error)
    }
}

impl FromSpecImpl<std::num::ParseIntError> for ParseError {
    open spec fn obeys_from_spec() -> bool {
        true
    }

    open spec fn from_spec(error: std::num::ParseIntError) -> ParseError {
        ParseError::Parse(error)
    }
}

impl ParseError {
    /// `text` is what this error says of itself. Where the error wraps
    /// another crate's and shows it, the introduction is followed by what
    /// that error displays.
    pub open spec fn says(&self, text: Seq<char>) -> bool {
        match self {
            ParseError::IO(error) => exists|detail: String|
                #[trigger] to_string_from_display_ensures::<std::io::Error>(error, detail) && text == "IO error: "@
                    + detail@,
            ParseError::Toml(error) => exists|detail: String|
                #[trigger] to_string_from_display_ensures::<toml::de::Error>(error, detail) && text == "TOML parsing error: "@
                    + detail@,
            ParseError::Parse(_) => text == "Parse error"@,
            ParseError::MissingKey(key) => text == "Missing TOML key `"@ + key@
                + "` while parsing"@,
            ParseError::MissingUrlComponent(component, url) => text == "Missing url component `"@
                + component@ + "` in string `"@ + url@ + "`"@,
        }
    }

    /// The error in words, for the user.
    pub fn message(&self) -> (text: String)
        ensures
            self.says(text@),
    {
        match self {
            ParseError::IO(error) => {
                let detail = error.to_string();
                let mut text = "IO error: ".to_owned();
                text.append(detail.as_str());
                text
            },
            ParseError::Toml(error) => {
                let detail = error.to_string();
                let mut text = "TOML parsing error: ".to_owned();
                text.append(detail.as_str());
                text
            },
            ParseError::Parse(_) => "Parse error".to_owned(),
            ParseError::MissingKey(key) => {
                let mut text = "Missing TOML key `".to_owned();
                text.append(key.as_str());
                text.append("` while parsing");
                text
            },
            ParseError::MissingUrlComponent(component, url) => {
                let mut text = "Missing url component `".to_owned();
                text.append(component.as_str());
                text.append("` in string `");
                text.append(url.as_str());
                text.append("`");
                text
            },
        }
    }
}

} // verus!
