//! What can go wrong inside one cached repository.

use vstd::prelude::*;
use vstd::string::to_string_from_display_ensures;
use vstd::std_specs::convert::FromSpecImpl;
use crate::model::ParseError;

verus! {

/// Why a cached repository could not answer.
#[derive(Debug)]
pub enum ProtoRepoError {
    /// libgit2 failed.
    GitError(git2::Error),
    /// The revision names nothing in the repository. The fields hold the
    /// dependency's name, the revision and libgit2's own account.
    Revparse(String, String, git2::Error),
    /// The repository holds no manifest at the revision; the fields hold the
    /// dependency's name and the revision.
    MissingDescriptor(String, String),
    /// The manifest is not UTF-8.
    BlobRead(std::str::Utf8Error),
    /// The manifest is not a valid descriptor.
    Parsing(ParseError),
    /// Files could not be written out.
    IO(std::io::Error),
}

impl From<git2::Error> for ProtoRepoError {
    fn from(error: git2::Error) -> (r: ProtoRepoError) {
        ProtoRepoError::GitError(error)
    }
}

impl FromSpecImpl<git2::Error> for ProtoRepoError {
    open spec fn obeys_from_spec() -> bool {
        true
    }

    open spec fn from_spec(error: git2::Error) -> ProtoRepoError {
        ProtoRepoError::GitError(error)
    }
}

impl From<std::str::Utf8Error> for ProtoRepoError {
    fn from(error: std::str::Utf8Error) -> (r: ProtoRepoError) {
        ProtoRepoError::BlobRead(error)
    }
}

impl FromSpecImpl<std::str::Utf8Error> for ProtoRepoError {
    open spec fn obeys_from_spec() -> bool {
        true
    }

    open spec fn from_spec(error: std::str::Utf8Error) -> ProtoRepoError {
        ProtoRepoError::BlobRead(error)
    }
}

impl From<ParseError> for ProtoRepoError {
    fn from(error: ParseError) -> (r: ProtoRepoError) {
        ProtoRepoError::Parsing(error)
    }
}

impl FromSpecImpl<ParseError> for ProtoRepoError {
    open spec fn obeys_from_spec() -> bool {
        true
    }

    open spec fn from_spec(error: ParseError) -> ProtoRepoError {
        ProtoRepoError::Parsing(error)
    }
}

impl From<std::io::Error> for ProtoRepoError {
    fn from(error: std::io::Error) -> (r: ProtoRepoError) {
        ProtoRepoError::IO(error)
    }
}

impl FromSpecImpl<std::io::Error> for ProtoRepoError {
    open spec fn obeys_from_spec() -> bool {
        true
    }

    open spec fn from_spec(error: std::io::Error) -> ProtoRepoError {
        ProtoRepoError::IO(error)
    }
}

impl ProtoRepoError {
    /// `text` is what this error says of itself. Where the error wraps
    /// another crate's, the introduction is followed by what that error
    /// displays.
    pub open spec fn says(&self, text: Seq<char>) -> bool {
        match self {
            ProtoRepoError::GitError(error) => exists|detail: String|
                #[trigger] to_string_from_display_ensures::<git2::Error>(error, detail) && text == "Git error: "@
                    + detail@,
            ProtoRepoError::Revparse(dependency, revision, error) => exists|detail: String|
                #[trigger] to_string_from_display_ensures::<git2::Error>(error, detail) && text
                    == "Error while performing revparse in dep "@ + dependency@
                    + " for revision "@ + revision@ + ": "@ + detail@,
            ProtoRepoError::MissingDescriptor(dependency, revision) => text
                == "Missing descriptor of dep "@ + dependency@ + " for revision "@ + revision@,
            ProtoRepoError::BlobRead(error) => exists|detail: String|
                #[trigger] to_string_from_display_ensures::<std::str::Utf8Error>(error, detail) && text == "Error while decoding utf8 bytes from blob: "@
                    + detail@,
            ProtoRepoError::Parsing(_) => text == "Error while parsing descriptor"@,
            ProtoRepoError::IO(error) => exists|detail: String|
                #[trigger] to_string_from_display_ensures::<std::io::Error>(error, detail) && text == "IO error: "@
                    + detail@,
        }
    }

    /// The error in words, for the user.
    pub fn message(&self) -> (text: String)
        ensures
            self.says(text@),
    {
        match self {
            ProtoRepoError::GitError(error) => {
                let detail = error.to_string();
                let mut text = "Git error: ".to_owned();
                text.append(detail.as_str());
                text
            },
            ProtoRepoError::Revparse(dependency, revision, error) => {
                let detail = error.to_string();
                let mut text = "Error while performing revparse in dep ".to_owned();
                text.append(dependency.as_str());
                text.append(" for revision ");
                text.append(revision.as_str());
                text.append(": ");
                text.append(detail.as_str());
                text
            },
            ProtoRepoError::MissingDescriptor(dependency, revision) => {
                let mut text = "Missing descriptor of dep ".to_owned();
                text.append(dependency.as_str());
                text.append(" for revision ");
                text.append(revision.as_str());
                text
            },
            ProtoRepoError::BlobRead(error) => {
                let detail = error.to_string();
                let mut text = "Error while decoding utf8 bytes from blob: ".to_owned();
                text.append(detail.as_str());
                text
            },
            ProtoRepoError::Parsing(_) => "Error while parsing descriptor".to_owned(),
            ProtoRepoError::IO(error) => {
                let detail = error.to_string();
                let mut text = "IO error: ".to_owned();
                text.append(detail.as_str());
                text
            },
        }
    }
}

} // verus!
