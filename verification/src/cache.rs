//! Access to the repositories that dependencies live in.

use vstd::prelude::*;
use vstd::string::to_string_from_display_ensures;
use vstd::std_specs::convert::FromSpecImpl;
use crate::model::coordinate::{Coordinate, CoordinateView};
use crate::model::dependency::{Descriptor, DescriptorView, Revision, RevisionView};
use crate::proto_repository::ProtoRepoError;

verus! {

/// Why a repository could not be brought into the local cache.
#[derive(Debug)]
pub enum CacheError {
    /// The remote could not be reached, refused the credentials or does not
    /// exist.
    Git(git2::Error),
    /// The cache directory is absent or unusable; the field holds its path.
    BadLocation(String),
    /// The cache directory could not be read or written.
    IO(std::io::Error),
}

impl From<git2::Error> for CacheError {
    fn from(error: git2::Error) -> (r: CacheError) {
        CacheError::Git(error)
    }
}

impl FromSpecImpl<git2::Error> for CacheError {
    open spec fn obeys_from_spec() -> bool {
        true
    }

    open spec fn from_spec(error: git2::Error) -> CacheError {
        CacheError::Git(error)
    }
}

impl From<std::io::Error> for CacheError {
    fn from(error: std::io::Error) -> (r: CacheError) {
        CacheError::IO(error)
    }
}

impl FromSpecImpl<std::io::Error> for CacheError {
    open spec fn obeys_from_spec() -> bool {
        true
    }

    open spec fn from_spec(error: std::io::Error) -> CacheError {
        CacheError::IO(error)
    }
}

impl CacheError {
    /// `text` is what this error says of itself. Where the error wraps
    /// another crate's, the introduction is followed by what that error
    /// displays.
    pub open spec fn says(&self, text: Seq<char>) -> bool {
        match self {
            CacheError::Git(error) => exists|detail: String|
                #[trigger] to_string_from_display_ensures::<git2::Error>(error, detail) && text == "Git error: "@
                    + detail@,
            CacheError::BadLocation(location) => text == "Cache location "@ + location@
                + " does not exist"@,
            CacheError::IO(error) => exists|detail: String|
                #[trigger] to_string_from_display_ensures::<std::io::Error>(error, detail) && text == "IO error: "@
                    + detail@,
        }
    }

    /// The error in words, for the user.
    pub fn message(&self) -> (text: String)
        ensures
            self.says(text@),
    {
        match self {
            CacheError::Git(error) => {
                let detail = error.to_string();
                let mut text = "Git error: ".to_owned();
                text.append(detail.as_str());
                text
            },
            CacheError::BadLocation(location) => {
                let mut text = "Cache location ".to_owned();
                text.append(location.as_str());
                text.append(" does not exist");
                text
            },
            CacheError::IO(error) => {
                let detail = error.to_string();
                let mut text = "IO error: ".to_owned();
                text.append(detail.as_str());
                text
            },
        }
    }
}

/// What `extract_descriptor` answered, as a mathematical value.
pub open spec fn descriptor_answer(answer: Result<Descriptor, ProtoRepoError>) -> Result<
    DescriptorView,
    ProtoRepoError,
> {
    match answer {
        Ok(descriptor) => Ok(descriptor@),
        Err(error) => Err(error),
    }
}

/// What `resolve_revision` answered, as a mathematical value.
pub open spec fn commit_answer(answer: Result<String, ProtoRepoError>) -> Result<
    Seq<char>,
    ProtoRepoError,
> {
    match answer {
        Ok(commit_hash) => Ok(commit_hash@),
        Err(error) => Err(error),
    }
}

/// The repositories as the resolver and the materializer see them: a local
/// cache in front of the remotes.
///
/// What an implementation answers depends on the remotes and on the disk, so
/// no method promises any particular answer, nor success. Each method has a
/// relation beside it that says which answers the implementation may give to
/// which question. An implementation is free in it, and one that says
/// nothing has the relation that holds of everything. The library assumes
/// nothing of these relations. It uses them to say of its own results which
/// questions they are answers to.
pub trait RepositoryCache {
    /// A repository that is present in the cache.
    type Handle;

    /// `answer` is among what `clone_or_update` may give for `coordinate`.
    open spec fn may_clone(
        &self,
        coordinate: CoordinateView,
        answer: Result<Self::Handle, CacheError>,
    ) -> bool {
        true
    }

    /// `answer` is among what `extract_descriptor` may give for the
    /// dependency `dependency_name` at `revision` in the repository `handle`.
    open spec fn may_extract(
        &self,
        handle: Self::Handle,
        dependency_name: Seq<char>,
        revision: RevisionView,
        answer: Result<DescriptorView, ProtoRepoError>,
    ) -> bool {
        true
    }

    /// `answer` is among what `resolve_revision` may give for `revision` in
    /// the repository `handle`.
    open spec fn may_resolve(
        &self,
        handle: Self::Handle,
        revision: RevisionView,
        answer: Result<Seq<char>, ProtoRepoError>,
    ) -> bool {
        true
    }

    /// `answer` is among what `create_worktrees` may give when asked to write
    /// the commit `commit_hash` of the repository `handle` out below
    /// `out_dir`, for the dependency `dependency_name` of the module
    /// `module_name`.
    open spec fn may_create(
        &self,
        handle: Self::Handle,
        dependency_name: Seq<char>,
        module_name: Seq<char>,
        commit_hash: Seq<char>,
        out_dir: Seq<char>,
        answer: Result<(), ProtoRepoError>,
    ) -> bool {
        true
    }

    /// Makes sure that the repository at `coordinate` is in the cache and up
    /// to date with its remote.
    fn clone_or_update(&self, coordinate: &Coordinate) -> (answer: Result<
        Self::Handle,
        CacheError,
    >)
        ensures
            self.may_clone(coordinate@, answer),
    ;

    /// Reads the manifest that the repository holds at `revision`.
    fn extract_descriptor(
        &self,
        handle: &Self::Handle,
        dependency_name: &str,
        revision: &Revision,
    ) -> (answer: Result<Descriptor, ProtoRepoError>)
        ensures
            self.may_extract(*handle, dependency_name@, revision@, descriptor_answer(answer)),
    ;

    /// Finds the commit that `revision` stands for.
    fn resolve_revision(&self, handle: &Self::Handle, revision: &Revision) -> (answer: Result<
        String,
        ProtoRepoError,
    >)
        ensures
            self.may_resolve(*handle, revision@, commit_answer(answer)),
    ;

    /// Writes the files of the commit `commit_hash` out below `out_dir`, in
    /// the place that belongs to the dependency within the module.
    fn create_worktrees(
        &self,
        handle: &Self::Handle,
        dependency_name: &str,
        module_name: &str,
        commit_hash: &str,
        out_dir: &str,
    ) -> (answer: Result<(), ProtoRepoError>)
        ensures
            self.may_create(
                *handle,
                dependency_name@,
                module_name@,
                commit_hash@,
                out_dir@,
                answer,
            ),
    ;
}

} // verus!
