//! The resolver and the materializer.

use vstd::prelude::*;
use vstd::string::to_string_from_display_ensures;
use vstd::std_specs::convert::FromSpecImpl;
use crate::cache::{CacheError, RepositoryCache};
use crate::coordinate_map::CoordinateMap;
use crate::model::coordinate::{Coordinate, CoordinateView};
use crate::model::dependency::{
    dependency_views, revision_views, Dependency, DependencyView, Revision,
};
use crate::model::lock_file::{
    locked_coordinates, LockFile, LockFileView, LockedDependency, LockedDependencyView,
};
use crate::model::ParseError;
use crate::proto_repository::ProtoRepoError;
use crate::resolution::{
    answered, conflict_views, conflicts_among, conflicts_in, entry_keys, fails, first_seen,
    first_visit, gave_commit, is_traversal, joined, lemma_first_seen, lemma_first_visit,
    lemma_joined_in_step, lemma_one_more_request, lemma_one_more_visit,
    lemma_winners_of_requested, pending_after, pinned, refused_commit, refused_descriptor,
    request_counts, requested, resolves, visited, walked, winners, Conflict, Resolution, Visit,
};

verus! {

/// The most visits that a walk can count: the limit of [`lock`], which no
/// walk that a machine can hold reaches.
pub const MAX_VISITS: usize = usize::MAX;

/// Why a resolution or a materialization failed.
#[derive(Debug)]
pub enum FetchError {
    /// A repository could not be brought into the cache.
    Cache(CacheError),
    /// libgit2 failed.
    GitError(git2::Error),
    /// A manifest is not UTF-8.
    BlobRead(std::str::Utf8Error),
    /// A manifest is not a valid descriptor.
    Parsing(ParseError),
    /// The output path exists and is no directory; the field holds the path.
    BadOutputDir(String),
    /// A cached repository could not answer.
    ProtoRepoError(ProtoRepoError),
    /// Files could not be written out.
    IO(std::io::Error),
    /// The walk of the dependency graph was given up after as many visits as
    /// the field says, the most that the caller allowed.
    TooManyVisits(usize),
}

impl From<CacheError> for FetchError {
    fn from(error: CacheError) -> (r: FetchError) {
        FetchError::Cache(error)
    }
}

impl FromSpecImpl<CacheError> for FetchError {
    open spec fn obeys_from_spec() -> bool {
        true
    }

    open spec fn from_spec(error: CacheError) -> FetchError {
        FetchError::Cache(error)
    }
}

impl From<git2::Error> for FetchError {
    fn from(error: git2::Error) -> (r: FetchError) {
        FetchError::GitError(error)
    }
}

impl FromSpecImpl<git2::Error> for FetchError {
    open spec fn obeys_from_spec() -> bool {
        true
    }

    open spec fn from_spec(error: git2::Error) -> FetchError {
        FetchError::GitError(error)
    }
}

impl From<std::str::Utf8Error> for FetchError {
    fn from(error: std::str::Utf8Error) -> (r: FetchError) {
        FetchError::BlobRead(error)
    }
}

impl FromSpecImpl<std::str::Utf8Error> for FetchError {
    open spec fn obeys_from_spec() -> bool {
        true
    }

    open spec fn from_spec(error: std::str::Utf8Error) -> FetchError {
        FetchError::BlobRead(error)
    }
}

impl From<ParseError> for FetchError {
    fn from(error: ParseError) -> (r: FetchError) {
        FetchError::Parsing(error)
    }
}

impl FromSpecImpl<ParseError> for FetchError {
    open spec fn obeys_from_spec() -> bool {
        true
    }

    open spec fn from_spec(error: ParseError) -> FetchError {
        FetchError::Parsing(error)
    }
}

impl From<ProtoRepoError> for FetchError {
    fn from(error: ProtoRepoError) -> (r: FetchError) {
        FetchError::ProtoRepoError(error)
    }
}

impl FromSpecImpl<ProtoRepoError> for FetchError {
    open spec fn obeys_from_spec() -> bool {
        true
    }

    open spec fn from_spec(error: ProtoRepoError) -> FetchError {
        FetchError::ProtoRepoError(error)
    }
}

impl From<std::io::Error> for FetchError {
    fn from(error: std::io::Error) -> (r: FetchError) {
        FetchError::IO(error)
    }
}

impl FromSpecImpl<std::io::Error> for FetchError {
    open spec fn obeys_from_spec() -> bool {
        true
    }

    open spec fn from_spec(error: std::io::Error) -> FetchError {
        FetchError::IO(error)
    }
}

impl FetchError {
    /// `text` is what this error says of itself. Where the error wraps
    /// another and shows it, the introduction is followed by what that one
    /// says, or, for another crate's error, by what that error displays.
    pub open spec fn says(&self, text: Seq<char>) -> bool {
        match self {
            FetchError::Cache(error) => exists|detail: Seq<char>|
                #[trigger] error.says(detail) && text == "Error while fetching repo from cache: "@
                    + detail,
            FetchError::GitError(error) => exists|detail: String|
                #[trigger] to_string_from_display_ensures::<git2::Error>(error, detail) && text == "Git error: "@
                    + detail@,
            FetchError::BlobRead(error) => exists|detail: String|
                #[trigger] to_string_from_display_ensures::<std::str::Utf8Error>(error, detail) && text == "Error while decoding utf8 bytes from blob: "@
                    + detail@,
            FetchError::Parsing(_) => text == "Error while parsing descriptor"@,
            FetchError::BadOutputDir(path) => text == "Bad output dir "@ + path@,
            FetchError::ProtoRepoError(error) => exists|detail: Seq<char>|
                #[trigger] error.says(detail) && text
                    == "Error while processing protobuf repository: "@ + detail,
            FetchError::IO(error) => exists|detail: String|
                #[trigger] to_string_from_display_ensures::<std::io::Error>(error, detail) && text == "IO error: "@
                    + detail@,
            FetchError::TooManyVisits(_) => text
                == "Gave up resolving: the walk of the dependency graph reached its limit"@,
        }
    }

    /// The error in words, for the user.
    pub fn message(&self) -> (text: String)
        ensures
            self.says(text@),
    {
        match self {
            FetchError::Cache(error) => {
                let detail = error.message();
                let mut text = "Error while fetching repo from cache: ".to_owned();
                text.append(detail.as_str());
                assert(error.says(detail@));
                text
            },
            FetchError::GitError(error) => {
                let detail = error.to_string();
                let mut text = "Git error: ".to_owned();
                text.append(detail.as_str());
                text
            },
            FetchError::BlobRead(error) => {
                let detail = error.to_string();
                let mut text = "Error while decoding utf8 bytes from blob: ".to_owned();
                text.append(detail.as_str());
                text
            },
            FetchError::Parsing(_) => "Error while parsing descriptor".to_owned(),
            FetchError::BadOutputDir(path) => {
                let mut text = "Bad output dir ".to_owned();
                text.append(path.as_str());
                text
            },
            FetchError::ProtoRepoError(error) => {
                let detail = error.message();
                let mut text = "Error while processing protobuf repository: ".to_owned();
                text.append(detail.as_str());
                assert(error.says(detail@));
                text
            },
            FetchError::IO(error) => {
                let detail = error.to_string();
                let mut text = "IO error: ".to_owned();
                text.append(detail.as_str());
                text
            },
            FetchError::TooManyVisits(_) => {
                "Gave up resolving: the walk of the dependency graph reached its limit".to_owned()
            },
        }
    }
}

/// The conflicts in `dep_map`: one for each repository of which more than one
/// revision was requested, counting the requests that lose.
pub fn discarded_requests(dep_map: &CoordinateMap<Vec<Revision>>) -> (conflicts: Vec<Conflict>)
    ensures
        conflict_views(conflicts@) == conflicts_in(dep_map.keys(), request_counts(dep_map.values())),
{
    let ghost keys = dep_map.keys();
    let ghost counts = request_counts(dep_map.values());
    let mut conflicts: Vec<Conflict> = Vec::new();
    let mut i: usize = 0;
    assert(conflict_views(conflicts@) =~= conflicts_in(keys.take(0), counts.take(0)));
    while i < dep_map.len()
        invariant
            i <= dep_map.entries().len(),
            keys == dep_map.keys(),
            counts == request_counts(dep_map.values()),
            conflict_views(conflicts@) == conflicts_in(keys.take(i as int), counts.take(i as int)),
        decreases dep_map.entries().len() - i,
    {
        let requests = dep_map.value(i).len();
        proof {
            assert(keys.take(i + 1).drop_last() =~= keys.take(i as int));
            assert(counts.take(i + 1).drop_last() =~= counts.take(i as int));
        }
        if requests > 1 {
            let conflict = Conflict {
                coordinate: dep_map.key(i).clone(),
                discarded: requests - 1,
            };
            conflicts.push(conflict);
            assert(conflict_views(conflicts@) =~= conflicts_in(
                keys.take(i as int),
                counts.take(i as int),
            ).push(conflict@));
        }
        i += 1;
    }
    assert(keys.take(i as int) =~= keys);
    assert(counts.take(i as int) =~= counts);
    conflicts
}

/// Settles what was requested of each repository: the first revision
/// requested is kept, the others are dropped.
pub fn resolve_conflicts(dep_map: CoordinateMap<Vec<Revision>>) -> (resolved: CoordinateMap<
    Revision,
>)
    requires
        dep_map.wf(),
    ensures
        resolved.wf(),
        resolved.entries() == winners(dep_map.entries()),
{
    let ghost entries = dep_map.entries();
    let mut resolved: CoordinateMap<Revision> = CoordinateMap::new();
    let mut i: usize = 0;
    assert(entries.take(0) =~= Seq::empty());
    while i < dep_map.len()
        invariant
            i <= entries.len(),
            entries == dep_map.entries(),
            dep_map.wf(),
            resolved.wf(),
            resolved.entries() == winners(entries.take(i as int)),
            forall|k: CoordinateView|
                resolved.keys().contains(k) ==> dep_map.keys().take(i as int).contains(k),
        decreases entries.len() - i,
    {
        let revisions = dep_map.value(i);
        let ghost key = dep_map.keys()[i as int];
        let ghost seen = dep_map.keys().take(i as int);
        let ghost next = dep_map.keys().take(i + 1);
        proof {
            assert(entries.take(i + 1).drop_last() =~= entries.take(i as int));
            assert(entries.take(i + 1).last() == entries[i as int]);
            assert(next =~= seen.push(key));
            if seen.contains(key) {
                let j = choose|j: int| 0 <= j < i && seen[j] == key;
                assert(dep_map.keys()[j] == dep_map.keys()[i as int]);
            }
            assert forall|k: CoordinateView| seen.contains(k) implies next.contains(k) by {
                let m = choose|m: int| 0 <= m < i && seen[m] == k;
                assert(next[m] == k);
            }
            assert(next[i as int] == key);
        }
        if revisions.len() > 0 {
            let ghost before = resolved.keys();
            resolved.insert_absent(dep_map.key(i).clone(), revisions[0].clone());
            assert(resolved.keys() =~= before.push(key));
            assert forall|k: CoordinateView| resolved.keys().contains(k) implies next.contains(
                k,
            ) by {
                let j = choose|j: int| 0 <= j < resolved.keys().len() && resolved.keys()[j] == k;
                if j < before.len() {
                    assert(before.contains(k));
                }
            }
        }
        i += 1;
    }
    assert(entries.take(i as int) =~= entries);
    resolved
}

/// Puts each kept revision together with the name and the handle under which
/// its repository is held. A repository that `repositories` does not hold is
/// left out.
pub fn join<H>(
    resolved: CoordinateMap<Revision>,
    repositories: CoordinateMap<(String, H)>,
) -> (with_repos: CoordinateMap<(String, H, Revision)>)
    requires
        resolved.wf(),
        repositories.wf(),
    ensures
        with_repos.wf(),
        with_repos.entries() == joined(resolved.entries(), repositories.entries()),
{
    let ghost entries = resolved.entries();
    let ghost held = repositories;
    let mut repositories = repositories;
    let mut with_repos: CoordinateMap<(String, H, Revision)> = CoordinateMap::new();
    let mut i: usize = 0;
    assert(entries.take(0) =~= Seq::empty());
    while i < resolved.len()
        invariant
            i <= entries.len(),
            entries == resolved.entries(),
            resolved.wf(),
            held.wf(),
            repositories.wf(),
            with_repos.wf(),
            with_repos.entries() == joined(entries.take(i as int), held.entries()),
            forall|k: CoordinateView|
                with_repos.keys().contains(k) ==> resolved.keys().take(i as int).contains(k),
            forall|k: CoordinateView|
                repositories.keys().contains(k) <==> held.keys().contains(k)
                    && !resolved.keys().take(i as int).contains(k),
            forall|k: CoordinateView|
                repositories.keys().contains(k) ==> repositories.value_of(k) == held.value_of(k),
        decreases entries.len() - i,
    {
        let key = resolved.key(i);
        let ghost seen = resolved.keys().take(i as int);
        let ghost next = resolved.keys().take(i + 1);
        proof {
            assert(entries.take(i + 1).drop_last() =~= entries.take(i as int));
            assert(entries.take(i + 1).last() == entries[i as int]);
            assert(next =~= seen.push(key@));
            if seen.contains(key@) {
                let j = choose|j: int| 0 <= j < i && seen[j] == key@;
                assert(resolved.keys()[j] == resolved.keys()[i as int]);
            }
            assert(held.keys() =~= crate::resolution::entry_keys(held.entries()));
            assert forall|k: CoordinateView| next.contains(k) <==> (seen.contains(k) || k
                == key@) by {
                if next.contains(k) {
                    let j = choose|j: int| 0 <= j < next.len() && next[j] == k;
                    if j < i {
                        assert(seen[j] == k);
                    }
                }
                if seen.contains(k) {
                    let j = choose|j: int| 0 <= j < i && seen[j] == k;
                    assert(next[j] == k);
                }
                if k == key@ {
                    assert(next[i as int] == k);
                }
            }
        }
        match repositories.remove(key) {
            Some(found) => {
                let ghost before = with_repos.keys();
                let revision = resolved.value(i).clone();
                with_repos.insert_absent(key.clone(), (found.0, found.1, revision));
                assert(with_repos.keys() =~= before.push(key@));
                assert forall|k: CoordinateView| with_repos.keys().contains(k) implies next.contains(
                    k,
                ) by {
                    let j = choose|j: int|
                        0 <= j < with_repos.keys().len() && with_repos.keys()[j] == k;
                    if j < before.len() {
                        assert(before.contains(k));
                    }
                }
            },
            None => {},
        }
        i += 1;
    }
    assert(entries.take(i as int) =~= entries);
    with_repos
}

/// `cache` gave a commit for the kept revision of the held repository.
pub open spec fn gave_pin<C: RepositoryCache>(
    cache: &C,
    held: (String, C::Handle, Revision),
) -> bool {
    exists|commit_hash: Seq<char>| #[trigger] cache.may_resolve(held.1, held.2@, Ok(commit_hash))
}

/// `cache` refused with `refusal` to say which commit the `at`-th of `held`
/// is pinned to, after it gave a commit for each before that one.
pub open spec fn refused_pin<C: RepositoryCache>(
    cache: &C,
    held: Seq<(String, C::Handle, Revision)>,
    at: int,
    refusal: ProtoRepoError,
) -> bool {
    &&& 0 <= at < held.len()
    &&& cache.may_resolve(held[at].1, held[at].2@, Err(refusal))
    &&& forall|j: int| 0 <= j < at ==> gave_pin(cache, #[trigger] held[j])
}

/// Pins each repository of `dep_map` to the commit that its kept revision
/// stands for, and gathers the pins in the lock file of `module_name`, in the
/// order of the map.
///
/// Each commit is what `cache` answered when asked for the kept revision in
/// the held repository. The first refusal is the failure.
pub fn lock_dependencies<Cache: RepositoryCache>(
    module_name: String,
    cache: &Cache,
    dep_map: &CoordinateMap<(String, Cache::Handle, Revision)>,
) -> (r: Result<LockFile, FetchError>)
    ensures
        match r {
            Ok(lock_file) => {
                &&& lock_file@.module_name == module_name@
                &&& locked_coordinates(lock_file@.dependencies) == dep_map.keys()
                &&& forall|i: int|
                    0 <= i < lock_file@.dependencies.len() ==> (
                    #[trigger] lock_file@.dependencies[i]).name == dep_map.values()[i].0@
                        && cache.may_resolve(
                        dep_map.values()[i].1,
                        dep_map.values()[i].2@,
                        Ok(lock_file@.dependencies[i].commit_hash),
                    )
                &&& dep_map.wf() ==> lock_file@.unique()
            },
            Err(error) => error matches FetchError::ProtoRepoError(refusal) && exists|at: int|
                #[trigger] refused_pin(cache, dep_map.values(), at, refusal),
        },
{
    let mut locked_deps: Vec<LockedDependency> = Vec::new();
    let mut i: usize = 0;
    while i < dep_map.len()
        invariant
            i <= dep_map.entries().len(),
            locked_deps@.len() == i,
            forall|j: int|
                0 <= j < i ==> (#[trigger] locked_deps@[j])@.coordinate == dep_map.keys()[j],
            forall|j: int|
                0 <= j < i ==> (#[trigger] locked_deps@[j])@.name == dep_map.values()[j].0@
                    && cache.may_resolve(
                    dep_map.values()[j].1,
                    dep_map.values()[j].2@,
                    Ok(locked_deps@[j]@.commit_hash),
                ),
            forall|j: int| 0 <= j < i ==> gave_pin(cache, #[trigger] dep_map.values()[j]),
        decreases dep_map.entries().len() - i,
    {
        let entry = dep_map.value(i);
        let commit_hash = match cache.resolve_revision(&entry.1, &entry.2) {
            Ok(commit_hash) => commit_hash,
            Err(error) => {
                assert(refused_pin(cache, dep_map.values(), i as int, error));
                return Err(FetchError::from(error));
            },
        };
        let locked_dep = LockedDependency {
            name: entry.0.clone(),
            coordinate: dep_map.key(i).clone(),
            commit_hash,
        };
        assert(gave_pin(cache, dep_map.values()[i as int]));
        locked_deps.push(locked_dep);
        i += 1;
    }
    let lock_file = LockFile { module_name, dependencies: locked_deps };
    assert(locked_coordinates(lock_file@.dependencies) =~= dep_map.keys());
    Ok(lock_file)
}

/// `dep_map` holds what `requests` ask for: the repositories in the order in
/// which they are first named, each with the revisions requested of it, in
/// order.
pub open spec fn requests_noted(
    dep_map: CoordinateMap<Vec<Revision>>,
    requests: Seq<DependencyView>,
) -> bool {
    &&& dep_map.wf()
    &&& dep_map.keys() == first_seen(requests)
    &&& forall|i: int|
        0 <= i < dep_map.keys().len() ==> revision_views(#[trigger] dep_map.values()[i]@)
            == requested(requests, dep_map.keys()[i])
}

/// `repo_map` holds the repositories that `visits` name, in the order in
/// which they are first named, each under the name and with the handle of
/// the first visit to it.
pub open spec fn repositories_held<H>(
    repo_map: CoordinateMap<(String, H)>,
    visits: Seq<Visit<H>>,
) -> bool {
    &&& repo_map.wf()
    &&& repo_map.keys() == first_seen(visited(visits))
    &&& forall|i: int|
        0 <= i < repo_map.keys().len() ==> {
            let first = first_visit(visits, repo_map.keys()[i]).unwrap();
            &&& (#[trigger] repo_map.values()[i]).0@ == first.dependency.name
            &&& repo_map.values()[i].1 == first.handle
        }
}

/// Notes that `revision` is requested of `coordinate`.
fn note_request(
    dep_map: &mut CoordinateMap<Vec<Revision>>,
    coordinate: &Coordinate,
    revision: &Revision,
    Ghost(requests): Ghost<Seq<DependencyView>>,
    Ghost(request): Ghost<DependencyView>,
)
    requires
        requests_noted(*old(dep_map), requests),
        request.coordinate == coordinate@,
        request.revision == revision@,
    ensures
        requests_noted(*final(dep_map), requests.push(request)),
{
    let ghost before = *dep_map;
    dep_map.record(coordinate, revision.clone());
    proof {
        lemma_one_more_request(requests, request);
        lemma_first_seen(requests);
        let after = *dep_map;
        let now = requests.push(request);
        if before.keys().contains(coordinate@) {
            let at = before.keys().index_of(coordinate@);
            before.keys().index_of_first_ensures(coordinate@);
            assert forall|i: int| 0 <= i < after.keys().len() implies revision_views(
                #[trigger] after.values()[i]@,
            ) == requested(now, after.keys()[i]) by {
                if i == at {
                    assert(revision_views(after.values()[i]@) =~= revision_views(
                        before.values()[i]@,
                    ).push(revision@));
                } else {
                    assert(after.values()[i] == before.values()[i]);
                }
            }
        } else {
            assert(requested(requests, coordinate@).len() == 0);
            assert forall|i: int| 0 <= i < after.keys().len() implies revision_views(
                #[trigger] after.values()[i]@,
            ) == requested(now, after.keys()[i]) by {
                if i < before.keys().len() {
                    assert(after.values()[i] == before.values()[i]);
                    assert(before.keys().contains(before.keys()[i]));
                } else {
                    assert(after.values()[i] == after.values().last());
                    assert(revision_views(after.values()[i]@) =~= seq![revision@]);
                    assert(requested(now, coordinate@) =~= seq![revision@]);
                }
            }
        }
    }
}

/// Holds the repository at `coordinate` under `name`, unless the repository
/// is held already.
fn hold_repository<H>(
    repo_map: &mut CoordinateMap<(String, H)>,
    coordinate: Coordinate,
    name: String,
    handle: H,
    Ghost(visits): Ghost<Seq<Visit<H>>>,
    Ghost(visit): Ghost<Visit<H>>,
)
    requires
        repositories_held(*old(repo_map), visits),
        visit.dependency.coordinate == coordinate@,
        visit.dependency.name == name@,
        visit.handle == handle,
    ensures
        repositories_held(*final(repo_map), visits.push(visit)),
{
    let ghost before = *repo_map;
    repo_map.insert_absent(coordinate, (name, handle));
    proof {
        lemma_one_more_visit(visits, visit);
        lemma_one_more_request(visited(visits), visit.dependency);
        lemma_first_visit(visits);
        let after = *repo_map;
        let now = visits.push(visit);
        if !before.keys().contains(coordinate@) {
            assert(after.keys() =~= before.keys().push(coordinate@));
            assert(first_visit(visits, coordinate@).is_none());
        }
        assert forall|i: int| 0 <= i < after.keys().len() implies {
            let first = first_visit(now, after.keys()[i]).unwrap();
            &&& (#[trigger] after.values()[i]).0@ == first.dependency.name
            &&& after.values()[i].1 == first.handle
        } by {
            if i < before.keys().len() {
                assert(after.values()[i] == before.values()[i]);
                assert(before.keys().contains(before.keys()[i]));
                assert(first_visit(visits, before.keys()[i]).is_some());
            } else {
                assert(after.keys()[i] == coordinate@);
                assert(after.values()[i].0 == name);
                assert(after.values()[i].1 == handle);
            }
        }
    }
}

/// The dependencies that are still to be visited, the next one first. The
/// walk holds them the other way round, the next one last.
pub open spec fn stack_of(pending: Seq<Dependency>) -> Seq<DependencyView> {
    dependency_views(pending).reverse()
}

/// Walks the graph below `dependencies` depth first, in declared order, and
/// gathers what is requested of each repository and the repositories
/// themselves. Gives up where `max_visits` visits are made and something is
/// left to visit.
fn traverse<Cache: RepositoryCache>(
    cache: &Cache,
    dependencies: &[Dependency],
    max_visits: usize,
) -> (r: (
    Result<(CoordinateMap<Vec<Revision>>, CoordinateMap<(String, Cache::Handle)>), FetchError>,
    Ghost<Seq<Visit<Cache::Handle>>>,
))
    ensures
        r.1@.len() <= max_visits,
        dependencies@.len() == 0 ==> r.0 is Ok && r.1@.len() == 0,
        match r.0 {
            Ok(maps) => {
                &&& walked(cache, dependency_views(dependencies@), r.1@)
                &&& is_traversal(dependency_views(dependencies@), r.1@)
                &&& requests_noted(maps.0, visited(r.1@))
                &&& repositories_held(maps.1, r.1@)
            },
            Err(error) => fails(
                cache,
                dependency_views(dependencies@),
                max_visits as nat,
                r.1@,
                error,
            ),
        },
{
    let ghost roots = dependency_views(dependencies@);
    let mut pending: Vec<Dependency> = Vec::new();
    let mut k: usize = dependencies.len();
    assert(stack_of(pending@) =~= roots.skip(k as int));
    while k > 0
        invariant
            k <= dependencies@.len(),
            roots == dependency_views(dependencies@),
            pending@.len() == dependencies@.len() - k,
            stack_of(pending@) == roots.skip(k as int),
        decreases k,
    {
        k -= 1;
        let ghost below = stack_of(pending@);
        pending.push(dependencies[k].clone());
        assert(stack_of(pending@) =~= seq![roots[k as int]] + below);
        assert(stack_of(pending@) =~= roots.skip(k as int));
    }
    assert(roots.skip(0) =~= roots);
    let mut dep_map: CoordinateMap<Vec<Revision>> = CoordinateMap::new();
    let mut repo_map: CoordinateMap<(String, Cache::Handle)> = CoordinateMap::new();
    let ghost mut visits: Seq<Visit<Cache::Handle>> = Seq::empty();
    let mut count: usize = 0;
    assert(visited(visits) =~= Seq::<DependencyView>::empty());
    assert(dep_map.keys() =~= Seq::<CoordinateView>::empty());
    assert(repo_map.keys() =~= Seq::<CoordinateView>::empty());
    while pending.len() > 0
        invariant
            roots == dependency_views(dependencies@),
            pending_after(roots, visits) == Some(stack_of(pending@)),
            forall|k: int| 0 <= k < visits.len() ==> answered(cache, #[trigger] visits[k]),
            count == visits.len(),
            count <= max_visits,
            pending@.len() > 0 ==> dependencies@.len() > 0,
            dependencies@.len() == 0 ==> visits.len() == 0,
            requests_noted(dep_map, visited(visits)),
            repositories_held(repo_map, visits),
        decreases max_visits - count,
    {
        let ghost stack = stack_of(pending@);
        let dependency = pending.pop().unwrap();
        let ghost request = dependency@;
        proof {
            assert(stack[0] == request);
            assert(stack_of(pending@) =~= stack.skip(1));
        }
        if count >= max_visits {
            return (Err(FetchError::TooManyVisits(max_visits)), Ghost(visits));
        }
        count += 1;
        let Dependency { name, coordinate, revision, rules: _ } = dependency;
        note_request(&mut dep_map, &coordinate, &revision, Ghost(visited(visits)), Ghost(request));
        let repo = match cache.clone_or_update(&coordinate) {
            Ok(repo) => repo,
            Err(error) => {
                return (Err(FetchError::from(error)), Ghost(visits));
            },
        };
        let descriptor = match cache.extract_descriptor(&repo, name.as_str(), &revision) {
            Ok(descriptor) => descriptor,
            Err(error) => {
                assert(refused_descriptor(cache, request, repo, error));
                return (Err(FetchError::from(error)), Ghost(visits));
            },
        };
        let ghost visit = Visit { dependency: request, handle: repo, descriptor: descriptor@ };
        assert(answered(cache, visit));
        hold_repository(&mut repo_map, coordinate, name, repo, Ghost(visits), Ghost(visit));
        let mut declared = descriptor.dependencies;
        let ghost children = dependency_views(declared@);
        let ghost below = dependency_views(pending@);
        assert(children.take(declared@.len() as int) =~= children);
        assert(below + children.skip(declared@.len() as int).reverse() =~= below);
        while declared.len() > 0
            invariant
                declared@.len() <= children.len(),
                dependency_views(declared@) == children.take(declared@.len() as int),
                dependency_views(pending@) == below + children.skip(
                    declared@.len() as int,
                ).reverse(),
            decreases declared@.len(),
        {
            let ghost n = declared@.len() as int;
            let ghost held = dependency_views(declared@);
            let ghost stacked = dependency_views(pending@);
            let child = declared.pop().unwrap();
            pending.push(child);
            proof {
                assert(child@ == held[n - 1]);
                assert(dependency_views(pending@) =~= stacked.push(child@));
                assert(dependency_views(declared@) =~= children.take(n - 1));
                assert(children.skip(n - 1).reverse() =~= children.skip(n).reverse().push(
                    children[n - 1],
                ));
                assert(dependency_views(pending@) =~= below + children.skip(n - 1).reverse());
            }
        }
        proof {
            lemma_one_more_visit(visits, visit);
            assert(visits.push(visit).drop_last() =~= visits);
            assert(children.skip(0) =~= children);
            assert(stack_of(pending@) =~= children + stack.skip(1));
            visits = visits.push(visit);
        }
    }
    assert(stack_of(pending@) =~= Seq::<DependencyView>::empty());
    (Ok((dep_map, repo_map)), Ghost(visits))
}

/// `outcome` is how resolving `roots` for the module `module_name` ends
/// where a walk may make `limit` visits. A resolution that comes back is the
/// one that belongs to a complete walk of at most `limit` visits that the
/// cache answered: see [`resolves`]. A failure is the first refusal of the
/// cache, at the point of the walk where it came, or the walk was given up at
/// the limit: see [`fails`].
pub open spec fn locks<C: RepositoryCache>(
    cache: &C,
    module_name: Seq<char>,
    roots: Seq<DependencyView>,
    limit: nat,
    outcome: Result<Resolution, FetchError>,
) -> bool {
    match outcome {
        Ok(resolution) => exists|visits: Seq<Visit<C::Handle>>|
            visits.len() <= limit && #[trigger] resolves(
                cache,
                module_name,
                roots,
                visits,
                resolution@,
            ),
        Err(error) => exists|visits: Seq<Visit<C::Handle>>|
            visits.len() <= limit && #[trigger] fails(cache, roots, limit, visits, error),
    }
}

/// An outcome that belongs to a walk within the limit is an outcome of
/// resolving.
proof fn lemma_locks<C: RepositoryCache>(
    cache: &C,
    module_name: Seq<char>,
    roots: Seq<DependencyView>,
    limit: nat,
    visits: Seq<Visit<C::Handle>>,
    outcome: Result<Resolution, FetchError>,
)
    requires
        visits.len() <= limit,
        match outcome {
            Ok(resolution) => resolves(cache, module_name, roots, visits, resolution@),
            Err(error) => fails(cache, roots, limit, visits, error),
        },
    ensures
        locks(cache, module_name, roots, limit, outcome),
{
}

/// Resolves `dependencies` for the module `module_name`: walks the graph
/// below them depth first, keeps for each repository the first revision
/// requested of it, and pins each repository to the commit that the kept
/// revision stands for.
///
/// What comes back depends on what `cache` answers: see [`locks`]. The walk
/// goes on for as long as the machine can count its visits, so a graph with
/// a cycle is walked without end. With nothing to resolve the resolution
/// succeeds, and pins nothing.
pub fn lock<Cache: RepositoryCache>(
    module_name: String,
    cache: &Cache,
    dependencies: &[Dependency],
) -> (r: Result<Resolution, FetchError>)
    ensures
        locks(cache, module_name@, dependency_views(dependencies@), MAX_VISITS as nat, r),
        r matches Ok(resolution) ==> resolution@.lock_file.unique(),
        dependencies@.len() == 0 ==> (r matches Ok(resolution)
            && resolution@.lock_file.dependencies.len() == 0 && resolution@.conflicts.len() == 0),
{
    lock_within(module_name, cache, dependencies, MAX_VISITS)
}

/// Resolves as [`lock`] does, but gives the walk up with
/// [`FetchError::TooManyVisits`] where `max_visits` visits are made and
/// something is left to visit: the way to resolve a graph that may hold a
/// cycle.
pub fn lock_within<Cache: RepositoryCache>(
    module_name: String,
    cache: &Cache,
    dependencies: &[Dependency],
    max_visits: usize,
) -> (r: Result<Resolution, FetchError>)
    ensures
        locks(cache, module_name@, dependency_views(dependencies@), max_visits as nat, r),
        r matches Ok(resolution) ==> resolution@.lock_file.unique(),
        dependencies@.len() == 0 ==> (r matches Ok(resolution)
            && resolution@.lock_file.dependencies.len() == 0 && resolution@.conflicts.len() == 0),
{
    let ghost roots = dependency_views(dependencies@);
    let (walked_graph, Ghost(visits)) = traverse(cache, dependencies, max_visits);
    let (dep_map, repo_map) = match walked_graph {
        Ok(maps) => maps,
        Err(error) => {
            proof {
                lemma_locks(cache, module_name@, roots, max_visits as nat, visits, Err(error));
            }
            return Err(error);
        },
    };
    let ghost requests = visited(visits);
    let ghost noted = dep_map.entries();
    let ghost held = repo_map.entries();
    let ghost keys = dep_map.keys();
    let ghost repositories = repo_map.values();
    let conflicts = discarded_requests(&dep_map);
    proof {
        lemma_first_seen(requests);
        lemma_first_visit(visits);
        assert(request_counts(dep_map.values()) =~= first_seen(requests).map_values(
            |c: CoordinateView| requested(requests, c).len(),
        )) by {
            assert forall|i: int| 0 <= i < keys.len() implies request_counts(dep_map.values())[i]
                == requested(requests, keys[i]).len() by {
                assert(revision_views(dep_map.values()[i]@).len() == dep_map.values()[i]@.len());
            }
        }
        assert(conflict_views(conflicts@) == conflicts_among(requests));
        assert forall|i: int| 0 <= i < noted.len() implies (#[trigger] noted[i]).1@.len() > 0
            && revision_views(noted[i].1@) == requested(requests, keys[i]) by {
            assert(keys.contains(keys[i]));
            assert(noted[i].1 == dep_map.values()[i]);
            assert(revision_views(dep_map.values()[i]@).len() == dep_map.values()[i]@.len());
        }
        lemma_winners_of_requested(noted);
    }
    let resolved = resolve_conflicts(dep_map);
    proof {
        assert(entry_keys(held) =~= repo_map.keys());
        assert forall|i: int| 0 <= i < resolved.entries().len() implies (
        #[trigger] resolved.entries()[i]).0 == held[i].0 by {
            assert(resolved.entries()[i].0 == noted[i].0);
            assert(noted[i].0 == keys[i]);
            assert(held[i].0 == repo_map.keys()[i]);
        }
        lemma_joined_in_step(resolved.entries(), held);
    }
    let with_repos = join(resolved, repo_map);
    proof {
        assert(with_repos.keys() =~= first_seen(requests));
        assert forall|i: int| 0 <= i < with_repos.entries().len() implies {
            let first = first_visit(visits, keys[i]).unwrap();
            &&& first_visit(visits, keys[i]).is_some()
            &&& (#[trigger] with_repos.values()[i]).0@ == first.dependency.name
            &&& with_repos.values()[i].1 == first.handle
            &&& with_repos.values()[i].2@ == first.dependency.revision
        } by {
            assert(keys.contains(keys[i]));
            assert(with_repos.entries()[i].1.0 == held[i].1.0);
            assert(with_repos.entries()[i].1.1 == held[i].1.1);
            assert(with_repos.entries()[i].1.2 == noted[i].1@[0]);
            assert(repositories[i] == held[i].1);
            assert(noted[i].1@.len() > 0);
            assert(revision_views(noted[i].1@)[0] == noted[i].1@[0]@);
            assert(revision_views(noted[i].1@) == requested(requests, keys[i]));
        }
    }
    let lock_file = match lock_dependencies(module_name, cache, &with_repos) {
        Ok(lock_file) => lock_file,
        Err(error) => {
            proof {
                if dependencies@.len() == 0 {
                    assert(with_repos.entries().len() == first_seen(requests).len());
                    assert(requests =~= Seq::<DependencyView>::empty());
                }
                let refusal = choose|refusal: ProtoRepoError|
                    error == FetchError::ProtoRepoError(refusal);
                let at = choose|at: int|
                    #[trigger] refused_pin(cache, with_repos.values(), at, refusal);
                assert(with_repos.values()[at].1 == first_visit(visits, keys[at]).unwrap().handle);
                assert forall|j: int| 0 <= j < at implies gave_commit(
                    cache,
                    visits,
                    #[trigger] first_seen(requests)[j],
                ) by {
                    let first = first_visit(visits, keys[j]).unwrap();
                    assert(with_repos.values()[j].1 == first.handle);
                    assert(gave_pin(cache, with_repos.values()[j]));
                    let commit_hash = choose|commit_hash: Seq<char>| #[trigger]
                        cache.may_resolve(
                            with_repos.values()[j].1,
                            with_repos.values()[j].2@,
                            Ok(commit_hash),
                        );
                    assert(cache.may_resolve(
                        first.handle,
                        first.dependency.revision,
                        Ok(commit_hash),
                    ));
                }
                assert(refused_commit(cache, visits, at, refusal));
                assert(fails(cache, roots, max_visits as nat, visits, error));
                lemma_locks(cache, module_name@, roots, max_visits as nat, visits, Err(error));
            }
            return Err(error);
        },
    };
    let resolution = Resolution { lock_file, conflicts };
    proof {
        let locked = resolution@.lock_file.dependencies;
        assert forall|i: int| 0 <= i < locked.len() implies pinned(
            cache,
            visits,
            #[trigger] locked[i],
        ) by {
            assert(locked_coordinates(locked)[i] == locked[i].coordinate);
            assert(locked[i].name == with_repos.values()[i].0@);
        }
        assert(resolves(cache, module_name@, roots, visits, resolution@));
        assert(resolution@.lock_file.unique());
        lemma_locks(cache, module_name@, roots, max_visits as nat, visits, Ok(resolution));
        if dependencies@.len() == 0 {
            assert(requests =~= Seq::<DependencyView>::empty());
            assert(first_seen(requests) =~= Seq::<CoordinateView>::empty());
            assert(locked_coordinates(locked).len() == 0);
            assert(resolution@.conflicts.len() == 0);
        }
    }
    Ok(resolution)
}

/// `cache` may have brought the repository of `locked` up to date and
/// written its pinned commit out below `out_dir`, for the module
/// `module_name`.
pub open spec fn materialized<C: RepositoryCache>(
    cache: &C,
    module_name: Seq<char>,
    locked: LockedDependencyView,
    out_dir: Seq<char>,
) -> bool {
    exists|handle: C::Handle|
        #![trigger cache.may_clone(locked.coordinate, Ok(handle))]
        cache.may_clone(locked.coordinate, Ok(handle)) && cache.may_create(
            handle,
            locked.name,
            module_name,
            locked.commit_hash,
            out_dir,
            Ok(()),
        )
}

/// `error` is how materializing `locked` fails: the cache refused the
/// repository, or refused to write it out.
pub open spec fn refused<C: RepositoryCache>(
    cache: &C,
    module_name: Seq<char>,
    locked: LockedDependencyView,
    out_dir: Seq<char>,
    error: FetchError,
) -> bool {
    match error {
        FetchError::Cache(refusal) => cache.may_clone(locked.coordinate, Err(refusal)),
        FetchError::ProtoRepoError(refusal) => exists|handle: C::Handle|
            #![trigger cache.may_clone(locked.coordinate, Ok(handle))]
            cache.may_clone(locked.coordinate, Ok(handle)) && cache.may_create(
                handle,
                locked.name,
                module_name,
                locked.commit_hash,
                out_dir,
                Err(refusal),
            ),
        _ => false,
    }
}

/// Materializing `lock_file` below `out_dir` stopped with `error` at the
/// `at`-th pinned repository: the cache refused that one, after every one
/// before it was written out.
pub open spec fn stopped_at<C: RepositoryCache>(
    cache: &C,
    lock_file: LockFileView,
    out_dir: Seq<char>,
    at: int,
    error: FetchError,
) -> bool {
    &&& 0 <= at < lock_file.dependencies.len()
    &&& refused(cache, lock_file.module_name, lock_file.dependencies[at], out_dir, error)
    &&& forall|j: int|
        0 <= j < at ==> materialized(
            cache,
            lock_file.module_name,
            #[trigger] lock_file.dependencies[j],
            out_dir,
        )
}

/// `outcome` is how materializing `lock_file` below `out_dir` ends: every
/// pinned repository was brought up to date and written out, or the cache
/// refused one after every one before it was written out.
pub open spec fn materializes<C: RepositoryCache>(
    cache: &C,
    lock_file: LockFileView,
    out_dir: Seq<char>,
    outcome: Result<(), FetchError>,
) -> bool {
    match outcome {
        Ok(_) => forall|i: int|
            0 <= i < lock_file.dependencies.len() ==> materialized(
                cache,
                lock_file.module_name,
                #[trigger] lock_file.dependencies[i],
                out_dir,
            ),
        Err(error) => exists|at: int| #[trigger] stopped_at(cache, lock_file, out_dir, at, error),
    }
}

/// Writes every repository that `lockfile` pins out below `out_dir`, each at
/// its pinned commit. `out_dir_is_directory` says whether `out_dir`, created
/// by the caller where it was absent, is a directory.
///
/// Where it is none, nothing is asked of `cache` and the failure names the
/// path. Otherwise every pinned repository is brought up to date and written
/// out, in the order of the lock file, up to the first that the cache
/// refuses.
pub fn fetch<Cache: RepositoryCache>(
    cache: &Cache,
    lockfile: &LockFile,
    out_dir: &str,
    out_dir_is_directory: bool,
) -> (r: Result<(), FetchError>)
    ensures
        !out_dir_is_directory ==> (r matches Err(FetchError::BadOutputDir(path)) && path@
            == out_dir@),
        out_dir_is_directory ==> materializes(cache, lockfile@, out_dir@, r),
{
    if !out_dir_is_directory {
        return Err(FetchError::BadOutputDir(out_dir.to_owned()));
    }
    let ghost module_name = lockfile@.module_name;
    let ghost locked = lockfile@.dependencies;
    let mut i: usize = 0;
    while i < lockfile.dependencies.len()
        invariant
            out_dir_is_directory,
            module_name == lockfile@.module_name,
            locked == lockfile@.dependencies,
            i <= lockfile.dependencies@.len(),
            forall|j: int|
                0 <= j < i ==> materialized(cache, module_name, #[trigger] locked[j], out_dir@),
        decreases lockfile.dependencies@.len() - i,
    {
        let dep = &lockfile.dependencies[i];
        assert(dep@ == locked[i as int]);
        let repo = match cache.clone_or_update(&dep.coordinate) {
            Ok(repo) => repo,
            Err(error) => {
                assert(stopped_at(
                    cache,
                    lockfile@,
                    out_dir@,
                    i as int,
                    FetchError::Cache(error),
                ));
                return Err(FetchError::from(error));
            },
        };
        match cache.create_worktrees(
            &repo,
            dep.name.as_str(),
            lockfile.module_name.as_str(),
            dep.commit_hash.as_str(),
            out_dir,
        ) {
            Ok(done) => {
                assert(done == ());
                assert(cache.may_create(
                    repo,
                    dep@.name,
                    module_name,
                    dep@.commit_hash,
                    out_dir@,
                    Ok(()),
                ));
                assert(materialized(cache, module_name, locked[i as int], out_dir@));
            },
            Err(error) => {
                assert(stopped_at(
                    cache,
                    lockfile@,
                    out_dir@,
                    i as int,
                    FetchError::ProtoRepoError(error),
                ));
                return Err(FetchError::from(error));
            },
        }
        i += 1;
    }
    Ok(())
}

} // verus!
