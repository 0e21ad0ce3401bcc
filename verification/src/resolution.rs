//! The mathematical account of a resolution: what a depth-first walk of the
//! dependency graph is, what it requests of each repository, and what the
//! lock file and the conflicts are that follow from it.

use vstd::prelude::*;
use crate::cache::RepositoryCache;
use crate::fetch::FetchError;
use crate::model::coordinate::{Coordinate, CoordinateView};
use crate::model::dependency::{DependencyView, DescriptorView, Revision, RevisionView};
use crate::model::lock_file::{
    locked_coordinates, LockFile, LockFileView, LockedDependencyView,
};
use crate::proto_repository::ProtoRepoError;

verus! {

/// One step of a walk: the dependency that was visited, the handle under
/// which its repository was found in the cache, and the manifest that the
/// repository held at the requested revision.
pub struct Visit<H> {
    pub dependency: DependencyView,
    pub handle: H,
    pub descriptor: DescriptorView,
}

/// The dependencies that a walk visited, in order.
pub open spec fn visited<H>(visits: Seq<Visit<H>>) -> Seq<DependencyView> {
    visits.map_values(|v: Visit<H>| v.dependency)
}

/// The dependencies that are still to be visited when a walk from `roots`
/// has made `visits`, the next one first. Each visit takes the next
/// dependency and puts what it declares in front of the others, in declared
/// order: siblings are visited in declared order, and each is followed to the
/// end before the next. `None` if `visits` is no such walk.
pub open spec fn pending_after<H>(roots: Seq<DependencyView>, visits: Seq<Visit<H>>) -> Option<
    Seq<DependencyView>,
>
    decreases visits.len(),
{
    if visits.len() == 0 {
        Some(roots)
    } else {
        match pending_after(roots, visits.drop_last()) {
            Some(pending) => if pending.len() > 0 && pending[0] == visits.last().dependency {
                Some(visits.last().descriptor.dependencies + pending.skip(1))
            } else {
                None
            },
            None => None,
        }
    }
}

/// `visits` is a complete depth-first walk from `roots`: nothing is left to
/// visit.
pub open spec fn is_traversal<H>(roots: Seq<DependencyView>, visits: Seq<Visit<H>>) -> bool {
    pending_after(roots, visits) == Some(Seq::<DependencyView>::empty())
}

/// The repositories that `requests` name, each once, in the order in which
/// they are first named.
pub open spec fn first_seen(requests: Seq<DependencyView>) -> Seq<CoordinateView>
    decreases requests.len(),
{
    if requests.len() == 0 {
        Seq::empty()
    } else {
        let earlier = first_seen(requests.drop_last());
        if earlier.contains(requests.last().coordinate) {
            earlier
        } else {
            earlier.push(requests.last().coordinate)
        }
    }
}

/// The revisions that `requests` ask of `coordinate`, in order.
pub open spec fn requested(requests: Seq<DependencyView>, coordinate: CoordinateView) -> Seq<
    RevisionView,
>
    decreases requests.len(),
{
    if requests.len() == 0 {
        Seq::empty()
    } else {
        let earlier = requested(requests.drop_last(), coordinate);
        if requests.last().coordinate == coordinate {
            earlier.push(requests.last().revision)
        } else {
            earlier
        }
    }
}

/// The first of `visits` to the repository at `coordinate`.
pub open spec fn first_visit<H>(visits: Seq<Visit<H>>, coordinate: CoordinateView) -> Option<
    Visit<H>,
>
    decreases visits.len(),
{
    if visits.len() == 0 {
        None
    } else {
        match first_visit(visits.drop_last(), coordinate) {
            Some(first) => Some(first),
            None => if visits.last().dependency.coordinate == coordinate {
                Some(visits.last())
            } else {
                None
            },
        }
    }
}

/// A repository that was requested more than once: all requests but the
/// first were discarded.
#[derive(Debug, PartialEq, Eq)]
pub struct Conflict {
    pub coordinate: Coordinate,
    pub discarded: usize,
}

/// A conflict as a mathematical value.
pub struct ConflictView {
    pub coordinate: CoordinateView,
    pub discarded: nat,
}

impl View for Conflict {
    type V = ConflictView;

    open spec fn view(&self) -> ConflictView {
        ConflictView { coordinate: self.coordinate@, discarded: self.discarded as nat }
    }
}

/// The views of a list of conflicts, in order.
pub open spec fn conflict_views(conflicts: Seq<Conflict>) -> Seq<ConflictView> {
    conflicts.map_values(|c: Conflict| c@)
}

/// The conflicts among repositories `keys`, of which the i-th was requested
/// `counts[i]` times: one for each that was requested more than once, in the
/// order of the keys, counting the requests beyond the first.
pub open spec fn conflicts_in(keys: Seq<CoordinateView>, counts: Seq<nat>) -> Seq<ConflictView>
    recommends
        keys.len() == counts.len(),
    decreases keys.len(),
{
    if keys.len() == 0 || counts.len() == 0 {
        Seq::empty()
    } else {
        let earlier = conflicts_in(keys.drop_last(), counts.drop_last());
        if counts.last() > 1 {
            earlier.push(
                ConflictView { coordinate: keys.last(), discarded: (counts.last() - 1) as nat },
            )
        } else {
            earlier
        }
    }
}

/// The conflicts that `requests` give rise to.
pub open spec fn conflicts_among(requests: Seq<DependencyView>) -> Seq<ConflictView> {
    conflicts_in(
        first_seen(requests),
        first_seen(requests).map_values(|c: CoordinateView| requested(requests, c).len()),
    )
}

/// How often each repository was requested, given the requests noted for
/// each.
pub open spec fn request_counts(values: Seq<Vec<Revision>>) -> Seq<nat> {
    values.map_values(|v: Vec<Revision>| v@.len())
}

/// The revision that is kept for each repository: the first that was
/// requested of it. A repository of which nothing was requested is left out.
pub open spec fn winners(entries: Seq<(CoordinateView, Vec<Revision>)>) -> Seq<
    (CoordinateView, Revision),
>
    decreases entries.len(),
{
    if entries.len() == 0 {
        Seq::empty()
    } else {
        let earlier = winners(entries.drop_last());
        let entry = entries.last();
        if entry.1@.len() > 0 {
            earlier.push((entry.0, entry.1@[0]))
        } else {
            earlier
        }
    }
}

/// The keys of a list of entries, in order.
pub open spec fn entry_keys<V>(entries: Seq<(CoordinateView, V)>) -> Seq<CoordinateView> {
    entries.map_values(|e: (CoordinateView, V)| e.0)
}

/// Each kept revision together with the name and the handle under which its
/// repository is held, in the order of `resolved`. A repository that is not
/// among `repositories` is left out.
pub open spec fn joined<H>(
    resolved: Seq<(CoordinateView, Revision)>,
    repositories: Seq<(CoordinateView, (String, H))>,
) -> Seq<(CoordinateView, (String, H, Revision))>
    decreases resolved.len(),
{
    if resolved.len() == 0 {
        Seq::empty()
    } else {
        let earlier = joined(resolved.drop_last(), repositories);
        let entry = resolved.last();
        if entry_keys(repositories).contains(entry.0) {
            let held = repositories[entry_keys(repositories).index_of(entry.0)].1;
            earlier.push((entry.0, (held.0, held.1, entry.1)))
        } else {
            earlier
        }
    }
}

/// What a resolution hands back: the lock file, and the conflicts that were
/// settled on the way to it.
#[derive(Debug, PartialEq, Eq)]
pub struct Resolution {
    pub lock_file: LockFile,
    pub conflicts: Vec<Conflict>,
}

/// A resolution as a mathematical value.
pub struct ResolutionView {
    pub lock_file: LockFileView,
    pub conflicts: Seq<ConflictView>,
}

impl View for Resolution {
    type V = ResolutionView;

    open spec fn view(&self) -> ResolutionView {
        ResolutionView { lock_file: self.lock_file@, conflicts: conflict_views(self.conflicts@) }
    }
}

/// The cache may have answered as `visit` says: with the handle when asked
/// for the repository of the dependency, and with the manifest when asked
/// what that repository holds for the dependency at the requested revision.
pub open spec fn answered<C: RepositoryCache>(cache: &C, visit: Visit<C::Handle>) -> bool {
    &&& cache.may_clone(visit.dependency.coordinate, Ok(visit.handle))
    &&& cache.may_extract(
        visit.handle,
        visit.dependency.name,
        visit.dependency.revision,
        Ok(visit.descriptor),
    )
}

/// `visits` is a walk from `roots`, complete or not, that `cache` may have
/// answered.
pub open spec fn walked<C: RepositoryCache>(
    cache: &C,
    roots: Seq<DependencyView>,
    visits: Seq<Visit<C::Handle>>,
) -> bool {
    &&& pending_after(roots, visits).is_some()
    &&& forall|k: int| 0 <= k < visits.len() ==> answered(cache, #[trigger] visits[k])
}

/// `locked` is how a walk pins a repository: under the name of the first
/// visit to it, to a commit that the cache may have given for the revision
/// requested at that visit, in the repository found at that visit.
pub open spec fn pinned<C: RepositoryCache>(
    cache: &C,
    visits: Seq<Visit<C::Handle>>,
    locked: LockedDependencyView,
) -> bool {
    match first_visit(visits, locked.coordinate) {
        Some(first) => {
            &&& locked.name == first.dependency.name
            &&& cache.may_resolve(
                first.handle,
                first.dependency.revision,
                Ok(locked.commit_hash),
            )
        },
        None => false,
    }
}

/// `outcome` is what resolving `roots` for the module `module_name` gives
/// when the walk of the graph was `visits`: the lock file pins the
/// repositories that the walk named, each once, in the order of first
/// naming, and every repository that was requested more than once is a
/// conflict.
pub open spec fn resolves<C: RepositoryCache>(
    cache: &C,
    module_name: Seq<char>,
    roots: Seq<DependencyView>,
    visits: Seq<Visit<C::Handle>>,
    outcome: ResolutionView,
) -> bool {
    let locked = outcome.lock_file.dependencies;
    &&& walked(cache, roots, visits)
    &&& is_traversal(roots, visits)
    &&& outcome.lock_file.module_name == module_name
    &&& locked_coordinates(locked) == first_seen(visited(visits))
    &&& forall|i: int| 0 <= i < locked.len() ==> pinned(cache, visits, #[trigger] locked[i])
    &&& outcome.conflicts == conflicts_among(visited(visits))
}

/// The cache found the repository of `next` under `handle` and then refused
/// its manifest with `error`.
pub open spec fn refused_descriptor<C: RepositoryCache>(
    cache: &C,
    next: DependencyView,
    handle: C::Handle,
    error: ProtoRepoError,
) -> bool {
    &&& cache.may_clone(next.coordinate, Ok(handle))
    &&& cache.may_extract(handle, next.name, next.revision, Err(error))
}

/// The cache gave a commit for the repository at `coordinate`: the commit of
/// the revision requested at the first visit, in the repository found at
/// that visit.
pub open spec fn gave_commit<C: RepositoryCache>(
    cache: &C,
    visits: Seq<Visit<C::Handle>>,
    coordinate: CoordinateView,
) -> bool {
    match first_visit(visits, coordinate) {
        Some(first) => exists|commit_hash: Seq<char>| #[trigger]
            cache.may_resolve(first.handle, first.dependency.revision, Ok(commit_hash)),
        None => false,
    }
}

/// The cache refused with `error` to say which commit the `at`-th repository
/// of the walk is pinned to, after it gave a commit for each repository
/// before that one.
pub open spec fn refused_commit<C: RepositoryCache>(
    cache: &C,
    visits: Seq<Visit<C::Handle>>,
    at: int,
    error: ProtoRepoError,
) -> bool {
    let repositories = first_seen(visited(visits));
    &&& 0 <= at < repositories.len()
    &&& match first_visit(visits, repositories[at]) {
        Some(first) => cache.may_resolve(first.handle, first.dependency.revision, Err(error)),
        None => false,
    }
    &&& forall|j: int| 0 <= j < at ==> gave_commit(cache, visits, #[trigger] repositories[j])
}

/// `error` is how resolving `roots` fails after the walk `visits`, where a
/// walk may make `limit` visits. While something is left to visit, the walk
/// was given up at the limit, or, short of the limit, the cache refused the
/// repository of the next dependency or its manifest. After a complete walk,
/// the cache refused the commit of one of the repositories.
pub open spec fn fails<C: RepositoryCache>(
    cache: &C,
    roots: Seq<DependencyView>,
    limit: nat,
    visits: Seq<Visit<C::Handle>>,
    error: FetchError,
) -> bool {
    &&& walked(cache, roots, visits)
    &&& {
        let pending = pending_after(roots, visits).unwrap();
        match error {
            FetchError::TooManyVisits(given_up) => pending.len() > 0 && given_up == limit
                && visits.len() == limit,
            FetchError::Cache(refusal) => pending.len() > 0 && visits.len() < limit
                && cache.may_clone(pending[0].coordinate, Err(refusal)),
            FetchError::ProtoRepoError(refusal) => if pending.len() > 0 {
                visits.len() < limit && exists|handle: C::Handle|
                    #[trigger] refused_descriptor(cache, pending[0], handle, refusal)
            } else {
                exists|at: int| #[trigger] refused_commit(cache, visits, at, refusal)
            },
            _ => false,
        }
    }
}

/// What one more request changes: it names a repository for the first time or
/// not, and it is the last of the revisions requested of its repository.
pub proof fn lemma_one_more_request(requests: Seq<DependencyView>, request: DependencyView)
    ensures
        first_seen(requests.push(request)) == if first_seen(requests).contains(
            request.coordinate,
        ) {
            first_seen(requests)
        } else {
            first_seen(requests).push(request.coordinate)
        },
        forall|c: CoordinateView|
            #[trigger] requested(requests.push(request), c) == if c == request.coordinate {
                requested(requests, c).push(request.revision)
            } else {
                requested(requests, c)
            },
{
    assert(requests.push(request).drop_last() =~= requests);
}

/// What one more visit changes: its dependency is one more request, and it
/// is the first visit to its repository only if there was none before.
pub proof fn lemma_one_more_visit<H>(visits: Seq<Visit<H>>, visit: Visit<H>)
    ensures
        visited(visits.push(visit)) == visited(visits).push(visit.dependency),
        forall|c: CoordinateView|
            #[trigger] first_visit(visits.push(visit), c) == match first_visit(visits, c) {
                Some(first) => Some(first),
                None => if c == visit.dependency.coordinate {
                    Some(visit)
                } else {
                    None
                },
            },
{
    assert(visits.push(visit).drop_last() =~= visits);
    assert(visited(visits.push(visit)) =~= visited(visits).push(visit.dependency));
}

/// The repositories that requests name are those of which a revision is
/// requested; none is listed twice.
pub proof fn lemma_first_seen(requests: Seq<DependencyView>)
    ensures
        first_seen(requests).no_duplicates(),
        forall|c: CoordinateView|
            first_seen(requests).contains(c) <==> #[trigger] requested(requests, c).len() > 0,
    decreases requests.len(),
{
    if requests.len() > 0 {
        let earlier = requests.drop_last();
        let last = requests.last();
        lemma_first_seen(earlier);
        let before = first_seen(earlier);
        let now = first_seen(requests);
        assert forall|c: CoordinateView| now.contains(c) <==> (before.contains(c) || c
            == last.coordinate) by {
            if !before.contains(last.coordinate) {
                assert(now == before.push(last.coordinate));
                if before.contains(c) {
                    let j = choose|j: int| 0 <= j < before.len() && before[j] == c;
                    assert(now[j] == c);
                }
                if c == last.coordinate {
                    assert(now[before.len() as int] == c);
                }
                if now.contains(c) {
                    let j = choose|j: int| 0 <= j < now.len() && now[j] == c;
                    if j < before.len() {
                        assert(before[j] == c);
                    }
                }
            }
        }
        assert forall|c: CoordinateView| now.contains(c) <==> #[trigger] requested(
            requests,
            c,
        ).len() > 0 by {
            assert(before.contains(c) <==> requested(earlier, c).len() > 0);
        }
    }
}

/// The repositories that a walk names are those that it visits; the first
/// visit to a repository is a visit to that repository, and it requests the
/// first of the revisions that the walk requests of the repository.
pub proof fn lemma_first_visit<H>(visits: Seq<Visit<H>>)
    ensures
        forall|c: CoordinateView|
            first_seen(visited(visits)).contains(c) <==> (#[trigger] first_visit(
                visits,
                c,
            )).is_some(),
        forall|c: CoordinateView|
            (#[trigger] first_visit(visits, c)).is_some() ==> first_visit(
                visits,
                c,
            ).unwrap().dependency.coordinate == c && requested(visited(visits), c).len() > 0
                && first_visit(visits, c).unwrap().dependency.revision == requested(
                visited(visits),
                c,
            )[0],
    decreases visits.len(),
{
    lemma_first_seen(visited(visits));
    if visits.len() > 0 {
        let earlier = visits.drop_last();
        let last = visits.last();
        lemma_first_visit(earlier);
        lemma_first_seen(visited(earlier));
        lemma_one_more_visit(earlier, last);
        lemma_one_more_request(visited(earlier), last.dependency);
        assert(earlier.push(last) =~= visits);
        let before = first_seen(visited(earlier));
        assert forall|c: CoordinateView| first_seen(visited(visits)).contains(c) <==> (
        #[trigger] first_visit(visits, c)).is_some() by {
            assert(before.contains(c) <==> first_visit(earlier, c).is_some());
            assert(before.contains(c) <==> requested(visited(earlier), c).len() > 0);
            assert(first_seen(visited(visits)).contains(c) <==> requested(visited(visits), c).len()
                > 0);
        }
        assert forall|c: CoordinateView| (#[trigger] first_visit(visits, c)).is_some() implies first_visit(
            visits,
            c,
        ).unwrap().dependency.coordinate == c && requested(visited(visits), c).len() > 0
            && first_visit(visits, c).unwrap().dependency.revision == requested(
            visited(visits),
            c,
        )[0] by {
            assert(before.contains(c) <==> first_visit(earlier, c).is_some());
            assert(before.contains(c) <==> requested(visited(earlier), c).len() > 0);
            if first_visit(earlier, c).is_some() {
                assert(first_visit(earlier, c).unwrap().dependency.revision == requested(
                    visited(earlier),
                    c,
                )[0]);
            }
        }
    }
}

/// Where something was requested of every repository, each keeps the first
/// revision requested of it, and none is left out.
pub proof fn lemma_winners_of_requested(entries: Seq<(CoordinateView, Vec<Revision>)>)
    requires
        forall|i: int| 0 <= i < entries.len() ==> (#[trigger] entries[i]).1@.len() > 0,
    ensures
        winners(entries).len() == entries.len(),
        forall|i: int|
            0 <= i < entries.len() ==> #[trigger] winners(entries)[i] == (
                entries[i].0,
                entries[i].1@[0],
            ),
    decreases entries.len(),
{
    if entries.len() > 0 {
        let earlier = entries.drop_last();
        assert forall|i: int| 0 <= i < earlier.len() implies (#[trigger] earlier[i]).1@.len()
            > 0 by {
            assert(earlier[i] == entries[i]);
        }
        lemma_winners_of_requested(earlier);
        assert forall|i: int| 0 <= i < entries.len() implies #[trigger] winners(entries)[i] == (
            entries[i].0,
            entries[i].1@[0],
        ) by {
            if i < earlier.len() {
                assert(winners(earlier)[i] == (earlier[i].0, earlier[i].1@[0]));
                assert(earlier[i] == entries[i]);
            }
        }
    }
}

/// Where the kept revisions and the held repositories list the same
/// repositories in the same order, joining them pairs them up index by index.
pub proof fn lemma_joined_in_step<H>(
    resolved: Seq<(CoordinateView, Revision)>,
    repositories: Seq<(CoordinateView, (String, H))>,
)
    requires
        resolved.len() <= repositories.len(),
        entry_keys(repositories).no_duplicates(),
        forall|i: int| 0 <= i < resolved.len() ==> (#[trigger] resolved[i]).0 == repositories[i].0,
    ensures
        joined(resolved, repositories).len() == resolved.len(),
        forall|i: int|
            0 <= i < resolved.len() ==> #[trigger] joined(resolved, repositories)[i] == (
                resolved[i].0,
                (repositories[i].1.0, repositories[i].1.1, resolved[i].1),
            ),
    decreases resolved.len(),
{
    if resolved.len() > 0 {
        let earlier = resolved.drop_last();
        let n = earlier.len() as int;
        assert forall|i: int| 0 <= i < earlier.len() implies (#[trigger] earlier[i]).0
            == repositories[i].0 by {
            assert(earlier[i] == resolved[i]);
        }
        lemma_joined_in_step(earlier, repositories);
        let keys = entry_keys(repositories);
        assert(keys[n] == resolved.last().0);
        keys.index_of_first_ensures(resolved.last().0);
        assert(keys.index_of(resolved.last().0) == n);
        assert forall|i: int| 0 <= i < resolved.len() implies #[trigger] joined(
            resolved,
            repositories,
        )[i] == (resolved[i].0, (repositories[i].1.0, repositories[i].1.1, resolved[i].1)) by {
            if i < n {
                assert(joined(earlier, repositories)[i] == (
                    earlier[i].0,
                    (repositories[i].1.0, repositories[i].1.1, earlier[i].1),
                ));
                assert(earlier[i] == resolved[i]);
            }
        }
    }
}

} // verus!
