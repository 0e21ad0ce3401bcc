//! What holds of every resolution, proved from the account in
//! [`crate::resolution`].

use vstd::prelude::*;
use crate::cache::{CacheError, RepositoryCache};
use crate::fetch::{locks, materialized, materializes, refused, stopped_at, FetchError};
use crate::resolution::Resolution;
use crate::model::coordinate::CoordinateView;
use crate::model::dependency::{DependencyView, DescriptorView, RevisionView};
use crate::model::lock_file::{locked_coordinates, LockFileView, LockedDependencyView};
use crate::proto_repository::ProtoRepoError;
use crate::resolution::{
    answered, conflicts_in, fails, first_seen, first_visit, gave_commit, lemma_first_seen,
    lemma_first_visit, pending_after, pinned, refused_commit, refused_descriptor, requested,
    resolves, visited, walked, ConflictView, ResolutionView, Visit,
};

verus! {

/// Uniqueness. A lock file that a resolution produces pins no repository
/// twice.
pub proof fn lemma_resolution_pins_once<C: RepositoryCache>(
    cache: &C,
    module_name: Seq<char>,
    roots: Seq<DependencyView>,
    visits: Seq<Visit<C::Handle>>,
    outcome: ResolutionView,
)
    requires
        resolves(cache, module_name, roots, visits, outcome),
    ensures
        outcome.lock_file.unique(),
{
    lemma_first_seen(visited(visits));
}

/// Among repositories that are listed once each, every one that was requested
/// more than once has a conflict that counts its requests beyond the first,
/// and there is no other conflict.
pub proof fn lemma_conflicts_counted(keys: Seq<CoordinateView>, counts: Seq<nat>)
    requires
        keys.len() == counts.len(),
        keys.no_duplicates(),
    ensures
        forall|i: int|
            0 <= i < keys.len() && counts[i] > 1 ==> conflicts_in(keys, counts).contains(
                ConflictView { coordinate: #[trigger] keys[i], discarded: (counts[i] - 1) as nat },
            ),
        forall|j: int|
            0 <= j < conflicts_in(keys, counts).len() ==> exists|i: int|
                0 <= i < keys.len() && keys[i] == (#[trigger] conflicts_in(
                    keys,
                    counts,
                )[j]).coordinate && counts[i] > 1 && conflicts_in(keys, counts)[j].discarded
                    == counts[i] - 1,
    decreases keys.len(),
{
    if keys.len() > 0 {
        let n = keys.len() - 1;
        let earlier_keys = keys.drop_last();
        let earlier_counts = counts.drop_last();
        lemma_conflicts_counted(earlier_keys, earlier_counts);
        let before = conflicts_in(earlier_keys, earlier_counts);
        let now = conflicts_in(keys, counts);
        assert forall|i: int| 0 <= i < keys.len() && counts[i] > 1 implies now.contains(
            ConflictView { coordinate: #[trigger] keys[i], discarded: (counts[i] - 1) as nat },
        ) by {
            let wanted = ConflictView { coordinate: keys[i], discarded: (counts[i] - 1) as nat };
            if i < n {
                assert(earlier_keys[i] == keys[i] && earlier_counts[i] == counts[i]);
                assert(before.contains(wanted));
                let j = choose|j: int| 0 <= j < before.len() && before[j] == wanted;
                assert(now[j] == wanted);
            } else {
                assert(now[before.len() as int] == wanted);
            }
        }
        assert forall|j: int| 0 <= j < now.len() implies exists|i: int|
            0 <= i < keys.len() && keys[i] == (#[trigger] now[j]).coordinate && counts[i] > 1
                && now[j].discarded == counts[i] - 1 by {
            if j < before.len() {
                let i = choose|i: int|
                    0 <= i < earlier_keys.len() && earlier_keys[i] == before[j].coordinate
                        && earlier_counts[i] > 1 && before[j].discarded == earlier_counts[i] - 1;
                assert(keys[i] == now[j].coordinate && counts[i] > 1 && now[j].discarded
                    == counts[i] - 1);
            } else {
                assert(keys[n] == now[j].coordinate && counts[n] > 1 && now[j].discarded
                    == counts[n] - 1);
            }
        }
    }
}

/// Among repositories that are listed once each, no two conflicts name the
/// same repository.
pub proof fn lemma_conflicts_name_once(keys: Seq<CoordinateView>, counts: Seq<nat>)
    requires
        keys.len() == counts.len(),
        keys.no_duplicates(),
    ensures
        forall|a: int, b: int|
            0 <= a < b < conflicts_in(keys, counts).len() ==> (#[trigger] conflicts_in(
                keys,
                counts,
            )[a]).coordinate != (#[trigger] conflicts_in(keys, counts)[b]).coordinate,
    decreases keys.len(),
{
    if keys.len() > 0 {
        let n = keys.len() - 1;
        let earlier_keys = keys.drop_last();
        let earlier_counts = counts.drop_last();
        lemma_conflicts_name_once(earlier_keys, earlier_counts);
        lemma_conflicts_counted(earlier_keys, earlier_counts);
        let before = conflicts_in(earlier_keys, earlier_counts);
        let now = conflicts_in(keys, counts);
        assert forall|a: int, b: int| 0 <= a < b < now.len() implies (#[trigger] now[a]).coordinate
            != (#[trigger] now[b]).coordinate by {
            if b < before.len() {
                assert(now[a] == before[a] && now[b] == before[b]);
            } else {
                let i = choose|i: int|
                    0 <= i < earlier_keys.len() && earlier_keys[i] == before[a].coordinate
                        && earlier_counts[i] > 1 && before[a].discarded == earlier_counts[i] - 1;
                assert(keys[i] == now[a].coordinate);
                assert(now[b].coordinate == keys[n]);
            }
        }
    }
}

/// Conflict policy. A repository of which a resolution requested several
/// revisions, one after the other, is pinned once: under the name of its
/// first request, to a commit that the cache gave for the first of those
/// revisions. If there was more than one request, exactly one conflict names
/// the repository, and it counts the requests beyond the first; if there was
/// one request, no conflict names it.
pub proof fn lemma_first_request_wins<C: RepositoryCache>(
    cache: &C,
    module_name: Seq<char>,
    roots: Seq<DependencyView>,
    visits: Seq<Visit<C::Handle>>,
    outcome: ResolutionView,
    coordinate: CoordinateView,
)
    requires
        resolves(cache, module_name, roots, visits, outcome),
        requested(visited(visits), coordinate).len() > 0,
    ensures
        first_visit(visits, coordinate).is_some(),
        exists|i: int|
            0 <= i < outcome.lock_file.dependencies.len() && (
            #[trigger] outcome.lock_file.dependencies[i]).coordinate == coordinate
                && outcome.lock_file.dependencies[i].name == first_visit(
                visits,
                coordinate,
            ).unwrap().dependency.name && cache.may_resolve(
                first_visit(visits, coordinate).unwrap().handle,
                requested(visited(visits), coordinate)[0],
                Ok(outcome.lock_file.dependencies[i].commit_hash),
            ),
        forall|i: int, j: int|
            0 <= i < j < outcome.lock_file.dependencies.len() ==> !(
            #[trigger] outcome.lock_file.dependencies[i].coordinate == coordinate
                && #[trigger] outcome.lock_file.dependencies[j].coordinate == coordinate),
        requested(visited(visits), coordinate).len() > 1 ==> outcome.conflicts.contains(
            ConflictView {
                coordinate: coordinate,
                discarded: (requested(visited(visits), coordinate).len() - 1) as nat,
            },
        ),
        forall|j: int|
            0 <= j < outcome.conflicts.len() && (#[trigger] outcome.conflicts[j]).coordinate
                == coordinate ==> requested(visited(visits), coordinate).len() > 1
                && outcome.conflicts[j].discarded == requested(visited(visits), coordinate).len()
                - 1,
        forall|a: int, b: int|
            0 <= a < b < outcome.conflicts.len() ==> !((#[trigger] outcome.conflicts[a]).coordinate
                == coordinate && (#[trigger] outcome.conflicts[b]).coordinate == coordinate),
{
    let requests = visited(visits);
    let locked = outcome.lock_file.dependencies;
    let keys = first_seen(requests);
    let counts = keys.map_values(|c: CoordinateView| requested(requests, c).len());
    lemma_first_seen(requests);
    lemma_first_visit(visits);
    lemma_conflicts_counted(keys, counts);
    lemma_conflicts_name_once(keys, counts);
    assert(keys.contains(coordinate));
    let at = choose|i: int| 0 <= i < keys.len() && keys[i] == coordinate;
    assert(locked_coordinates(locked)[at] == locked[at].coordinate);
    assert(pinned(cache, visits, locked[at]));
    assert forall|i: int, j: int| 0 <= i < j < locked.len() implies !(
    #[trigger] locked[i].coordinate == coordinate && #[trigger] locked[j].coordinate
        == coordinate) by {
        assert(locked_coordinates(locked)[i] == locked[i].coordinate);
        assert(locked_coordinates(locked)[j] == locked[j].coordinate);
    }
    assert(outcome.conflicts == conflicts_in(keys, counts));
    if requested(requests, coordinate).len() > 1 {
        assert(counts[at] > 1);
        assert(keys[at] == coordinate);
    }
    assert forall|j: int|
        0 <= j < outcome.conflicts.len() && (#[trigger] outcome.conflicts[j]).coordinate
            == coordinate implies requested(requests, coordinate).len() > 1
        && outcome.conflicts[j].discarded == requested(requests, coordinate).len() - 1 by {
        let i = choose|i: int|
            0 <= i < keys.len() && keys[i] == conflicts_in(keys, counts)[j].coordinate && counts[i]
                > 1 && conflicts_in(keys, counts)[j].discarded == counts[i] - 1;
        assert(counts[i] == requested(requests, keys[i]).len());
    }
}

/// Every step of a walk takes the dependency that is next at that point.
pub proof fn lemma_walk_prefixes<H>(roots: Seq<DependencyView>, visits: Seq<Visit<H>>, k: int)
    requires
        pending_after(roots, visits).is_some(),
        0 <= k <= visits.len(),
    ensures
        pending_after(roots, visits.take(k)).is_some(),
        k < visits.len() ==> pending_after(roots, visits.take(k)).unwrap().len() > 0
            && pending_after(roots, visits.take(k)).unwrap()[0] == visits[k].dependency,
    decreases visits.len(),
{
    if k == visits.len() {
        assert(visits.take(k) =~= visits);
    } else {
        let earlier = visits.drop_last();
        assert(pending_after(roots, earlier).is_some());
        if k == visits.len() - 1 {
            assert(visits.take(k) =~= earlier);
        } else {
            lemma_walk_prefixes(roots, earlier, k);
            assert(earlier.take(k) =~= visits.take(k));
        }
    }
}

/// The repositories behind `cache` are in a fixed state: to each question
/// the cache has one answer.
pub open spec fn settled<C: RepositoryCache>(cache: &C) -> bool {
    &&& forall|
        coordinate: CoordinateView,
        a: Result<C::Handle, CacheError>,
        b: Result<C::Handle, CacheError>,
    |
        #[trigger] cache.may_clone(coordinate, a) && #[trigger] cache.may_clone(coordinate, b)
            ==> a == b
    &&& forall|
        handle: C::Handle,
        name: Seq<char>,
        revision: RevisionView,
        a: Result<DescriptorView, ProtoRepoError>,
        b: Result<DescriptorView, ProtoRepoError>,
    |
        #[trigger] cache.may_extract(handle, name, revision, a) && #[trigger] cache.may_extract(
            handle,
            name,
            revision,
            b,
        ) ==> a == b
    &&& forall|
        handle: C::Handle,
        revision: RevisionView,
        a: Result<Seq<char>, ProtoRepoError>,
        b: Result<Seq<char>, ProtoRepoError>,
    |
        #[trigger] cache.may_resolve(handle, revision, a) && #[trigger] cache.may_resolve(
            handle,
            revision,
            b,
        ) ==> a == b
    &&& forall|
        handle: C::Handle,
        dependency_name: Seq<char>,
        module_name: Seq<char>,
        commit_hash: Seq<char>,
        out_dir: Seq<char>,
        a: Result<(), ProtoRepoError>,
        b: Result<(), ProtoRepoError>,
    |
        #[trigger] cache.may_create(
            handle,
            dependency_name,
            module_name,
            commit_hash,
            out_dir,
            a,
        ) && #[trigger] cache.may_create(
            handle,
            dependency_name,
            module_name,
            commit_hash,
            out_dir,
            b,
        ) ==> a == b
}

/// Two walks from the same dependencies through repositories in a fixed
/// state take the same steps, as far as both go.
pub proof fn lemma_walks_agree<C: RepositoryCache>(
    cache: &C,
    roots: Seq<DependencyView>,
    first: Seq<Visit<C::Handle>>,
    second: Seq<Visit<C::Handle>>,
    k: int,
)
    requires
        settled(cache),
        walked(cache, roots, first),
        walked(cache, roots, second),
        0 <= k <= first.len(),
        k <= second.len(),
    ensures
        first.take(k) == second.take(k),
    decreases k,
{
    if k == 0 {
        assert(first.take(0) =~= second.take(0));
    } else {
        lemma_walks_agree(cache, roots, first, second, k - 1);
        lemma_walk_prefixes(roots, first, k - 1);
        lemma_walk_prefixes(roots, second, k - 1);
        let a = first[k - 1];
        let b = second[k - 1];
        assert(a.dependency == b.dependency);
        assert(answered(cache, a));
        assert(answered(cache, b));
        assert(Ok::<C::Handle, CacheError>(a.handle) == Ok::<C::Handle, CacheError>(b.handle));
        assert(Ok::<DescriptorView, ProtoRepoError>(a.descriptor) == Ok::<
            DescriptorView,
            ProtoRepoError,
        >(b.descriptor));
        assert(a == b);
        assert(first.take(k) =~= first.take(k - 1).push(a));
        assert(second.take(k) =~= second.take(k - 1).push(b));
    }
}

/// Of two walks from the same dependencies through repositories in a fixed
/// state, one that is complete is at least as long as the other, and as long
/// only if the other is complete too.
pub proof fn lemma_complete_walk_is_longest<C: RepositoryCache>(
    cache: &C,
    roots: Seq<DependencyView>,
    complete: Seq<Visit<C::Handle>>,
    other: Seq<Visit<C::Handle>>,
)
    requires
        settled(cache),
        walked(cache, roots, complete),
        walked(cache, roots, other),
        pending_after(roots, complete) == Some(Seq::<DependencyView>::empty()),
    ensures
        other == complete.take(other.len() as int),
        other.len() <= complete.len(),
        other.len() == complete.len() ==> other == complete,
{
    let n = complete.len() as int;
    let m = other.len() as int;
    if n < m {
        lemma_walks_agree(cache, roots, complete, other, n);
        assert(complete.take(n) =~= complete);
        lemma_walk_prefixes(roots, other, n);
        assert(false);
    }
    lemma_walks_agree(cache, roots, complete, other, m);
    assert(other.take(m) =~= other);
    if m == n {
        assert(complete.take(n) =~= complete);
    }
}

/// Determinism. Two resolutions of the same dependencies for the same module
/// through repositories in a fixed state give the same lock file and the same
/// conflicts.
pub proof fn lemma_same_states_same_resolution<C: RepositoryCache>(
    cache: &C,
    module_name: Seq<char>,
    roots: Seq<DependencyView>,
    first_walk: Seq<Visit<C::Handle>>,
    first: ResolutionView,
    second_walk: Seq<Visit<C::Handle>>,
    second: ResolutionView,
)
    requires
        settled(cache),
        resolves(cache, module_name, roots, first_walk, first),
        resolves(cache, module_name, roots, second_walk, second),
    ensures
        first_walk == second_walk,
        first == second,
{
    lemma_complete_walk_is_longest(cache, roots, first_walk, second_walk);
    lemma_complete_walk_is_longest(cache, roots, second_walk, first_walk);
    assert(first_walk == second_walk);
    let a = first.lock_file.dependencies;
    let b = second.lock_file.dependencies;
    assert(a.len() == b.len()) by {
        assert(locked_coordinates(a).len() == locked_coordinates(b).len());
    }
    assert forall|i: int| 0 <= i < a.len() implies a[i] == b[i] by {
        assert(locked_coordinates(a)[i] == a[i].coordinate);
        assert(locked_coordinates(b)[i] == b[i].coordinate);
        assert(pinned(cache, first_walk, a[i]));
        assert(pinned(cache, first_walk, b[i]));
        assert(Ok::<Seq<char>, ProtoRepoError>(a[i].commit_hash) == Ok::<
            Seq<char>,
            ProtoRepoError,
        >(b[i].commit_hash));
    }
    assert(a =~= b);
}

/// Through repositories in a fixed state a resolution that can succeed
/// cannot fail.
pub proof fn lemma_same_states_one_outcome<C: RepositoryCache>(
    cache: &C,
    module_name: Seq<char>,
    roots: Seq<DependencyView>,
    limit: nat,
    walk: Seq<Visit<C::Handle>>,
    outcome: ResolutionView,
    failed_walk: Seq<Visit<C::Handle>>,
    error: FetchError,
)
    requires
        settled(cache),
        walk.len() <= limit,
        resolves(cache, module_name, roots, walk, outcome),
    ensures
        !fails(cache, roots, limit, failed_walk, error),
{
    if fails(cache, roots, limit, failed_walk, error) {
        lemma_complete_walk_is_longest(cache, roots, walk, failed_walk);
        let m = failed_walk.len() as int;
        let pending = pending_after(roots, failed_walk).unwrap();
        if pending.len() > 0 {
            assert(m < walk.len());
            lemma_walk_prefixes(roots, walk, m);
            let next = walk[m];
            assert(answered(cache, next));
            assert(pending[0] == next.dependency);
            match error {
                FetchError::Cache(refusal) => {
                    assert(Ok::<C::Handle, CacheError>(next.handle) == Err::<
                        C::Handle,
                        CacheError,
                    >(refusal));
                },
                FetchError::ProtoRepoError(refusal) => {
                    let handle = choose|handle: C::Handle|
                        #[trigger] refused_descriptor(cache, pending[0], handle, refusal);
                    assert(Ok::<C::Handle, CacheError>(next.handle) == Ok::<
                        C::Handle,
                        CacheError,
                    >(handle));
                    assert(Ok::<DescriptorView, ProtoRepoError>(next.descriptor) == Err::<
                        DescriptorView,
                        ProtoRepoError,
                    >(refusal));
                },
                _ => {},
            }
            assert(false);
        } else {
            assert(pending =~= Seq::<DependencyView>::empty());
            lemma_complete_walk_is_longest(cache, roots, failed_walk, walk);
            assert(failed_walk == walk);
            match error {
                FetchError::ProtoRepoError(refusal) => {
                    let at = choose|at: int|
                        #[trigger] refused_commit(cache, failed_walk, at, refusal);
                    let locked = outcome.lock_file.dependencies;
                    assert(locked_coordinates(locked)[at] == locked[at].coordinate);
                    assert(pinned(cache, walk, locked[at]));
                    assert(Ok::<Seq<char>, ProtoRepoError>(locked[at].commit_hash) == Err::<
                        Seq<char>,
                        ProtoRepoError,
                    >(refusal));
                },
                _ => {},
            }
            assert(false);
        }
    }
}

/// Determinism of failure. Two resolutions of the same dependencies through
/// repositories in a fixed state that both fail, fail at the same point of
/// the walk and with the same error.
pub proof fn lemma_same_states_same_failure<C: RepositoryCache>(
    cache: &C,
    roots: Seq<DependencyView>,
    limit: nat,
    first_walk: Seq<Visit<C::Handle>>,
    first: FetchError,
    second_walk: Seq<Visit<C::Handle>>,
    second: FetchError,
)
    requires
        settled(cache),
        first_walk.len() <= limit,
        second_walk.len() <= limit,
        fails(cache, roots, limit, first_walk, first),
        fails(cache, roots, limit, second_walk, second),
    ensures
        first_walk == second_walk,
        first == second,
{
    let n = first_walk.len() as int;
    let m = second_walk.len() as int;
    if n < m {
        lemma_failed_walk_ends(cache, roots, limit, first_walk, first, second_walk);
    } else if m < n {
        lemma_failed_walk_ends(cache, roots, limit, second_walk, second, first_walk);
    }
    assert(n == m);
    lemma_walks_agree(cache, roots, first_walk, second_walk, n);
    assert(first_walk.take(n) =~= first_walk);
    assert(second_walk.take(n) =~= second_walk);
    let pending = pending_after(roots, first_walk).unwrap();
    if pending.len() > 0 {
        match (first, second) {
            (FetchError::Cache(a), FetchError::Cache(b)) => {
                assert(Err::<C::Handle, CacheError>(a) == Err::<C::Handle, CacheError>(b));
            },
            (FetchError::Cache(a), FetchError::ProtoRepoError(b)) => {
                let handle = choose|handle: C::Handle|
                    #[trigger] refused_descriptor(cache, pending[0], handle, b);
                assert(Err::<C::Handle, CacheError>(a) == Ok::<C::Handle, CacheError>(handle));
            },
            (FetchError::ProtoRepoError(a), FetchError::Cache(b)) => {
                let handle = choose|handle: C::Handle|
                    #[trigger] refused_descriptor(cache, pending[0], handle, a);
                assert(Err::<C::Handle, CacheError>(b) == Ok::<C::Handle, CacheError>(handle));
            },
            (FetchError::ProtoRepoError(a), FetchError::ProtoRepoError(b)) => {
                let h = choose|handle: C::Handle|
                    #[trigger] refused_descriptor(cache, pending[0], handle, a);
                let g = choose|handle: C::Handle|
                    #[trigger] refused_descriptor(cache, pending[0], handle, b);
                assert(Ok::<C::Handle, CacheError>(h) == Ok::<C::Handle, CacheError>(g));
                assert(Err::<DescriptorView, ProtoRepoError>(a) == Err::<
                    DescriptorView,
                    ProtoRepoError,
                >(b));
            },
            _ => {},
        }
    } else {
        match (first, second) {
            (FetchError::ProtoRepoError(a), FetchError::ProtoRepoError(b)) => {
                let i = choose|at: int| #[trigger] refused_commit(cache, first_walk, at, a);
                let j = choose|at: int| #[trigger] refused_commit(cache, first_walk, at, b);
                let repositories = first_seen(visited(first_walk));
                if i < j {
                    lemma_gave_or_refused(cache, first_walk, repositories[i], a);
                } else if j < i {
                    lemma_gave_or_refused(cache, first_walk, repositories[j], b);
                } else {
                    assert(Err::<Seq<char>, ProtoRepoError>(a) == Err::<
                        Seq<char>,
                        ProtoRepoError,
                    >(b));
                }
            },
            _ => {},
        }
    }
}

/// A cache with one answer to each question does not both give and refuse
/// the commit of a repository.
proof fn lemma_gave_or_refused<C: RepositoryCache>(
    cache: &C,
    visits: Seq<Visit<C::Handle>>,
    coordinate: CoordinateView,
    refusal: ProtoRepoError,
)
    requires
        settled(cache),
        first_visit(visits, coordinate).is_some(),
        cache.may_resolve(
            first_visit(visits, coordinate).unwrap().handle,
            first_visit(visits, coordinate).unwrap().dependency.revision,
            Err(refusal),
        ),
    ensures
        !gave_commit(cache, visits, coordinate),
{
    let first = first_visit(visits, coordinate).unwrap();
    if gave_commit(cache, visits, coordinate) {
        let commit_hash = choose|commit_hash: Seq<char>| #[trigger]
            cache.may_resolve(first.handle, first.dependency.revision, Ok(commit_hash));
        assert(Ok::<Seq<char>, ProtoRepoError>(commit_hash) == Err::<Seq<char>, ProtoRepoError>(
            refusal,
        ));
    }
}

/// A walk that failed through repositories in a fixed state is not continued
/// by another walk from the same dependencies.
proof fn lemma_failed_walk_ends<C: RepositoryCache>(
    cache: &C,
    roots: Seq<DependencyView>,
    limit: nat,
    failed_walk: Seq<Visit<C::Handle>>,
    error: FetchError,
    other: Seq<Visit<C::Handle>>,
)
    requires
        settled(cache),
        other.len() <= limit,
        fails(cache, roots, limit, failed_walk, error),
        walked(cache, roots, other),
    ensures
        other.len() <= failed_walk.len(),
{
    let n = failed_walk.len() as int;
    if n < other.len() {
        lemma_walks_agree(cache, roots, failed_walk, other, n);
        assert(failed_walk.take(n) =~= failed_walk);
        lemma_walk_prefixes(roots, other, n);
        let pending = pending_after(roots, failed_walk).unwrap();
        let next = other[n];
        assert(answered(cache, next));
        match error {
            FetchError::Cache(refusal) => {
                assert(Ok::<C::Handle, CacheError>(next.handle) == Err::<C::Handle, CacheError>(
                    refusal,
                ));
            },
            FetchError::ProtoRepoError(refusal) => {
                let handle = choose|handle: C::Handle|
                    #[trigger] refused_descriptor(cache, pending[0], handle, refusal);
                assert(Ok::<C::Handle, CacheError>(next.handle) == Ok::<C::Handle, CacheError>(
                    handle,
                ));
                assert(Ok::<DescriptorView, ProtoRepoError>(next.descriptor) == Err::<
                    DescriptorView,
                    ProtoRepoError,
                >(refusal));
            },
            _ => {},
        }
    }
}

/// Through repositories in a fixed state a pinned repository is not both
/// written out and refused.
proof fn lemma_written_or_refused<C: RepositoryCache>(
    cache: &C,
    module_name: Seq<char>,
    locked: LockedDependencyView,
    out_dir: Seq<char>,
    error: FetchError,
)
    requires
        settled(cache),
        materialized(cache, module_name, locked, out_dir),
    ensures
        !refused(cache, module_name, locked, out_dir, error),
{
    let written = choose|handle: C::Handle|
        #![trigger cache.may_clone(locked.coordinate, Ok(handle))]
        cache.may_clone(locked.coordinate, Ok(handle)) && cache.may_create(
            handle,
            locked.name,
            module_name,
            locked.commit_hash,
            out_dir,
            Ok(()),
        );
    if refused(cache, module_name, locked, out_dir, error) {
        match error {
            FetchError::Cache(refusal) => {
                assert(Ok::<C::Handle, CacheError>(written) == Err::<C::Handle, CacheError>(
                    refusal,
                ));
            },
            FetchError::ProtoRepoError(refusal) => {
                let handle = choose|handle: C::Handle|
                    #![trigger cache.may_clone(locked.coordinate, Ok(handle))]
                    cache.may_clone(locked.coordinate, Ok(handle)) && cache.may_create(
                        handle,
                        locked.name,
                        module_name,
                        locked.commit_hash,
                        out_dir,
                        Err(refusal),
                    );
                assert(Ok::<C::Handle, CacheError>(written) == Ok::<C::Handle, CacheError>(
                    handle,
                ));
                assert(Ok::<(), ProtoRepoError>(()) == Err::<(), ProtoRepoError>(refusal));
            },
            _ => {},
        }
    }
}

/// Through repositories in a fixed state the cache refuses a pinned
/// repository in one way only.
proof fn lemma_one_refusal<C: RepositoryCache>(
    cache: &C,
    module_name: Seq<char>,
    locked: LockedDependencyView,
    out_dir: Seq<char>,
    first: FetchError,
    second: FetchError,
)
    requires
        settled(cache),
        refused(cache, module_name, locked, out_dir, first),
        refused(cache, module_name, locked, out_dir, second),
    ensures
        first == second,
{
    match (first, second) {
        (FetchError::Cache(a), FetchError::Cache(b)) => {
            assert(Err::<C::Handle, CacheError>(a) == Err::<C::Handle, CacheError>(b));
        },
        (FetchError::Cache(a), FetchError::ProtoRepoError(b)) => {
            let handle = choose|handle: C::Handle|
                #![trigger cache.may_clone(locked.coordinate, Ok(handle))]
                cache.may_clone(locked.coordinate, Ok(handle)) && cache.may_create(
                    handle,
                    locked.name,
                    module_name,
                    locked.commit_hash,
                    out_dir,
                    Err(b),
                );
            assert(Err::<C::Handle, CacheError>(a) == Ok::<C::Handle, CacheError>(handle));
        },
        (FetchError::ProtoRepoError(a), FetchError::Cache(b)) => {
            let handle = choose|handle: C::Handle|
                #![trigger cache.may_clone(locked.coordinate, Ok(handle))]
                cache.may_clone(locked.coordinate, Ok(handle)) && cache.may_create(
                    handle,
                    locked.name,
                    module_name,
                    locked.commit_hash,
                    out_dir,
                    Err(a),
                );
            assert(Err::<C::Handle, CacheError>(b) == Ok::<C::Handle, CacheError>(handle));
        },
        (FetchError::ProtoRepoError(a), FetchError::ProtoRepoError(b)) => {
            let h = choose|handle: C::Handle|
                #![trigger cache.may_clone(locked.coordinate, Ok(handle))]
                cache.may_clone(locked.coordinate, Ok(handle)) && cache.may_create(
                    handle,
                    locked.name,
                    module_name,
                    locked.commit_hash,
                    out_dir,
                    Err(a),
                );
            let g = choose|handle: C::Handle|
                #![trigger cache.may_clone(locked.coordinate, Ok(handle))]
                cache.may_clone(locked.coordinate, Ok(handle)) && cache.may_create(
                    handle,
                    locked.name,
                    module_name,
                    locked.commit_hash,
                    out_dir,
                    Err(b),
                );
            assert(Ok::<C::Handle, CacheError>(h) == Ok::<C::Handle, CacheError>(g));
            assert(Err::<(), ProtoRepoError>(a) == Err::<(), ProtoRepoError>(b));
        },
        _ => {},
    }
}

/// Repeatable materialization. Materializing the same lock file twice below
/// the same directory, through repositories in a fixed state, ends the same
/// way both times.
pub proof fn lemma_same_states_same_materialization<C: RepositoryCache>(
    cache: &C,
    lock_file: LockFileView,
    out_dir: Seq<char>,
    first: Result<(), FetchError>,
    second: Result<(), FetchError>,
)
    requires
        settled(cache),
        materializes(cache, lock_file, out_dir, first),
        materializes(cache, lock_file, out_dir, second),
    ensures
        first == second,
{
    let module_name = lock_file.module_name;
    let locked = lock_file.dependencies;
    match (first, second) {
        (Ok(a), Ok(b)) => {
            assert(a == b);
        },
        (Ok(_), Err(error)) => {
            let at = choose|at: int| #[trigger] stopped_at(cache, lock_file, out_dir, at, error);
            assert(materialized(cache, module_name, locked[at], out_dir));
            lemma_written_or_refused(cache, module_name, locked[at], out_dir, error);
        },
        (Err(error), Ok(_)) => {
            let at = choose|at: int| #[trigger] stopped_at(cache, lock_file, out_dir, at, error);
            assert(materialized(cache, module_name, locked[at], out_dir));
            lemma_written_or_refused(cache, module_name, locked[at], out_dir, error);
        },
        (Err(a), Err(b)) => {
            let i = choose|at: int| #[trigger] stopped_at(cache, lock_file, out_dir, at, a);
            let j = choose|at: int| #[trigger] stopped_at(cache, lock_file, out_dir, at, b);
            if i < j {
                assert(materialized(cache, module_name, locked[i], out_dir));
                lemma_written_or_refused(cache, module_name, locked[i], out_dir, a);
            } else if j < i {
                assert(materialized(cache, module_name, locked[j], out_dir));
                lemma_written_or_refused(cache, module_name, locked[j], out_dir, b);
            } else {
                lemma_one_refusal(cache, module_name, locked[i], out_dir, a, b);
            }
        },
    }
}

/// The `at`-th of `visits` is the earliest visit to the repository at
/// `coordinate`.
pub open spec fn earliest_visit<H>(
    visits: Seq<Visit<H>>,
    coordinate: CoordinateView,
    at: int,
) -> bool {
    &&& 0 <= at < visits.len()
    &&& visits[at].dependency.coordinate == coordinate
    &&& forall|j: int| 0 <= j < at ==> (#[trigger] visits[j]).dependency.coordinate != coordinate
}

/// The first visit to a repository is the earliest of the visits to it, and
/// there is none where no visit is to it.
pub proof fn lemma_first_visit_is_earliest<H>(visits: Seq<Visit<H>>, coordinate: CoordinateView)
    ensures
        match first_visit(visits, coordinate) {
            Some(first) => exists|at: int|
                #[trigger] earliest_visit(visits, coordinate, at) && visits[at] == first,
            None => forall|j: int|
                0 <= j < visits.len() ==> (#[trigger] visits[j]).dependency.coordinate
                    != coordinate,
        },
    decreases visits.len(),
{
    if visits.len() > 0 {
        let earlier = visits.drop_last();
        lemma_first_visit_is_earliest(earlier, coordinate);
        match first_visit(earlier, coordinate) {
            Some(first) => {
                let at = choose|at: int|
                    #[trigger] earliest_visit(earlier, coordinate, at) && earlier[at] == first;
                assert forall|j: int| 0 <= j < at implies (
                #[trigger] visits[j]).dependency.coordinate != coordinate by {
                    assert(earlier[j] == visits[j]);
                }
                assert(earliest_visit(visits, coordinate, at) && visits[at] == first);
            },
            None => {
                assert forall|j: int| 0 <= j < visits.len() - 1 implies (
                #[trigger] visits[j]).dependency.coordinate != coordinate by {
                    assert(earlier[j] == visits[j]);
                }
                if visits.last().dependency.coordinate == coordinate {
                    assert(earliest_visit(visits, coordinate, visits.len() - 1));
                }
            },
        }
    }
}

/// The requests that name the repository at `coordinate`.
pub open spec fn names(coordinate: CoordinateView) -> spec_fn(DependencyView) -> bool {
    |request: DependencyView| request.coordinate == coordinate
}

/// The revision that a request asks for.
pub open spec fn revision_of() -> spec_fn(DependencyView) -> RevisionView {
    |request: DependencyView| request.revision
}

/// The revisions requested of a repository are those of the requests that
/// name it, in the order of the requests.
pub proof fn lemma_requested_in_order(requests: Seq<DependencyView>, coordinate: CoordinateView)
    ensures
        requested(requests, coordinate) == requests.filter(names(coordinate)).map_values(
            revision_of(),
        ),
    decreases requests.len(),
{
    if requests.len() > 0 {
        let earlier = requests.drop_last();
        let last = requests.last();
        lemma_requested_in_order(earlier, coordinate);
        earlier.lemma_filter_push(last, names(coordinate));
        assert(earlier.push(last) =~= requests);
        if last.coordinate == coordinate {
            assert(earlier.filter(names(coordinate)).push(last).map_values(revision_of())
                =~= earlier.filter(names(coordinate)).map_values(revision_of()).push(
                last.revision,
            ));
        }
    } else {
        broadcast use vstd::seq_lib::group_filter_ensures;

        assert(requests.filter(names(coordinate)).map_values(revision_of()) =~= Seq::empty());
    }
}

/// One outcome. Resolving the same dependencies for the same module twice,
/// with the same limit and through repositories in a fixed state, ends the
/// same way both times: with the same lock file and the same conflicts, or
/// with the same failure.
pub proof fn lemma_same_states_same_outcome<C: RepositoryCache>(
    cache: &C,
    module_name: Seq<char>,
    roots: Seq<DependencyView>,
    limit: nat,
    first: Result<Resolution, FetchError>,
    second: Result<Resolution, FetchError>,
)
    requires
        settled(cache),
        locks(cache, module_name, roots, limit, first),
        locks(cache, module_name, roots, limit, second),
    ensures
        match (first, second) {
            (Ok(a), Ok(b)) => a@ == b@,
            (Err(a), Err(b)) => a == b,
            _ => false,
        },
{
    match (first, second) {
        (Ok(a), Ok(b)) => {
            let v = choose|visits: Seq<Visit<C::Handle>>|
                visits.len() <= limit && #[trigger] resolves(cache, module_name, roots, visits, a@);
            let w = choose|visits: Seq<Visit<C::Handle>>|
                visits.len() <= limit && #[trigger] resolves(cache, module_name, roots, visits, b@);
            lemma_same_states_same_resolution(cache, module_name, roots, v, a@, w, b@);
        },
        (Ok(a), Err(b)) => {
            let v = choose|visits: Seq<Visit<C::Handle>>|
                visits.len() <= limit && #[trigger] resolves(cache, module_name, roots, visits, a@);
            let w = choose|visits: Seq<Visit<C::Handle>>|
                visits.len() <= limit && #[trigger] fails(cache, roots, limit, visits, b);
            lemma_same_states_one_outcome(cache, module_name, roots, limit, v, a@, w, b);
        },
        (Err(a), Ok(b)) => {
            let v = choose|visits: Seq<Visit<C::Handle>>|
                visits.len() <= limit && #[trigger] resolves(cache, module_name, roots, visits, b@);
            let w = choose|visits: Seq<Visit<C::Handle>>|
                visits.len() <= limit && #[trigger] fails(cache, roots, limit, visits, a);
            lemma_same_states_one_outcome(cache, module_name, roots, limit, v, b@, w, a);
        },
        (Err(a), Err(b)) => {
            let v = choose|visits: Seq<Visit<C::Handle>>|
                visits.len() <= limit && #[trigger] fails(cache, roots, limit, visits, a);
            let w = choose|visits: Seq<Visit<C::Handle>>|
                visits.len() <= limit && #[trigger] fails(cache, roots, limit, visits, b);
            lemma_same_states_same_failure(cache, roots, limit, v, a, w, b);
        },
    }
}

/// A dependency that was visited has its repository among those that the
/// requests name.
pub proof fn lemma_requested_is_seen(requests: Seq<DependencyView>, i: int)
    requires
        0 <= i < requests.len(),
    ensures
        first_seen(requests).contains(requests[i].coordinate),
    decreases requests.len(),
{
    let earlier = requests.drop_last();
    let before = first_seen(earlier);
    if i < requests.len() - 1 {
        lemma_requested_is_seen(earlier, i);
        let j = choose|j: int| 0 <= j < before.len() && before[j] == earlier[i].coordinate;
        assert(first_seen(requests)[j] == requests[i].coordinate);
    } else if !before.contains(requests[i].coordinate) {
        assert(first_seen(requests)[before.len() as int] == requests[i].coordinate);
    }
}

/// In a walk, each of the dependencies it starts from has been visited or is
/// still to be visited.
pub proof fn lemma_roots_visited_or_pending<H>(
    roots: Seq<DependencyView>,
    visits: Seq<Visit<H>>,
    r: int,
)
    requires
        pending_after(roots, visits).is_some(),
        0 <= r < roots.len(),
    ensures
        visited(visits).contains(roots[r]) || pending_after(roots, visits).unwrap().contains(
            roots[r],
        ),
    decreases visits.len(),
{
    if visits.len() > 0 {
        let earlier = visits.drop_last();
        let last = visits.last();
        lemma_roots_visited_or_pending(roots, earlier, r);
        let before = pending_after(roots, earlier).unwrap();
        let now = pending_after(roots, visits).unwrap();
        if visited(earlier).contains(roots[r]) {
            let j = choose|j: int| 0 <= j < visited(earlier).len() && visited(earlier)[j] == roots[r];
            assert(visited(visits)[j] == roots[r]);
        } else {
            let j = choose|j: int| 0 <= j < before.len() && before[j] == roots[r];
            if j == 0 {
                assert(visited(visits)[visits.len() - 1] == roots[r]);
            } else {
                assert(now[last.descriptor.dependencies.len() + j - 1] == roots[r]);
            }
        }
    }
}

/// The first visit of a walk is the first visit to its repository, and that
/// repository is the first that the walk names.
pub proof fn lemma_first_of_visits<H>(visits: Seq<Visit<H>>)
    requires
        visits.len() > 0,
    ensures
        first_seen(visited(visits)).len() > 0,
        first_seen(visited(visits))[0] == visits[0].dependency.coordinate,
        first_visit(visits, visits[0].dependency.coordinate) == Some(visits[0]),
    decreases visits.len(),
{
    let earlier = visits.drop_last();
    assert(visited(visits).drop_last() =~= visited(earlier));
    if earlier.len() > 0 {
        lemma_first_of_visits(earlier);
        assert(earlier[0] == visits[0]);
    } else {
        assert(first_seen(visited(earlier)).len() == 0);
        assert(first_visit(earlier, visits[0].dependency.coordinate).is_none());
        assert(visits.last() == visits[0]);
    }
}

/// Completeness. A resolution pins the repository of every dependency that it
/// was given, and the first of them comes first in the lock file, under its
/// own name.
pub proof fn lemma_roots_are_pinned<C: RepositoryCache>(
    cache: &C,
    module_name: Seq<char>,
    roots: Seq<DependencyView>,
    visits: Seq<Visit<C::Handle>>,
    outcome: ResolutionView,
)
    requires
        resolves(cache, module_name, roots, visits, outcome),
    ensures
        forall|r: int|
            0 <= r < roots.len() ==> locked_coordinates(outcome.lock_file.dependencies).contains(
                (#[trigger] roots[r]).coordinate,
            ),
        roots.len() > 0 ==> outcome.lock_file.dependencies.len() > 0
            && outcome.lock_file.dependencies[0].coordinate == roots[0].coordinate
            && outcome.lock_file.dependencies[0].name == roots[0].name,
{
    let requests = visited(visits);
    let locked = outcome.lock_file.dependencies;
    assert forall|r: int| 0 <= r < roots.len() implies locked_coordinates(locked).contains(
        (#[trigger] roots[r]).coordinate,
    ) by {
        lemma_roots_visited_or_pending(roots, visits, r);
        let j = choose|j: int| 0 <= j < requests.len() && requests[j] == roots[r];
        lemma_requested_is_seen(requests, j);
    }
    if roots.len() > 0 {
        lemma_roots_visited_or_pending(roots, visits, 0);
        assert(visits.len() > 0);
        lemma_walk_prefixes(roots, visits, 0);
        assert(visits.take(0) =~= Seq::<Visit<C::Handle>>::empty());
        assert(visits[0].dependency == roots[0]);
        lemma_first_of_visits(visits);
        assert(locked_coordinates(locked)[0] == locked[0].coordinate);
        assert(pinned(cache, visits, locked[0]));
    }
}

} // verus!
