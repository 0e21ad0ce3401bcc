use std::cell::RefCell;

use protofetch::cache::{CacheError, RepositoryCache};
use protofetch::coordinate_map::CoordinateMap;
use protofetch::fetch::{
    discarded_requests, fetch, join, lock, lock_dependencies, lock_within, resolve_conflicts,
    FetchError, MAX_VISITS,
};
use protofetch::model::{
    Coordinate, Dependency, Descriptor, LockFile, LockedDependency, Protocol, Revision,
};
use protofetch::proto_repository::ProtoRepoError;
use protofetch::resolution::{Conflict, Resolution};

fn coordinate(repository: &str) -> Coordinate {
    Coordinate {
        forge: "github.com".to_string(),
        organization: "acme".to_string(),
        repository: repository.to_string(),
        protocol: Protocol::Https,
    }
}

fn branch(name: &str) -> Revision {
    Revision::Symbolic(name.to_string())
}

fn dependency(name: &str, repository: &str, revision: &str) -> Dependency {
    Dependency {
        name: name.to_string(),
        coordinate: coordinate(repository),
        revision: branch(revision),
        rules: vec!["proto".to_string()],
    }
}

fn revision_text(revision: &Revision) -> String {
    match revision {
        Revision::Symbolic(name) => name.clone(),
        Revision::Commit(hash) => hash.clone(),
    }
}

/// One point in the history of an in-memory repository.
struct Point {
    repository: String,
    revision: String,
    commit: String,
    declares: Vec<Dependency>,
}

/// Repositories held in memory, with a record of what was asked of them.
struct Repositories {
    points: Vec<Point>,
    refreshed: RefCell<Vec<Coordinate>>,
    written: RefCell<Vec<(String, String, String, String)>>,
}

impl Repositories {
    fn new() -> Repositories {
        Repositories {
            points: Vec::new(),
            refreshed: RefCell::new(Vec::new()),
            written: RefCell::new(Vec::new()),
        }
    }

    fn with(mut self, repository: &str, revision: &str, commit: &str, declares: Vec<Dependency>) -> Repositories {
        self.points.push(Point {
            repository: repository.to_string(),
            revision: revision.to_string(),
            commit: commit.to_string(),
            declares,
        });
        self
    }

    fn point(&self, repository: &str, revision: &Revision) -> Option<&Point> {
        let wanted = revision_text(revision);
        self.points
            .iter()
            .find(|p| p.repository == repository && (p.revision == wanted || p.commit == wanted))
    }
}

impl RepositoryCache for Repositories {
    type Handle = String;

    fn clone_or_update(&self, coordinate: &Coordinate) -> Result<String, CacheError> {
        self.refreshed.borrow_mut().push(coordinate.clone());
        if self.points.iter().any(|p| p.repository == coordinate.repository) {
            Ok(coordinate.repository.clone())
        } else {
            Err(CacheError::BadLocation(coordinate.repository.clone()))
        }
    }

    fn extract_descriptor(
        &self,
        handle: &String,
        dependency_name: &str,
        revision: &Revision,
    ) -> Result<Descriptor, ProtoRepoError> {
        match self.point(handle, revision) {
            Some(point) => Ok(Descriptor {
                name: dependency_name.to_string(),
                dependencies: point.declares.clone(),
            }),
            None => Err(ProtoRepoError::MissingDescriptor(
                dependency_name.to_string(),
                revision_text(revision),
            )),
        }
    }

    fn resolve_revision(&self, handle: &String, revision: &Revision) -> Result<String, ProtoRepoError> {
        match self.point(handle, revision) {
            Some(point) => Ok(point.commit.clone()),
            None => Err(ProtoRepoError::MissingDescriptor(
                handle.clone(),
                revision_text(revision),
            )),
        }
    }

    fn create_worktrees(
        &self,
        handle: &String,
        dependency_name: &str,
        module_name: &str,
        commit_hash: &str,
        out_dir: &str,
    ) -> Result<(), ProtoRepoError> {
        if self.points.iter().any(|p| &p.repository == handle && p.commit == commit_hash) {
            self.written.borrow_mut().push((
                format!("{}/{}", out_dir, dependency_name),
                module_name.to_string(),
                handle.clone(),
                commit_hash.to_string(),
            ));
            Ok(())
        } else {
            Err(ProtoRepoError::MissingDescriptor(
                dependency_name.to_string(),
                commit_hash.to_string(),
            ))
        }
    }
}

fn locked(name: &str, repository: &str, commit: &str) -> LockedDependency {
    LockedDependency {
        name: name.to_string(),
        coordinate: coordinate(repository),
        commit_hash: commit.to_string(),
    }
}

#[test]
fn end_to_end_scenario() {
    let cache = Repositories::new()
        .with("X", "main", "1111111", vec![dependency("Y", "Y", "v1.0")])
        .with("Y", "v1.0", "2222222", vec![]);
    let roots = vec![dependency("X", "X", "main")];

    let resolution = lock("app".to_string(), &cache, &roots).unwrap();

    assert_eq!(
        resolution.lock_file,
        LockFile {
            module_name: "app".to_string(),
            dependencies: vec![locked("X", "X", "1111111"), locked("Y", "Y", "2222222")],
        }
    );
    assert!(resolution.conflicts.is_empty());

    fetch(&cache, &resolution.lock_file, "out_dir", true).unwrap();
    assert_eq!(
        *cache.written.borrow(),
        vec![
            ("out_dir/X".to_string(), "app".to_string(), "X".to_string(), "1111111".to_string()),
            ("out_dir/Y".to_string(), "app".to_string(), "Y".to_string(), "2222222".to_string()),
        ]
    );
}

#[test]
fn lock_of_nothing_is_empty() {
    let cache = Repositories::new();
    let resolution = lock("app".to_string(), &cache, &[]).unwrap();
    assert_eq!(
        resolution,
        Resolution {
            lock_file: LockFile { module_name: "app".to_string(), dependencies: vec![] },
            conflicts: vec![],
        }
    );
    assert!(cache.refreshed.borrow().is_empty());
}

#[test]
fn conflict_keeps_first_request() {
    let cache = Repositories::new()
        .with("left", "main", "aaaaaaa", vec![dependency("shared", "shared", "B")])
        .with("right", "main", "bbbbbbb", vec![dependency("shared", "shared", "C")])
        .with("shared", "A", "000000a", vec![])
        .with("shared", "B", "000000b", vec![])
        .with("shared", "C", "000000c", vec![]);
    let roots = vec![
        dependency("shared", "shared", "A"),
        dependency("left", "left", "main"),
        dependency("right", "right", "main"),
    ];

    let resolution = lock("app".to_string(), &cache, &roots).unwrap();

    assert_eq!(
        resolution.lock_file.dependencies,
        vec![
            locked("shared", "shared", "000000a"),
            locked("left", "left", "aaaaaaa"),
            locked("right", "right", "bbbbbbb"),
        ]
    );
    assert_eq!(
        resolution.conflicts,
        vec![Conflict { coordinate: coordinate("shared"), discarded: 2 }]
    );
}

#[test]
fn walk_is_depth_first_in_declared_order() {
    let cache = Repositories::new()
        .with("a", "main", "a1", vec![dependency("c", "c", "main"), dependency("d", "d", "main")])
        .with("b", "main", "b1", vec![dependency("e", "e", "main")])
        .with("c", "main", "c1", vec![dependency("f", "f", "main")])
        .with("d", "main", "d1", vec![])
        .with("e", "main", "e1", vec![])
        .with("f", "main", "f1", vec![]);
    let roots = vec![dependency("a", "a", "main"), dependency("b", "b", "main")];

    let resolution = lock("app".to_string(), &cache, &roots).unwrap();

    let order: Vec<String> =
        resolution.lock_file.dependencies.iter().map(|d| d.name.clone()).collect();
    assert_eq!(order, vec!["a", "c", "f", "d", "b", "e"]);
    let asked: Vec<String> =
        cache.refreshed.borrow().iter().map(|c| c.repository.clone()).collect();
    assert_eq!(asked, vec!["a", "c", "f", "d", "b", "e"]);
}

#[test]
fn repeated_repository_is_walked_again() {
    let cache = Repositories::new()
        .with("a", "main", "a1", vec![dependency("c", "c", "main")])
        .with("b", "main", "b1", vec![dependency("c", "c", "main")])
        .with("c", "main", "c1", vec![dependency("d", "d", "v1"), dependency("d", "d", "v1")])
        .with("d", "v1", "d1", vec![]);
    let roots = vec![dependency("a", "a", "main"), dependency("b", "b", "main")];

    let resolution = lock("app".to_string(), &cache, &roots).unwrap();

    assert_eq!(
        resolution.lock_file.dependencies,
        vec![
            locked("a", "a", "a1"),
            locked("c", "c", "c1"),
            locked("d", "d", "d1"),
            locked("b", "b", "b1"),
        ]
    );
    assert_eq!(
        resolution.conflicts,
        vec![
            Conflict { coordinate: coordinate("c"), discarded: 1 },
            Conflict { coordinate: coordinate("d"), discarded: 3 },
        ]
    );
}

#[test]
fn first_declared_name_is_kept() {
    let cache = Repositories::new()
        .with("a", "main", "a1", vec![dependency("other_name", "shared", "v2")])
        .with("shared", "v1", "s1", vec![])
        .with("shared", "v2", "s2", vec![]);
    let roots = vec![dependency("a", "a", "main"), dependency("first_name", "shared", "v1")];

    let resolution = lock("app".to_string(), &cache, &roots).unwrap();

    assert_eq!(
        resolution.lock_file.dependencies,
        vec![locked("a", "a", "a1"), locked("other_name", "shared", "s2")]
    );
    assert_eq!(
        resolution.conflicts,
        vec![Conflict { coordinate: coordinate("shared"), discarded: 1 }]
    );
}

#[test]
fn protocol_is_part_of_the_identity() {
    let mut over_ssh = dependency("x_ssh", "X", "main");
    over_ssh.coordinate.protocol = Protocol::Ssh;
    let cache = Repositories::new().with("X", "main", "x1", vec![]);
    let roots = vec![dependency("x", "X", "main"), over_ssh.clone()];

    let resolution = lock("app".to_string(), &cache, &roots).unwrap();

    assert_eq!(resolution.lock_file.dependencies.len(), 2);
    assert_eq!(resolution.lock_file.dependencies[1].coordinate, over_ssh.coordinate);
    assert!(resolution.conflicts.is_empty());
}

#[test]
fn lock_is_deterministic() {
    let cache = Repositories::new()
        .with("a", "main", "a1", vec![dependency("c", "c", "v1")])
        .with("b", "main", "b1", vec![dependency("c", "c", "v2")])
        .with("c", "v1", "c1", vec![])
        .with("c", "v2", "c2", vec![]);
    let roots = vec![dependency("a", "a", "main"), dependency("b", "b", "main")];

    let first = lock("app".to_string(), &cache, &roots).unwrap();
    let second = lock("app".to_string(), &cache, &roots).unwrap();

    assert_eq!(first, second);
    assert_eq!(format!("{:?}", first.lock_file), format!("{:?}", second.lock_file));
}

#[test]
fn lock_file_pins_no_repository_twice() {
    let cache = Repositories::new()
        .with("a", "main", "a1", vec![dependency("b", "b", "main"), dependency("a2", "a", "main2")])
        .with("a", "main2", "a2", vec![])
        .with("b", "main", "b1", vec![dependency("a3", "a", "main2")]);
    let roots = vec![dependency("a", "a", "main"), dependency("b", "b", "main")];

    let resolution = lock("app".to_string(), &cache, &roots).unwrap();

    let locked_deps = &resolution.lock_file.dependencies;
    for i in 0..locked_deps.len() {
        for j in 0..i {
            assert_ne!(locked_deps[i].coordinate, locked_deps[j].coordinate);
        }
    }
    assert_eq!(locked_deps.len(), 2);
}

#[test]
fn missing_revision_fails_the_whole_lock() {
    let cache = Repositories::new()
        .with("a", "main", "a1", vec![dependency("b", "b", "gone")])
        .with("b", "main", "b1", vec![])
        .with("c", "main", "c1", vec![]);
    let roots = vec![dependency("a", "a", "main"), dependency("c", "c", "main")];

    let outcome = lock("app".to_string(), &cache, &roots);

    match outcome {
        Err(FetchError::ProtoRepoError(ProtoRepoError::MissingDescriptor(name, revision))) => {
            assert_eq!(name, "b");
            assert_eq!(revision, "gone");
        }
        other => panic!("unexpected outcome: {:?}", other),
    }
    let asked: Vec<String> =
        cache.refreshed.borrow().iter().map(|c| c.repository.clone()).collect();
    assert_eq!(asked, vec!["a", "b"]);
}

#[test]
fn unreachable_repository_fails_the_whole_lock() {
    let cache = Repositories::new().with("a", "main", "a1", vec![dependency("b", "nowhere", "main")]);
    let roots = vec![dependency("a", "a", "main")];

    let outcome = lock("app".to_string(), &cache, &roots);

    match outcome {
        Err(FetchError::Cache(CacheError::BadLocation(location))) => {
            assert_eq!(location, "nowhere")
        }
        other => panic!("unexpected outcome: {:?}", other),
    }
}

#[test]
fn cyclic_graph_is_given_up_at_the_limit_that_was_passed() {
    let cache = Repositories::new()
        .with("a", "main", "a1", vec![dependency("b", "b", "main")])
        .with("b", "main", "b1", vec![dependency("a", "a", "main")]);
    let roots = vec![dependency("a", "a", "main")];

    let outcome = lock_within("app".to_string(), &cache, &roots, 1000);

    assert!(matches!(outcome, Err(FetchError::TooManyVisits(1000))));
    assert_eq!(cache.refreshed.borrow().len(), 1000);
}

#[test]
fn walk_that_needs_its_whole_limit_succeeds() {
    let cache = Repositories::new()
        .with("a", "main", "a1", vec![dependency("b", "b", "main")])
        .with("b", "main", "b1", vec![dependency("c", "c", "main")])
        .with("c", "main", "c1", vec![]);
    let roots = vec![dependency("a", "a", "main")];

    let within = lock_within("app".to_string(), &cache, &roots, 3).unwrap();
    let unbounded = lock("app".to_string(), &cache, &roots).unwrap();

    assert_eq!(within, unbounded);
    assert_eq!(within.lock_file.dependencies.len(), 3);
    assert!(matches!(
        lock_within("app".to_string(), &cache, &roots, 2),
        Err(FetchError::TooManyVisits(2))
    ));
}

#[test]
fn refusal_short_of_the_limit_is_the_failure() {
    let cache = Repositories::new()
        .with("a", "main", "a1", vec![dependency("b", "b", "main")])
        .with("b", "main", "b1", vec![dependency("c", "nowhere", "main")]);
    let roots = vec![dependency("a", "a", "main")];

    assert!(matches!(
        lock_within("app".to_string(), &cache, &roots, 3),
        Err(FetchError::Cache(CacheError::BadLocation(_)))
    ));
    assert!(matches!(
        lock_within("app".to_string(), &cache, &roots, 2),
        Err(FetchError::TooManyVisits(2))
    ));
}

#[test]
fn limit_of_nothing_asks_nothing() {
    let cache = Repositories::new().with("a", "main", "a1", vec![]);
    let roots = vec![dependency("a", "a", "main")];

    assert!(matches!(
        lock_within("app".to_string(), &cache, &roots, 0),
        Err(FetchError::TooManyVisits(0))
    ));
    assert!(cache.refreshed.borrow().is_empty());
    assert!(lock_within("app".to_string(), &cache, &[], 0).is_ok());
}

#[test]
fn lock_walks_far_beyond_any_small_limit() {
    assert_eq!(MAX_VISITS, usize::MAX);
    let mut cache = Repositories::new();
    let mut roots = Vec::new();
    for i in 0..300 {
        let name = format!("r{}", i);
        let mut declared = Vec::new();
        for _ in 0..300 {
            declared.push(dependency("leaf", "leaf", "main"));
        }
        cache = cache.with(&name, "main", "c", declared);
        roots.push(dependency(&name, &name, "main"));
    }
    cache = cache.with("leaf", "main", "l1", vec![]);

    let resolution = lock("app".to_string(), &cache, &roots).unwrap();

    assert_eq!(cache.refreshed.borrow().len(), 300 * 301);
    assert_eq!(resolution.lock_file.dependencies.len(), 301);
    assert_eq!(
        resolution.conflicts,
        vec![Conflict { coordinate: coordinate("leaf"), discarded: 300 * 300 - 1 }]
    );
}

#[test]
fn refusal_after_a_long_walk_is_the_failure() {
    let mut cache = Repositories::new();
    let mut roots = Vec::new();
    for i in 0..300 {
        let name = format!("r{}", i);
        let mut declared = Vec::new();
        for _ in 0..300 {
            declared.push(dependency("leaf", "leaf", "main"));
        }
        cache = cache.with(&name, "main", "c", declared);
        roots.push(dependency(&name, &name, "main"));
    }
    cache = cache.with("leaf", "main", "l1", vec![]);
    roots.push(dependency("gone", "nowhere", "main"));

    let outcome = lock("app".to_string(), &cache, &roots);

    assert!(matches!(outcome, Err(FetchError::Cache(CacheError::BadLocation(_)))));
    assert_eq!(cache.refreshed.borrow().len(), 300 * 301 + 1);
}

#[test]
fn resolve_conflicts_keeps_first_and_drops_empty() {
    let mut dep_map: CoordinateMap<Vec<Revision>> = CoordinateMap::new();
    dep_map.record(&coordinate("a"), branch("A"));
    dep_map.record(&coordinate("b"), branch("only"));
    dep_map.record(&coordinate("a"), branch("B"));
    dep_map.record(&coordinate("a"), branch("C"));
    assert!(dep_map.insert_absent(coordinate("none"), vec![]).is_none());

    let conflicts = discarded_requests(&dep_map);
    assert_eq!(conflicts, vec![Conflict { coordinate: coordinate("a"), discarded: 2 }]);

    let resolved = resolve_conflicts(dep_map);
    assert_eq!(resolved.len(), 2);
    assert_eq!(resolved.key(0), &coordinate("a"));
    assert_eq!(resolved.value(0), &branch("A"));
    assert_eq!(resolved.key(1), &coordinate("b"));
    assert_eq!(resolved.value(1), &branch("only"));
    assert_eq!(resolved.position(&coordinate("none")), None);
}

#[test]
fn join_leaves_out_what_is_not_held() {
    let mut resolved: CoordinateMap<Revision> = CoordinateMap::new();
    resolved.insert_absent(coordinate("b"), branch("v2"));
    resolved.insert_absent(coordinate("missing"), branch("v9"));
    resolved.insert_absent(coordinate("a"), branch("v1"));
    let mut held: CoordinateMap<(String, u32)> = CoordinateMap::new();
    held.insert_absent(coordinate("a"), ("name_a".to_string(), 1));
    held.insert_absent(coordinate("b"), ("name_b".to_string(), 2));
    held.insert_absent(coordinate("unasked"), ("name_u".to_string(), 3));

    let with_repos = join(resolved, held);

    assert_eq!(with_repos.len(), 2);
    assert_eq!(with_repos.key(0), &coordinate("b"));
    assert_eq!(with_repos.value(0), &("name_b".to_string(), 2, branch("v2")));
    assert_eq!(with_repos.key(1), &coordinate("a"));
    assert_eq!(with_repos.value(1), &("name_a".to_string(), 1, branch("v1")));
}

#[test]
fn lock_dependencies_pins_in_map_order() {
    let cache = Repositories::new().with("a", "v1", "a1", vec![]).with("b", "v2", "b2", vec![]);
    let mut dep_map: CoordinateMap<(String, String, Revision)> = CoordinateMap::new();
    dep_map.insert_absent(coordinate("b"), ("bee".to_string(), "b".to_string(), branch("v2")));
    dep_map.insert_absent(coordinate("a"), ("ay".to_string(), "a".to_string(), branch("v1")));

    let lock_file = lock_dependencies("app".to_string(), &cache, &dep_map).unwrap();

    assert_eq!(
        lock_file,
        LockFile {
            module_name: "app".to_string(),
            dependencies: vec![locked("bee", "b", "b2"), locked("ay", "a", "a1")],
        }
    );
}

#[test]
fn lock_dependencies_fails_on_unknown_revision() {
    let cache = Repositories::new().with("a", "v1", "a1", vec![]);
    let mut dep_map: CoordinateMap<(String, String, Revision)> = CoordinateMap::new();
    dep_map.insert_absent(coordinate("a"), ("ay".to_string(), "a".to_string(), branch("v7")));

    let outcome = lock_dependencies("app".to_string(), &cache, &dep_map);

    assert!(matches!(
        outcome,
        Err(FetchError::ProtoRepoError(ProtoRepoError::MissingDescriptor(_, _)))
    ));
}

#[test]
fn commit_revision_is_pinned_as_it_resolves() {
    let cache = Repositories::new().with("a", "main", "abc1234", vec![]);
    let roots = vec![Dependency {
        name: "a".to_string(),
        coordinate: coordinate("a"),
        revision: Revision::Commit("abc1234".to_string()),
        rules: vec![],
    }];

    let resolution = lock("app".to_string(), &cache, &roots).unwrap();

    assert_eq!(resolution.lock_file.dependencies, vec![locked("a", "a", "abc1234")]);
}

#[test]
fn fetch_rejects_what_is_no_directory() {
    let cache = Repositories::new().with("a", "main", "a1", vec![]);
    let lock_file =
        LockFile { module_name: "app".to_string(), dependencies: vec![locked("a", "a", "a1")] };

    let outcome = fetch(&cache, &lock_file, "some/file.txt", false);

    match outcome {
        Err(FetchError::BadOutputDir(path)) => assert_eq!(path, "some/file.txt"),
        other => panic!("unexpected outcome: {:?}", other),
    }
    assert!(cache.refreshed.borrow().is_empty());
    assert!(cache.written.borrow().is_empty());
}

#[test]
fn fetch_refreshes_each_repository_once() {
    let cache = Repositories::new().with("a", "main", "a1", vec![]).with("b", "main", "b1", vec![]);
    let lock_file = LockFile {
        module_name: "app".to_string(),
        dependencies: vec![locked("a", "a", "a1"), locked("b", "b", "b1")],
    };

    fetch(&cache, &lock_file, "out", true).unwrap();

    assert_eq!(*cache.refreshed.borrow(), vec![coordinate("a"), coordinate("b")]);
}

#[test]
fn fetch_twice_writes_the_same() {
    let cache = Repositories::new().with("a", "main", "a1", vec![]).with("b", "main", "b1", vec![]);
    let lock_file = LockFile {
        module_name: "app".to_string(),
        dependencies: vec![locked("a", "a", "a1"), locked("b", "b", "b1")],
    };

    fetch(&cache, &lock_file, "out", true).unwrap();
    let first: Vec<(String, String, String, String)> = cache.written.borrow().clone();
    cache.written.borrow_mut().clear();
    fetch(&cache, &lock_file, "out", true).unwrap();

    assert_eq!(*cache.written.borrow(), first);
    assert_eq!(first.len(), 2);
}

#[test]
fn fetch_stops_at_the_first_failure() {
    let cache = Repositories::new().with("a", "main", "a1", vec![]).with("c", "main", "c1", vec![]);
    let lock_file = LockFile {
        module_name: "app".to_string(),
        dependencies: vec![
            locked("a", "a", "a1"),
            locked("b", "b", "b1"),
            locked("c", "c", "c1"),
        ],
    };

    let outcome = fetch(&cache, &lock_file, "out", true);

    assert!(matches!(outcome, Err(FetchError::Cache(CacheError::BadLocation(_)))));
    assert_eq!(cache.written.borrow().len(), 1);
}

#[test]
fn fetch_fails_on_a_commit_that_is_not_there() {
    let cache = Repositories::new().with("a", "main", "a1", vec![]);
    let lock_file =
        LockFile { module_name: "app".to_string(), dependencies: vec![locked("a", "a", "zzz")] };

    let outcome = fetch(&cache, &lock_file, "out", true);

    assert!(matches!(
        outcome,
        Err(FetchError::ProtoRepoError(ProtoRepoError::MissingDescriptor(_, _)))
    ));
}

#[test]
fn fetch_of_an_empty_lock_file_succeeds() {
    let cache = Repositories::new();
    let lock_file = LockFile { module_name: "app".to_string(), dependencies: vec![] };
    assert!(fetch(&cache, &lock_file, "out", true).is_ok());
    assert!(cache.refreshed.borrow().is_empty());
}
