use protofetch::cache::CacheError;
use protofetch::cli::args::{
    CliArgs, Command, DEFAULT_CACHE_DIRECTORY, DEFAULT_DIRECTORY, DEFAULT_LOCKFILE_LOCATION,
    DEFAULT_MODULE_LOCATION, DEFAULT_PROTO_OUTPUT_DIRECTORY, DEFAULT_SOURCE_OUTPUT_DIRECTORY,
};
use protofetch::coordinate_map::CoordinateMap;
use protofetch::fetch::FetchError;
use protofetch::model::coordinate::split_segments;
use protofetch::model::{
    Coordinate, Dependency, DependencyEntry, Descriptor, DescriptorDocument, LockDocument,
    LockFile, LockedDependency, LockedEntry, ParseError, Protocol, Revision,
};
use protofetch::proto_repository::ProtoRepoError;

fn github(organization: &str, repository: &str) -> Coordinate {
    Coordinate {
        forge: "github.com".to_string(),
        organization: organization.to_string(),
        repository: repository.to_string(),
        protocol: Protocol::Ssh,
    }
}

fn missing(url: &str) -> (String, String) {
    match Coordinate::from_url(url, Protocol::Https) {
        Err(ParseError::MissingUrlComponent(component, text)) => (component, text),
        other => panic!("unexpected outcome: {:?}", other),
    }
}

#[test]
fn from_url_reads_three_components() {
    let coordinate = Coordinate::from_url("github.com/coralogix/protofetch", Protocol::Ssh).unwrap();
    assert_eq!(coordinate, github("coralogix", "protofetch"));
    assert_eq!(coordinate.forge, "github.com");
    assert_eq!(coordinate.organization, "coralogix");
    assert_eq!(coordinate.repository, "protofetch");
    assert_eq!(coordinate.protocol, Protocol::Ssh);
}

#[test]
fn from_url_accepts_one_slash_behind() {
    let coordinate =
        Coordinate::from_url("github.com/coralogix/protofetch/", Protocol::Ssh).unwrap();
    assert_eq!(coordinate, github("coralogix", "protofetch"));
}

#[test]
fn from_url_keeps_the_protocol() {
    let https = Coordinate::from_url("example.org/a/b", Protocol::Https).unwrap();
    let ssh = Coordinate::from_url("example.org/a/b", Protocol::Ssh).unwrap();
    assert_eq!(https.protocol, Protocol::Https);
    assert_eq!(ssh.protocol, Protocol::Ssh);
    assert_ne!(https, ssh);
}

#[test]
fn from_url_reads_other_scripts() {
    let coordinate = Coordinate::from_url("höst.example/örg/répo", Protocol::Https).unwrap();
    assert_eq!(coordinate.forge, "höst.example");
    assert_eq!(coordinate.organization, "örg");
    assert_eq!(coordinate.repository, "répo");
}

#[test]
fn from_url_names_the_missing_forge() {
    assert_eq!(missing(""), ("forge".to_string(), "".to_string()));
    assert_eq!(missing("/org/repo"), ("forge".to_string(), "/org/repo".to_string()));
    assert_eq!(missing("/"), ("forge".to_string(), "/".to_string()));
}

#[test]
fn from_url_names_the_missing_organization() {
    assert_eq!(missing("github.com"), ("organization".to_string(), "github.com".to_string()));
    assert_eq!(missing("github.com/"), ("organization".to_string(), "github.com/".to_string()));
    assert_eq!(
        missing("github.com//repo"),
        ("organization".to_string(), "github.com//repo".to_string())
    );
}

#[test]
fn from_url_names_the_missing_repository() {
    assert_eq!(missing("github.com/org"), ("repository".to_string(), "github.com/org".to_string()));
    assert_eq!(
        missing("github.com/org/"),
        ("repository".to_string(), "github.com/org/".to_string())
    );
}

#[test]
fn from_url_refuses_what_follows_the_repository() {
    assert_eq!(missing("a/b/c/d"), ("repository".to_string(), "a/b/c/d".to_string()));
    assert_eq!(missing("a/b/c//"), ("repository".to_string(), "a/b/c//".to_string()));
    assert_eq!(missing("a/b/c/d/"), ("repository".to_string(), "a/b/c/d/".to_string()));
}

#[test]
fn url_is_read_back() {
    let coordinate = github("coralogix", "protofetch");
    let url = coordinate.url();
    assert_eq!(url, "github.com/coralogix/protofetch");
    assert_eq!(Coordinate::from_url(&url, Protocol::Ssh).unwrap(), coordinate);
    let with_slash = format!("{}/", url);
    assert_eq!(Coordinate::from_url(&with_slash, Protocol::Ssh).unwrap(), coordinate);
}

#[test]
fn split_segments_cuts_at_every_slash() {
    assert_eq!(split_segments("a//b/"), vec!["a", "", "b", ""]);
    assert_eq!(split_segments(""), vec![""]);
    assert_eq!(split_segments("plain"), vec!["plain"]);
    assert_eq!(split_segments("/"), vec!["", ""]);
    assert_eq!(split_segments("é/ü"), vec!["é", "ü"]);
}

#[test]
fn coordinates_compare_by_their_fields() {
    let a = github("org", "repo");
    let mut b = a.clone();
    assert_eq!(a, b);
    b.protocol = Protocol::Https;
    assert_ne!(a, b);
    let mut c = a.clone();
    c.repository = "other".to_string();
    assert_ne!(a, c);
    let mut d = a.clone();
    d.organization = "other".to_string();
    assert_ne!(a, d);
    let mut e = a.clone();
    e.forge = "gitlab.com".to_string();
    assert_ne!(a, e);
    assert!(github("a", "z") < github("b", "a"));
}

#[test]
fn clones_are_equal() {
    let dependency = Dependency {
        name: "dep".to_string(),
        coordinate: github("org", "repo"),
        revision: Revision::Commit("abc".to_string()),
        rules: vec!["proto/**".to_string(), "api".to_string()],
    };
    assert_eq!(dependency.clone(), dependency);
    let symbolic = Revision::Symbolic("main".to_string());
    assert_eq!(symbolic.clone(), symbolic);
    assert_ne!(symbolic, Revision::Commit("main".to_string()));
    let locked = LockedDependency {
        name: "dep".to_string(),
        coordinate: github("org", "repo"),
        commit_hash: "abc".to_string(),
    };
    assert_eq!(locked.clone(), locked);
}

#[test]
fn map_keeps_first_insertion_order() {
    let mut map: CoordinateMap<u32> = CoordinateMap::new();
    assert_eq!(map.len(), 0);
    assert_eq!(map.insert_absent(github("o", "b"), 2), None);
    assert_eq!(map.insert_absent(github("o", "a"), 1), None);
    assert_eq!(map.insert_absent(github("o", "b"), 9), Some(9));
    assert_eq!(map.len(), 2);
    assert_eq!(map.key(0), &github("o", "b"));
    assert_eq!(map.value(0), &2);
    assert_eq!(map.key(1), &github("o", "a"));
    assert_eq!(map.value(1), &1);
    assert_eq!(map.position(&github("o", "a")), Some(1));
    assert_eq!(map.position(&github("o", "c")), None);
}

#[test]
fn map_remove_keeps_the_order_of_the_rest() {
    let mut map: CoordinateMap<u32> = CoordinateMap::new();
    map.insert_absent(github("o", "a"), 1);
    map.insert_absent(github("o", "b"), 2);
    map.insert_absent(github("o", "c"), 3);
    assert_eq!(map.remove(&github("o", "b")), Some(2));
    assert_eq!(map.remove(&github("o", "b")), None);
    assert_eq!(map.len(), 2);
    assert_eq!(map.key(0), &github("o", "a"));
    assert_eq!(map.key(1), &github("o", "c"));
    assert_eq!(map.value(1), &3);
}

#[test]
fn map_records_requests_in_order() {
    let mut map: CoordinateMap<Vec<Revision>> = CoordinateMap::new();
    map.record(&github("o", "a"), Revision::Symbolic("v1".to_string()));
    map.record(&github("o", "b"), Revision::Symbolic("v2".to_string()));
    map.record(&github("o", "a"), Revision::Commit("abc".to_string()));
    assert_eq!(map.len(), 2);
    assert_eq!(
        map.value(0),
        &vec![Revision::Symbolic("v1".to_string()), Revision::Commit("abc".to_string())]
    );
    assert_eq!(map.value(1), &vec![Revision::Symbolic("v2".to_string())]);
}

#[test]
fn parse_error_messages() {
    assert_eq!(
        ParseError::MissingUrlComponent("forge".to_string(), "".to_string()).message(),
        "Missing url component `forge` in string ``"
    );
    assert_eq!(
        ParseError::MissingKey("name".to_string()).message(),
        "Missing TOML key `name` while parsing"
    );
    let not_a_number = "x".parse::<u32>().unwrap_err();
    assert_eq!(ParseError::from(not_a_number).message(), "Parse error");
    let io = std::io::Error::new(std::io::ErrorKind::Other, "disk full");
    assert_eq!(ParseError::from(io).message(), "IO error: disk full");
    let toml_error = "= 1".parse::<toml::Value>().unwrap_err();
    let expected = format!("TOML parsing error: {}", toml_error);
    assert_eq!(ParseError::from(toml_error).message(), expected);
    assert!(expected.len() > "TOML parsing error: ".len());
}

#[test]
fn cache_error_messages() {
    assert_eq!(
        CacheError::BadLocation("/nowhere".to_string()).message(),
        "Cache location /nowhere does not exist"
    );
    assert_eq!(CacheError::from(git2::Error::from_str("no remote")).message(), "Git error: no remote");
    let io = std::io::Error::new(std::io::ErrorKind::Other, "locked");
    assert_eq!(CacheError::from(io).message(), "IO error: locked");
}

#[test]
fn proto_repo_error_messages() {
    assert_eq!(
        ProtoRepoError::MissingDescriptor("dep".to_string(), "v1".to_string()).message(),
        "Missing descriptor of dep dep for revision v1"
    );
    assert_eq!(
        ProtoRepoError::Revparse(
            "dep".to_string(),
            "v1".to_string(),
            git2::Error::from_str("not found")
        )
        .message(),
        "Error while performing revparse in dep dep for revision v1: not found"
    );
    assert_eq!(ProtoRepoError::from(git2::Error::from_str("boom")).message(), "Git error: boom");
    let bytes: Vec<u8> = vec![0xff, 0xfe];
    let utf8 = std::str::from_utf8(&bytes).unwrap_err();
    let expected = format!("Error while decoding utf8 bytes from blob: {}", utf8);
    assert_eq!(ProtoRepoError::from(utf8).message(), expected);
    assert_eq!(
        ProtoRepoError::from(ParseError::MissingKey("name".to_string())).message(),
        "Error while parsing descriptor"
    );
    let io = std::io::Error::new(std::io::ErrorKind::Other, "read only");
    assert_eq!(ProtoRepoError::from(io).message(), "IO error: read only");
}

#[test]
fn fetch_error_messages() {
    assert_eq!(FetchError::BadOutputDir("out.txt".to_string()).message(), "Bad output dir out.txt");
    assert_eq!(
        FetchError::from(CacheError::BadLocation("/nowhere".to_string())).message(),
        "Error while fetching repo from cache: Cache location /nowhere does not exist"
    );
    assert_eq!(
        FetchError::from(ProtoRepoError::MissingDescriptor("dep".to_string(), "v1".to_string()))
            .message(),
        "Error while processing protobuf repository: Missing descriptor of dep dep for revision v1"
    );
    assert_eq!(FetchError::from(git2::Error::from_str("boom")).message(), "Git error: boom");
    let bytes: Vec<u8> = vec![0xc0];
    let utf8 = std::str::from_utf8(&bytes).unwrap_err();
    let expected = format!("Error while decoding utf8 bytes from blob: {}", utf8);
    assert_eq!(FetchError::from(utf8).message(), expected);
    assert_eq!(
        FetchError::from(ParseError::MissingKey("name".to_string())).message(),
        "Error while parsing descriptor"
    );
    let io = std::io::Error::new(std::io::ErrorKind::Other, "no space");
    assert_eq!(FetchError::from(io).message(), "IO error: no space");
    assert_eq!(
        FetchError::TooManyVisits(7).message(),
        "Gave up resolving: the walk of the dependency graph reached its limit"
    );
}

#[test]
fn errors_wrap_by_kind() {
    assert!(matches!(
        FetchError::from(CacheError::BadLocation("x".to_string())),
        FetchError::Cache(CacheError::BadLocation(_))
    ));
    assert!(matches!(FetchError::from(git2::Error::from_str("x")), FetchError::GitError(_)));
    assert!(matches!(
        FetchError::from(ParseError::MissingKey("k".to_string())),
        FetchError::Parsing(ParseError::MissingKey(_))
    ));
    assert!(matches!(
        FetchError::from(ProtoRepoError::MissingDescriptor("d".to_string(), "r".to_string())),
        FetchError::ProtoRepoError(ProtoRepoError::MissingDescriptor(_, _))
    ));
    assert!(matches!(
        FetchError::from(std::io::Error::new(std::io::ErrorKind::Other, "x")),
        FetchError::IO(_)
    ));
    assert!(matches!(CacheError::from(git2::Error::from_str("x")), CacheError::Git(_)));
    assert!(matches!(ProtoRepoError::from(git2::Error::from_str("x")), ProtoRepoError::GitError(_)));
}

#[test]
fn command_line_defaults() {
    let args = CliArgs::new(Command::Lock);
    assert_eq!(args.cmd, Command::Lock);
    assert_eq!(args.module_location, "protofetch.toml");
    assert_eq!(args.lockfile_location, "protofetch.lock");
    assert_eq!(args.cache_directory, ".protofetch_cache");
    assert_eq!(args.username, None);
    assert_eq!(args.password, None);
    assert_eq!(
        Command::fetch(),
        Command::Fetch {
            force_lock: false,
            source_output_directory: "dependencies".to_string(),
            proto_output_directory: "proto_src".to_string(),
        }
    );
}

#[test]
fn fetch_locks_when_forced_or_without_lock_file() {
    let forced = Command::Fetch {
        force_lock: true,
        source_output_directory: "dependencies".to_string(),
        proto_output_directory: "proto_src".to_string(),
    };
    assert!(forced.locks_first(true));
    assert!(forced.locks_first(false));
    assert!(!Command::fetch().locks_first(true));
    assert!(Command::fetch().locks_first(false));
    assert!(Command::Lock.locks_first(true));
    assert!(Command::Lock.locks_first(false));
    assert!(!Command::Clean.locks_first(false));
    assert!(!Command::ClearCache.locks_first(false));
    let init = Command::Init { directory: ".".to_string(), name: None };
    assert!(!init.locks_first(false));
    let migrate = Command::Migrate { directory: ".".to_string(), name: Some("m".to_string()) };
    assert!(!migrate.locks_first(false));
}

fn sample_lock_file() -> LockFile {
    LockFile {
        module_name: "app".to_string(),
        dependencies: vec![
            LockedDependency {
                name: "x".to_string(),
                coordinate: github("org", "x"),
                commit_hash: "1111111".to_string(),
            },
            LockedDependency {
                name: "y".to_string(),
                coordinate: Coordinate {
                    forge: "gitlab.com".to_string(),
                    organization: "other".to_string(),
                    repository: "y".to_string(),
                    protocol: Protocol::Https,
                },
                commit_hash: "2222222".to_string(),
            },
        ],
    }
}

fn missing_key(document: &LockDocument) -> String {
    match LockFile::from_document(document) {
        Err(ParseError::MissingKey(key)) => key,
        other => panic!("unexpected outcome: {:?}", other),
    }
}

#[test]
fn lock_document_holds_every_field() {
    let document = sample_lock_file().to_document();
    assert_eq!(document.module_name, Some("app".to_string()));
    assert_eq!(document.dependencies.len(), 2);
    assert_eq!(
        document.dependencies[1],
        LockedEntry {
            name: Some("y".to_string()),
            forge: Some("gitlab.com".to_string()),
            organization: Some("other".to_string()),
            repository: Some("y".to_string()),
            protocol: Some(Protocol::Https),
            commit_hash: Some("2222222".to_string()),
        }
    );
}

#[test]
fn lock_document_reads_back() {
    let lock_file = sample_lock_file();
    let read = LockFile::from_document(&lock_file.to_document()).unwrap();
    assert_eq!(read, lock_file);
    let empty = LockFile { module_name: "solo".to_string(), dependencies: vec![] };
    assert_eq!(LockFile::from_document(&empty.to_document()).unwrap(), empty);
}

#[test]
fn lock_document_names_the_first_missing_key() {
    let mut document = sample_lock_file().to_document();
    document.dependencies[1].commit_hash = None;
    assert_eq!(missing_key(&document), "commit_hash");
    document.dependencies[1].protocol = None;
    assert_eq!(missing_key(&document), "protocol");
    document.dependencies[1].repository = None;
    assert_eq!(missing_key(&document), "repository");
    document.dependencies[1].organization = None;
    assert_eq!(missing_key(&document), "organization");
    document.dependencies[0].forge = None;
    assert_eq!(missing_key(&document), "forge");
    document.dependencies[0].name = None;
    assert_eq!(missing_key(&document), "name");
    document.module_name = None;
    assert_eq!(missing_key(&document), "module_name");
}

#[test]
fn locked_entry_reads_back() {
    let locked = LockedDependency {
        name: "x".to_string(),
        coordinate: github("org", "x"),
        commit_hash: "1111111".to_string(),
    };
    assert_eq!(LockedDependency::from_entry(&locked.to_entry()).unwrap(), locked);
}

fn sample_descriptor() -> Descriptor {
    Descriptor {
        name: "app".to_string(),
        dependencies: vec![
            Dependency {
                name: "x".to_string(),
                coordinate: github("org", "x"),
                revision: Revision::Symbolic("main".to_string()),
                rules: vec!["proto".to_string()],
            },
            Dependency {
                name: "y".to_string(),
                coordinate: github("org", "y"),
                revision: Revision::Commit("abc1234".to_string()),
                rules: vec![],
            },
        ],
    }
}

#[test]
fn manifest_holds_every_field() {
    let document = sample_descriptor().to_document();
    assert_eq!(document.name, Some("app".to_string()));
    assert_eq!(
        document.dependencies,
        vec![
            DependencyEntry {
                name: "x".to_string(),
                protocol: Some(Protocol::Ssh),
                url: Some("github.com/org/x".to_string()),
                revision: Some(Revision::Symbolic("main".to_string())),
                rules: vec!["proto".to_string()],
            },
            DependencyEntry {
                name: "y".to_string(),
                protocol: Some(Protocol::Ssh),
                url: Some("github.com/org/y".to_string()),
                revision: Some(Revision::Commit("abc1234".to_string())),
                rules: vec![],
            },
        ]
    );
}

#[test]
fn manifest_reads_back() {
    let descriptor = sample_descriptor();
    assert_eq!(Descriptor::from_document(&descriptor.to_document()).unwrap(), descriptor);
    let bare = Descriptor { name: "solo".to_string(), dependencies: vec![] };
    assert_eq!(Descriptor::from_document(&bare.to_document()).unwrap(), bare);
}

#[test]
fn manifest_names_what_is_wrong_first() {
    let mut document: DescriptorDocument = sample_descriptor().to_document();
    document.dependencies[1].revision = None;
    assert!(matches!(
        Descriptor::from_document(&document),
        Err(ParseError::MissingKey(key)) if key == "revision"
    ));
    document.dependencies[1].url = Some("github.com/org".to_string());
    assert!(matches!(
        Descriptor::from_document(&document),
        Err(ParseError::MissingUrlComponent(component, url))
            if component == "repository" && url == "github.com/org"
    ));
    document.dependencies[1].url = None;
    assert!(matches!(
        Descriptor::from_document(&document),
        Err(ParseError::MissingKey(key)) if key == "url"
    ));
    document.dependencies[0].protocol = None;
    document.dependencies[0].url = None;
    assert!(matches!(
        Descriptor::from_document(&document),
        Err(ParseError::MissingKey(key)) if key == "protocol"
    ));
    document.name = None;
    assert!(matches!(
        Descriptor::from_document(&document),
        Err(ParseError::MissingKey(key)) if key == "name"
    ));
}

#[test]
fn dependency_entry_reads_back() {
    let dependency = Dependency {
        name: "x".to_string(),
        coordinate: github("org", "x"),
        revision: Revision::Symbolic("v1.0".to_string()),
        rules: vec!["a".to_string(), "b".to_string()],
    };
    assert_eq!(Dependency::from_entry(&dependency.to_entry()).unwrap(), dependency);
}

fn text_value(text: &Option<String>) -> Option<toml::Value> {
    text.as_ref().map(|text| toml::Value::String(text.clone()))
}

fn text_at(table: &toml::value::Table, key: &str) -> Option<String> {
    table.get(key).and_then(|value| value.as_str()).map(|text| text.to_string())
}

fn toml_of(document: &LockDocument) -> String {
    let mut root = toml::value::Table::new();
    if let Some(value) = text_value(&document.module_name) {
        root.insert("module_name".to_string(), value);
    }
    let mut entries = Vec::new();
    for entry in &document.dependencies {
        let mut table = toml::value::Table::new();
        let protocol = entry.protocol.map(|protocol| match protocol {
            Protocol::Https => "https".to_string(),
            Protocol::Ssh => "ssh".to_string(),
        });
        let fields = [
            ("name", &entry.name),
            ("forge", &entry.forge),
            ("organization", &entry.organization),
            ("repository", &entry.repository),
            ("protocol", &protocol),
            ("commit_hash", &entry.commit_hash),
        ];
        for (key, field) in fields {
            if let Some(value) = text_value(field) {
                table.insert(key.to_string(), value);
            }
        }
        entries.push(toml::Value::Table(table));
    }
    root.insert("dependencies".to_string(), toml::Value::Array(entries));
    toml::to_string(&toml::Value::Table(root)).unwrap()
}

fn document_of_toml(text: &str) -> LockDocument {
    let root: toml::value::Table = toml::from_str(text).unwrap();
    let mut dependencies = Vec::new();
    if let Some(entries) = root.get("dependencies").and_then(|value| value.as_array()) {
        for entry in entries {
            let table = entry.as_table().unwrap();
            dependencies.push(LockedEntry {
                name: text_at(table, "name"),
                forge: text_at(table, "forge"),
                organization: text_at(table, "organization"),
                repository: text_at(table, "repository"),
                protocol: match text_at(table, "protocol").as_deref() {
                    Some("https") => Some(Protocol::Https),
                    Some("ssh") => Some(Protocol::Ssh),
                    _ => None,
                },
                commit_hash: text_at(table, "commit_hash"),
            });
        }
    }
    LockDocument { module_name: text_at(&root, "module_name"), dependencies }
}

#[test]
fn lock_artifact_round_trips_through_toml() {
    let lock_file = sample_lock_file();
    let text = toml_of(&lock_file.to_document());
    assert!(text.contains("module_name = \"app\""));
    assert!(text.contains("commit_hash = \"2222222\""));
    let read = LockFile::from_document(&document_of_toml(&text)).unwrap();
    assert_eq!(read, lock_file);
    assert_eq!(toml_of(&read.to_document()), text);
}

#[test]
fn lock_artifact_with_a_missing_field_is_refused() {
    let text = "module_name = \"app\"\n\n[[dependencies]]\nname = \"x\"\nforge = \"github.com\"\norganization = \"org\"\nrepository = \"x\"\nprotocol = \"ssh\"\n";
    let outcome = LockFile::from_document(&document_of_toml(text));
    assert!(matches!(outcome, Err(ParseError::MissingKey(key)) if key == "commit_hash"));
}

#[test]
fn lock_file_knows_whether_it_pins_once() {
    let mut lock_file = sample_lock_file();
    assert!(lock_file.pins_once());
    let again = LockedDependency {
        name: "x_again".to_string(),
        coordinate: github("org", "x"),
        commit_hash: "3333333".to_string(),
    };
    lock_file.dependencies.push(again);
    assert!(!lock_file.pins_once());
    lock_file.dependencies[2].coordinate.protocol = Protocol::Https;
    assert!(lock_file.pins_once());
    assert!(LockFile { module_name: "solo".to_string(), dependencies: vec![] }.pins_once());
}

#[test]
fn from_url_gives_names_that_can_be_written_again() {
    for url in ["a/b/c", "a/b/c/", "github.com/coralogix/protofetch"] {
        let coordinate = Coordinate::from_url(url, Protocol::Https).unwrap();
        for name in [&coordinate.forge, &coordinate.organization, &coordinate.repository] {
            assert!(!name.is_empty());
            assert!(!name.contains('/'));
        }
        assert_eq!(Coordinate::from_url(&coordinate.url(), Protocol::Https).unwrap(), coordinate);
    }
}

#[test]
fn command_line_default_values() {
    assert_eq!(DEFAULT_MODULE_LOCATION, "protofetch.toml");
    assert_eq!(DEFAULT_LOCKFILE_LOCATION, "protofetch.lock");
    assert_eq!(DEFAULT_CACHE_DIRECTORY, ".protofetch_cache");
    assert_eq!(DEFAULT_SOURCE_OUTPUT_DIRECTORY, "dependencies");
    assert_eq!(DEFAULT_PROTO_OUTPUT_DIRECTORY, "proto_src");
    assert_eq!(DEFAULT_DIRECTORY, ".");
}
