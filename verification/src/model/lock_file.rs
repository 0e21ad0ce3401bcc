//! What a resolution pins.

use vstd::prelude::*;
use crate::model::coordinate::{Coordinate, CoordinateView, Protocol};
use crate::model::ParseError;

verus! {

/// A repository pinned to one commit, under the name it was first declared
/// with.
#[derive(Debug, PartialEq, Eq, PartialOrd, Ord, Hash)]
pub struct LockedDependency {
    pub name: String,
    pub coordinate: Coordinate,
    pub commit_hash: String,
}

/// A locked dependency as a mathematical value.
pub struct LockedDependencyView {
    pub name: Seq<char>,
    pub coordinate: CoordinateView,
    pub commit_hash: Seq<char>,
}

impl View for LockedDependency {
    type V = LockedDependencyView;

    open spec fn view(&self) -> LockedDependencyView {
        LockedDependencyView {
            name: self.name@,
            coordinate: self.coordinate@,
            commit_hash: self.commit_hash@,
        }
    }
}

impl Clone for LockedDependency {
    fn clone(&self) -> (r: LockedDependency)
        ensures
            r == *self,
    {
        LockedDependency {
            name: self.name.clone(),
            coordinate: self.coordinate.clone(),
            commit_hash: self.commit_hash.clone(),
        }
    }
}

/// The reproducible outcome of a resolution: the module it was made for and
/// every repository it depends on, each pinned to one commit.
#[derive(Debug, PartialEq, Eq)]
pub struct LockFile {
    pub module_name: String,
    pub dependencies: Vec<LockedDependency>,
}

/// A lock file as a mathematical value.
pub struct LockFileView {
    pub module_name: Seq<char>,
    pub dependencies: Seq<LockedDependencyView>,
}

/// The coordinates that a list of locked dependencies pins, in order.
pub open spec fn locked_coordinates(dependencies: Seq<LockedDependencyView>) -> Seq<CoordinateView> {
    dependencies.map_values(|d: LockedDependencyView| d.coordinate)
}

impl LockFileView {
    /// No repository is pinned twice.
    pub open spec fn unique(self) -> bool {
        locked_coordinates(self.dependencies).no_duplicates()
    }
}

impl View for LockFile {
    type V = LockFileView;

    open spec fn view(&self) -> LockFileView {
        LockFileView {
            module_name: self.module_name@,
            dependencies: self.dependencies@.map_values(|d: LockedDependency| d@),
        }
    }
}

/// A locked dependency as a lock artifact holds it: field by field, each
/// present or not.
#[derive(Debug, PartialEq, Eq)]
pub struct LockedEntry {
    pub name: Option<String>,
    pub forge: Option<String>,
    pub organization: Option<String>,
    pub repository: Option<String>,
    pub protocol: Option<Protocol>,
    pub commit_hash: Option<String>,
}

/// A lock artifact as a document: the module's name, present or not, and the
/// locked dependencies in order.
#[derive(Debug, PartialEq, Eq)]
pub struct LockDocument {
    pub module_name: Option<String>,
    pub dependencies: Vec<LockedEntry>,
}

/// An optional text as a mathematical value.
pub open spec fn text_view(text: Option<String>) -> Option<Seq<char>> {
    match text {
        Some(text) => Some(text@),
        None => None,
    }
}

/// An entry of a lock artifact as a mathematical value.
pub struct LockedEntryView {
    pub name: Option<Seq<char>>,
    pub forge: Option<Seq<char>>,
    pub organization: Option<Seq<char>>,
    pub repository: Option<Seq<char>>,
    pub protocol: Option<Protocol>,
    pub commit_hash: Option<Seq<char>>,
}

impl View for LockedEntry {
    type V = LockedEntryView;

    open spec fn view(&self) -> LockedEntryView {
        LockedEntryView {
            name: text_view(self.name),
            forge: text_view(self.forge),
            organization: text_view(self.organization),
            repository: text_view(self.repository),
            protocol: self.protocol,
            commit_hash: text_view(self.commit_hash),
        }
    }
}

/// A lock artifact as a mathematical value.
pub struct LockDocumentView {
    pub module_name: Option<Seq<char>>,
    pub dependencies: Seq<LockedEntryView>,
}

impl View for LockDocument {
    type V = LockDocumentView;

    open spec fn view(&self) -> LockDocumentView {
        LockDocumentView {
            module_name: text_view(self.module_name),
            dependencies: self.dependencies@.map_values(|e: LockedEntry| e@),
        }
    }
}

/// The entry that is written for a locked dependency: every field present.
pub open spec fn entry_of(locked: LockedDependencyView) -> LockedEntryView {
    LockedEntryView {
        name: Some(locked.name),
        forge: Some(locked.coordinate.forge),
        organization: Some(locked.coordinate.organization),
        repository: Some(locked.coordinate.repository),
        protocol: Some(locked.coordinate.protocol),
        commit_hash: Some(locked.commit_hash),
    }
}

/// The document that is written for a lock file.
pub open spec fn document_of(lock_file: LockFileView) -> LockDocumentView {
    LockDocumentView {
        module_name: Some(lock_file.module_name),
        dependencies: lock_file.dependencies.map_values(|d: LockedDependencyView| entry_of(d)),
    }
}

/// The locked dependency that an entry stands for, or the key of the first
/// field that is missing.
pub open spec fn read_entry(entry: LockedEntryView) -> Result<LockedDependencyView, Seq<char>> {
    if entry.name.is_none() {
        Err("name"@)
    } else if entry.forge.is_none() {
        Err("forge"@)
    } else if entry.organization.is_none() {
        Err("organization"@)
    } else if entry.repository.is_none() {
        Err("repository"@)
    } else if entry.protocol.is_none() {
        Err("protocol"@)
    } else if entry.commit_hash.is_none() {
        Err("commit_hash"@)
    } else {
        Ok(
            LockedDependencyView {
                name: entry.name.unwrap(),
                coordinate: CoordinateView {
                    forge: entry.forge.unwrap(),
                    organization: entry.organization.unwrap(),
                    repository: entry.repository.unwrap(),
                    protocol: entry.protocol.unwrap(),
                },
                commit_hash: entry.commit_hash.unwrap(),
            },
        )
    }
}

/// The locked dependencies that entries stand for, in order, or the key that
/// is missing in the first entry that lacks one.
pub open spec fn read_entries(entries: Seq<LockedEntryView>) -> Result<
    Seq<LockedDependencyView>,
    Seq<char>,
>
    decreases entries.len(),
{
    if entries.len() == 0 {
        Ok(Seq::empty())
    } else {
        match read_entries(entries.drop_last()) {
            Err(key) => Err(key),
            Ok(earlier) => match read_entry(entries.last()) {
                Err(key) => Err(key),
                Ok(locked) => Ok(earlier.push(locked)),
            },
        }
    }
}

/// The lock file that a document stands for, or the key that is missing
/// first: the module's name, or a field of an entry.
pub open spec fn read_document(document: LockDocumentView) -> Result<LockFileView, Seq<char>> {
    match document.module_name {
        None => Err("module_name"@),
        Some(module_name) => match read_entries(document.dependencies) {
            Err(key) => Err(key),
            Ok(dependencies) => Ok(LockFileView { module_name, dependencies }),
        },
    }
}

/// Once an entry lacks a field, no entry behind it mends that.
pub proof fn lemma_missing_key_stays(entries: Seq<LockedEntryView>, k: int)
    requires
        0 <= k <= entries.len(),
        read_entries(entries.take(k)).is_err(),
    ensures
        read_entries(entries) == read_entries(entries.take(k)),
    decreases entries.len(),
{
    if k == entries.len() {
        assert(entries.take(k) =~= entries);
    } else {
        assert(entries.drop_last().take(k) =~= entries.take(k));
        lemma_missing_key_stays(entries.drop_last(), k);
    }
}

/// Round trip. The document written for a lock file reads back as that lock
/// file.
pub proof fn lemma_document_round_trip(lock_file: LockFileView)
    ensures
        read_document(document_of(lock_file)) == Ok::<LockFileView, Seq<char>>(lock_file),
{
    lemma_entries_round_trip(lock_file.dependencies);
}

/// The entries written for locked dependencies read back as those.
pub proof fn lemma_entries_round_trip(dependencies: Seq<LockedDependencyView>)
    ensures
        read_entries(dependencies.map_values(|d: LockedDependencyView| entry_of(d))) == Ok::<
            Seq<LockedDependencyView>,
            Seq<char>,
        >(dependencies),
    decreases dependencies.len(),
{
    let entries = dependencies.map_values(|d: LockedDependencyView| entry_of(d));
    if dependencies.len() > 0 {
        lemma_entries_round_trip(dependencies.drop_last());
        assert(entries.drop_last() =~= dependencies.drop_last().map_values(
            |d: LockedDependencyView| entry_of(d),
        ));
        assert(read_entry(entries.last()) == Ok::<LockedDependencyView, Seq<char>>(
            dependencies.last(),
        ));
        assert(dependencies.drop_last().push(dependencies.last()) =~= dependencies);
    } else {
        assert(dependencies =~= Seq::empty());
    }
}

/// The text of a field, or the failure that names its key.
fn required(field: &Option<String>, key: &str) -> (r: Result<String, ParseError>)
    ensures
        match field {
            Some(text) => r matches Ok(found) && found@ == text@,
            None => r matches Err(ParseError::MissingKey(missing)) && missing@ == key@,
        },
{
    match field {
        Some(text) => Ok(text.clone()),
        None => Err(ParseError::MissingKey(key.to_owned())),
    }
}

impl LockedDependency {
    /// The entry that a lock artifact holds for this dependency.
    pub fn to_entry(&self) -> (entry: LockedEntry)
        ensures
            entry@ == entry_of(self@),
    {
        LockedEntry {
            name: Some(self.name.clone()),
            forge: Some(self.coordinate.forge.clone()),
            organization: Some(self.coordinate.organization.clone()),
            repository: Some(self.coordinate.repository.clone()),
            protocol: Some(self.coordinate.protocol),
            commit_hash: Some(self.commit_hash.clone()),
        }
    }

    /// Reads an entry of a lock artifact. Fails on the first field that is
    /// missing, with its key.
    pub fn from_entry(entry: &LockedEntry) -> (r: Result<LockedDependency, ParseError>)
        ensures
            match read_entry(entry@) {
                Ok(locked) => r matches Ok(found) && found@ == locked,
                Err(key) => r matches Err(ParseError::MissingKey(missing)) && missing@ == key,
            },
    {
        let name = match required(&entry.name, "name") {
            Ok(name) => name,
            Err(error) => {
                return Err(error);
            },
        };
        let forge = match required(&entry.forge, "forge") {
            Ok(forge) => forge,
            Err(error) => {
                return Err(error);
            },
        };
        let organization = match required(&entry.organization, "organization") {
            Ok(organization) => organization,
            Err(error) => {
                return Err(error);
            },
        };
        let repository = match required(&entry.repository, "repository") {
            Ok(repository) => repository,
            Err(error) => {
                return Err(error);
            },
        };
        let protocol = match entry.protocol {
            Some(protocol) => protocol,
            None => {
                return Err(ParseError::MissingKey("protocol".to_owned()));
            },
        };
        let commit_hash = match required(&entry.commit_hash, "commit_hash") {
            Ok(commit_hash) => commit_hash,
            Err(error) => {
                return Err(error);
            },
        };
        Ok(
            LockedDependency {
                name,
                coordinate: Coordinate { forge, organization, repository, protocol },
                commit_hash,
            },
        )
    }
}

impl LockFile {
    /// Whether the lock file pins no repository twice.
    pub fn pins_once(&self) -> (r: bool)
        ensures
            r == self@.unique(),
    {
        let ghost pinned = locked_coordinates(self@.dependencies);
        let mut i: usize = 0;
        while i < self.dependencies.len()
            invariant
                i <= self.dependencies@.len(),
                pinned == locked_coordinates(self@.dependencies),
                forall|a: int, b: int| 0 <= a < b < i ==> pinned[a] != pinned[b],
            decreases self.dependencies@.len() - i,
        {
            let mut j: usize = 0;
            while j < i
                invariant
                    j <= i < self.dependencies@.len(),
                    pinned == locked_coordinates(self@.dependencies),
                    forall|a: int| 0 <= a < j ==> pinned[a] != pinned[i as int],
                decreases i - j,
            {
                if self.dependencies[j].coordinate == self.dependencies[i].coordinate {
                    assert(pinned[j as int] == pinned[i as int]);
                    return false;
                }
                j += 1;
            }
            i += 1;
        }
        true
    }

    /// The document that a lock artifact holds for this lock file.
    pub fn to_document(&self) -> (document: LockDocument)
        ensures
            document@ == document_of(self@),
    {
        let mut entries: Vec<LockedEntry> = Vec::new();
        let mut i: usize = 0;
        while i < self.dependencies.len()
            invariant
                i <= self.dependencies@.len(),
                entries@.len() == i,
                forall|j: int| 0 <= j < i ==> (#[trigger] entries@[j])@ == entry_of(
                    self.dependencies@[j]@,
                ),
            decreases self.dependencies@.len() - i,
        {
            entries.push(self.dependencies[i].to_entry());
            i += 1;
        }
        let document = LockDocument {
            module_name: Some(self.module_name.clone()),
            dependencies: entries,
        };
        assert(document@.dependencies =~= document_of(self@).dependencies);
        document
    }

    /// Reads a lock artifact. Fails on the first key that is missing: the
    /// module's name, or a field of an entry.
    pub fn from_document(document: &LockDocument) -> (r: Result<LockFile, ParseError>)
        ensures
            match read_document(document@) {
                Ok(lock_file) => r matches Ok(found) && found@ == lock_file,
                Err(key) => r matches Err(ParseError::MissingKey(missing)) && missing@ == key,
            },
    {
        let module_name = match required(&document.module_name, "module_name") {
            Ok(module_name) => module_name,
            Err(error) => {
                return Err(error);
            },
        };
        let ghost entries = document@.dependencies;
        let mut dependencies: Vec<LockedDependency> = Vec::new();
        let mut i: usize = 0;
        assert(entries.take(0) =~= Seq::<LockedEntryView>::empty());
        assert(dependencies@.map_values(|d: LockedDependency| d@) =~= Seq::<
            LockedDependencyView,
        >::empty());
        while i < document.dependencies.len()
            invariant
                i <= document.dependencies@.len(),
                entries == document@.dependencies,
                document@.module_name == Some(module_name@),
                read_entries(entries.take(i as int)) == Ok::<Seq<LockedDependencyView>, Seq<char>>(
                    dependencies@.map_values(|d: LockedDependency| d@),
                ),
            decreases document.dependencies@.len() - i,
        {
            let ghost before = dependencies@.map_values(|d: LockedDependency| d@);
            proof {
                assert(entries.take(i + 1).drop_last() =~= entries.take(i as int));
                assert(entries.take(i + 1).last() == document.dependencies@[i as int]@);
            }
            match LockedDependency::from_entry(&document.dependencies[i]) {
                Ok(locked) => {
                    dependencies.push(locked);
                    assert(dependencies@.map_values(|d: LockedDependency| d@) =~= before.push(
                        locked@,
                    ));
                },
                Err(error) => {
                    proof {
                        let upto = entries.take(i + 1);
                        assert(read_entries(upto.drop_last()).is_ok());
                        assert(read_entry(upto.last()).is_err());
                        assert(read_entries(upto) matches Err(key) && read_entry(upto.last())
                            == Err::<LockedDependencyView, Seq<char>>(key));
                        lemma_missing_key_stays(entries, i + 1);
                    }
                    return Err(error);
                },
            }
            i += 1;
        }
        assert(entries.take(i as int) =~= entries);
        Ok(LockFile { module_name, dependencies })
    }
}

} // verus!
