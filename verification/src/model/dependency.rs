//! What a module declares: its dependencies, each at a requested revision.

use vstd::prelude::*;
use crate::model::coordinate::{
    lemma_url_round_trip, parse_url, referable, url_of, Coordinate, CoordinateView, Protocol,
};
use crate::model::ParseError;

verus! {

/// A reference into a repository's history.
#[derive(Debug, PartialEq, Eq, PartialOrd, Ord, Hash)]
pub enum Revision {
    /// A branch or a tag, by name.
    Symbolic(String),
    /// A fixed commit, by its identifier.
    Commit(String),
}

/// A revision as a mathematical value.
pub enum RevisionView {
    Symbolic(Seq<char>),
    Commit(Seq<char>),
}

impl View for Revision {
    type V = RevisionView;

    open spec fn view(&self) -> RevisionView {
        match self {
            Revision::Symbolic(name) => RevisionView::Symbolic(name@),
            Revision::Commit(hash) => RevisionView::Commit(hash@),
        }
    }
}

impl Clone for Revision {
    fn clone(&self) -> (r: Revision)
        ensures
            r == *self,
    {
        match self {
            Revision::Symbolic(name) => Revision::Symbolic(name.clone()),
            Revision::Commit(hash) => Revision::Commit(hash.clone()),
        }
    }
}

/// The views of a list of revisions, in order.
pub open spec fn revision_views(revisions: Seq<Revision>) -> Seq<RevisionView> {
    revisions.map_values(|r: Revision| r@)
}

/// One declared edge of the dependency graph: the name under which the
/// declaring module imports a repository, the repository, the revision asked
/// for and the paths within the repository that are wanted.
#[derive(Debug, PartialEq, Eq, PartialOrd, Ord, Hash)]
pub struct Dependency {
    pub name: String,
    pub coordinate: Coordinate,
    pub revision: Revision,
    pub rules: Vec<String>,
}

/// A dependency as a mathematical value.
pub struct DependencyView {
    pub name: Seq<char>,
    pub coordinate: CoordinateView,
    pub revision: RevisionView,
    pub rules: Seq<Seq<char>>,
}

impl View for Dependency {
    type V = DependencyView;

    open spec fn view(&self) -> DependencyView {
        DependencyView {
            name: self.name@,
            coordinate: self.coordinate@,
            revision: self.revision@,
            rules: self.rules.deep_view(),
        }
    }
}

impl Clone for Dependency {
    fn clone(&self) -> (r: Dependency)
        ensures
            r@ == self@,
    {
        let rules = self.rules.clone();
        assert(rules.deep_view() =~= self.rules.deep_view());
        Dependency {
            name: self.name.clone(),
            coordinate: self.coordinate.clone(),
            revision: self.revision.clone(),
            rules,
        }
    }
}

/// The views of a list of dependencies, in order.
pub open spec fn dependency_views(dependencies: Seq<Dependency>) -> Seq<DependencyView> {
    dependencies.map_values(|d: Dependency| d@)
}

/// The manifest that a repository holds at one revision. Of its contents the
/// resolver reads the dependencies that the repository declares in turn.
#[derive(Debug, PartialEq, Eq)]
pub struct Descriptor {
    pub name: String,
    pub dependencies: Vec<Dependency>,
}

/// A descriptor as a mathematical value.
pub struct DescriptorView {
    pub name: Seq<char>,
    pub dependencies: Seq<DependencyView>,
}

impl View for Descriptor {
    type V = DescriptorView;

    open spec fn view(&self) -> DescriptorView {
        DescriptorView { name: self.name@, dependencies: dependency_views(self.dependencies@) }
    }
}

/// A dependency as a manifest holds it: under its name, field by field,
/// each field present or not.
#[derive(Debug, PartialEq, Eq)]
pub struct DependencyEntry {
    pub name: String,
    pub protocol: Option<Protocol>,
    pub url: Option<String>,
    pub revision: Option<Revision>,
    pub rules: Vec<String>,
}

/// A manifest as a document: the module's name, present or not, and the
/// dependencies in order.
#[derive(Debug, PartialEq, Eq)]
pub struct DescriptorDocument {
    pub name: Option<String>,
    pub dependencies: Vec<DependencyEntry>,
}

/// An entry of a manifest as a mathematical value.
pub struct DependencyEntryView {
    pub name: Seq<char>,
    pub protocol: Option<Protocol>,
    pub url: Option<Seq<char>>,
    pub revision: Option<RevisionView>,
    pub rules: Seq<Seq<char>>,
}

impl View for DependencyEntry {
    type V = DependencyEntryView;

    open spec fn view(&self) -> DependencyEntryView {
        DependencyEntryView {
            name: self.name@,
            protocol: self.protocol,
            url: match self.url {
                Some(url) => Some(url@),
                None => None,
            },
            revision: match self.revision {
                Some(revision) => Some(revision@),
                None => None,
            },
            rules: self.rules.deep_view(),
        }
    }
}

/// A manifest as a mathematical value.
pub struct DescriptorDocumentView {
    pub name: Option<Seq<char>>,
    pub dependencies: Seq<DependencyEntryView>,
}

impl View for DescriptorDocument {
    type V = DescriptorDocumentView;

    open spec fn view(&self) -> DescriptorDocumentView {
        DescriptorDocumentView {
            name: match self.name {
                Some(name) => Some(name@),
                None => None,
            },
            dependencies: self.dependencies@.map_values(|e: DependencyEntry| e@),
        }
    }
}

/// Why a manifest cannot be read.
pub enum Unreadable {
    /// The key is missing.
    MissingKey(Seq<char>),
    /// The repository reference lacks the component.
    MissingUrlComponent(Seq<char>, Seq<char>),
}

/// What a failure to read says, where it is one of a manifest's own.
pub open spec fn unreadable(error: ParseError) -> Option<Unreadable> {
    match error {
        ParseError::MissingKey(key) => Some(Unreadable::MissingKey(key@)),
        ParseError::MissingUrlComponent(component, url) => Some(
            Unreadable::MissingUrlComponent(component@, url@),
        ),
        _ => None,
    }
}

/// The dependency that an entry stands for, or what is wrong with the entry:
/// the protocol is asked for first, then the repository reference, which
/// must name a repository, then the revision.
pub open spec fn read_dependency(entry: DependencyEntryView) -> Result<DependencyView, Unreadable> {
    if entry.protocol.is_none() {
        Err(Unreadable::MissingKey("protocol"@))
    } else if entry.url.is_none() {
        Err(Unreadable::MissingKey("url"@))
    } else {
        match parse_url(entry.url.unwrap()) {
            Err(component) => Err(Unreadable::MissingUrlComponent(component, entry.url.unwrap())),
            Ok(names) => if entry.revision.is_none() {
                Err(Unreadable::MissingKey("revision"@))
            } else {
                Ok(
                    DependencyView {
                        name: entry.name,
                        coordinate: CoordinateView {
                            forge: names.0,
                            organization: names.1,
                            repository: names.2,
                            protocol: entry.protocol.unwrap(),
                        },
                        revision: entry.revision.unwrap(),
                        rules: entry.rules,
                    },
                )
            },
        }
    }
}

/// The dependencies that entries stand for, in order, or what is wrong with
/// the first entry that cannot be read.
pub open spec fn read_dependencies(entries: Seq<DependencyEntryView>) -> Result<
    Seq<DependencyView>,
    Unreadable,
>
    decreases entries.len(),
{
    if entries.len() == 0 {
        Ok(Seq::empty())
    } else {
        match read_dependencies(entries.drop_last()) {
            Err(failure) => Err(failure),
            Ok(earlier) => match read_dependency(entries.last()) {
                Err(failure) => Err(failure),
                Ok(dependency) => Ok(earlier.push(dependency)),
            },
        }
    }
}

/// The descriptor that a manifest stands for, or what is wrong with it
/// first: the name is missing, or an entry cannot be read.
pub open spec fn read_descriptor(document: DescriptorDocumentView) -> Result<
    DescriptorView,
    Unreadable,
> {
    match document.name {
        None => Err(Unreadable::MissingKey("name"@)),
        Some(name) => match read_dependencies(document.dependencies) {
            Err(failure) => Err(failure),
            Ok(dependencies) => Ok(DescriptorView { name, dependencies }),
        },
    }
}

/// The entry that is written for a dependency.
pub open spec fn dependency_entry_of(dependency: DependencyView) -> DependencyEntryView {
    DependencyEntryView {
        name: dependency.name,
        protocol: Some(dependency.coordinate.protocol),
        url: Some(
            url_of(
                dependency.coordinate.forge,
                dependency.coordinate.organization,
                dependency.coordinate.repository,
            ),
        ),
        revision: Some(dependency.revision),
        rules: dependency.rules,
    }
}

/// The manifest that is written for a descriptor.
pub open spec fn manifest_of(descriptor: DescriptorView) -> DescriptorDocumentView {
    DescriptorDocumentView {
        name: Some(descriptor.name),
        dependencies: descriptor.dependencies.map_values(
            |d: DependencyView| dependency_entry_of(d),
        ),
    }
}

/// Once an entry cannot be read, no entry behind it mends that.
pub proof fn lemma_unreadable_stays(entries: Seq<DependencyEntryView>, k: int)
    requires
        0 <= k <= entries.len(),
        read_dependencies(entries.take(k)).is_err(),
    ensures
        read_dependencies(entries) == read_dependencies(entries.take(k)),
    decreases entries.len(),
{
    if k == entries.len() {
        assert(entries.take(k) =~= entries);
    } else {
        assert(entries.drop_last().take(k) =~= entries.take(k));
        lemma_unreadable_stays(entries.drop_last(), k);
    }
}

/// The entries written for dependencies whose coordinates can be written as
/// references read back as those dependencies.
pub proof fn lemma_dependencies_round_trip(dependencies: Seq<DependencyView>)
    requires
        forall|i: int|
            0 <= i < dependencies.len() ==> referable((#[trigger] dependencies[i]).coordinate),
    ensures
        read_dependencies(dependencies.map_values(|d: DependencyView| dependency_entry_of(d)))
            == Ok::<Seq<DependencyView>, Unreadable>(dependencies),
    decreases dependencies.len(),
{
    let entries = dependencies.map_values(|d: DependencyView| dependency_entry_of(d));
    if dependencies.len() > 0 {
        let last = dependencies.last();
        assert forall|i: int| 0 <= i < dependencies.drop_last().len() implies referable(
            (#[trigger] dependencies.drop_last()[i]).coordinate,
        ) by {
            assert(dependencies.drop_last()[i] == dependencies[i]);
        }
        lemma_dependencies_round_trip(dependencies.drop_last());
        assert(entries.drop_last() =~= dependencies.drop_last().map_values(
            |d: DependencyView| dependency_entry_of(d),
        ));
        assert(referable(last.coordinate));
        lemma_url_round_trip(
            last.coordinate.forge,
            last.coordinate.organization,
            last.coordinate.repository,
        );
        assert(read_dependency(entries.last()) == Ok::<DependencyView, Unreadable>(last));
        assert(dependencies.drop_last().push(last) =~= dependencies);
    } else {
        assert(dependencies =~= Seq::empty());
    }
}

/// Round trip. The manifest written for a descriptor reads back as that
/// descriptor, where the coordinates of its dependencies can be written as
/// references.
pub proof fn lemma_manifest_round_trip(descriptor: DescriptorView)
    requires
        forall|i: int|
            0 <= i < descriptor.dependencies.len() ==> referable(
                (#[trigger] descriptor.dependencies[i]).coordinate,
            ),
    ensures
        read_descriptor(manifest_of(descriptor)) == Ok::<DescriptorView, Unreadable>(descriptor),
{
    lemma_dependencies_round_trip(descriptor.dependencies);
}

impl Dependency {
    /// The entry that a manifest holds for this dependency.
    pub fn to_entry(&self) -> (entry: DependencyEntry)
        ensures
            entry@ == dependency_entry_of(self@),
    {
        let rules = self.rules.clone();
        assert(rules.deep_view() =~= self.rules.deep_view());
        DependencyEntry {
            name: self.name.clone(),
            protocol: Some(self.coordinate.protocol),
            url: Some(self.coordinate.url()),
            revision: Some(self.revision.clone()),
            rules,
        }
    }

    /// Reads an entry of a manifest. Fails on the first thing that is wrong
    /// with it.
    pub fn from_entry(entry: &DependencyEntry) -> (r: Result<Dependency, ParseError>)
        ensures
            match read_dependency(entry@) {
                Ok(dependency) => r matches Ok(found) && found@ == dependency,
                Err(failure) => r matches Err(error) && unreadable(error) == Some(failure),
            },
    {
        let protocol = match entry.protocol {
            Some(protocol) => protocol,
            None => {
                return Err(ParseError::MissingKey("protocol".to_owned()));
            },
        };
        let coordinate = match &entry.url {
            Some(url) => match Coordinate::from_url(url.as_str(), protocol) {
                Ok(coordinate) => coordinate,
                Err(error) => {
                    return Err(error);
                },
            },
            None => {
                return Err(ParseError::MissingKey("url".to_owned()));
            },
        };
        let revision = match &entry.revision {
            Some(revision) => revision.clone(),
            None => {
                return Err(ParseError::MissingKey("revision".to_owned()));
            },
        };
        let rules = entry.rules.clone();
        assert(rules.deep_view() =~= entry.rules.deep_view());
        Ok(Dependency { name: entry.name.clone(), coordinate, revision, rules })
    }
}

impl Descriptor {
    /// The manifest that is written for this descriptor.
    pub fn to_document(&self) -> (document: DescriptorDocument)
        ensures
            document@ == manifest_of(self@),
    {
        let mut entries: Vec<DependencyEntry> = Vec::new();
        let mut i: usize = 0;
        while i < self.dependencies.len()
            invariant
                i <= self.dependencies@.len(),
                entries@.len() == i,
                forall|j: int| 0 <= j < i ==> (#[trigger] entries@[j])@ == dependency_entry_of(
                    self.dependencies@[j]@,
                ),
            decreases self.dependencies@.len() - i,
        {
            entries.push(self.dependencies[i].to_entry());
            i += 1;
        }
        let document = DescriptorDocument { name: Some(self.name.clone()), dependencies: entries };
        assert(document@.dependencies =~= manifest_of(self@).dependencies);
        document
    }

    /// Reads a manifest. Fails on the first thing that is wrong with it: the
    /// name is missing, or an entry cannot be read.
    pub fn from_document(document: &DescriptorDocument) -> (r: Result<Descriptor, ParseError>)
        ensures
            match read_descriptor(document@) {
                Ok(descriptor) => r matches Ok(found) && found@ == descriptor,
                Err(failure) => r matches Err(error) && unreadable(error) == Some(failure),
            },
    {
        let name = match &document.name {
            Some(name) => name.clone(),
            None => {
                return Err(ParseError::MissingKey("name".to_owned()));
            },
        };
        let ghost entries = document@.dependencies;
        let mut dependencies: Vec<Dependency> = Vec::new();
        let mut i: usize = 0;
        assert(entries.take(0) =~= Seq::<DependencyEntryView>::empty());
        assert(dependency_views(dependencies@) =~= Seq::<DependencyView>::empty());
        while i < document.dependencies.len()
            invariant
                i <= document.dependencies@.len(),
                entries == document@.dependencies,
                document@.name == Some(name@),
                read_dependencies(entries.take(i as int)) == Ok::<Seq<DependencyView>, Unreadable>(
                    dependency_views(dependencies@),
                ),
            decreases document.dependencies@.len() - i,
        {
            let ghost before = dependency_views(dependencies@);
            proof {
                assert(entries.take(i + 1).drop_last() =~= entries.take(i as int));
                assert(entries.take(i + 1).last() == document.dependencies@[i as int]@);
            }
            match Dependency::from_entry(&document.dependencies[i]) {
                Ok(dependency) => {
                    dependencies.push(dependency);
                    assert(dependency_views(dependencies@) =~= before.push(dependency@));
                },
                Err(error) => {
                    proof {
                        let upto = entries.take(i + 1);
                        assert(read_dependencies(upto.drop_last()).is_ok());
                        assert(read_dependency(upto.last()).is_err());
                        assert(read_dependencies(upto) matches Err(failure) && read_dependency(
                            upto.last(),
                        ) == Err::<DependencyView, Unreadable>(failure));
                        lemma_unreadable_stays(entries, i + 1);
                    }
                    return Err(error);
                },
            }
            i += 1;
        }
        assert(entries.take(i as int) =~= entries);
        Ok(Descriptor { name, dependencies })
    }
}

} // verus!
