//! Which repository, and how it is reached.

use vstd::prelude::*;
use vstd::std_specs::cmp::PartialEqSpecImpl;
use crate::model::ParseError;

verus! {

/// How a repository is reached.
#[derive(Clone, Copy, Debug, PartialEq, Eq, PartialOrd, Ord, Hash, Structural)]
pub enum Protocol {
    Https,
    Ssh,
}

/// The identity of a source repository: the host that serves it, the
/// organization that owns it and its name there, with the protocol used to
/// reach it. Caches, conflict detection and lock files are keyed by it.
#[derive(Debug, Eq, PartialOrd, Ord, Hash)]
pub struct Coordinate {
    pub forge: String,
    pub organization: String,
    pub repository: String,
    pub protocol: Protocol,
}

/// A coordinate as a mathematical value.
pub struct CoordinateView {
    pub forge: Seq<char>,
    pub organization: Seq<char>,
    pub repository: Seq<char>,
    pub protocol: Protocol,
}

impl View for Coordinate {
    type V = CoordinateView;

    open spec fn view(&self) -> CoordinateView {
        CoordinateView {
            forge: self.forge@,
            organization: self.organization@,
            repository: self.repository@,
            protocol: self.protocol,
        }
    }
}

impl Clone for Coordinate {
    fn clone(&self) -> (r: Coordinate)
        ensures
            r == *self,
    {
        Coordinate {
            forge: self.forge.clone(),
            organization: self.organization.clone(),
            repository: self.repository.clone(),
            protocol: self.protocol,
        }
    }
}

impl PartialEq for Coordinate {
    fn eq(&self, other: &Coordinate) -> (r: bool) {
        self.forge == other.forge && self.organization == other.organization
            && self.repository == other.repository && self.protocol == other.protocol
    }
}

impl PartialEqSpecImpl for Coordinate {
    open spec fn obeys_eq_spec() -> bool {
        true
    }

    open spec fn eq_spec(&self, other: &Coordinate) -> bool {
        self@ == other@
    }
}

/// The pieces of `text` between its slashes, in order. A text without a slash
/// is one piece; a slash at either end bounds an empty piece.
pub open spec fn segments(text: Seq<char>) -> Seq<Seq<char>>
    decreases text.len(),
{
    if text.len() == 0 {
        seq![Seq::empty()]
    } else {
        let earlier = segments(text.drop_last());
        if text.last() == '/' {
            earlier.push(Seq::empty())
        } else {
            earlier.update(earlier.len() - 1, earlier.last().push(text.last()))
        }
    }
}

/// A repository reference names a forge, an organization and a repository,
/// each non-empty, with slashes between them and at most one slash behind.
/// The result is the three names, or the name of the first component that is
/// missing; where more follows the repository than one slash, it is the
/// repository that cannot be told.
pub open spec fn parse_url(url: Seq<char>) -> Result<(Seq<char>, Seq<char>, Seq<char>), Seq<char>> {
    let pieces = segments(url);
    if pieces[0].len() == 0 {
        Err("forge"@)
    } else if pieces.len() < 2 || pieces[1].len() == 0 {
        Err("organization"@)
    } else if pieces.len() < 3 || pieces[2].len() == 0 {
        Err("repository"@)
    } else if pieces.len() == 3 || (pieces.len() == 4 && pieces[3].len() == 0) {
        Ok((pieces[0], pieces[1], pieces[2]))
    } else {
        Err("repository"@)
    }
}

/// The reference that names `forge`, `organization` and `repository`.
pub open spec fn url_of(forge: Seq<char>, organization: Seq<char>, repository: Seq<char>) -> Seq<
    char,
> {
    forge + seq!['/'] + organization + seq!['/'] + repository
}

/// The coordinate can be written as a repository reference: its three names
/// are non-empty and hold no slash.
pub open spec fn referable(coordinate: CoordinateView) -> bool {
    &&& coordinate.forge.len() > 0 && !coordinate.forge.contains('/')
    &&& coordinate.organization.len() > 0 && !coordinate.organization.contains('/')
    &&& coordinate.repository.len() > 0 && !coordinate.repository.contains('/')
}

/// The views of a list of strings, in order.
pub open spec fn string_views(strings: Seq<String>) -> Seq<Seq<char>> {
    strings.map_values(|s: String| s@)
}

/// Cuts `text` at its slashes.
pub fn split_segments(text: &str) -> (pieces: Vec<String>)
    ensures
        string_views(pieces@) == segments(text@),
{
    let length = text.unicode_len();
    let mut pieces: Vec<String> = Vec::new();
    let mut start: usize = 0;
    let mut i: usize = 0;
    assert(text@.take(0) =~= Seq::<char>::empty());
    assert(segments(text@.take(0)) =~= string_views(pieces@).push(text@.subrange(0, 0)));
    while i < length
        invariant
            length == text@.len(),
            start <= i <= length,
            segments(text@.take(i as int)) == string_views(pieces@).push(
                text@.subrange(start as int, i as int),
            ),
        decreases length - i,
    {
        let c = text.get_char(i);
        let ghost before = string_views(pieces@);
        proof {
            assert(text@.take(i + 1).drop_last() =~= text@.take(i as int));
            assert(text@.take(i + 1).last() == c);
        }
        if c == '/' {
            let piece = text.substring_char(start, i).to_owned();
            pieces.push(piece);
            start = i + 1;
            proof {
                assert(string_views(pieces@) =~= before.push(piece@));
                assert(text@.subrange(start as int, i + 1) =~= Seq::<char>::empty());
            }
        } else {
            proof {
                assert(text@.subrange(start as int, i + 1) =~= text@.subrange(
                    start as int,
                    i as int,
                ).push(c));
                assert(segments(text@.take(i + 1)) =~= before.push(
                    text@.subrange(start as int, i + 1),
                ));
            }
        }
        i += 1;
    }
    let ghost before = string_views(pieces@);
    let piece = text.substring_char(start, length).to_owned();
    pieces.push(piece);
    proof {
        assert(text@.take(length as int) =~= text@);
        assert(string_views(pieces@) =~= before.push(piece@));
    }
    pieces
}

impl Coordinate {
    /// Reads a repository reference of the form
    /// `forge/organization/repository`, reached over `protocol`.
    pub fn from_url(url: &str, protocol: Protocol) -> (r: Result<Coordinate, ParseError>)
        ensures
            match parse_url(url@) {
                Ok(names) => r matches Ok(coordinate) && coordinate@ == (CoordinateView {
                    forge: names.0,
                    organization: names.1,
                    repository: names.2,
                    protocol: protocol,
                }),
                Err(component) => r matches Err(ParseError::MissingUrlComponent(missing, text))
                    && missing@ == component && text@ == url@,
            },
            r matches Ok(coordinate) ==> referable(coordinate@),
    {
        let pieces = split_segments(url);
        let count = pieces.len();
        proof {
            lemma_segments_len(url@);
            lemma_segments_hold_no_slash(url@);
            assert(forall|i: int|
                0 <= i < count ==> string_views(pieces@)[i] == (#[trigger] pieces@[i])@);
        }
        if pieces[0].as_str().is_empty() {
            return Err(ParseError::MissingUrlComponent("forge".to_owned(), url.to_owned()));
        }
        if count < 2 || pieces[1].as_str().is_empty() {
            return Err(ParseError::MissingUrlComponent("organization".to_owned(), url.to_owned()));
        }
        if count < 3 || pieces[2].as_str().is_empty() {
            return Err(ParseError::MissingUrlComponent("repository".to_owned(), url.to_owned()));
        }
        if count == 3 || (count == 4 && pieces[3].as_str().is_empty()) {
            Ok(
                Coordinate {
                    forge: pieces[0].clone(),
                    organization: pieces[1].clone(),
                    repository: pieces[2].clone(),
                    protocol,
                },
            )
        } else {
            Err(ParseError::MissingUrlComponent("repository".to_owned(), url.to_owned()))
        }
    }

    /// The reference that `from_url` reads this coordinate from.
    pub fn url(&self) -> (r: String)
        ensures
            r@ == url_of(self@.forge, self@.organization, self@.repository),
    {
        let mut url = self.forge.clone();
        url.append("/");
        url.append(self.organization.as_str());
        url.append("/");
        url.append(self.repository.as_str());
        proof {
            reveal_strlit("/");
            assert("/"@ =~= seq!['/']);
        }
        url
    }
}

/// A text has at least one piece.
pub proof fn lemma_segments_len(text: Seq<char>)
    ensures
        segments(text).len() > 0,
    decreases text.len(),
{
    if text.len() > 0 {
        lemma_segments_len(text.drop_last());
    }
}

/// No piece of a text holds a slash.
pub proof fn lemma_segments_hold_no_slash(text: Seq<char>)
    ensures
        forall|i: int|
            0 <= i < segments(text).len() ==> !(#[trigger] segments(text)[i]).contains('/'),
    decreases text.len(),
{
    if text.len() > 0 {
        let earlier = segments(text.drop_last());
        lemma_segments_hold_no_slash(text.drop_last());
        lemma_segments_len(text.drop_last());
        assert forall|i: int| 0 <= i < segments(text).len() implies !(#[trigger] segments(
            text,
        )[i]).contains('/') by {
            let piece = segments(text)[i];
            if piece.contains('/') {
                let j = choose|j: int| 0 <= j < piece.len() && piece[j] == '/';
                if text.last() == '/' {
                    if i < earlier.len() {
                        assert(earlier[i][j] == '/');
                    }
                } else if i < earlier.len() - 1 {
                    assert(earlier[i][j] == '/');
                } else if j < earlier.last().len() {
                    assert(earlier[i][j] == '/');
                }
            }
        }
    }
}

/// A name that holds no slash and is followed by nothing is the last piece
/// of what it is appended to.
pub proof fn lemma_segments_append(text: Seq<char>, name: Seq<char>)
    requires
        !name.contains('/'),
    ensures
        segments(text + name) == segments(text).update(
            segments(text).len() - 1,
            segments(text).last() + name,
        ),
    decreases name.len(),
{
    lemma_segments_len(text);
    if name.len() == 0 {
        assert(text + name =~= text);
        assert(segments(text).last() + name =~= segments(text).last());
        assert(segments(text).update(segments(text).len() - 1, segments(text).last())
            =~= segments(text));
    } else {
        let shorter = name.drop_last();
        assert(!shorter.contains('/')) by {
            if shorter.contains('/') {
                let j = choose|j: int| 0 <= j < shorter.len() && shorter[j] == '/';
                assert(name[j] == '/');
            }
        }
        assert(name.last() != '/') by {
            assert(name[name.len() - 1] == name.last());
        }
        lemma_segments_append(text, shorter);
        assert((text + name).drop_last() =~= text + shorter);
        assert((segments(text).last() + shorter).push(name.last()) =~= segments(text).last()
            + name);
        assert(segments(text + name) =~= segments(text).update(
            segments(text).len() - 1,
            segments(text).last() + name,
        ));
    }
}

/// Round trip. The reference written for three names that are non-empty and
/// hold no slash reads back as those names, with or without a slash behind.
pub proof fn lemma_url_round_trip(
    forge: Seq<char>,
    organization: Seq<char>,
    repository: Seq<char>,
)
    requires
        forge.len() > 0 && !forge.contains('/'),
        organization.len() > 0 && !organization.contains('/'),
        repository.len() > 0 && !repository.contains('/'),
    ensures
        parse_url(url_of(forge, organization, repository)) == Ok::<
            (Seq<char>, Seq<char>, Seq<char>),
            Seq<char>,
        >((forge, organization, repository)),
        parse_url(url_of(forge, organization, repository).push('/')) == Ok::<
            (Seq<char>, Seq<char>, Seq<char>),
            Seq<char>,
        >((forge, organization, repository)),
{
    let empty = Seq::<char>::empty();
    let a = forge;
    let b = a.push('/');
    let c = b + organization;
    let d = c.push('/');
    let e = d + repository;
    let f = e.push('/');
    assert(segments(empty) =~= seq![empty]);
    lemma_segments_append(empty, forge);
    assert(empty + forge =~= a);
    assert(segments(a) =~= seq![forge]) by {
        assert(empty + forge =~= forge);
    }
    assert(b.drop_last() =~= a);
    assert(segments(b) =~= seq![forge, empty]);
    lemma_segments_append(b, organization);
    assert(segments(c) =~= seq![forge, organization]) by {
        assert(empty + organization =~= organization);
    }
    assert(d.drop_last() =~= c);
    assert(segments(d) =~= seq![forge, organization, empty]);
    lemma_segments_append(d, repository);
    assert(segments(e) =~= seq![forge, organization, repository]) by {
        assert(empty + repository =~= repository);
    }
    assert(f.drop_last() =~= e);
    assert(segments(f) =~= seq![forge, organization, repository, empty]);
    assert(url_of(forge, organization, repository) =~= e);
}

} // verus!
