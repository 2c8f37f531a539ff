//! Names: from `HEAD`, an abbreviated identifier, a reference path or a
//! branch or tag name to the identifier of an object, and from there to the
//! object of the kind that is wanted.

use vstd::prelude::*;
use vstd::string::*;
use crate::bytes::{
    copy_range, has_prefix, lemma_first_found, lemma_first_is, own, push_all, same_bytes,
    starts_with, NEWLINE,
};
use crate::digest::{all_hex, check_hex, is_object_id, ID_LEN};
use crate::error::{Error, ErrorView};
use crate::object::{kind_of, GitObject, ObjectKind, ObjectView};
use crate::record::header_value;

verus! {

/// How many symbolic references are followed before a chain counts as a
/// cycle.
pub const MAX_HOPS: usize = 16;

/// The shortest abbreviation of an identifier that is accepted.
pub const MIN_ABBREV: usize = 4;

/// A reference as it is found on disk: its name relative to the metadata
/// directory (`HEAD`, `refs/heads/main`), and the content of its file.
#[derive(Clone, Debug, PartialEq, Eq)]
pub struct RefFile {
    pub name: Vec<u8>,
    pub content: Vec<u8>,
}

pub open spec fn ref_names(refs: Seq<RefFile>) -> Seq<Seq<u8>> {
    refs.map_values(|r: RefFile| r.name@)
}

pub open spec fn ref_contents(refs: Seq<RefFile>) -> Seq<Seq<u8>> {
    refs.map_values(|r: RefFile| r.content@)
}

/// What a reference file says.
pub enum RefTarget {
    /// An identifier.
    Direct(Seq<u8>),
    /// The name of another reference.
    Symbolic(Seq<u8>),
    /// Neither.
    Malformed,
}

/// The content without the line feed that ends it, if one does.
pub open spec fn ref_line(content: Seq<u8>) -> Seq<u8> {
    if content.len() > 0 && content.last() == NEWLINE {
        content.drop_last()
    } else {
        content
    }
}

/// Reads a reference file: `ref: <name>` is symbolic, a full identifier is
/// direct.
pub open spec fn parse_ref(content: Seq<u8>) -> RefTarget {
    let line = ref_line(content);
    if has_prefix(line, "ref: ".spec_bytes()) {
        RefTarget::Symbolic(line.subrange("ref: ".spec_bytes().len() as int, line.len() as int))
    } else if is_object_id(line) {
        RefTarget::Direct(line)
    } else {
        RefTarget::Malformed
    }
}

/// The content of the first reference called `name`.
pub open spec fn lookup(names: Seq<Seq<u8>>, contents: Seq<Seq<u8>>, name: Seq<u8>) -> Option<
    Seq<u8>,
> {
    match names.index_of_first(name) {
        Some(i) => Some(contents[i]),
        None => None,
    }
}

/// Follows the chain of references that starts at `name` for at most `hops`
/// symbolic hops. `start` is the name that is reported when the hops run
/// out.
pub open spec fn follow_ref(
    names: Seq<Seq<u8>>,
    contents: Seq<Seq<u8>>,
    start: Seq<u8>,
    name: Seq<u8>,
    hops: nat,
) -> Result<Seq<u8>, ErrorView>
    decreases hops,
{
    match lookup(names, contents, name) {
        None => Err(ErrorView::NotFound(name)),
        Some(content) => match parse_ref(content) {
            RefTarget::Direct(id) => Ok(id),
            RefTarget::Malformed => Err(ErrorView::MalformedReference(name)),
            RefTarget::Symbolic(next) => if hops == 0 {
                Err(ErrorView::ReferenceCycle(start))
            } else {
                follow_ref(names, contents, start, next, (hops - 1) as nat)
            },
        },
    }
}

/// Two references that point at each other never resolve: following either
/// for any number of hops ends in `ReferenceCycle`.
pub proof fn lemma_cycle_detected(
    names: Seq<Seq<u8>>,
    contents: Seq<Seq<u8>>,
    start: Seq<u8>,
    a: Seq<u8>,
    b: Seq<u8>,
    hops: nat,
)
    requires
        lookup(names, contents, a) matches Some(c) && parse_ref(c) == RefTarget::Symbolic(b),
        lookup(names, contents, b) matches Some(c) && parse_ref(c) == RefTarget::Symbolic(a),
    ensures
        follow_ref(names, contents, start, a, hops) == Err::<Seq<u8>, ErrorView>(
            ErrorView::ReferenceCycle(start),
        ),
    decreases hops,
{
    if hops > 0 {
        lemma_cycle_detected(names, contents, start, b, a, (hops - 1) as nat);
    }
}

/// An abbreviation of an identifier: between 4 and 40 hexadecimal digits.
pub open spec fn is_abbrev(name: Seq<u8>) -> bool {
    MIN_ABBREV <= name.len() <= ID_LEN && all_hex(name)
}

/// What an abbreviation stands for among the stored identifiers: `None`
/// where none starts with it, `Some(Ok(id))` where all that start with it are
/// the one identifier `id`, `Some(Err(()))` where two different ones do.
pub open spec fn abbrev_match(objects: Seq<Seq<u8>>, prefix: Seq<u8>) -> Option<
    Result<Seq<u8>, ()>,
> {
    if forall|i: int| 0 <= i < objects.len() ==> !has_prefix(#[trigger] objects[i], prefix) {
        None
    } else {
        let k = choose|i: int| 0 <= i < objects.len() && has_prefix(#[trigger] objects[i], prefix);
        if forall|j: int|
            0 <= j < objects.len() && has_prefix(#[trigger] objects[j], prefix) ==> objects[j]
                == objects[k] {
            Some(Ok(objects[k]))
        } else {
            Some(Err(()))
        }
    }
}

/// What a name resolves to, in this order: `HEAD`; an abbreviation that some
/// stored identifier starts with; a reference path under `refs/`; a branch;
/// a tag.
pub open spec fn resolve_spec(
    names: Seq<Seq<u8>>,
    contents: Seq<Seq<u8>>,
    objects: Seq<Seq<u8>>,
    name: Seq<u8>,
) -> Result<Seq<u8>, ErrorView> {
    let branch = "refs/heads/".spec_bytes() + name;
    let tag = "refs/tags/".spec_bytes() + name;
    if name == "HEAD".spec_bytes() {
        follow_ref(names, contents, name, name, MAX_HOPS as nat)
    } else if is_abbrev(name) && abbrev_match(objects, name) is Some {
        match abbrev_match(objects, name).unwrap() {
            Ok(id) => Ok(id),
            Err(_) => Err(ErrorView::Ambiguous(name)),
        }
    } else if has_prefix(name, "refs/".spec_bytes()) {
        follow_ref(names, contents, name, name, MAX_HOPS as nat)
    } else if lookup(names, contents, branch) is Some {
        follow_ref(names, contents, name, branch, MAX_HOPS as nat)
    } else if lookup(names, contents, tag) is Some {
        follow_ref(names, contents, name, tag, MAX_HOPS as nat)
    } else {
        Err(ErrorView::NotFound(name))
    }
}

/// A name under `refs/` is neither `HEAD` nor an abbreviation.
pub proof fn lemma_ref_path_is_plain(name: Seq<u8>)
    requires
        has_prefix(name, "refs/".spec_bytes()),
    ensures
        name != "HEAD".spec_bytes(),
        !is_abbrev(name),
{
    reveal_strlit("refs/");
    reveal_strlit("HEAD");
    is_ascii_spec_bytes("refs/");
    is_ascii_spec_bytes("HEAD");
    let marker = "refs/".spec_bytes();
    assert(marker[0] == 114);
    assert(name.subrange(0, marker.len() as int)[0] == name[0]);
    assert("HEAD".spec_bytes()[0] == 72);
}

/// Resolving a reference under `refs/` that points at another which points
/// back at it fails with `ReferenceCycle`, whatever else the repository
/// holds.
pub proof fn lemma_resolve_cycle(
    names: Seq<Seq<u8>>,
    contents: Seq<Seq<u8>>,
    objects: Seq<Seq<u8>>,
    a: Seq<u8>,
    b: Seq<u8>,
)
    requires
        has_prefix(a, "refs/".spec_bytes()),
        lookup(names, contents, a) matches Some(c) && parse_ref(c) == RefTarget::Symbolic(b),
        lookup(names, contents, b) matches Some(c) && parse_ref(c) == RefTarget::Symbolic(a),
    ensures
        resolve_spec(names, contents, objects, a) == Err::<Seq<u8>, ErrorView>(
            ErrorView::ReferenceCycle(a),
        ),
{
    lemma_ref_path_is_plain(a);
    lemma_cycle_detected(names, contents, a, a, b, MAX_HOPS as nat);
}

pub open spec fn ids(objects: Seq<Vec<u8>>) -> Seq<Seq<u8>> {
    objects.map_values(|o: Vec<u8>| o@)
}

/// The index of the first reference called `name`.
pub fn find_ref(refs: &Vec<RefFile>, name: &[u8]) -> (r: Option<usize>)
    ensures
        match r {
            Some(i) => i < refs@.len() && lookup(ref_names(refs@), ref_contents(refs@), name@)
                == Some(refs@[i as int].content@),
            None => lookup(ref_names(refs@), ref_contents(refs@), name@) is None,
        },
{
    let ghost names = ref_names(refs@);
    let mut i: usize = 0;
    while i < refs.len()
        invariant
            0 <= i <= refs@.len(),
            names == ref_names(refs@),
            forall|j: int| 0 <= j < i ==> names[j] != name@,
        decreases refs@.len() - i,
    {
        assert(names[i as int] == refs@[i as int].name@);
        if same_bytes(refs[i].name.as_slice(), name) {
            proof {
                lemma_first_is(names, name@, i as int);
            }
            return Some(i);
        }
        i = i + 1;
    }
    proof {
        lemma_first_found(names, name@);
    }
    None
}

/// What a reference file says, the target copied out.
pub enum ParsedRef {
    Direct(Vec<u8>),
    Symbolic(Vec<u8>),
    Malformed,
}

pub open spec fn parsed_view(p: ParsedRef) -> RefTarget {
    match p {
        ParsedRef::Direct(id) => RefTarget::Direct(id@),
        ParsedRef::Symbolic(n) => RefTarget::Symbolic(n@),
        ParsedRef::Malformed => RefTarget::Malformed,
    }
}

/// Reads the content of a reference file.
pub fn read_ref(content: &[u8]) -> (r: ParsedRef)
    ensures
        parsed_view(r) == parse_ref(content@),
{
    let n = content.len();
    let end: usize = if n > 0 && content[n - 1] == NEWLINE {
        n - 1
    } else {
        n
    };
    let line = vstd::slice::slice_subrange(content, 0, end);
    assert(line@ =~= ref_line(content@));
    let marker = "ref: ".as_bytes();
    if starts_with(line, marker) {
        ParsedRef::Symbolic(copy_range(line, marker.len(), line.len()))
    } else if line.len() == ID_LEN && check_hex(line) {
        ParsedRef::Direct(own(line))
    } else {
        ParsedRef::Malformed
    }
}

/// Follows the chain of references that starts at `name`, reporting `start`
/// where it is longer than `MAX_HOPS` symbolic hops.
pub fn follow_chain(refs: &Vec<RefFile>, start: &[u8], name: &[u8]) -> (r: Result<Vec<u8>, Error>)
    ensures
        match r {
            Ok(id) => Ok(id@),
            Err(e) => Err(e@),
        } == follow_ref(ref_names(refs@), ref_contents(refs@), start@, name@, MAX_HOPS as nat),
{
    let ghost names = ref_names(refs@);
    let ghost contents = ref_contents(refs@);
    let mut cur = own(name);
    let mut hops: usize = MAX_HOPS;
    loop
        invariant
            names == ref_names(refs@),
            contents == ref_contents(refs@),
            follow_ref(names, contents, start@, cur@, hops as nat) == follow_ref(
                names,
                contents,
                start@,
                name@,
                MAX_HOPS as nat,
            ),
        decreases hops,
    {
        let i = match find_ref(refs, cur.as_slice()) {
            Some(i) => i,
            None => {
                return Err(Error::NotFound(cur));
            },
        };
        match read_ref(refs[i].content.as_slice()) {
            ParsedRef::Direct(id) => {
                return Ok(id);
            },
            ParsedRef::Malformed => {
                return Err(Error::MalformedReference(cur));
            },
            ParsedRef::Symbolic(next) => {
                if hops == 0 {
                    return Err(Error::ReferenceCycle(own(start)));
                }
                cur = next;
                hops = hops - 1;
            },
        }
    }
}

/// Looks an abbreviation up among the stored identifiers.
pub fn match_abbrev(objects: &Vec<Vec<u8>>, prefix: &[u8]) -> (r: Option<Result<Vec<u8>, ()>>)
    ensures
        match r {
            Some(Ok(id)) => abbrev_match(ids(objects@), prefix@) == Some(
                Ok::<Seq<u8>, ()>(id@),
            ),
            Some(Err(_)) => abbrev_match(ids(objects@), prefix@) == Some(
                Err::<Seq<u8>, ()>(()),
            ),
            None => abbrev_match(ids(objects@), prefix@) is None,
        },
{
    let ghost all = ids(objects@);
    let mut first: Option<usize> = None;
    let mut i: usize = 0;
    while i < objects.len()
        invariant
            0 <= i <= objects@.len(),
            all == ids(objects@),
            match first {
                Some(k) => k < i && has_prefix(all[k as int], prefix@) && forall|j: int|
                    0 <= j < i && has_prefix(#[trigger] all[j], prefix@) ==> all[j] == all[k as int],
                None => forall|j: int| 0 <= j < i ==> !has_prefix(#[trigger] all[j], prefix@),
            },
        decreases objects@.len() - i,
    {
        assert(all[i as int] == objects@[i as int]@);
        if starts_with(objects[i].as_slice(), prefix) {
            match first {
                Some(k) => {
                    assert(all[k as int] == objects@[k as int]@);
                    if !same_bytes(objects[i].as_slice(), objects[k].as_slice()) {
                        return Some(Err(()));
                    }
                },
                None => {
                    first = Some(i);
                },
            }
        }
        i = i + 1;
    }
    match first {
        Some(k) => {
            assert(all[k as int] == objects@[k as int]@);
            Some(Ok(own(objects[k].as_slice())))
        },
        None => None,
    }
}

/// Resolves `name` to the identifier of an object, given the references of
/// the repository and the identifiers of its stored objects. In order:
/// `HEAD`; an abbreviated or full identifier that a stored one starts with,
/// `Ambiguous` where two different ones do; a path under `refs/`; the branch
/// `refs/heads/<name>`; the tag `refs/tags/<name>`. Symbolic references are
/// followed for at most `MAX_HOPS` hops, then reported as a cycle.
pub fn resolve(refs: &Vec<RefFile>, objects: &Vec<Vec<u8>>, name: &[u8]) -> (r: Result<
    Vec<u8>,
    Error,
>)
    ensures
        match r {
            Ok(id) => Ok(id@),
            Err(e) => Err(e@),
        } == resolve_spec(ref_names(refs@), ref_contents(refs@), ids(objects@), name@),
{
    if same_bytes(name, "HEAD".as_bytes()) {
        return follow_chain(refs, name, name);
    }
    if MIN_ABBREV <= name.len() && name.len() <= ID_LEN && check_hex(name) {
        match match_abbrev(objects, name) {
            Some(Ok(id)) => {
                return Ok(id);
            },
            Some(Err(_)) => {
                return Err(Error::Ambiguous(own(name)));
            },
            None => {},
        }
    }
    if starts_with(name, "refs/".as_bytes()) {
        return follow_chain(refs, name, name);
    }
    let mut branch = "refs/heads/".as_bytes_vec();
    push_all(&mut branch, name);
    if find_ref(refs, branch.as_slice()).is_some() {
        return follow_chain(refs, name, branch.as_slice());
    }
    let mut tag = "refs/tags/".as_bytes_vec();
    push_all(&mut tag, name);
    if find_ref(refs, tag.as_slice()).is_some() {
        return follow_chain(refs, name, tag.as_slice());
    }
    Err(Error::NotFound(own(name)))
}

/// Where `follow` got to: the identifier, and whether it is the one that was
/// asked for (`done`) or that of an object to look at next.
#[derive(Clone, Debug, PartialEq, Eq)]
pub struct Followed {
    pub id: Vec<u8>,
    pub done: bool,
}

/// One step from the object `o` with identifier `id` towards an object of
/// the kind `wanted`. Any object will do where no kind is wanted. An object
/// of another kind is refused unless `peel` is set; then a tag leads to the
/// object it names, and a commit, where a tree is wanted, to its tree.
pub open spec fn follow_spec(o: ObjectView, id: Seq<u8>, wanted: Option<ObjectKind>, peel: bool)
    -> Result<(Seq<u8>, bool), ErrorView> {
    if wanted is None || wanted == Some(kind_of(o)) {
        Ok((id, true))
    } else if !peel {
        Err(ErrorView::WrongKind(id))
    } else {
        match o {
            ObjectView::Tag(r) => match header_value(r.headers, "object".spec_bytes()) {
                Some(target) => Ok((target, false)),
                None => Err(ErrorView::MalformedObject(id)),
            },
            ObjectView::Commit(r) => if wanted == Some(ObjectKind::Tree) {
                match header_value(r.headers, "tree".spec_bytes()) {
                    Some(target) => Ok((target, false)),
                    None => Err(ErrorView::MalformedObject(id)),
                }
            } else {
                Err(ErrorView::WrongKind(id))
            },
            _ => Err(ErrorView::WrongKind(id)),
        }
    }
}

/// Takes one step from `obj`, whose identifier is `id`, towards an object of
/// the kind `wanted`. The caller reads the next object and calls again until
/// the result is `done`; how many levels it peels is the caller's to decide.
pub fn follow(obj: &GitObject, id: &[u8], wanted: Option<ObjectKind>, peel: bool) -> (r: Result<
    Followed,
    Error,
>)
    ensures
        match r {
            Ok(f) => Ok((f.id@, f.done)),
            Err(e) => Err(e@),
        } == follow_spec(obj@, id@, wanted, peel),
{
    let kind = match wanted {
        None => {
            return Ok(Followed { id: own(id), done: true });
        },
        Some(kind) => kind,
    };
    if obj.kind() == kind {
        return Ok(Followed { id: own(id), done: true });
    }
    if !peel {
        return Err(Error::WrongKind(own(id)));
    }
    match obj {
        GitObject::Tag(rec) => match rec.header("object".as_bytes()) {
            Some(target) => Ok(Followed { id: target, done: false }),
            None => Err(Error::MalformedObject(own(id))),
        },
        GitObject::Commit(rec) => if kind == ObjectKind::Tree {
            match rec.header("tree".as_bytes()) {
                Some(target) => Ok(Followed { id: target, done: false }),
                None => Err(Error::MalformedObject(own(id))),
            }
        } else {
            Err(Error::WrongKind(own(id)))
        },
        _ => Err(Error::WrongKind(own(id))),
    }
}

} // verus!
