//! The four kinds of object and their canonical encoding
//! `kind SP length NUL payload`, the bytes that are hashed and stored.

use vstd::prelude::*;
use vstd::slice::slice_subrange;
use vstd::string::*;
use crate::bytes::{
    copy_range, decimal, find_byte, lemma_decimal_value, lemma_first_found, lemma_first_is,
    push_all, same_bytes, spells, write_decimal, NEWLINE, NUL, SPACE,
};
use crate::record::{
    byte_strings, header_ok, headers_ok, lemma_record_read_back, lemma_record_write_back, no_byte,
    parse_record, record_bytes, Header, HeaderView, Record, RecordView,
};
use crate::tree::{
    check_tree, entries_ok, entry_views, has_duplicate_path, lemma_entries_read_back,
    lemma_entries_write_back, parse_tree, read_tree, same_entries, serialize_tree, sort_entries,
    tree_bytes, tree_ok, EntryView, TreeEntry,
};

verus! {

/// The kind of an object.
#[derive(Clone, Copy, Debug, PartialEq, Eq, Structural)]
pub enum ObjectKind {
    Blob,
    Tree,
    Commit,
    Tag,
}

/// An object of the database.
#[derive(Clone, Debug, PartialEq, Eq)]
pub enum GitObject {
    /// File contents.
    Blob(Vec<u8>),
    /// Directory listing, in ascending order of path.
    Tree(Vec<TreeEntry>),
    /// Commit headers and message.
    Commit(Record),
    /// Tag headers and message.
    Tag(Record),
}

pub enum ObjectView {
    Blob(Seq<u8>),
    Tree(Seq<EntryView>),
    Commit(RecordView),
    Tag(RecordView),
}

impl View for GitObject {
    type V = ObjectView;

    open spec fn view(&self) -> ObjectView {
        match self {
            GitObject::Blob(data) => ObjectView::Blob(data@),
            GitObject::Tree(entries) => ObjectView::Tree(entry_views(entries@)),
            GitObject::Commit(rec) => ObjectView::Commit(rec@),
            GitObject::Tag(rec) => ObjectView::Tag(rec@),
        }
    }
}

/// The decoded bytes are not the encoding of an object.
#[derive(Clone, Copy, Debug, PartialEq, Eq)]
pub struct Malformed;

/// The lowercase tag that names a kind in the encoding.
pub open spec fn kind_tag(k: ObjectKind) -> Seq<u8> {
    match k {
        ObjectKind::Blob => seq![98u8, 108u8, 111u8, 98u8],
        ObjectKind::Tree => seq![116u8, 114u8, 101u8, 101u8],
        ObjectKind::Commit => seq![99u8, 111u8, 109u8, 109u8, 105u8, 116u8],
        ObjectKind::Tag => seq![116u8, 97u8, 103u8],
    }
}

/// The kind that a tag names, if any.
pub open spec fn tag_kind(tag: Seq<u8>) -> Option<ObjectKind> {
    if tag == kind_tag(ObjectKind::Blob) {
        Some(ObjectKind::Blob)
    } else if tag == kind_tag(ObjectKind::Tree) {
        Some(ObjectKind::Tree)
    } else if tag == kind_tag(ObjectKind::Commit) {
        Some(ObjectKind::Commit)
    } else if tag == kind_tag(ObjectKind::Tag) {
        Some(ObjectKind::Tag)
    } else {
        None
    }
}

pub open spec fn kind_of(o: ObjectView) -> ObjectKind {
    match o {
        ObjectView::Blob(_) => ObjectKind::Blob,
        ObjectView::Tree(_) => ObjectKind::Tree,
        ObjectView::Commit(_) => ObjectKind::Commit,
        ObjectView::Tag(_) => ObjectKind::Tag,
    }
}

/// The payload of an object: a blob's bytes, a tree's entries, a commit's or
/// tag's header lines and message.
pub open spec fn payload_of(o: ObjectView) -> Seq<u8> {
    match o {
        ObjectView::Blob(data) => data,
        ObjectView::Tree(es) => tree_bytes(es),
        ObjectView::Commit(r) => record_bytes(r.headers, r.message),
        ObjectView::Tag(r) => record_bytes(r.headers, r.message),
    }
}

/// What a payload of the given kind reads as.
pub open spec fn parse_payload(k: ObjectKind, payload: Seq<u8>) -> Option<ObjectView> {
    match k {
        ObjectKind::Blob => Some(ObjectView::Blob(payload)),
        ObjectKind::Tree => match parse_tree(payload) {
            Some(es) => Some(ObjectView::Tree(es)),
            None => None,
        },
        ObjectKind::Commit => match parse_record(payload) {
            Some(r) => Some(ObjectView::Commit(r)),
            None => None,
        },
        ObjectKind::Tag => match parse_record(payload) {
            Some(r) => Some(ObjectView::Tag(r)),
            None => None,
        },
    }
}

/// An object that is read back as it was written: a tree's entries are valid
/// and ascend by path, a record's headers each fit on a line.
pub open spec fn object_ok(o: ObjectView) -> bool {
    match o {
        ObjectView::Blob(_) => true,
        ObjectView::Tree(es) => tree_ok(es),
        ObjectView::Commit(r) => headers_ok(r.headers),
        ObjectView::Tag(r) => headers_ok(r.headers),
    }
}

/// One `parent` header for each parent, in the order given.
pub open spec fn parent_headers(parents: Seq<Seq<u8>>) -> Seq<HeaderView> {
    parents.map_values(|p: Seq<u8>| HeaderView { key: "parent".spec_bytes(), value: p })
}

/// The headers of a commit in the order in which they are written: `tree`,
/// the parents, `author`, `committer`.
pub open spec fn commit_headers(
    tree: Seq<u8>,
    parents: Seq<Seq<u8>>,
    author: Seq<u8>,
    committer: Seq<u8>,
) -> Seq<HeaderView> {
    seq![HeaderView { key: "tree".spec_bytes(), value: tree }] + parent_headers(parents) + seq![
        HeaderView { key: "author".spec_bytes(), value: author },
        HeaderView { key: "committer".spec_bytes(), value: committer },
    ]
}

/// The headers of a tag in the order in which they are written: `object`,
/// `type`, `tag`, `tagger`.
pub open spec fn tag_headers(
    target: Seq<u8>,
    kind: ObjectKind,
    name: Seq<u8>,
    tagger: Seq<u8>,
) -> Seq<HeaderView> {
    seq![
        HeaderView { key: "object".spec_bytes(), value: target },
        HeaderView { key: "type".spec_bytes(), value: kind_tag(kind) },
        HeaderView { key: "tag".spec_bytes(), value: name },
        HeaderView { key: "tagger".spec_bytes(), value: tagger },
    ]
}

fn make_header(key: &str, value: &[u8]) -> (h: Header)
    ensures
        h@ == (HeaderView { key: key.spec_bytes(), value: value@ }),
{
    let v = copy_range(value, 0, value.len());
    assert(v@ =~= value@);
    Header { key: key.as_bytes_vec(), value: v }
}

/// The keys that the library writes hold neither space nor line feed.
proof fn lemma_keys_plain()
    ensures
        no_byte("tree".spec_bytes(), SPACE) && no_byte("tree".spec_bytes(), NEWLINE),
        no_byte("parent".spec_bytes(), SPACE) && no_byte("parent".spec_bytes(), NEWLINE),
        no_byte("author".spec_bytes(), SPACE) && no_byte("author".spec_bytes(), NEWLINE),
        no_byte("committer".spec_bytes(), SPACE) && no_byte("committer".spec_bytes(), NEWLINE),
        no_byte("object".spec_bytes(), SPACE) && no_byte("object".spec_bytes(), NEWLINE),
        no_byte("type".spec_bytes(), SPACE) && no_byte("type".spec_bytes(), NEWLINE),
        no_byte("tag".spec_bytes(), SPACE) && no_byte("tag".spec_bytes(), NEWLINE),
        no_byte("tagger".spec_bytes(), SPACE) && no_byte("tagger".spec_bytes(), NEWLINE),
{
    reveal_strlit("tree");
    reveal_strlit("parent");
    reveal_strlit("author");
    reveal_strlit("committer");
    reveal_strlit("object");
    reveal_strlit("type");
    reveal_strlit("tag");
    reveal_strlit("tagger");
    is_ascii_spec_bytes("tree");
    is_ascii_spec_bytes("parent");
    is_ascii_spec_bytes("author");
    is_ascii_spec_bytes("committer");
    is_ascii_spec_bytes("object");
    is_ascii_spec_bytes("type");
    is_ascii_spec_bytes("tag");
    is_ascii_spec_bytes("tagger");
}

/// None of the byte strings holds a line feed.
pub open spec fn all_one_line(values: Seq<Seq<u8>>) -> bool {
    forall|i: int| 0 <= i < values.len() ==> no_byte(#[trigger] values[i], NEWLINE)
}

/// `tag SP length NUL payload`, the length in decimal.
pub open spec fn frame(tag: Seq<u8>, payload: Seq<u8>) -> Seq<u8> {
    tag + seq![SPACE] + decimal(payload.len()) + seq![NUL] + payload
}

/// Splits a frame at its first space and its first NUL. `Some((tag, payload))`
/// where the NUL follows the space and what stands between them is the count
/// of bytes after the NUL, written in decimal the one canonical way: a zero
/// in front, a sign or any other byte makes the frame invalid.
pub open spec fn unframe(b: Seq<u8>) -> Option<(Seq<u8>, Seq<u8>)> {
    match (b.index_of_first(SPACE), b.index_of_first(NUL)) {
        (Some(x), Some(y)) if 0 <= x < y < b.len() => {
            let payload = b.subrange(y + 1, b.len() as int);
            if b.subrange(x + 1, y) == decimal(payload.len()) {
                Some((b.subrange(0, x), payload))
            } else {
                None
            }
        },
        _ => None,
    }
}

/// The canonical encoding of an object.
pub open spec fn encode_spec(o: ObjectView) -> Seq<u8> {
    frame(kind_tag(kind_of(o)), payload_of(o))
}

/// The object that bytes encode, if they encode one.
pub open spec fn decode_spec(b: Seq<u8>) -> Option<ObjectView> {
    match unframe(b) {
        Some((tag, payload)) => match tag_kind(tag) {
            Some(k) => parse_payload(k, payload),
            None => None,
        },
        None => None,
    }
}

/// A frame splits into the tag and payload it was made of, provided the tag
/// holds neither space nor NUL.
pub proof fn lemma_unframe_frame(tag: Seq<u8>, payload: Seq<u8>)
    requires
        forall|i: int| 0 <= i < tag.len() ==> tag[i] != SPACE && tag[i] != NUL,
    ensures
        unframe(frame(tag, payload)) == Some((tag, payload)),
{
    let b = frame(tag, payload);
    let size = decimal(payload.len());
    lemma_decimal_value(payload.len());
    let x: int = tag.len() as int;
    let y: int = x + 1 + size.len();
    assert forall|j: int| 0 <= j < x implies b[j] != SPACE by {
        assert(b[j] == tag[j]);
    }
    assert(b[x] == SPACE);
    lemma_first_is(b, SPACE, x);
    assert forall|j: int| 0 <= j < y implies b[j] != NUL by {
        if j < x {
            assert(b[j] == tag[j]);
        } else if j > x {
            assert(b[j] == size[j - x - 1]);
        }
    }
    assert(b[y] == NUL);
    lemma_first_is(b, NUL, y);
    assert(b.subrange(x + 1, y) =~= size);
    assert(b.subrange(y + 1, b.len() as int) =~= payload);
    assert(b.subrange(0, x) =~= tag);
}

/// What `unframe` splits off makes the same frame again.
pub proof fn lemma_frame_unframe(b: Seq<u8>)
    requires
        unframe(b) is Some,
    ensures
        frame(unframe(b).unwrap().0, unframe(b).unwrap().1) == b,
{
    lemma_first_found(b, SPACE);
    lemma_first_found(b, NUL);
    let (tag, payload) = unframe(b).unwrap();
    assert(frame(tag, payload) =~= b);
}

/// No kind tag holds a space or a NUL, and each names its own kind.
pub proof fn lemma_kind_tags(k: ObjectKind)
    ensures
        forall|i: int| 0 <= i < kind_tag(k).len() ==> kind_tag(k)[i] != SPACE && kind_tag(k)[i] != NUL,
        tag_kind(kind_tag(k)) == Some(k),
{
    let b = kind_tag(ObjectKind::Blob);
    let t = kind_tag(ObjectKind::Tree);
    let c = kind_tag(ObjectKind::Commit);
    let g = kind_tag(ObjectKind::Tag);
    assert(b[0] == 98 && t[0] == 116 && c[0] == 99 && g[0] == 116);
    assert(t.len() == 4 && g.len() == 3);
}

/// Decoding the encoding of a well-formed object gives the object back.
pub proof fn lemma_decode_encode(o: ObjectView)
    requires
        object_ok(o),
    ensures
        decode_spec(encode_spec(o)) == Some(o),
{
    let k = kind_of(o);
    lemma_kind_tags(k);
    lemma_unframe_frame(kind_tag(k), payload_of(o));
    match o {
        ObjectView::Blob(_) => {},
        ObjectView::Tree(es) => {
            lemma_entries_read_back(es);
        },
        ObjectView::Commit(r) => {
            lemma_record_read_back(r.headers, r.message);
        },
        ObjectView::Tag(r) => {
            lemma_record_read_back(r.headers, r.message);
        },
    }
}

/// Whatever decodes is a well-formed object.
pub proof fn lemma_decoded_ok(b: Seq<u8>)
    requires
        decode_spec(b) is Some,
    ensures
        object_ok(decode_spec(b).unwrap()),
{
    let (tag, payload) = unframe(b).unwrap();
    let k = tag_kind(tag).unwrap();
    if k == ObjectKind::Commit || k == ObjectKind::Tag {
        lemma_record_write_back(payload);
    }
}

/// Encoding what was decoded gives the same bytes: whatever decodes is the
/// canonical encoding of its object, so no two byte strings decode to the
/// same object.
pub proof fn lemma_encode_decode(b: Seq<u8>)
    requires
        decode_spec(b) is Some,
    ensures
        encode_spec(decode_spec(b).unwrap()) == b,
{
    let (tag, payload) = unframe(b).unwrap();
    let k = tag_kind(tag).unwrap();
    let o = decode_spec(b).unwrap();
    lemma_frame_unframe(b);
    assert(kind_of(o) == k);
    assert(kind_tag(k) == tag);
    match k {
        ObjectKind::Blob => {},
        ObjectKind::Tree => {
            lemma_entries_write_back(payload);
        },
        ObjectKind::Commit => {
            lemma_record_write_back(payload);
        },
        ObjectKind::Tag => {
            lemma_record_write_back(payload);
        },
    }
}

/// Two well-formed objects with the same encoding are the same object.
pub proof fn lemma_encode_injective(a: ObjectView, b: ObjectView)
    requires
        object_ok(a),
        object_ok(b),
        encode_spec(a) == encode_spec(b),
    ensures
        a == b,
{
    lemma_decode_encode(a);
    lemma_decode_encode(b);
}

impl ObjectKind {
    /// The tag of this kind.
    pub fn tag(self) -> (out: Vec<u8>)
        ensures
            out@ == kind_tag(self),
    {
        let out = match self {
            ObjectKind::Blob => vec![98u8, 108u8, 111u8, 98u8],
            ObjectKind::Tree => vec![116u8, 114u8, 101u8, 101u8],
            ObjectKind::Commit => vec![99u8, 111u8, 109u8, 109u8, 105u8, 116u8],
            ObjectKind::Tag => vec![116u8, 97u8, 103u8],
        };
        assert(out@ =~= kind_tag(self));
        out
    }

    /// The kind that `tag` names; `None` for any other bytes.
    pub fn from_tag(tag: &[u8]) -> (r: Option<ObjectKind>)
        ensures
            r == tag_kind(tag@),
    {
        if same_bytes(tag, ObjectKind::Blob.tag().as_slice()) {
            Some(ObjectKind::Blob)
        } else if same_bytes(tag, ObjectKind::Tree.tag().as_slice()) {
            Some(ObjectKind::Tree)
        } else if same_bytes(tag, ObjectKind::Commit.tag().as_slice()) {
            Some(ObjectKind::Commit)
        } else if same_bytes(tag, ObjectKind::Tag.tag().as_slice()) {
            Some(ObjectKind::Tag)
        } else {
            None
        }
    }
}

impl GitObject {
    /// Well-formed: read back as written.
    pub open spec fn wf(&self) -> bool {
        object_ok(self@)
    }

    /// The tree of the given entries, put into ascending order of path.
    /// `None` where an entry is not valid or two entries share a path.
    pub fn tree(entries: &Vec<TreeEntry>) -> (r: Option<GitObject>)
        ensures
            match r {
                Some(o) => o.wf() && (o@ matches ObjectView::Tree(es) && same_entries(
                    entry_views(entries@),
                    es,
                ) && es.len() == entries@.len()),
                None => !entries_ok(entry_views(entries@)) || has_duplicate_path(
                    entry_views(entries@),
                ),
            },
            r is Some <==> entries_ok(entry_views(entries@)) && !has_duplicate_path(
                entry_views(entries@),
            ),
    {
        match sort_entries(entries) {
            Some(sorted) => Some(GitObject::Tree(sorted)),
            None => None,
        }
    }

    /// The commit of the tree `tree` with the given parents, in their
    /// order, neither sorted nor deduplicated. `author` and `committer` each
    /// hold a name, a timestamp and an offset.
    pub fn commit(
        tree: &[u8],
        parents: &Vec<Vec<u8>>,
        author: &[u8],
        committer: &[u8],
        message: &[u8],
    ) -> (o: GitObject)
        ensures
            o@ == ObjectView::Commit(
                RecordView {
                    headers: commit_headers(tree@, byte_strings(parents@), author@, committer@),
                    message: message@,
                },
            ),
            o.wf() <==> no_byte(tree@, NEWLINE) && all_one_line(byte_strings(parents@)) && no_byte(
                author@,
                NEWLINE,
            ) && no_byte(committer@, NEWLINE),
    {
        let mut headers: Vec<Header> = Vec::new();
        headers.push(make_header("tree", tree));
        let ghost first = headers@.map_values(|h: Header| h@);
        let ghost ps = byte_strings(parents@);
        let mut i: usize = 0;
        assert(first + parent_headers(ps.subrange(0, 0)) =~= first);
        while i < parents.len()
            invariant
                0 <= i <= parents@.len(),
                ps == byte_strings(parents@),
                first == seq![HeaderView { key: "tree".spec_bytes(), value: tree@ }],
                headers@.map_values(|h: Header| h@) == first + parent_headers(
                    ps.subrange(0, i as int),
                ),
            decreases parents@.len() - i,
        {
            let ghost before = headers@.map_values(|h: Header| h@);
            let h = make_header("parent", parents[i].as_slice());
            headers.push(h);
            proof {
                assert(ps[i as int] == parents@[i as int]@);
                assert(headers@.map_values(|h: Header| h@) =~= before.push(h@));
                assert(parent_headers(ps.subrange(0, i + 1)) =~= parent_headers(
                    ps.subrange(0, i as int),
                ).push(h@));
                assert(before.push(h@) =~= first + parent_headers(ps.subrange(0, i + 1)));
            }
            i = i + 1;
        }
        let ghost mid = headers@.map_values(|h: Header| h@);
        assert(ps.subrange(0, i as int) =~= ps);
        let a = make_header("author", author);
        let c = make_header("committer", committer);
        headers.push(a);
        headers.push(c);
        assert(headers@.map_values(|h: Header| h@) =~= mid + seq![a@, c@]);
        let msg = copy_range(message, 0, message.len());
        assert(msg@ =~= message@);
        proof {
            lemma_keys_plain();
            let hs = commit_headers(tree@, ps, author@, committer@);
            let n = ps.len() as int;
            assert(hs.len() == n + 3);
            assert(hs[0] == HeaderView { key: "tree".spec_bytes(), value: tree@ });
            assert(hs[n + 1] == HeaderView { key: "author".spec_bytes(), value: author@ });
            assert(hs[n + 2] == HeaderView { key: "committer".spec_bytes(), value: committer@ });
            assert forall|k: int| 0 <= k < n implies #[trigger] hs[k + 1] == (HeaderView {
                key: "parent".spec_bytes(),
                value: ps[k],
            }) by {
                assert(hs[k + 1] == parent_headers(ps)[k]);
            }
            if headers_ok(hs) {
                assert(header_ok(hs[0]) && header_ok(hs[n + 1]) && header_ok(hs[n + 2]));
                assert forall|k: int| 0 <= k < n implies no_byte(#[trigger] ps[k], NEWLINE) by {
                    assert(header_ok(hs[k + 1]));
                }
            }
            if no_byte(tree@, NEWLINE) && all_one_line(ps) && no_byte(author@, NEWLINE) && no_byte(
                committer@,
                NEWLINE,
            ) {
                assert forall|j: int| 0 <= j < hs.len() implies header_ok(#[trigger] hs[j]) by {
                    if 1 <= j <= n {
                        assert(hs[(j - 1) + 1] == (HeaderView {
                            key: "parent".spec_bytes(),
                            value: ps[j - 1],
                        }));
                    }
                }
            }
        }
        GitObject::Commit(Record { headers, message: msg })
    }

    /// The tag `name` on the object `target`, which is of the kind `kind`.
    /// `tagger` holds a name, a timestamp and an offset.
    pub fn tag(target: &[u8], kind: ObjectKind, name: &[u8], tagger: &[u8], message: &[u8]) -> (o:
        GitObject)
        ensures
            o@ == ObjectView::Tag(
                RecordView { headers: tag_headers(target@, kind, name@, tagger@), message: message@ },
            ),
            o.wf() <==> no_byte(target@, NEWLINE) && no_byte(name@, NEWLINE) && no_byte(
                tagger@,
                NEWLINE,
            ),
    {
        let mut headers: Vec<Header> = Vec::new();
        let h0 = make_header("object", target);
        let h1 = make_header("type", kind.tag().as_slice());
        let h2 = make_header("tag", name);
        let h3 = make_header("tagger", tagger);
        headers.push(h0);
        headers.push(h1);
        headers.push(h2);
        headers.push(h3);
        assert(headers@.map_values(|h: Header| h@) =~= seq![h0@, h1@, h2@, h3@]);
        let msg = copy_range(message, 0, message.len());
        assert(msg@ =~= message@);
        proof {
            lemma_keys_plain();
            lemma_kind_tags(kind);
            let hs = tag_headers(target@, kind, name@, tagger@);
            assert(hs[0] == h0@ && hs[1] == h1@ && hs[2] == h2@ && hs[3] == h3@);
            assert(no_byte(kind_tag(kind), NEWLINE)) by {
                assert(kind_tag(kind).len() <= 6);
            }
            if headers_ok(hs) {
                assert(header_ok(hs[0]) && header_ok(hs[2]) && header_ok(hs[3]));
            }
        }
        GitObject::Tag(Record { headers, message: msg })
    }

    /// The kind of this object.
    pub fn kind(&self) -> (k: ObjectKind)
        ensures
            k == kind_of(self@),
    {
        match self {
            GitObject::Blob(_) => ObjectKind::Blob,
            GitObject::Tree(_) => ObjectKind::Tree,
            GitObject::Commit(_) => ObjectKind::Commit,
            GitObject::Tag(_) => ObjectKind::Tag,
        }
    }

    /// Whether the object is well-formed.
    pub fn is_wf(&self) -> (r: bool)
        ensures
            r == self.wf(),
    {
        match self {
            GitObject::Blob(_) => true,
            GitObject::Tree(entries) => check_tree(entries),
            GitObject::Commit(rec) => rec.is_wf(),
            GitObject::Tag(rec) => rec.is_wf(),
        }
    }

    /// The payload: the kind-specific bytes that follow the frame's NUL.
    pub fn serialize(&self) -> (out: Vec<u8>)
        ensures
            out@ == payload_of(self@),
    {
        match self {
            GitObject::Blob(data) => {
                let out = copy_range(data.as_slice(), 0, data.len());
                assert(out@ =~= data@);
                out
            },
            GitObject::Tree(entries) => serialize_tree(entries),
            GitObject::Commit(rec) => rec.serialize(),
            GitObject::Tag(rec) => rec.serialize(),
        }
    }

    /// Reads a payload of the given kind.
    pub fn deserialize(kind: ObjectKind, payload: &[u8]) -> (r: Result<GitObject, Malformed>)
        ensures
            match r {
                Ok(o) => parse_payload(kind, payload@) == Some(o@),
                Err(_) => parse_payload(kind, payload@) is None,
            },
    {
        match kind {
            ObjectKind::Blob => {
                let data = copy_range(payload, 0, payload.len());
                assert(data@ =~= payload@);
                Ok(GitObject::Blob(data))
            },
            ObjectKind::Tree => match read_tree(payload) {
                Some(es) => Ok(GitObject::Tree(es)),
                None => Err(Malformed),
            },
            ObjectKind::Commit => match Record::parse(payload) {
                Some(r) => Ok(GitObject::Commit(r)),
                None => Err(Malformed),
            },
            ObjectKind::Tag => match Record::parse(payload) {
                Some(r) => Ok(GitObject::Tag(r)),
                None => Err(Malformed),
            },
        }
    }

    /// The canonical encoding: tag, space, payload length in decimal, NUL,
    /// payload.
    pub fn encode(&self) -> (out: Vec<u8>)
        ensures
            out@ == encode_spec(self@),
            self.wf() ==> decode_spec(out@) == Some(self@),
    {
        let payload = self.serialize();
        let mut out = self.kind().tag();
        out.push(SPACE);
        let size = write_decimal(payload.len());
        push_all(&mut out, size.as_slice());
        out.push(NUL);
        push_all(&mut out, payload.as_slice());
        proof {
            if self.wf() {
                lemma_decode_encode(self@);
            }
        }
        out
    }

    /// Decodes an encoded object. Fails unless the bytes are a tag of one of
    /// the four kinds, a space, the exact count of payload bytes in canonical
    /// decimal, a NUL, and a payload that reads as an object of that kind. What
    /// it accepts is exactly what `encode` writes.
    pub fn decode(raw: &[u8]) -> (r: Result<GitObject, Malformed>)
        ensures
            match r {
                Ok(o) => decode_spec(raw@) == Some(o@) && o.wf() && encode_spec(o@) == raw@,
                Err(_) => decode_spec(raw@) is None,
            },
    {
        let n = raw.len();
        assert(raw@.subrange(0, n as int) =~= raw@);
        let x = match find_byte(raw, 0, SPACE) {
            Some(x) => x,
            None => {
                return Err(Malformed);
            },
        };
        let y = match find_byte(raw, 0, NUL) {
            Some(y) => y,
            None => {
                return Err(Malformed);
            },
        };
        if y <= x {
            return Err(Malformed);
        }
        if !spells(raw, x + 1, y, n - y - 1) {
            return Err(Malformed);
        }
        let kind = match ObjectKind::from_tag(slice_subrange(raw, 0, x)) {
            Some(k) => k,
            None => {
                return Err(Malformed);
            },
        };
        let r = GitObject::deserialize(kind, slice_subrange(raw, y + 1, n));
        proof {
            if r is Ok {
                lemma_decoded_ok(raw@);
                lemma_encode_decode(raw@);
            }
        }
        r
    }
}

} // verus!
