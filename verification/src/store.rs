//! The loose-object store: where an object lives, what is written for it,
//! and what the bytes found there read as. The caller does the file I/O.

use vstd::prelude::*;
use std::io::{Read, Write};
use flate2::read::ZlibDecoder;
use flate2::write::ZlibEncoder;
use flate2::Compression;
use crate::bytes::{copy_range, own, push_all};
use crate::digest::{check_hex, digest_hex, is_object_id, object_id_spec, ID_LEN};
use crate::error::{Error, ErrorView};
use crate::object::{
    decode_spec, encode_spec, parse_payload, tag_kind, GitObject, ObjectKind, ObjectView,
};

verus! {

/// What the zlib encoder of `flate2` writes for `data` at its default level;
/// `None` where it reports an error.
pub uninterp spec fn zlib_deflated(data: Seq<u8>) -> Option<Seq<u8>>;

/// What the zlib decoder of `flate2` reads from `data`; `None` where it
/// reports an error.
pub uninterp spec fn zlib_inflated(data: Seq<u8>) -> Option<Seq<u8>>;

/// `flate2::write::ZlibEncoder` at `Compression::default()`, writing into a
/// vector: `new`, `write_all`, `finish`. Trusted: the bytes that come out
/// depend on `data` alone.
#[verifier::external_body]
fn zlib_compress(data: &[u8]) -> (out: Option<Vec<u8>>)
    ensures
        match out {
            Some(v) => zlib_deflated(data@) == Some(v@),
            None => zlib_deflated(data@) is None,
        },
{
    let mut encoder = ZlibEncoder::new(Vec::new(), Compression::default());
    match encoder.write_all(data) {
        Ok(()) => encoder.finish().ok(),
        Err(_) => None,
    }
}

/// `flate2::read::ZlibDecoder` over a slice, read to its end. Trusted: whether
/// it succeeds, and the bytes that come out, depend on `data` alone.
#[verifier::external_body]
fn zlib_decompress(data: &[u8]) -> (out: Option<Vec<u8>>)
    ensures
        match out {
            Some(v) => zlib_inflated(data@) == Some(v@),
            None => zlib_inflated(data@) is None,
        },
{
    let mut out = Vec::new();
    match ZlibDecoder::new(data).read_to_end(&mut out) {
        Ok(_) => Some(out),
        Err(_) => None,
    }
}

/// `objects/`
pub open spec fn objects_dir() -> Seq<u8> {
    seq![111u8, 98u8, 106u8, 101u8, 99u8, 116u8, 115u8, 47u8]
}

/// Where an object is kept, relative to the metadata directory:
/// `objects/`, the first two digits of its identifier, `/`, the other 38.
pub open spec fn object_path_spec(id: Seq<u8>) -> Seq<u8> {
    objects_dir() + id.subrange(0, 2) + seq![47u8] + id.subrange(2, id.len() as int)
}

/// The path of the object `id`; `None` unless `id` is a full identifier.
pub fn object_path(id: &[u8]) -> (r: Option<Vec<u8>>)
    ensures
        match r {
            Some(p) => is_object_id(id@) && p@ == object_path_spec(id@),
            None => !is_object_id(id@),
        },
{
    if id.len() != ID_LEN || !check_hex(id) {
        return None;
    }
    let mut p: Vec<u8> = vec![111u8, 98u8, 106u8, 101u8, 99u8, 116u8, 115u8, 47u8];
    assert(p@ =~= objects_dir());
    p.push(id[0]);
    p.push(id[1]);
    p.push(47u8);
    let rest = copy_range(id, 2, id.len());
    push_all(&mut p, rest.as_slice());
    assert(p@ =~= object_path_spec(id@));
    Some(p)
}

/// The outcome of writing an object: its identifier, and the file to create,
/// if one is to be created, as path and content.
#[derive(Clone, Debug, PartialEq, Eq)]
pub struct Written {
    pub id: Vec<u8>,
    pub file: Option<(Vec<u8>, Vec<u8>)>,
}

/// What `object_write` owes for an object with identifier `id`, given whether
/// a file is already there (`None`: nothing is to be persisted) and what the
/// compressor made of the encoding.
pub open spec fn write_outcome(
    id: Seq<u8>,
    stored: Option<bool>,
    compressed: Option<Seq<u8>>,
) -> Result<(Seq<u8>, Option<(Seq<u8>, Seq<u8>)>), ErrorView> {
    if stored == Some(false) {
        match compressed {
            Some(c) => Ok((id, Some((object_path_spec(id), c)))),
            None => Err(ErrorView::Compression),
        }
    } else {
        Ok((id, None))
    }
}

pub open spec fn written_view(w: Written) -> (Seq<u8>, Option<(Seq<u8>, Seq<u8>)>) {
    (
        w.id@,
        match w.file {
            Some((p, c)) => Some((p@, c@)),
            None => None,
        },
    )
}

/// Decides what is written for an object whose identifier is `id`, from the
/// compressed encoding: a file only where persistence is asked for and no
/// file is there yet.
pub fn plan_write(id: Vec<u8>, stored: Option<bool>, compressed: Option<Vec<u8>>) -> (r: Result<
    Written,
    Error,
>)
    requires
        is_object_id(id@),
    ensures
        match r {
            Ok(w) => Ok(written_view(w)),
            Err(e) => Err(e@),
        } == write_outcome(
            id@,
            stored,
            match compressed {
                Some(c) => Some(c@),
                None => None,
            },
        ),
        r matches Ok(w) ==> is_object_id(w.id@),
{
    match stored {
        Some(false) => match compressed {
            Some(content) => match object_path(id.as_slice()) {
                Some(path) => Ok(Written { id, file: Some((path, content)) }),
                None => Err(Error::Compression),
            },
            None => Err(Error::Compression),
        },
        _ => Ok(Written { id, file: None }),
    }
}

/// Computes the identifier of `obj` and decides what is to be written.
/// `stored` is `None` where nothing is to be persisted, and otherwise says
/// whether a file already stands at the object's path. The content of a new
/// file is the compressed encoding; an existing file is left alone.
pub fn object_write(obj: &GitObject, stored: Option<bool>) -> (r: Result<Written, Error>)
    ensures
        match r {
            Ok(w) => Ok(written_view(w)),
            Err(e) => Err(e@),
        } == write_outcome(object_id_spec(obj@), stored, zlib_deflated(encode_spec(obj@))),
        stored != Some(false) ==> r is Ok,
        r matches Ok(w) ==> is_object_id(w.id@),
{
    let encoded = obj.encode();
    let id = digest_hex(encoded.as_slice());
    match stored {
        Some(false) => {
            let compressed = zlib_compress(encoded.as_slice());
            plan_write(id, stored, compressed)
        },
        _ => plan_write(id, stored, None),
    }
}

/// The store as a map from path to file content, after `o` is put into it:
/// unchanged where a file stands at the object's path already (or the
/// compressor fails), else with the compressed encoding at that path.
pub open spec fn put_spec(disk: Map<Seq<u8>, Seq<u8>>, o: ObjectView) -> Map<Seq<u8>, Seq<u8>> {
    let stored = Some(disk.contains_key(object_path_spec(object_id_spec(o))));
    match write_outcome(object_id_spec(o), stored, zlib_deflated(encode_spec(o))) {
        Ok((_, Some((path, content)))) => disk.insert(path, content),
        _ => disk,
    }
}

/// Putting objects of equal content twice gives the same identifier both
/// times, and the second put leaves the store as the first one left it.
pub proof fn lemma_put_idempotent(disk: Map<Seq<u8>, Seq<u8>>, a: ObjectView, b: ObjectView)
    requires
        encode_spec(a) == encode_spec(b),
    ensures
        object_id_spec(a) == object_id_spec(b),
        put_spec(put_spec(disk, a), b) == put_spec(disk, a),
{
}

/// What is returned for the object `id`, given the expanded bytes of its
/// file.
pub open spec fn read_outcome(id: Seq<u8>, raw: Option<Seq<u8>>) -> Result<ObjectView, ErrorView> {
    match raw {
        Some(bytes) => match decode_spec(bytes) {
            Some(o) => Ok(o),
            None => Err(ErrorView::MalformedObject(id)),
        },
        None => Err(ErrorView::MalformedObject(id)),
    }
}

/// Decodes the expanded bytes of the object `id`; bytes that did not expand,
/// or that are not an encoded object, are reported as malformed, with the
/// identifier.
pub fn read_inflated(id: &[u8], raw: Option<Vec<u8>>) -> (r: Result<GitObject, Error>)
    ensures
        match r {
            Ok(o) => Ok(o@),
            Err(e) => Err(e@),
        } == read_outcome(
            id@,
            match raw {
                Some(b) => Some(b@),
                None => None,
            },
        ),
        r matches Ok(o) ==> o.wf(),
{
    match raw {
        Some(bytes) => match GitObject::decode(bytes.as_slice()) {
            Ok(o) => Ok(o),
            Err(_) => Err(Error::MalformedObject(own(id))),
        },
        None => Err(Error::MalformedObject(own(id))),
    }
}

/// Reads the object `id` from the content of its file, `None` where no file
/// is there. A missing file is `NotFound`; a file that does not expand to an
/// encoded object is `MalformedObject`, never a miss.
pub fn object_read(id: &[u8], stored: Option<&[u8]>) -> (r: Result<GitObject, Error>)
    ensures
        match r {
            Ok(o) => Ok(o@),
            Err(e) => Err(e@),
        } == (match stored {
            Some(file) => read_outcome(id@, zlib_inflated(file@)),
            None => Err(ErrorView::NotFound(id@)),
        }),
        r matches Ok(o) ==> o.wf(),
{
    match stored {
        Some(file) => read_inflated(id, zlib_decompress(file)),
        None => Err(Error::NotFound(own(id))),
    }
}

/// The object of the kind that `fmt` names with payload `data`.
pub open spec fn hashed_object(data: Seq<u8>, fmt: Seq<u8>) -> Result<ObjectView, ErrorView> {
    match tag_kind(fmt) {
        Some(k) => match parse_payload(k, data) {
            Some(o) => Ok(o),
            None => Err(ErrorView::MalformedObject(Seq::empty())),
        },
        None => Err(ErrorView::UnknownKind(fmt)),
    }
}

/// Hashes `data` as the payload of an object of the kind that `fmt` names,
/// and decides what is to be written, as `object_write` does. Fails where
/// `fmt` names no kind (the error carries `fmt`), or `data` does not read as
/// a payload of that kind.
pub fn object_hash(data: &[u8], fmt: &[u8], stored: Option<bool>) -> (r: Result<Written, Error>)
    ensures
        match r {
            Ok(w) => Ok(written_view(w)),
            Err(e) => Err(e@),
        } == (match hashed_object(data@, fmt@) {
            Ok(o) => write_outcome(object_id_spec(o), stored, zlib_deflated(encode_spec(o))),
            Err(e) => Err(e),
        }),
        r matches Ok(w) ==> is_object_id(w.id@),
{
    let kind = match ObjectKind::from_tag(fmt) {
        Some(k) => k,
        None => {
            return Err(Error::UnknownKind(own(fmt)));
        },
    };
    match GitObject::deserialize(kind, data) {
        Ok(obj) => object_write(&obj, stored),
        Err(_) => Err(Error::MalformedObject(Vec::new())),
    }
}

} // verus!
