//! The commands, as far as the storage core decides them. A command takes
//! what its caller found on disk and answers with what is to be shown or
//! written.

use vstd::prelude::*;
use crate::bytes::own;
use crate::error::{Error, ErrorView};
use crate::digest::{is_object_id, object_id_spec};
use crate::object::{encode_spec, kind_of, payload_of, tag_kind, ObjectKind};
use crate::repo::{create_error, repo_create, InitPlan, PathState};
use crate::store::{
    hashed_object, object_hash, object_read, read_outcome, write_outcome, written_view,
    zlib_deflated, zlib_inflated, Written,
};

verus! {

/// Staging belongs to the working-tree layer; the storage core has no part
/// in it.
pub fn cmd_add() {
}

/// Ignore rules belong to the working-tree layer; the storage core has no
/// part in them.
pub fn cmd_check_ignore() {
}

/// Checking out belongs to the working-tree layer; the storage core has no
/// part in it.
pub fn cmd_checkout() {
}

/// Authoring a commit belongs to the layer above; the storage core has no
/// part in it.
pub fn cmd_commit() {
}

/// Walking history belongs to the layer above; the storage core has no part
/// in it.
pub fn cmd_log() {
}

/// The index belongs to the working-tree layer; the storage core has no part
/// in it.
pub fn cmd_ls_files() {
}

/// Listing a tree belongs to the layer above; the storage core has no part
/// in it.
pub fn cmd_ls_trees() {
}

/// Printing a resolved name belongs to the layer above; see
/// `refs::resolve` for the resolution itself.
pub fn cmd_rev_parse() {
}

/// Removing files belongs to the working-tree layer; the storage core has no
/// part in it.
pub fn cmd_rm() {
}

/// Listing references belongs to the layer above; the storage core has no
/// part in it.
pub fn cmd_show_ref() {
}

/// Comparing the worktree belongs to the working-tree layer; the storage
/// core has no part in it.
pub fn cmd_status() {
}

/// Creating tags belongs to the layer above; the storage core has no part in
/// it.
pub fn cmd_tag() {
}

/// `init`: plans a new repository with worktree `path`, as `repo_create`
/// does, from what stands at `path` and how many entries its metadata
/// directory holds.
pub fn cmd_init(path: &[u8], worktree: PathState, gitdir_entries: Option<usize>) -> (r: Result<
    InitPlan,
    Error,
>)
    ensures
        match r {
            Ok(plan) => create_error(path@, worktree, gitdir_entries) is None && plan.is_for(
                path@,
                worktree,
            ),
            Err(e) => create_error(path@, worktree, gitdir_entries) == Some(e@),
        },
{
    repo_create(path, worktree, gitdir_entries)
}

/// What `cat-file` shows for the object `id`, given the expanded bytes of
/// its file: the payload, where the object is of the kind that `fmt` names.
pub open spec fn cat_outcome(fmt: Seq<u8>, id: Seq<u8>, file: Option<Option<Seq<u8>>>) -> Result<
    Seq<u8>,
    ErrorView,
> {
    match tag_kind(fmt) {
        None => Err(ErrorView::UnknownKind(fmt)),
        Some(kind) => match file {
            None => Err(ErrorView::NotFound(id)),
            Some(raw) => match read_outcome(id, raw) {
                Err(e) => Err(e),
                Ok(o) => if kind_of(o) == kind {
                    Ok(payload_of(o))
                } else {
                    Err(ErrorView::WrongKind(id))
                },
            },
        },
    }
}

/// `cat-file`: the payload of the object `obj_sha`, which must be of the
/// kind that `obj_type` names. `stored` is the content of the object's file,
/// `None` where there is no such file.
pub fn cmd_cat_file(obj_type: &[u8], obj_sha: &[u8], stored: Option<&[u8]>) -> (r: Result<
    Vec<u8>,
    Error,
>)
    ensures
        match r {
            Ok(out) => Ok(out@),
            Err(e) => Err(e@),
        } == cat_outcome(
            obj_type@,
            obj_sha@,
            match stored {
                Some(file) => Some(zlib_inflated(file@)),
                None => None,
            },
        ),
{
    let kind = match ObjectKind::from_tag(obj_type) {
        Some(kind) => kind,
        None => {
            return Err(Error::UnknownKind(own(obj_type)));
        },
    };
    match object_read(obj_sha, stored) {
        Ok(obj) => if obj.kind() == kind {
            Ok(obj.serialize())
        } else {
            Err(Error::WrongKind(own(obj_sha)))
        },
        Err(e) => Err(e),
    }
}

/// `hash-object`: the identifier of `data` as the payload of an object of
/// the kind that `type_` names. With `write`, also the file to create for
/// it, unless `stored` says that one is there already.
pub fn cmd_hash_object(type_: &[u8], write: bool, data: &[u8], stored: bool) -> (r: Result<
    Written,
    Error,
>)
    ensures
        match r {
            Ok(w) => Ok(written_view(w)),
            Err(e) => Err(e@),
        } == (match hashed_object(data@, type_@) {
            Ok(o) => write_outcome(
                object_id_spec(o),
                if write {
                    Some(stored)
                } else {
                    None
                },
                zlib_deflated(encode_spec(o)),
            ),
            Err(e) => Err(e),
        }),
        r matches Ok(w) ==> is_object_id(w.id@),
{
    object_hash(
        data,
        type_,
        if write {
            Some(stored)
        } else {
            None
        },
    )
}

} // verus!
