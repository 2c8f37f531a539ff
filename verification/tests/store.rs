use std::io::{Read, Write};

use rgit::cmd::{cmd_cat_file, cmd_hash_object, cmd_init};
use rgit::config::repo_default_config;
use rgit::error::Error;
use rgit::object::{GitObject, ObjectKind};
use rgit::record::{Header, Record};
use rgit::refs::{follow, resolve, Followed, RefFile, MAX_HOPS};
use rgit::repo::{
    join_path, parent_path, repo_create, repo_find, Candidate, DirOutcome, FileOutcome,
    GitRepository, PathState,
};
use rgit::store::{object_hash, object_path, object_read, object_write, plan_write, read_inflated};

const HELLO_ID: &[u8] = b"ce013625030ba8dba906f756967f9e9ca394464a";

fn deflate(data: &[u8]) -> Vec<u8> {
    let mut e = flate2::write::ZlibEncoder::new(Vec::new(), flate2::Compression::default());
    e.write_all(data).unwrap();
    e.finish().unwrap()
}

fn inflate(data: &[u8]) -> Vec<u8> {
    let mut out = Vec::new();
    flate2::read::ZlibDecoder::new(data).read_to_end(&mut out).unwrap();
    out
}

fn reference(name: &str, content: &str) -> RefFile {
    RefFile { name: name.as_bytes().to_vec(), content: content.as_bytes().to_vec() }
}

fn header(key: &str, value: &str) -> Header {
    Header { key: key.as_bytes().to_vec(), value: value.as_bytes().to_vec() }
}

#[test]
fn object_path_splits_after_two_digits() {
    assert_eq!(
        object_path(HELLO_ID),
        Some(b"objects/ce/013625030ba8dba906f756967f9e9ca394464a".to_vec())
    );
    assert_eq!(object_path(b"ce01"), None);
    assert_eq!(object_path(b"CE013625030ba8dba906f756967f9e9ca394464a"), None);
    assert_eq!(object_path(b"../13625030ba8dba906f756967f9e9ca394464a"), None);
}

#[test]
fn storing_hello_writes_its_compressed_encoding() {
    let blob = GitObject::Blob(b"hello\n".to_vec());
    let written = object_write(&blob, Some(false)).unwrap();
    assert_eq!(written.id, HELLO_ID.to_vec());
    let (path, content) = written.file.unwrap();
    assert_eq!(path, b"objects/ce/013625030ba8dba906f756967f9e9ca394464a".to_vec());
    assert_ne!(content, b"blob 6\0hello\n".to_vec());
    assert_eq!(inflate(&content), b"blob 6\0hello\n".to_vec());
}

#[test]
fn hashing_without_a_repository_writes_nothing() {
    let blob = GitObject::Blob(b"hello\n".to_vec());
    let written = object_write(&blob, None).unwrap();
    assert_eq!(written.id, HELLO_ID.to_vec());
    assert_eq!(written.file, None);
}

#[test]
fn second_put_leaves_the_store_alone() {
    let blob = GitObject::Blob(b"hello\n".to_vec());
    let first = object_write(&blob, Some(false)).unwrap();
    let second = object_write(&GitObject::Blob(b"hello\n".to_vec()), Some(true)).unwrap();
    assert!(first.file.is_some());
    assert_eq!(second.id, first.id);
    assert_eq!(second.file, None);
}

#[test]
fn plan_write_reports_a_failed_compressor() {
    assert_eq!(plan_write(HELLO_ID.to_vec(), Some(false), None), Err(Error::Compression));
    let w = plan_write(HELLO_ID.to_vec(), Some(true), None).unwrap();
    assert_eq!(w.file, None);
    let w = plan_write(HELLO_ID.to_vec(), Some(false), Some(vec![1, 2, 3])).unwrap();
    assert_eq!(
        w.file,
        Some((b"objects/ce/013625030ba8dba906f756967f9e9ca394464a".to_vec(), vec![1, 2, 3]))
    );
}

#[test]
fn written_object_reads_back() {
    let blob = GitObject::Blob(b"hello\n".to_vec());
    let (_, content) = object_write(&blob, Some(false)).unwrap().file.unwrap();
    assert_eq!(object_read(HELLO_ID, Some(&content)), Ok(blob));
}

#[test]
fn missing_object_is_not_found() {
    assert_eq!(object_read(HELLO_ID, None), Err(Error::NotFound(HELLO_ID.to_vec())));
}

#[test]
fn wrong_declared_length_is_malformed() {
    let file = deflate(b"blob 7\0hello\n");
    assert_eq!(object_read(HELLO_ID, Some(&file)), Err(Error::MalformedObject(HELLO_ID.to_vec())));
}

#[test]
fn damaged_files_are_malformed_not_missing() {
    let expected = Err(Error::MalformedObject(HELLO_ID.to_vec()));
    assert_eq!(object_read(HELLO_ID, Some(b"")), expected);
    assert_eq!(object_read(HELLO_ID, Some(b"blob 6\0hello\n")), expected);
    let whole = deflate(b"blob 6\0hello\n");
    assert_eq!(object_read(HELLO_ID, Some(&whole[..whole.len() / 2])), expected);
    assert_eq!(read_inflated(HELLO_ID, None), expected);
    assert_eq!(read_inflated(HELLO_ID, Some(b"blob 1\0".to_vec())), expected);
    assert_eq!(
        read_inflated(HELLO_ID, Some(b"blob 1\0x".to_vec())),
        Ok(GitObject::Blob(b"x".to_vec()))
    );
}

#[test]
fn object_hash_by_kind() {
    let w = object_hash(b"hello\n", b"blob", None).unwrap();
    assert_eq!(w.id, HELLO_ID.to_vec());
    assert_eq!(w.file, None);
    let w = object_hash(b"hello\n", b"blob", Some(false)).unwrap();
    assert_eq!(inflate(&w.file.unwrap().1), b"blob 6\0hello\n".to_vec());
    assert_eq!(object_hash(b"hello\n", b"blub", None), Err(Error::UnknownKind(b"blub".to_vec())));
    assert_eq!(object_hash(b"hello\n", b"commit", None), Err(Error::MalformedObject(Vec::new())));
    assert!(object_hash(b"tree abc\n\nmsg", b"commit", None).is_ok());
}

#[test]
fn cat_file_shows_the_payload() {
    let file = deflate(b"blob 6\0hello\n");
    assert_eq!(cmd_cat_file(b"blob", HELLO_ID, Some(&file)), Ok(b"hello\n".to_vec()));
    assert_eq!(cmd_cat_file(b"tree", HELLO_ID, Some(&file)), Err(Error::WrongKind(HELLO_ID.to_vec())));
    assert_eq!(cmd_cat_file(b"blob", HELLO_ID, None), Err(Error::NotFound(HELLO_ID.to_vec())));
    assert_eq!(cmd_cat_file(b"file", HELLO_ID, Some(&file)), Err(Error::UnknownKind(b"file".to_vec())));
}

#[test]
fn init_plan_lists_the_skeleton() {
    let plan = repo_create(b"./proj", PathState::Missing, None).ok().unwrap();
    assert!(plan.create_worktree);
    assert_eq!(plan.repo.worktree, b"./proj".to_vec());
    assert_eq!(plan.repo.gitdir, b"./proj/.git".to_vec());
    assert_eq!(
        plan.dirs,
        vec![
            b"./proj/.git/branches".to_vec(),
            b"./proj/.git/objects".to_vec(),
            b"./proj/.git/refs/tags".to_vec(),
            b"./proj/.git/refs/heads".to_vec(),
        ]
    );
    assert_eq!(plan.head, (b"./proj/.git/HEAD".to_vec(), b"ref: refs/heads/master\n".to_vec()));
    assert_eq!(plan.description.0, b"./proj/.git/description".to_vec());
    assert_eq!(
        plan.description.1,
        b"Unnamed repository; edit this file 'description' to name the repository.\n".to_vec()
    );
    assert_eq!(plan.config_path, b"./proj/.git/config".to_vec());
    assert_eq!(plan.repo.conf.get_from(Some("core"), "repositoryformatversion"), Some("0"));
    assert_eq!(plan.repo.conf.get_from(Some("core"), "filemode"), Some("false"));
    assert_eq!(plan.repo.conf.get_from(Some("core"), "bare"), Some("false"));
}

#[test]
fn init_refuses_what_is_in_the_way() {
    assert_eq!(
        repo_create(b"proj", PathState::Other, None).err(),
        Some(Error::NotADirectory(b"proj".to_vec()))
    );
    assert_eq!(
        repo_create(b"proj", PathState::Directory, Some(3)).err(),
        Some(Error::AlreadyInitialized)
    );
    assert_eq!(cmd_init(b"proj", PathState::Directory, Some(1)).err(), Some(Error::AlreadyInitialized));
    let plan = cmd_init(b"proj", PathState::Directory, Some(0)).ok().unwrap();
    assert!(!plan.create_worktree);
    assert!(repo_create(b"proj", PathState::Directory, None).is_ok());
}

#[test]
fn default_config_declares_version_zero() {
    let conf = repo_default_config();
    assert_eq!(conf.get_from(Some("core"), "repositoryformatversion"), Some("0"));
    assert_eq!(conf.get_from(Some("core"), "filemode"), Some("false"));
    assert_eq!(conf.get_from(Some("core"), "bare"), Some("false"));
    assert_eq!(conf.get_from(Some("core"), "other"), None);
}

#[test]
fn loading_validates_the_format_version() {
    let good = "[core]\nrepositoryformatversion = 0\nfilemode = false\n";
    let repo = GitRepository::new(b"w", false, true, Some(good)).ok().unwrap();
    assert_eq!(repo.gitdir, b"w/.git".to_vec());
    assert_eq!(repo.conf.get_from(Some("core"), "filemode"), Some("false"));
    let newer = "[core]\nrepositoryformatversion = 1\n";
    assert_eq!(
        GitRepository::new(b"w", false, true, Some(newer)).err(),
        Some(Error::UnsupportedFormat(Some("1".to_string())))
    );
    let none = "[core]\nbare = false\n";
    assert_eq!(
        GitRepository::new(b"w", false, true, Some(none)).err(),
        Some(Error::UnsupportedFormat(None))
    );
    let padded = "[core]\nrepositoryformatversion = 00\n";
    assert_eq!(
        GitRepository::new(b"w", false, true, Some(padded)).err(),
        Some(Error::UnsupportedFormat(Some("00".to_string())))
    );
    let elsewhere = "[user]\nrepositoryformatversion = 0\n";
    assert_eq!(
        GitRepository::new(b"w", false, true, Some(elsewhere)).err(),
        Some(Error::UnsupportedFormat(None))
    );
    assert!(GitRepository::new(b"w", true, true, Some(newer)).is_ok());
}

#[test]
fn loading_reports_what_is_missing() {
    assert_eq!(
        GitRepository::new(b"w", false, false, Some("")).err(),
        Some(Error::NotFound(b"w".to_vec()))
    );
    assert_eq!(GitRepository::new(b"w", false, true, None).err(), Some(Error::MissingConfig));
    assert_eq!(GitRepository::new(b"w", false, true, Some("[core")).err(), Some(Error::BadConfig));
    assert!(GitRepository::new(b"w", true, false, None).is_ok());
}

#[test]
fn paths_under_the_metadata_directory() {
    let repo = GitRepository::new(b"/w", true, false, None).ok().unwrap();
    assert_eq!(repo.repo_path(b"refs/tags"), b"/w/.git/refs/tags".to_vec());
    assert_eq!(
        repo.repo_dir(b"refs", false, PathState::Directory),
        Ok(Some(DirOutcome { path: b"/w/.git/refs".to_vec(), create: false }))
    );
    assert_eq!(
        repo.repo_dir(b"refs", true, PathState::Missing),
        Ok(Some(DirOutcome { path: b"/w/.git/refs".to_vec(), create: true }))
    );
    assert_eq!(repo.repo_dir(b"refs", false, PathState::Missing), Ok(None));
    assert_eq!(
        repo.repo_dir(b"refs", true, PathState::Other),
        Err(Error::NotADirectory(b"/w/.git/refs".to_vec()))
    );
    assert_eq!(repo.file_parent(b"hooks/pre-commit"), b"/w/.git/hooks".to_vec());
    assert_eq!(repo.file_parent(b"config"), b"/w/.git".to_vec());
    assert_eq!(
        repo.repo_file(b"hooks/pre-commit", true, PathState::Missing),
        Ok(Some(FileOutcome {
            path: b"/w/.git/hooks/pre-commit".to_vec(),
            create_dir: Some(b"/w/.git/hooks".to_vec()),
        }))
    );
    assert_eq!(
        repo.repo_file(b"config", false, PathState::Directory),
        Ok(Some(FileOutcome { path: b"/w/.git/config".to_vec(), create_dir: None }))
    );
    assert_eq!(repo.repo_file(b"config", false, PathState::Missing), Ok(None));
    assert_eq!(
        repo.repo_file(b"a/b", false, PathState::Other),
        Err(Error::NotADirectory(b"/w/.git/a".to_vec()))
    );
}

#[test]
fn join_and_parent() {
    assert_eq!(join_path(b"a", b"b"), b"a/b".to_vec());
    assert_eq!(parent_path(b"a/b/c"), Some(b"a/b".to_vec()));
    assert_eq!(parent_path(b"/a"), Some(Vec::new()));
    assert_eq!(parent_path(b"abc"), None);
}

#[test]
fn head_resolves_through_its_branch() {
    let refs = vec![
        reference("HEAD", "ref: refs/heads/master\n"),
        reference("refs/heads/master", "ce013625030ba8dba906f756967f9e9ca394464a\n"),
        reference("refs/tags/v1", "e69de29bb2d1d6434b8b29ae775ad8c2e48c5391"),
    ];
    let objects: Vec<Vec<u8>> = Vec::new();
    assert_eq!(resolve(&refs, &objects, b"HEAD"), Ok(HELLO_ID.to_vec()));
    assert_eq!(resolve(&refs, &objects, b"master"), Ok(HELLO_ID.to_vec()));
    assert_eq!(resolve(&refs, &objects, b"refs/heads/master"), Ok(HELLO_ID.to_vec()));
    assert_eq!(
        resolve(&refs, &objects, b"v1"),
        Ok(b"e69de29bb2d1d6434b8b29ae775ad8c2e48c5391".to_vec())
    );
    assert_eq!(resolve(&refs, &objects, b"nope"), Err(Error::NotFound(b"nope".to_vec())));
    assert_eq!(
        resolve(&refs, &objects, b"refs/heads/nope"),
        Err(Error::NotFound(b"refs/heads/nope".to_vec()))
    );
}

#[test]
fn branch_wins_over_tag() {
    let refs = vec![
        reference("refs/tags/x", "e69de29bb2d1d6434b8b29ae775ad8c2e48c5391\n"),
        reference("refs/heads/x", "ce013625030ba8dba906f756967f9e9ca394464a\n"),
    ];
    assert_eq!(resolve(&refs, &Vec::new(), b"x"), Ok(HELLO_ID.to_vec()));
}

#[test]
fn reference_cycle_is_reported() {
    let refs = vec![
        reference("refs/heads/a", "ref: refs/heads/b\n"),
        reference("refs/heads/b", "ref: refs/heads/a\n"),
    ];
    assert_eq!(
        resolve(&refs, &Vec::new(), b"refs/heads/a"),
        Err(Error::ReferenceCycle(b"refs/heads/a".to_vec()))
    );
    assert_eq!(resolve(&refs, &Vec::new(), b"a"), Err(Error::ReferenceCycle(b"a".to_vec())));
}

#[test]
fn chains_up_to_the_bound_resolve() {
    let mut refs = Vec::new();
    for i in 0..MAX_HOPS {
        refs.push(reference(&format!("refs/r{}", i), &format!("ref: refs/r{}\n", i + 1)));
    }
    refs.push(reference(&format!("refs/r{}", MAX_HOPS), "ce013625030ba8dba906f756967f9e9ca394464a\n"));
    assert_eq!(resolve(&refs, &Vec::new(), b"refs/r0"), Ok(HELLO_ID.to_vec()));
    refs.insert(0, reference("refs/start", "ref: refs/r0\n"));
    assert_eq!(
        resolve(&refs, &Vec::new(), b"refs/start"),
        Err(Error::ReferenceCycle(b"refs/start".to_vec()))
    );
}

#[test]
fn malformed_reference_is_reported() {
    let refs = vec![reference("refs/heads/a", "not an identifier\n")];
    assert_eq!(
        resolve(&refs, &Vec::new(), b"a"),
        Err(Error::MalformedReference(b"refs/heads/a".to_vec()))
    );
}

#[test]
fn abbreviations_resolve_when_unambiguous() {
    let objects = vec![
        b"ce013625030ba8dba906f756967f9e9ca394464a".to_vec(),
        b"ce01aaaa030ba8dba906f756967f9e9ca394464a".to_vec(),
        b"e69de29bb2d1d6434b8b29ae775ad8c2e48c5391".to_vec(),
    ];
    let refs: Vec<RefFile> = Vec::new();
    assert_eq!(resolve(&refs, &objects, b"ce01"), Err(Error::Ambiguous(b"ce01".to_vec())));
    assert_eq!(resolve(&refs, &objects, b"ce013"), Ok(objects[0].clone()));
    assert_eq!(resolve(&refs, &objects, b"e69d"), Ok(objects[2].clone()));
    assert_eq!(resolve(&refs, &objects, &objects[1]), Ok(objects[1].clone()));
    assert_eq!(resolve(&refs, &objects, b"e69"), Err(Error::NotFound(b"e69".to_vec())));
    assert_eq!(resolve(&refs, &objects, b"abcd"), Err(Error::NotFound(b"abcd".to_vec())));
}

#[test]
fn hex_named_branch_is_found_when_no_object_matches() {
    let refs = vec![reference("refs/heads/cafe", "ce013625030ba8dba906f756967f9e9ca394464a\n")];
    let objects = vec![b"e69de29bb2d1d6434b8b29ae775ad8c2e48c5391".to_vec()];
    assert_eq!(resolve(&refs, &objects, b"cafe"), Ok(HELLO_ID.to_vec()));
}

#[test]
fn follow_peels_one_level() {
    let tag = GitObject::Tag(Record {
        headers: vec![header("object", "e69de29bb2d1d6434b8b29ae775ad8c2e48c5391"), header("type", "commit")],
        message: Vec::new(),
    });
    let commit = GitObject::Commit(Record {
        headers: vec![header("tree", "ce013625030ba8dba906f756967f9e9ca394464a")],
        message: Vec::new(),
    });
    let blob = GitObject::Blob(Vec::new());
    assert_eq!(
        follow(&tag, b"t", Some(ObjectKind::Commit), true),
        Ok(Followed { id: b"e69de29bb2d1d6434b8b29ae775ad8c2e48c5391".to_vec(), done: false })
    );
    assert_eq!(follow(&tag, b"t", Some(ObjectKind::Tag), false), Ok(Followed { id: b"t".to_vec(), done: true }));
    assert_eq!(follow(&tag, b"t", None, false), Ok(Followed { id: b"t".to_vec(), done: true }));
    assert_eq!(follow(&tag, b"t", Some(ObjectKind::Commit), false), Err(Error::WrongKind(b"t".to_vec())));
    assert_eq!(
        follow(&commit, b"c", Some(ObjectKind::Tree), true),
        Ok(Followed { id: HELLO_ID.to_vec(), done: false })
    );
    assert_eq!(follow(&commit, b"c", Some(ObjectKind::Blob), true), Err(Error::WrongKind(b"c".to_vec())));
    assert_eq!(follow(&blob, b"b", Some(ObjectKind::Tree), true), Err(Error::WrongKind(b"b".to_vec())));
    let bare = GitObject::Tag(Record { headers: Vec::new(), message: Vec::new() });
    assert_eq!(
        follow(&bare, b"t", Some(ObjectKind::Commit), true),
        Err(Error::MalformedObject(b"t".to_vec()))
    );
}

#[test]
fn hash_object_writes_only_when_asked() {
    let w = cmd_hash_object(b"blob", false, b"hello\n", false).unwrap();
    assert_eq!(w.id, HELLO_ID.to_vec());
    assert_eq!(w.file, None);
    let w = cmd_hash_object(b"blob", true, b"hello\n", true).unwrap();
    assert_eq!(w.file, None);
    let w = cmd_hash_object(b"blob", true, b"hello\n", false).unwrap();
    assert_eq!(w.id, HELLO_ID.to_vec());
    let (path, content) = w.file.unwrap();
    assert_eq!(path, b"objects/ce/013625030ba8dba906f756967f9e9ca394464a".to_vec());
    assert_eq!(inflate(&content), b"blob 6\0hello\n".to_vec());
    assert_eq!(cmd_hash_object(b"nope", true, b"", false), Err(Error::UnknownKind(b"nope".to_vec())));
}

fn candidate(path: &str, has_gitdir: bool, config: Option<&str>) -> Candidate {
    Candidate { path: path.as_bytes().to_vec(), has_gitdir, config: config.map(|c| c.to_string()) }
}

#[test]
fn nearest_repository_is_found() {
    let good = "[core]\nrepositoryformatversion = 0\n";
    let found = repo_find(
        b"/a/b",
        &vec![candidate("/a/b", false, None), candidate("/a", true, Some(good)), candidate("/", true, None)],
        true,
    );
    let repo = found.ok().unwrap().unwrap();
    assert_eq!(repo.worktree, b"/a".to_vec());
    assert_eq!(repo.gitdir, b"/a/.git".to_vec());
    assert_eq!(repo.conf.get_from(Some("core"), "repositoryformatversion"), Some("0"));
}

#[test]
fn find_reports_what_it_cannot_load() {
    let newer = "[core]\nrepositoryformatversion = 7\n";
    let good = "[core]\nrepositoryformatversion = 0\n";
    let up = vec![candidate("/a/b", true, Some(newer)), candidate("/a", true, Some(good))];
    assert_eq!(
        repo_find(b"/a/b", &up, true).err(),
        Some(Error::UnsupportedFormat(Some("7".to_string())))
    );
    assert_eq!(
        repo_find(b"/a/b", &up, false).err(),
        Some(Error::UnsupportedFormat(Some("7".to_string())))
    );
    let bare = vec![candidate("/a", true, None)];
    assert_eq!(repo_find(b"/a", &bare, false).err(), Some(Error::MissingConfig));
    let none = vec![candidate("/a", false, Some(good)), candidate("/", false, None)];
    assert_eq!(repo_find(b"/a", &none, true).err(), Some(Error::NotFound(b"/a".to_vec())));
    assert!(repo_find(b"/a", &none, false).ok().unwrap().is_none());
    assert!(repo_find(b"/", &Vec::new(), false).ok().unwrap().is_none());
    assert_eq!(repo_find(b"/", &Vec::new(), true).err(), Some(Error::NotFound(b"/".to_vec())));
}
