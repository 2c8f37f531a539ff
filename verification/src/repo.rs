//! Repositories: loading and validating one, planning a new one, and finding
//! the one that a path lies in. Paths are byte strings with `/` between
//! their segments; the caller looks at the file system and reports what is
//! there.

use vstd::prelude::*;
use vstd::string::*;
use ini::Ini;
use crate::bytes::{copy_range, lemma_first_found, lemma_first_is, own, push_all};
use crate::config::{
    declared_version, default_entries, ini_entries, ini_new, ini_parse, ini_parsed, is_supported,
    read_version, repo_default_config, version_supported, Entries,
};
use crate::error::{Error, ErrorView};

verus! {

pub const SLASH: u8 = 47;

/// What stands at a path.
#[derive(Clone, Copy, Debug, PartialEq, Eq, Structural)]
pub enum PathState {
    Missing,
    Directory,
    Other,
}

/// `base/name`
pub open spec fn join_spec(base: Seq<u8>, name: Seq<u8>) -> Seq<u8> {
    base + seq![SLASH] + name
}

/// The path without its last segment: what stands before the last `/`.
pub open spec fn parent_spec(p: Seq<u8>) -> Option<Seq<u8>>
    decreases p.len(),
{
    if p.len() == 0 {
        None
    } else if p.last() == SLASH {
        Some(p.drop_last())
    } else {
        parent_spec(p.drop_last())
    }
}

/// The metadata directory of a worktree.
pub open spec fn gitdir_spec(worktree: Seq<u8>) -> Seq<u8> {
    join_spec(worktree, ".git".spec_bytes())
}

/// Joins two paths with a `/`.
pub fn join_path(base: &[u8], name: &[u8]) -> (out: Vec<u8>)
    ensures
        out@ == join_spec(base@, name@),
{
    let mut out = own(base);
    out.push(SLASH);
    push_all(&mut out, name);
    out
}

/// The parent of a path; `None` where the path holds no `/`.
pub fn parent_path(p: &[u8]) -> (r: Option<Vec<u8>>)
    ensures
        match r {
            Some(q) => parent_spec(p@) == Some(q@),
            None => parent_spec(p@) is None,
        },
{
    let mut i: usize = p.len();
    assert(p@.subrange(0, i as int) =~= p@);
    while i > 0
        invariant
            0 <= i <= p@.len(),
            parent_spec(p@) == parent_spec(p@.subrange(0, i as int)),
        decreases i,
    {
        let ghost cur = p@.subrange(0, i as int);
        assert(cur.last() == p@[i - 1]);
        assert(cur.drop_last() =~= p@.subrange(0, i - 1));
        if p[i - 1] == SLASH {
            return Some(copy_range(p, 0, i - 1));
        }
        i = i - 1;
    }
    None
}

/// A repository: the worktree, the metadata directory inside it, and the
/// configuration.
pub struct GitRepository {
    pub worktree: Vec<u8>,
    pub gitdir: Vec<u8>,
    pub conf: Ini,
}

/// A directory that `repo_dir` answers with, and whether it has to be made.
#[derive(Clone, Debug, PartialEq, Eq)]
pub struct DirOutcome {
    pub path: Vec<u8>,
    pub create: bool,
}

/// A file path that `repo_file` answers with, and the directory to make for
/// it first, if any.
#[derive(Clone, Debug, PartialEq, Eq)]
pub struct FileOutcome {
    pub path: Vec<u8>,
    pub create_dir: Option<Vec<u8>>,
}

/// What a new repository consists of.
pub struct InitPlan {
    pub repo: GitRepository,
    /// Whether the worktree directory itself has to be made.
    pub create_worktree: bool,
    /// Directories to make, parents included, in this order.
    pub dirs: Vec<Vec<u8>>,
    /// The description file: path and content.
    pub description: (Vec<u8>, Vec<u8>),
    /// The `HEAD` file: path and content.
    pub head: (Vec<u8>, Vec<u8>),
    /// Where the configuration `repo.conf` is written.
    pub config_path: Vec<u8>,
}

/// What loading a repository at `path` comes to, given whether the metadata
/// directory is there and what the configuration parses to, if there is one:
/// the entries of the configuration, or the failure.
pub open spec fn load_outcome(
    path: Seq<u8>,
    force: bool,
    gitdir_is_dir: bool,
    config: Option<Option<Entries>>,
) -> Result<Entries, ErrorView> {
    if !force && !gitdir_is_dir {
        Err(ErrorView::NotFound(path))
    } else {
        match config {
            Some(None) => Err(ErrorView::BadConfig),
            Some(Some(entries)) => if force || version_supported(entries) {
                Ok(entries)
            } else {
                Err(ErrorView::UnsupportedFormat(declared_version(entries)))
            },
            None => if force {
                Ok(Entries::empty())
            } else {
                Err(ErrorView::MissingConfig)
            },
        }
    }
}

/// The failure of `repo_create`, if it fails: the worktree is there and is
/// no directory, or its metadata directory is there and holds something.
pub open spec fn create_error(
    path: Seq<u8>,
    worktree: PathState,
    gitdir_entries: Option<usize>,
) -> Option<ErrorView> {
    match worktree {
        PathState::Missing => None,
        PathState::Other => Some(ErrorView::NotADirectory(path)),
        PathState::Directory => match gitdir_entries {
            Some(n) if n != 0 => Some(ErrorView::AlreadyInitialized),
            _ => None,
        },
    }
}

impl GitRepository {
    /// The worktree is where it was asked for, and the metadata directory is
    /// `.git` inside it.
    pub open spec fn at(&self, path: Seq<u8>) -> bool {
        self.worktree@ == path && self.gitdir@ == gitdir_spec(path)
    }

    /// A repository at `path` with the configuration `conf`. Unless `force`
    /// is set, the configuration must declare the supported format version;
    /// the error holds the version that it declares instead.
    pub fn with_config(path: &[u8], force: bool, conf: Ini) -> (r: Result<GitRepository, Error>)
        ensures
            match r {
                Ok(repo) => (force || version_supported(ini_entries(conf))) && repo.at(path@)
                    && repo.conf == conf,
                Err(e) => !force && !version_supported(ini_entries(conf)) && e@
                    == ErrorView::UnsupportedFormat(declared_version(ini_entries(conf))),
            },
    {
        if !force {
            match read_version(&conf) {
                Some(version) => if !is_supported(&version) {
                    return Err(Error::UnsupportedFormat(Some(version)));
                },
                None => {
                    return Err(Error::UnsupportedFormat(None));
                },
            }
        }
        let worktree = own(path);
        let gitdir = join_path(path, ".git".as_bytes());
        Ok(GitRepository { worktree, gitdir, conf })
    }

    /// Loads the repository whose worktree is `path`. `gitdir_is_dir` says
    /// whether the metadata directory is there, `config` holds the text of
    /// its configuration file where that exists. With `force` a repository
    /// that is not there yet is accepted, with whatever configuration it has.
    pub fn new(path: &[u8], force: bool, gitdir_is_dir: bool, config: Option<&str>) -> (r: Result<
        GitRepository,
        Error,
    >)
        ensures
            match r {
                Ok(repo) => Ok(ini_entries(repo.conf)),
                Err(e) => Err(e@),
            } == load_outcome(
                path@,
                force,
                gitdir_is_dir,
                match config {
                    Some(text) => Some(ini_parsed(text@)),
                    None => None,
                },
            ),
            r matches Ok(repo) ==> repo.at(path@),
    {
        if !force && !gitdir_is_dir {
            return Err(Error::NotFound(own(path)));
        }
        match config {
            Some(text) => match ini_parse(text) {
                Ok(conf) => GitRepository::with_config(path, force, conf),
                Err(_) => Err(Error::BadConfig),
            },
            None => if force {
                GitRepository::with_config(path, true, ini_new())
            } else {
                Err(Error::MissingConfig)
            },
        }
    }

    /// The path of `path` under the metadata directory.
    pub fn repo_path(&self, path: &[u8]) -> (out: Vec<u8>)
        ensures
            out@ == join_spec(self.gitdir@, path@),
    {
        join_path(self.gitdir.as_slice(), path)
    }

    /// The directory `path` under the metadata directory, given what stands
    /// there: the directory itself; with `mkdir`, a directory to be made
    /// where nothing is; `None` where nothing is and nothing is to be made.
    /// Anything else in its place is an error.
    pub fn repo_dir(&self, path: &[u8], mkdir: bool, found: PathState) -> (r: Result<
        Option<DirOutcome>,
        Error,
    >)
        ensures
            match found {
                PathState::Directory => r matches Ok(Some(d)) && d.path@ == join_spec(
                    self.gitdir@,
                    path@,
                ) && !d.create,
                PathState::Other => r matches Err(e) && e@ == ErrorView::NotADirectory(
                    join_spec(self.gitdir@, path@),
                ),
                PathState::Missing => if mkdir {
                    r matches Ok(Some(d)) && d.path@ == join_spec(self.gitdir@, path@) && d.create
                } else {
                    r matches Ok(None)
                },
            },
    {
        let p = self.repo_path(path);
        match found {
            PathState::Directory => Ok(Some(DirOutcome { path: p, create: false })),
            PathState::Other => Err(Error::NotADirectory(p)),
            PathState::Missing => if mkdir {
                Ok(Some(DirOutcome { path: p, create: true }))
            } else {
                Ok(None)
            },
        }
    }

    /// The directory that holds the file `path` under the metadata
    /// directory: the path's parent.
    pub fn file_parent(&self, path: &[u8]) -> (out: Vec<u8>)
        ensures
            Some(out@) == parent_spec(join_spec(self.gitdir@, path@)),
    {
        let target = self.repo_path(path);
        proof {
            lemma_parent_of_join(self.gitdir@, path@);
        }
        match parent_path(target.as_slice()) {
            Some(parent) => parent,
            None => Vec::new(),
        }
    }

    /// The file `path` under the metadata directory, given what stands at
    /// its parent directory (see `file_parent`): the file's path where the
    /// parent is there or, with `mkdir`, is to be made; `None` where it is
    /// missing and not to be made. Anything but a directory in the parent's
    /// place is an error.
    pub fn repo_file(&self, path: &[u8], mkdir: bool, parent_found: PathState) -> (r: Result<
        Option<FileOutcome>,
        Error,
    >)
        ensures
            match parent_found {
                PathState::Directory => r matches Ok(Some(f)) && f.path@ == join_spec(
                    self.gitdir@,
                    path@,
                ) && f.create_dir is None,
                PathState::Other => r matches Err(e) && Some(e@) == (match parent_spec(
                    join_spec(self.gitdir@, path@),
                ) {
                    Some(parent) => Some(ErrorView::NotADirectory(parent)),
                    None => None,
                }),
                PathState::Missing => if mkdir {
                    r matches Ok(Some(f)) && f.path@ == join_spec(self.gitdir@, path@) && (
                    f.create_dir matches Some(d) && Some(d@) == parent_spec(
                        join_spec(self.gitdir@, path@),
                    ))
                } else {
                    r matches Ok(None)
                },
            },
    {
        let target = self.repo_path(path);
        let parent = self.file_parent(path);
        match parent_found {
            PathState::Directory => Ok(Some(FileOutcome { path: target, create_dir: None })),
            PathState::Other => Err(Error::NotADirectory(parent)),
            PathState::Missing => if mkdir {
                Ok(Some(FileOutcome { path: target, create_dir: Some(parent) }))
            } else {
                Ok(None)
            },
        }
    }
}

impl InitPlan {
    /// The plan of a new repository with worktree `path`: the four
    /// directories, the description, a `HEAD` that points at
    /// `refs/heads/master`, and the default configuration, all under `.git`.
    pub open spec fn is_for(&self, path: Seq<u8>, worktree: PathState) -> bool {
        &&& self.repo.at(path)
        &&& ini_entries(self.repo.conf) == default_entries()
        &&& self.create_worktree == (worktree == PathState::Missing)
        &&& self.dirs@.len() == 4
        &&& self.dirs@[0]@ == join_spec(gitdir_spec(path), "branches".spec_bytes())
        &&& self.dirs@[1]@ == join_spec(gitdir_spec(path), "objects".spec_bytes())
        &&& self.dirs@[2]@ == join_spec(gitdir_spec(path), "refs/tags".spec_bytes())
        &&& self.dirs@[3]@ == join_spec(gitdir_spec(path), "refs/heads".spec_bytes())
        &&& self.description.0@ == join_spec(gitdir_spec(path), "description".spec_bytes())
        &&& self.description.1@
            == "Unnamed repository; edit this file 'description' to name the repository.\n".spec_bytes()
        &&& self.head.0@ == join_spec(gitdir_spec(path), "HEAD".spec_bytes())
        &&& self.head.1@ == "ref: refs/heads/master\n".spec_bytes()
        &&& self.config_path@ == join_spec(gitdir_spec(path), "config".spec_bytes())
    }
}

/// A joined path has a parent.
pub proof fn lemma_parent_of_join(base: Seq<u8>, name: Seq<u8>)
    ensures
        parent_spec(join_spec(base, name)) is Some,
    decreases name.len(),
{
    let p = join_spec(base, name);
    if name.len() == 0 {
        assert(p.last() == SLASH);
    } else if name.last() == SLASH {
        assert(p.last() == SLASH);
    } else {
        assert(p.last() == name.last());
        assert(p.drop_last() =~= join_spec(base, name.drop_last()));
        lemma_parent_of_join(base, name.drop_last());
    }
}

/// Plans a new repository with worktree `path`. `worktree` says what stands
/// at `path`, `gitdir_entries` how many entries the metadata directory
/// holds, `None` where it is missing. Fails where the worktree is not a
/// directory, or the metadata directory is not empty. The plan names the
/// directories `branches`, `objects`, `refs/tags` and `refs/heads`, the
/// description, a `HEAD` that points at `refs/heads/master`, and the default
/// configuration.
pub fn repo_create(path: &[u8], worktree: PathState, gitdir_entries: Option<usize>) -> (r: Result<
    InitPlan,
    Error,
>)
    ensures
        match r {
            Ok(plan) => create_error(path@, worktree, gitdir_entries) is None && plan.is_for(
                path@,
                worktree,
            ),
            Err(e) => create_error(path@, worktree, gitdir_entries) == Some(e@),
        },
{
    match worktree {
        PathState::Other => {
            return Err(Error::NotADirectory(own(path)));
        },
        PathState::Directory => match gitdir_entries {
            Some(n) => if n != 0 {
                return Err(Error::AlreadyInitialized);
            },
            None => {},
        },
        PathState::Missing => {},
    }
    let repo = match GitRepository::with_config(path, true, repo_default_config()) {
        Ok(repo) => repo,
        Err(e) => {
            return Err(e);
        },
    };
    let mut dirs: Vec<Vec<u8>> = Vec::new();
    dirs.push(repo.repo_path("branches".as_bytes()));
    dirs.push(repo.repo_path("objects".as_bytes()));
    dirs.push(repo.repo_path("refs/tags".as_bytes()));
    dirs.push(repo.repo_path("refs/heads".as_bytes()));
    let description = (
        repo.repo_path("description".as_bytes()),
        "Unnamed repository; edit this file 'description' to name the repository.\n".as_bytes_vec(),
    );
    let head = (repo.repo_path("HEAD".as_bytes()), "ref: refs/heads/master\n".as_bytes_vec());
    let config_path = repo.repo_path("config".as_bytes());
    Ok(
        InitPlan {
            repo,
            create_worktree: matches!(worktree, PathState::Missing),
            dirs,
            description,
            head,
            config_path,
        },
    )
}

/// The first of `has_gitdir` that holds: the index of the nearest directory,
/// among a path and its ancestors from the innermost out, that holds a
/// metadata directory.
pub open spec fn first_repo(has_gitdir: Seq<bool>) -> Option<int> {
    has_gitdir.index_of_first(true)
}

/// A directory on the way from a path up to the root, as the caller found
/// it: whether it holds a metadata directory, and the text of the
/// configuration file in there, if there is one.
pub struct Candidate {
    pub path: Vec<u8>,
    pub has_gitdir: bool,
    pub config: Option<String>,
}

pub open spec fn candidate_flags(candidates: Seq<Candidate>) -> Seq<bool> {
    candidates.map_values(|c: Candidate| c.has_gitdir)
}

/// What `repo_find` comes to: the outcome of loading the nearest candidate that
/// holds a metadata directory; where there is none, `NotFound` with `start`
/// if a repository is required, and nothing if not.
pub open spec fn find_outcome(start: Seq<u8>, candidates: Seq<Candidate>, required: bool)
    -> Result<Option<(Seq<u8>, Entries)>, ErrorView> {
    match first_repo(candidate_flags(candidates)) {
        Some(i) => match load_outcome(
            candidates[i].path@,
            false,
            true,
            match candidates[i].config {
                Some(text) => Some(ini_parsed(text@)),
                None => None,
            },
        ) {
            Ok(entries) => Ok(Some((candidates[i].path@, entries))),
            Err(e) => Err(e),
        },
        None => if required {
            Err(ErrorView::NotFound(start))
        } else {
            Ok(None)
        },
    }
}

/// Finds the repository that the path `start` lies in. `candidates` are
/// `start` and its ancestors, from `start` itself up to the file system's
/// root. The first that holds a metadata directory is loaded and validated;
/// a configuration that does not declare the supported format version is an
/// error, whether or not a repository is required, and no reason to look
/// further up.
pub fn repo_find(start: &[u8], candidates: &Vec<Candidate>, required: bool) -> (r: Result<
    Option<GitRepository>,
    Error,
>)
    ensures
        match r {
            Ok(Some(repo)) => Ok(Some((repo.worktree@, ini_entries(repo.conf)))),
            Ok(None) => Ok(None),
            Err(e) => Err(e@),
        } == find_outcome(start@, candidates@, required),
        r matches Ok(Some(repo)) ==> repo.gitdir@ == gitdir_spec(repo.worktree@),
{
    let ghost flags = candidate_flags(candidates@);
    let mut i: usize = 0;
    while i < candidates.len()
        invariant
            0 <= i <= candidates@.len(),
            flags == candidate_flags(candidates@),
            forall|j: int| 0 <= j < i ==> !flags[j],
        decreases candidates@.len() - i,
    {
        assert(flags[i as int] == candidates@[i as int].has_gitdir);
        if candidates[i].has_gitdir {
            proof {
                lemma_first_is(flags, true, i as int);
            }
            let c = &candidates[i];
            let loaded = match &c.config {
                Some(text) => GitRepository::new(c.path.as_slice(), false, true, Some(text.as_str())),
                None => GitRepository::new(c.path.as_slice(), false, true, None),
            };
            return match loaded {
                Ok(repo) => Ok(Some(repo)),
                Err(e) => Err(e),
            };
        }
        i = i + 1;
    }
    proof {
        lemma_first_found(flags, true);
    }
    if required {
        Err(Error::NotFound(own(start)))
    } else {
        Ok(None)
    }
}

} // verus!
