//! Generations: immutable, numbered snapshots of fully resolved desired
//! state, and the builder that folds an ordered action list into one.

use vstd::pervasive::VecAdditionalExecFns;
use vstd::prelude::*;
use vstd::string::StringExecFns;

use crate::config;
use crate::config::ScriptView;

verus! {

/// One file entry of a generation: a path mapped to its desired content,
/// where `None` declares the path absent.
#[derive(Debug, PartialEq)]
pub struct File {
    pub path: String,
    pub content: Option<String>,
}

/// Mathematical model of a file entry.
pub ghost struct FileView {
    pub path: Seq<char>,
    pub content: Option<Seq<char>>,
}

impl View for File {
    type V = FileView;

    open spec fn view(&self) -> FileView {
        FileView { path: self.path@, content: self.content.deep_view() }
    }
}

/// A script unit held by a generation; identical in shape to
/// [`config::Script`], of which it is the resolved copy.
#[derive(Debug, PartialEq)]
pub struct Script {
    pub install: Vec<String>,
    pub update: Vec<String>,
    pub uninstall: Vec<String>,
}

impl View for Script {
    type V = ScriptView;

    open spec fn view(&self) -> ScriptView {
        ScriptView {
            install: self.install.deep_view(),
            update: self.update.deep_view(),
            uninstall: self.uninstall.deep_view(),
        }
    }
}

/// An immutable snapshot of desired state: the unit of versioning.
///
/// `creation_datetime` is a timestamp in milliseconds since the Unix epoch;
/// it is informational only and never enters any comparison.
#[derive(Debug, PartialEq)]
pub struct Generation {
    pub id: i32,
    pub creation_datetime: i64,
    pub files: Vec<File>,
    pub scripts: Vec<Script>,
}

/// Mathematical model of a generation.
pub ghost struct GenerationView {
    pub id: int,
    pub creation_datetime: int,
    pub files: Seq<FileView>,
    pub scripts: Seq<ScriptView>,
}

impl View for Generation {
    type V = GenerationView;

    open spec fn view(&self) -> GenerationView {
        GenerationView {
            id: self.id as int,
            creation_datetime: self.creation_datetime as int,
            files: self.files@.map_values(|f: File| f@),
            scripts: self.scripts@.map_values(|s: Script| s@),
        }
    }
}

/// Building a generation fails when the action list touches the same path
/// twice incompatibly.
#[derive(Debug, PartialEq)]
pub enum BuildError {
    DuplicatePath(String),
}

/// True when some entry of `files` carries `path`.
pub open spec fn has_file(files: Seq<FileView>, path: Seq<char>) -> bool {
    exists|i: int| 0 <= i < files.len() && files[i].path == path
}

/// Within one generation's file set, each path appears at most once.
pub open spec fn unique_paths(files: Seq<FileView>) -> bool {
    forall|i: int, j: int|
        0 <= i < j < files.len() ==> files[i].path != files[j].path
}

/// The file set after appending `content` to the entry carrying `path`:
/// newline-joined onto existing content, or the content itself where the
/// entry was declared absent.
pub open spec fn append_to(files: Seq<FileView>, path: Seq<char>, content: Seq<char>) -> Seq<
    FileView,
> {
    files.map_values(
        |f: FileView|
            if f.path == path {
                FileView {
                    path: f.path,
                    content: match f.content {
                        Some(existing) => Some(existing + seq!['\n'] + content),
                        None => Some(content),
                    },
                }
            } else {
                f
            },
    )
}

/// Outcome of folding declarative actions into a generation's state.
pub ghost enum BuildOutcome {
    Built { files: Seq<FileView>, scripts: Seq<ScriptView> },
    Duplicate { path: Seq<char> },
}

/// One step of generation building: the processing rule for a single
/// declarative action.
pub open spec fn build_step(
    files: Seq<FileView>,
    scripts: Seq<ScriptView>,
    action: config::ActionView,
) -> BuildOutcome {
    match action {
        config::ActionView::Script(s) => BuildOutcome::Built { files, scripts: scripts.push(s) },
        config::ActionView::File(f) => match f {
            config::FileView::SetFile { path, content } => if has_file(files, path) {
                BuildOutcome::Duplicate { path }
            } else {
                BuildOutcome::Built {
                    files: files.push(FileView { path, content: Some(content) }),
                    scripts,
                }
            },
            config::FileView::AppendFile { path, content } => if has_file(files, path) {
                BuildOutcome::Built { files: append_to(files, path, content), scripts }
            } else {
                BuildOutcome::Built {
                    files: files.push(FileView { path, content: Some(content) }),
                    scripts,
                }
            },
            config::FileView::DeleteFile { path } => if has_file(files, path) {
                BuildOutcome::Duplicate { path }
            } else {
                BuildOutcome::Built { files: files.push(FileView { path, content: None }), scripts }
            },
        },
    }
}

/// Folds `actions` in order onto an intermediate state.
pub open spec fn build_from(
    files: Seq<FileView>,
    scripts: Seq<ScriptView>,
    actions: Seq<config::ActionView>,
) -> BuildOutcome
    decreases actions.len(),
{
    if actions.len() == 0 {
        BuildOutcome::Built { files, scripts }
    } else {
        match build_step(files, scripts, actions[0]) {
            BuildOutcome::Built { files: f, scripts: s } => build_from(f, s, actions.drop_first()),
            dup => dup,
        }
    }
}

/// The state a whole action list builds, starting from nothing.
pub open spec fn build_actions(actions: Seq<config::ActionView>) -> BuildOutcome {
    build_from(Seq::empty(), Seq::empty(), actions)
}

/// Copies a command list.
fn clone_strings(v: &Vec<String>) -> (r: Vec<String>)
    ensures
        r@ == v@,
        r.deep_view() == v.deep_view(),
{
    let mut r: Vec<String> = Vec::new();
    let mut i: usize = 0;
    while i < v.len()
        invariant
            i <= v.len(),
            r@ == v@.take(i as int),
        decreases v.len() - i,
    {
        r.push(v[i].clone());
        proof {
            assert(r@ =~= v@.take(i as int + 1));
        }
        i += 1;
    }
    proof {
        assert(r@ =~= v@);
        assert(r.deep_view() =~= v.deep_view());
    }
    r
}

impl Generation {
    /// The placeholder that stands before any generation exists: its
    /// successor id is 0 and it holds no state at all.
    pub fn new() -> (r: Generation)
        ensures
            r.id == -1,
            r.creation_datetime == 0,
            r@.files == Seq::<FileView>::empty(),
            r@.scripts == Seq::<ScriptView>::empty(),
    {
        let r = Generation { id: -1, creation_datetime: 0, files: Vec::new(), scripts: Vec::new() };
        proof {
            assert(r@.files =~= Seq::<FileView>::empty());
            assert(r@.scripts =~= Seq::<ScriptView>::empty());
        }
        r
    }

    /// Folds an ordered action list into a deduplicated, conflict-checked
    /// snapshot: the correctness-critical validation boundary.  A list that
    /// sets, deletes or re-sets a path already touched (other than appending
    /// to an appended path) is a user error, surfaced as
    /// [`BuildError::DuplicatePath`].
    pub fn from_lua_config(config: &config::Config, id: i32, creation_datetime: i64) -> (r: Result<
        Generation,
        BuildError,
    >)
        ensures
            match r {
                Ok(g) => {
                    &&& build_actions(config@) matches BuildOutcome::Built { files, scripts }
                    &&& g@.files == files
                    &&& g@.scripts == scripts
                    &&& g.id == id
                    &&& g.creation_datetime == creation_datetime
                    &&& unique_paths(g@.files)
                },
                Err(BuildError::DuplicatePath(p)) => build_actions(config@)
                    == (BuildOutcome::Duplicate { path: p@ }),
            },
    {
        let mut files: Vec<File> = Vec::new();
        let mut scripts: Vec<Script> = Vec::new();
        let n = config.actions.len();
        let mut i: usize = 0;
        proof {
            assert(files@.map_values(|f: File| f@) =~= Seq::<FileView>::empty());
            assert(scripts@.map_values(|s: Script| s@) =~= Seq::<ScriptView>::empty());
            assert(config@.skip(0) =~= config@);
        }
        while i < n
            invariant
                n == config.actions.len(),
                i <= n,
                unique_paths(files@.map_values(|f: File| f@)),
                build_actions(config@) == build_from(
                    files@.map_values(|f: File| f@),
                    scripts@.map_values(|s: Script| s@),
                    config@.skip(i as int),
                ),
            decreases n - i,
        {
            let ghost pre_files = files@.map_values(|f: File| f@);
            let ghost pre_scripts = scripts@.map_values(|s: Script| s@);
            proof {
                assert(config@.skip(i as int)[0] == config@[i as int]);
                assert(config@.skip(i as int).drop_first() =~= config@.skip(i as int + 1));
            }
            match &config.actions[i] {
                config::Action::Script(s) => {
                    scripts.push(
                        Script {
                            install: clone_strings(&s.install),
                            update: clone_strings(&s.update),
                            uninstall: clone_strings(&s.uninstall),
                        },
                    );
                    proof {
                        assert(scripts@.map_values(|s: Script| s@) =~= pre_scripts.push(s@));
                    }
                },
                config::Action::File(config::File::SetFile { path, content }) => {
                    if let Some(j) = find_path(&files, path) {
                        proof {
                            assert(pre_files[j as int] == files@[j as int]@);
                            assert(has_file(pre_files, path@));
                        }
                        return Err(BuildError::DuplicatePath(path.clone()));
                    }
                    files.push(File { path: path.clone(), content: Some(content.clone()) });
                    proof {
                        assert(files@.map_values(|f: File| f@) =~= pre_files.push(
                            FileView { path: path@, content: Some(content@) },
                        ));
                    }
                },
                config::Action::File(config::File::AppendFile { path, content }) => {
                    match find_path(&files, path) {
                        Some(j) => {
                            let appended = match &files[j].content {
                                Some(existing) => {
                                    let mut s = existing.clone();
                                    s.append("\n");
                                    s.append(content.as_str());
                                    proof {
                                        reveal_strlit("\n");
                                        assert("\n"@ =~= seq!['\n']);
                                    }
                                    Some(s)
                                },
                                None => Some(content.clone()),
                            };
                            let path2 = files[j].path.clone();
                            let ghost old_files = files@;
                            files.set(j, File { path: path2, content: appended });
                            proof {
                                assert(pre_files[j as int] == old_files[j as int]@);
                                assert(has_file(pre_files, path@));
                                let post = files@.map_values(|f: File| f@);
                                let target = append_to(pre_files, path@, content@);
                                assert forall|k: int|
                                    0 <= k < post.len() implies post[k] == target[k] by {
                                    if k != j as int {
                                        assert(pre_files[k] == old_files[k]@);
                                        if k < j as int {
                                            assert(pre_files[k].path != pre_files[j as int].path);
                                        } else {
                                            assert(pre_files[j as int].path != pre_files[k].path);
                                        }
                                        assert(files@[k] == old_files[k]);
                                    }
                                }
                                assert(post =~= target);
                            }
                        },
                        None => {
                            files.push(
                                File { path: path.clone(), content: Some(content.clone()) },
                            );
                            proof {
                                assert(files@.map_values(|f: File| f@) =~= pre_files.push(
                                    FileView { path: path@, content: Some(content@) },
                                ));
                            }
                        },
                    }
                },
                config::Action::File(config::File::DeleteFile { path }) => {
                    if let Some(j) = find_path(&files, path) {
                        proof {
                            assert(pre_files[j as int] == files@[j as int]@);
                            assert(has_file(pre_files, path@));
                        }
                        return Err(BuildError::DuplicatePath(path.clone()));
                    }
                    files.push(File { path: path.clone(), content: None });
                    proof {
                        assert(files@.map_values(|f: File| f@) =~= pre_files.push(
                            FileView { path: path@, content: None },
                        ));
                    }
                },
            }
            i += 1;
        }
        proof {
            assert(config@.skip(n as int) =~= Seq::<config::ActionView>::empty());
        }
        Ok(Generation { id, creation_datetime, files, scripts })
    }
}

/// The index of the entry carrying `path`, if any.
fn find_path(files: &Vec<File>, path: &String) -> (r: Option<usize>)
    ensures
        match r {
            Some(j) => {
                &&& j < files@.len()
                &&& files@[j as int]@.path == path@
                &&& forall|k: int| 0 <= k < j ==> files@[k]@.path != path@
            },
            None => !has_file(files@.map_values(|f: File| f@), path@),
        },
{
    let mut i: usize = 0;
    while i < files.len()
        invariant
            i <= files@.len(),
            forall|k: int| 0 <= k < i ==> files@[k]@.path != path@,
        decreases files@.len() - i,
    {
        if files[i].path == *path {
            return Some(i);
        }
        i += 1;
    }
    proof {
        let fv = files@.map_values(|f: File| f@);
        assert forall|j: int| 0 <= j < fv.len() implies #[trigger] fv[j].path != path@ by {
            assert(fv[j] == files@[j]@);
        }
    }
    None
}

} // verus!
