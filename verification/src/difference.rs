//! Reconciliation: computes the ordered list of concrete apply-actions that
//! transforms one generation's observable state into another's.
//!
//! Emission order is part of the contract.  File actions come first: one per
//! changed or new path of the final generation, in that generation's
//! insertion order, followed by one deletion per path dropped entirely, in
//! the initial generation's insertion order.  Script actions follow: every
//! uninstall of a script no longer desired (in initial order), then every
//! install of a script newly desired (in final order), where a script's
//! identity is its install command list.

use vstd::prelude::*;

use crate::config::ScriptView;
use crate::generations::{has_file, unique_paths, FileView, Generation, GenerationView};

verus! {

/// An opaque ordered command list to hand to the process-execution
/// collaborator: either an `uninstall` or an `install` list of some script.
pub type Script = Vec<String>;

/// A concrete file effect emitted by reconciliation.
#[derive(Debug, PartialEq)]
pub enum File {
    Create { path: String, content: String },
    Update { path: String, content: String },
    Delete { path: String },
}

/// Mathematical model of a file effect.
pub ghost enum FileOpView {
    Create { path: Seq<char>, content: Seq<char> },
    Update { path: Seq<char>, content: Seq<char> },
    Delete { path: Seq<char> },
}

impl View for File {
    type V = FileOpView;

    open spec fn view(&self) -> FileOpView {
        match self {
            File::Create { path, content } => FileOpView::Create {
                path: path@,
                content: content@,
            },
            File::Update { path, content } => FileOpView::Update {
                path: path@,
                content: content@,
            },
            File::Delete { path } => FileOpView::Delete { path: path@ },
        }
    }
}

/// One concrete, ordered effect: a file mutation or a command list to run.
#[derive(Debug, PartialEq)]
pub enum Action {
    File(File),
    Script(Script),
}

/// Mathematical model of an apply-action.
pub ghost enum ActionView {
    File(FileOpView),
    Script(Seq<Seq<char>>),
}

impl View for Action {
    type V = ActionView;

    open spec fn view(&self) -> ActionView {
        match self {
            Action::File(f) => ActionView::File(f@),
            Action::Script(s) => ActionView::Script(s.deep_view()),
        }
    }
}

/// The ordered apply-action list that reconciliation produces.
#[derive(Debug, PartialEq)]
pub struct Difference {
    pub actions: Vec<Action>,
}

impl View for Difference {
    type V = Seq<ActionView>;

    open spec fn view(&self) -> Seq<ActionView> {
        self.actions@.map_values(|a: Action| a@)
    }
}

/// The content recorded for `path` by the first entry that carries it.
pub open spec fn content_of(files: Seq<FileView>, path: Seq<char>) -> Option<Seq<char>>
    recommends
        has_file(files, path),
    decreases files.len(),
{
    if files.len() == 0 {
        None
    } else if files[0].path == path {
        files[0].content
    } else {
        content_of(files.drop_first(), path)
    }
}

/// True when the final entry `f` calls for an action against `old_files`:
/// its path is new, or is recorded with different content.
pub open spec fn file_changed(old_files: Seq<FileView>, f: FileView) -> bool {
    !(has_file(old_files, f.path) && content_of(old_files, f.path) == f.content)
}

/// The action emitted for a changed or new final entry `f`.
pub open spec fn file_action(old_files: Seq<FileView>, f: FileView) -> ActionView {
    match f.content {
        Some(c) => if has_file(old_files, f.path) {
            ActionView::File(FileOpView::Update { path: f.path, content: c })
        } else {
            ActionView::File(FileOpView::Create { path: f.path, content: c })
        },
        None => ActionView::File(FileOpView::Delete { path: f.path }),
    }
}

/// The file part of reconciliation: actions for the final generation's
/// entries, in order, then a deletion for every path dropped entirely, in
/// the initial generation's order.
pub open spec fn diff_files(old_files: Seq<FileView>, new_files: Seq<FileView>) -> Seq<
    ActionView,
> {
    new_files.filter(|f: FileView| file_changed(old_files, f)).map_values(
        |f: FileView| file_action(old_files, f),
    ) + old_files.filter(|f: FileView| !has_file(new_files, f.path)).map_values(
        |f: FileView| ActionView::File(FileOpView::Delete { path: f.path }),
    )
}

/// True when some script of `scripts` has `install` as its install list.
pub open spec fn has_install(scripts: Seq<ScriptView>, install: Seq<Seq<char>>) -> bool {
    exists|i: int| 0 <= i < scripts.len() && scripts[i].install == install
}

/// The script part of reconciliation: uninstalls of scripts no longer
/// desired, in initial order, then installs of scripts newly desired, in
/// final order.
pub open spec fn diff_scripts(old_scripts: Seq<ScriptView>, new_scripts: Seq<ScriptView>) -> Seq<
    ActionView,
> {
    old_scripts.filter(|s: ScriptView| !has_install(new_scripts, s.install)).map_values(
        |s: ScriptView| ActionView::Script(s.uninstall),
    ) + new_scripts.filter(|s: ScriptView| !has_install(old_scripts, s.install)).map_values(
        |s: ScriptView| ActionView::Script(s.install),
    )
}

/// Full reconciliation: all file actions, then all script actions.
pub open spec fn diff(old: GenerationView, new: GenerationView) -> Seq<ActionView> {
    diff_files(old.files, new.files) + diff_scripts(old.scripts, new.scripts)
}

proof fn lemma_filter_push<A>(s: Seq<A>, x: A, pred: spec_fn(A) -> bool)
    ensures
        s.push(x).filter(pred) == if pred(x) {
            s.filter(pred).push(x)
        } else {
            s.filter(pred)
        },
{
    reveal(Seq::filter);
    assert(s.push(x).drop_last() =~= s);
    assert(s.push(x).last() == x);
}

proof fn lemma_filter_all_false<A>(s: Seq<A>, pred: spec_fn(A) -> bool)
    requires
        forall|i: int| 0 <= i < s.len() ==> !pred(s[i]),
    ensures
        s.filter(pred) == Seq::<A>::empty(),
    decreases s.len(),
{
    reveal(Seq::filter);
    if s.len() > 0 {
        assert(forall|i: int|
            0 <= i < s.drop_last().len() ==> s.drop_last()[i] == s[i]);
        lemma_filter_all_false(s.drop_last(), pred);
    }
}

/// The first entry carrying `path` settles `content_of`.
proof fn lemma_content_of_at(files: Seq<FileView>, path: Seq<char>, j: int)
    requires
        0 <= j < files.len(),
        files[j].path == path,
        forall|k: int| 0 <= k < j ==> files[k].path != path,
    ensures
        content_of(files, path) == files[j].content,
    decreases j,
{
    if j > 0 {
        assert(forall|k: int|
            0 <= k < j - 1 ==> files.drop_first()[k] == files[k + 1]);
        lemma_content_of_at(files.drop_first(), path, j - 1);
    }
}

/// The file part of reconciliation, executably: one action per changed or
/// new path of the final generation, in its insertion order, then one
/// deletion per dropped path, in the initial generation's insertion order.
pub fn differ_generation_files(
    initial_generation: &Generation,
    final_generation: &Generation,
) -> (r: Vec<Action>)
    ensures
        r@.map_values(|a: Action| a@) == diff_files(
            initial_generation@.files,
            final_generation@.files,
        ),
{
    let ghost old_v = initial_generation@.files;
    let ghost new_v = final_generation@.files;
    let mut actions: Vec<Action> = Vec::new();
    let n = final_generation.files.len();
    let mut i: usize = 0;
    proof {
        reveal(Seq::filter);
        assert(new_v.take(0) =~= Seq::<FileView>::empty());
        assert(actions@.map_values(|a: Action| a@) =~= new_v.take(0).filter(
            |f: FileView| file_changed(old_v, f),
        ).map_values(|f: FileView| file_action(old_v, f)));
    }
    while i < n
        invariant
            n == final_generation.files@.len(),
            i <= n,
            old_v == initial_generation@.files,
            new_v == final_generation@.files,
            actions@.map_values(|a: Action| a@) == new_v.take(i as int).filter(
                |f: FileView| file_changed(old_v, f),
            ).map_values(|f: FileView| file_action(old_v, f)),
        decreases n - i,
    {
        let f = &final_generation.files[i];
        let ghost fv = f@;
        let ghost pre = actions@.map_values(|a: Action| a@);
        proof {
            assert(fv == new_v[i as int]);
        }
        match find_file(&initial_generation.files, &f.path) {
            Some(j) => {
                proof {
                    assert forall|k: int| 0 <= k < j implies old_v[k].path != fv.path by {
                        assert(old_v[k] == initial_generation.files@[k]@);
                    }
                    assert(old_v[j as int] == initial_generation.files@[j as int]@);
                    lemma_content_of_at(old_v, fv.path, j as int);
                }
                if !content_eq(&initial_generation.files[j].content, &f.content) {
                    proof {
                        assert(initial_generation.files@[j as int]@.content == old_v[
                            j as int
                        ].content);
                        assert(file_changed(old_v, fv));
                    }
                    match &f.content {
                        Some(c) => {
                            actions.push(
                                Action::File(
                                    File::Update { path: f.path.clone(), content: c.clone() },
                                ),
                            );
                        },
                        None => {
                            actions.push(Action::File(File::Delete { path: f.path.clone() }));
                        },
                    }
                    proof {
                        assert(actions@.map_values(|a: Action| a@) =~= pre.push(
                            file_action(old_v, fv),
                        ));
                    }
                } else {
                    proof {
                        assert(!file_changed(old_v, fv));
                    }
                }
            },
            None => {
                proof {
                    assert(file_changed(old_v, fv));
                }
                match &f.content {
                    Some(c) => {
                        actions.push(
                            Action::File(File::Create { path: f.path.clone(), content: c.clone() }),
                        );
                    },
                    None => {
                        actions.push(Action::File(File::Delete { path: f.path.clone() }));
                    },
                }
                proof {
                    assert(actions@.map_values(|a: Action| a@) =~= pre.push(
                        file_action(old_v, fv),
                    ));
                }
            },
        }
        proof {
            lemma_filter_push(new_v.take(i as int), fv, |f: FileView| file_changed(old_v, f));
            assert(new_v.take(i as int).push(fv) =~= new_v.take(i as int + 1));
            if file_changed(old_v, fv) {
                assert(new_v.take(i as int + 1).filter(
                    |f: FileView| file_changed(old_v, f),
                ).map_values(|f: FileView| file_action(old_v, f)) =~= new_v.take(
                    i as int,
                ).filter(|f: FileView| file_changed(old_v, f)).map_values(
                    |f: FileView| file_action(old_v, f),
                ).push(file_action(old_v, fv)));
            }
        }
        i += 1;
    }
    proof {
        assert(new_v.take(n as int) =~= new_v);
    }
    let ghost phase1 = new_v.filter(|f: FileView| file_changed(old_v, f)).map_values(
        |f: FileView| file_action(old_v, f),
    );
    let m = initial_generation.files.len();
    let mut k: usize = 0;
    proof {
        reveal(Seq::filter);
        assert(old_v.take(0) =~= Seq::<FileView>::empty());
        assert(actions@.map_values(|a: Action| a@) =~= phase1 + old_v.take(0).filter(
            |f: FileView| !has_file(new_v, f.path),
        ).map_values(|f: FileView| ActionView::File(FileOpView::Delete { path: f.path })));
    }
    while k < m
        invariant
            m == initial_generation.files@.len(),
            k <= m,
            old_v == initial_generation@.files,
            new_v == final_generation@.files,
            actions@.map_values(|a: Action| a@) == phase1 + old_v.take(k as int).filter(
                |f: FileView| !has_file(new_v, f.path),
            ).map_values(|f: FileView| ActionView::File(FileOpView::Delete { path: f.path })),
        decreases m - k,
    {
        let f = &initial_generation.files[k];
        let ghost fv = f@;
        let ghost pre = actions@.map_values(|a: Action| a@);
        proof {
            assert(fv == old_v[k as int]);
        }
        if find_file(&final_generation.files, &f.path).is_none() {
            actions.push(Action::File(File::Delete { path: f.path.clone() }));
            proof {
                assert(actions@.map_values(|a: Action| a@) =~= pre.push(
                    ActionView::File(FileOpView::Delete { path: fv.path }),
                ));
            }
        }
        proof {
            lemma_filter_push(old_v.take(k as int), fv, |f: FileView| !has_file(new_v, f.path));
            assert(old_v.take(k as int).push(fv) =~= old_v.take(k as int + 1));
            if !has_file(new_v, fv.path) {
                assert(old_v.take(k as int + 1).filter(
                    |f: FileView| !has_file(new_v, f.path),
                ).map_values(
                    |f: FileView| ActionView::File(FileOpView::Delete { path: f.path }),
                ) =~= old_v.take(k as int).filter(
                    |f: FileView| !has_file(new_v, f.path),
                ).map_values(
                    |f: FileView| ActionView::File(FileOpView::Delete { path: f.path }),
                ).push(ActionView::File(FileOpView::Delete { path: fv.path })));
                assert(actions@.map_values(|a: Action| a@) =~= phase1 + old_v.take(
                    k as int + 1,
                ).filter(|f: FileView| !has_file(new_v, f.path)).map_values(
                    |f: FileView| ActionView::File(FileOpView::Delete { path: f.path }),
                ));
            }
        }
        k += 1;
    }
    proof {
        assert(old_v.take(m as int) =~= old_v);
    }
    actions
}

/// The script part of reconciliation, executably: uninstalls of scripts
/// whose install list no longer appears, in initial order, then installs of
/// scripts whose install list is new, in final order.
pub fn differ_generation_scripts(
    initial_generation: &Generation,
    final_generation: &Generation,
) -> (r: Vec<Action>)
    ensures
        r@.map_values(|a: Action| a@) == diff_scripts(
            initial_generation@.scripts,
            final_generation@.scripts,
        ),
{
    let ghost old_v = initial_generation@.scripts;
    let ghost new_v = final_generation@.scripts;
    let mut actions: Vec<Action> = Vec::new();
    let n = initial_generation.scripts.len();
    let mut i: usize = 0;
    proof {
        reveal(Seq::filter);
        assert(old_v.take(0) =~= Seq::<ScriptView>::empty());
        assert(actions@.map_values(|a: Action| a@) =~= old_v.take(0).filter(
            |s: ScriptView| !has_install(new_v, s.install),
        ).map_values(|s: ScriptView| ActionView::Script(s.uninstall)));
    }
    while i < n
        invariant
            n == initial_generation.scripts@.len(),
            i <= n,
            old_v == initial_generation@.scripts,
            new_v == final_generation@.scripts,
            actions@.map_values(|a: Action| a@) == old_v.take(i as int).filter(
                |s: ScriptView| !has_install(new_v, s.install),
            ).map_values(|s: ScriptView| ActionView::Script(s.uninstall)),
        decreases n - i,
    {
        let s = &initial_generation.scripts[i];
        let ghost sv = s@;
        let ghost pre = actions@.map_values(|a: Action| a@);
        proof {
            assert(sv == old_v[i as int]);
        }
        if find_install(&final_generation.scripts, &s.install).is_none() {
            actions.push(Action::Script(clone_commands(&s.uninstall)));
            proof {
                assert(actions@.map_values(|a: Action| a@) =~= pre.push(
                    ActionView::Script(sv.uninstall),
                ));
            }
        }
        proof {
            lemma_filter_push(
                old_v.take(i as int),
                sv,
                |s: ScriptView| !has_install(new_v, s.install),
            );
            assert(old_v.take(i as int).push(sv) =~= old_v.take(i as int + 1));
            if !has_install(new_v, sv.install) {
                assert(old_v.take(i as int + 1).filter(
                    |s: ScriptView| !has_install(new_v, s.install),
                ).map_values(|s: ScriptView| ActionView::Script(s.uninstall)) =~= old_v.take(
                    i as int,
                ).filter(|s: ScriptView| !has_install(new_v, s.install)).map_values(
                    |s: ScriptView| ActionView::Script(s.uninstall),
                ).push(ActionView::Script(sv.uninstall)));
            }
        }
        i += 1;
    }
    proof {
        assert(old_v.take(n as int) =~= old_v);
    }
    let ghost phase1 = old_v.filter(|s: ScriptView| !has_install(new_v, s.install)).map_values(
        |s: ScriptView| ActionView::Script(s.uninstall),
    );
    let m = final_generation.scripts.len();
    let mut k: usize = 0;
    proof {
        reveal(Seq::filter);
        assert(new_v.take(0) =~= Seq::<ScriptView>::empty());
        assert(actions@.map_values(|a: Action| a@) =~= phase1 + new_v.take(0).filter(
            |s: ScriptView| !has_install(old_v, s.install),
        ).map_values(|s: ScriptView| ActionView::Script(s.install)));
    }
    while k < m
        invariant
            m == final_generation.scripts@.len(),
            k <= m,
            old_v == initial_generation@.scripts,
            new_v == final_generation@.scripts,
            actions@.map_values(|a: Action| a@) == phase1 + new_v.take(k as int).filter(
                |s: ScriptView| !has_install(old_v, s.install),
            ).map_values(|s: ScriptView| ActionView::Script(s.install)),
        decreases m - k,
    {
        let s = &final_generation.scripts[k];
        let ghost sv = s@;
        let ghost pre = actions@.map_values(|a: Action| a@);
        proof {
            assert(sv == new_v[k as int]);
        }
        if find_install(&initial_generation.scripts, &s.install).is_none() {
            actions.push(Action::Script(clone_commands(&s.install)));
            proof {
                assert(actions@.map_values(|a: Action| a@) =~= pre.push(
                    ActionView::Script(sv.install),
                ));
            }
        }
        proof {
            lemma_filter_push(
                new_v.take(k as int),
                sv,
                |s: ScriptView| !has_install(old_v, s.install),
            );
            assert(new_v.take(k as int).push(sv) =~= new_v.take(k as int + 1));
            if !has_install(old_v, sv.install) {
                assert(new_v.take(k as int + 1).filter(
                    |s: ScriptView| !has_install(old_v, s.install),
                ).map_values(|s: ScriptView| ActionView::Script(s.install)) =~= new_v.take(
                    k as int,
                ).filter(|s: ScriptView| !has_install(old_v, s.install)).map_values(
                    |s: ScriptView| ActionView::Script(s.install),
                ).push(ActionView::Script(sv.install)));
                assert(actions@.map_values(|a: Action| a@) =~= phase1 + new_v.take(
                    k as int + 1,
                ).filter(|s: ScriptView| !has_install(old_v, s.install)).map_values(
                    |s: ScriptView| ActionView::Script(s.install),
                ));
            }
        }
        k += 1;
    }
    proof {
        assert(new_v.take(m as int) =~= new_v);
    }
    actions
}

/// Full reconciliation, executably: computes the ordered apply-action list
/// that transforms the initial generation's observable state into the final
/// generation's.  Given the same two generations it always produces the same
/// ordered list.
pub fn differ_generations(
    initial_generation: &Generation,
    final_generation: &Generation,
) -> (r: Difference)
    ensures
        r@ == diff(initial_generation@, final_generation@),
{
    let mut actions: Vec<Action> = Vec::new();
    let mut file_actions = differ_generation_files(initial_generation, final_generation);
    let ghost file_v = file_actions@;
    actions.append(&mut file_actions);
    let mut script_actions = differ_generation_scripts(initial_generation, final_generation);
    let ghost script_v = script_actions@;
    actions.append(&mut script_actions);
    proof {
        assert(actions@.map_values(|a: Action| a@) =~= file_v.map_values(|a: Action| a@)
            + script_v.map_values(|a: Action| a@));
    }
    Difference { actions }
}

/// Reconciliation is idempotent: diffing a generation against itself yields
/// no action at all, for every generation whose file paths are unique (as
/// every generation the builder produces is).
pub proof fn lemma_diff_self_empty(g: GenerationView)
    requires
        unique_paths(g.files),
    ensures
        diff(g, g) == Seq::<ActionView>::empty(),
{
    let fs = g.files;
    let ss = g.scripts;
    assert forall|i: int| 0 <= i < fs.len() implies !(
    |f: FileView| file_changed(fs, f))(fs[i]) by {
        assert(has_file(fs, fs[i].path));
        assert forall|k: int| 0 <= k < i implies fs[k].path != fs[i].path by {
            assert(fs[k].path != fs[i].path);
        }
        lemma_content_of_at(fs, fs[i].path, i);
    }
    lemma_filter_all_false(fs, |f: FileView| file_changed(fs, f));
    assert forall|i: int| 0 <= i < fs.len() implies !(
    |f: FileView| !has_file(fs, f.path))(fs[i]) by {
        assert(has_file(fs, fs[i].path));
    }
    lemma_filter_all_false(fs, |f: FileView| !has_file(fs, f.path));
    assert forall|i: int| 0 <= i < ss.len() implies !(
    |s: ScriptView| !has_install(ss, s.install))(ss[i]) by {
        assert(has_install(ss, ss[i].install));
    }
    lemma_filter_all_false(ss, |s: ScriptView| !has_install(ss, s.install));
    assert(diff(g, g) =~= Seq::<ActionView>::empty());
}

/// A command list of its own, copied from a script.
fn clone_commands(v: &Vec<String>) -> (r: Vec<String>)
    ensures
        r.deep_view() == v.deep_view(),
{
    let mut r: Vec<String> = Vec::new();
    let mut i: usize = 0;
    while i < v.len()
        invariant
            i <= v.len(),
            r@ == v@.take(i as int),
        decreases v.len() - i,
    {
        r.push(v[i].clone());
        proof {
            assert(r@ =~= v@.take(i as int + 1));
        }
        i += 1;
    }
    proof {
        assert(r@ =~= v@);
        assert(r.deep_view() =~= v.deep_view());
    }
    r
}

/// True when the two recorded contents are the same (including both absent).
fn content_eq(a: &Option<String>, b: &Option<String>) -> (r: bool)
    ensures
        r == (a.deep_view() == b.deep_view()),
{
    match (a, b) {
        (Option::None, Option::None) => true,
        (Option::Some(x), Option::Some(y)) => *x == *y,
        _ => false,
    }
}

/// The index of the first file entry carrying `path`, if any.
fn find_file(files: &Vec<crate::generations::File>, path: &String) -> (r: Option<usize>)
    ensures
        match r {
            Some(j) => {
                &&& j < files@.len()
                &&& files@[j as int]@.path == path@
                &&& forall|k: int| 0 <= k < j ==> files@[k]@.path != path@
                &&& has_file(files@.map_values(|f: crate::generations::File| f@), path@)
            },
            None => !has_file(files@.map_values(|f: crate::generations::File| f@), path@),
        },
{
    let mut i: usize = 0;
    while i < files.len()
        invariant
            i <= files@.len(),
            forall|k: int| 0 <= k < i ==> files@[k]@.path != path@,
        decreases files@.len() - i,
    {
        if files[i].path == *path {
            proof {
                let fv = files@.map_values(|f: crate::generations::File| f@);
                assert(fv[i as int] == files@[i as int]@);
            }
            return Some(i);
        }
        i += 1;
    }
    proof {
        let fv = files@.map_values(|f: crate::generations::File| f@);
        assert forall|j: int| 0 <= j < fv.len() implies #[trigger] fv[j].path != path@ by {
            assert(fv[j] == files@[j]@);
        }
    }
    None
}

/// The index of the first script whose install list equals `install`, if
/// any.
fn find_install(scripts: &Vec<crate::generations::Script>, install: &Vec<String>) -> (r: Option<
    usize,
>)
    ensures
        match r {
            Some(j) => {
                &&& j < scripts@.len()
                &&& scripts@[j as int]@.install == install.deep_view()
                &&& has_install(
                    scripts@.map_values(|s: crate::generations::Script| s@),
                    install.deep_view(),
                )
            },
            None => !has_install(
                scripts@.map_values(|s: crate::generations::Script| s@),
                install.deep_view(),
            ),
        },
{
    let mut i: usize = 0;
    while i < scripts.len()
        invariant
            i <= scripts@.len(),
            forall|k: int| 0 <= k < i ==> scripts@[k]@.install != install.deep_view(),
        decreases scripts@.len() - i,
    {
        if string_lists_eq(&scripts[i].install, install) {
            proof {
                let sv = scripts@.map_values(|s: crate::generations::Script| s@);
                assert(sv[i as int] == scripts@[i as int]@);
            }
            return Some(i);
        }
        i += 1;
    }
    proof {
        let sv = scripts@.map_values(|s: crate::generations::Script| s@);
        assert forall|j: int| 0 <= j < sv.len() implies #[trigger] sv[j].install
            != install.deep_view() by {
            assert(sv[j] == scripts@[j]@);
        }
    }
    None
}

/// True when the two command lists hold the same commands in the same order.
fn string_lists_eq(a: &Vec<String>, b: &Vec<String>) -> (r: bool)
    ensures
        r == (a.deep_view() == b.deep_view()),
{
    if a.len() != b.len() {
        proof {
            assert(a.deep_view().len() == a@.len());
            assert(b.deep_view().len() == b@.len());
        }
        return false;
    }
    let mut i: usize = 0;
    while i < a.len()
        invariant
            a@.len() == b@.len(),
            i <= a@.len(),
            forall|k: int| 0 <= k < i ==> a.deep_view()[k] == b.deep_view()[k],
        decreases a@.len() - i,
    {
        if !(a[i] == b[i]) {
            proof {
                assert(a.deep_view()[i as int] == a@[i as int]@);
                assert(b.deep_view()[i as int] == b@[i as int]@);
            }
            return false;
        }
        proof {
            assert(a.deep_view()[i as int] == a@[i as int]@);
            assert(b.deep_view()[i as int] == b@[i as int]@);
        }
        i += 1;
    }
    proof {
        assert(a.deep_view() =~= b.deep_view());
    }
    true
}

} // verus!
