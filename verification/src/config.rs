//! The declarative action model: the input contract of generation building.
//!
//! A configuration evaluator (an external collaborator) turns a user's
//! configuration into an ordered list of these actions.  The core only
//! consumes that list; no validation happens here.

use vstd::prelude::*;

verus! {

/// A script unit: three command lists forming a package-like triple.
/// Its `install` list serves as its stable identity during reconciliation.
pub struct Script {
    pub install: Vec<String>,
    pub update: Vec<String>,
    pub uninstall: Vec<String>,
}

/// Mathematical model of a script unit: each command as a sequence of
/// characters.
pub ghost struct ScriptView {
    pub install: Seq<Seq<char>>,
    pub update: Seq<Seq<char>>,
    pub uninstall: Seq<Seq<char>>,
}

impl View for Script {
    type V = ScriptView;

    open spec fn view(&self) -> ScriptView {
        ScriptView {
            install: self.install.deep_view(),
            update: self.update.deep_view(),
            uninstall: self.uninstall.deep_view(),
        }
    }
}

/// A single desired-state effect on one file path.
pub enum File {
    /// The path's content becomes exactly `content`.
    SetFile { path: String, content: String },
    /// `content` is appended (newline-joined) to whatever this action list
    /// has already set for the path, or becomes the content if the path has
    /// not been touched yet.
    AppendFile { path: String, content: String },
    /// The path is declared absent.
    DeleteFile { path: String },
}

/// Mathematical model of a file action.
pub ghost enum FileView {
    SetFile { path: Seq<char>, content: Seq<char> },
    AppendFile { path: Seq<char>, content: Seq<char> },
    DeleteFile { path: Seq<char> },
}

impl View for File {
    type V = FileView;

    open spec fn view(&self) -> FileView {
        match self {
            File::SetFile { path, content } => FileView::SetFile { path: path@, content: content@ },
            File::AppendFile { path, content } => FileView::AppendFile {
                path: path@,
                content: content@,
            },
            File::DeleteFile { path } => FileView::DeleteFile { path: path@ },
        }
    }
}

/// One unit of desired-state intent emitted by the configuration evaluator.
pub enum Action {
    Script(Script),
    File(File),
}

/// Mathematical model of a declarative action.
pub ghost enum ActionView {
    Script(ScriptView),
    File(FileView),
}

impl View for Action {
    type V = ActionView;

    open spec fn view(&self) -> ActionView {
        match self {
            Action::Script(s) => ActionView::Script(s@),
            Action::File(f) => ActionView::File(f@),
        }
    }
}

/// The fully evaluated configuration: an ordered action list.
pub struct Config {
    pub actions: Vec<Action>,
}

impl View for Config {
    type V = Seq<ActionView>;

    open spec fn view(&self) -> Seq<ActionView> {
        self.actions@.map_values(|a: Action| a@)
    }
}

} // verus!
