//! The application state and its reaction to user actions. Work that needs
//! git (running a command, reading the status, reading diffs) is handed out as
//! a `Work` item; its outcome comes back through the `finish_*` methods.
use std::collections::HashSet;
use vstd::prelude::*;

use crate::diff::{self, DiffRow};
use crate::field::{at_char, EditOp, Input};
use crate::layout::Rect;
use crate::status::{FileEntry, FileView, RepoStatus, StatusView};
use crate::text::{chars_of, has_prefix};
use crate::theme::Theme;
use crate::tree::{self, rows_files_ok, tree_files_ok, Row, RowKind, RowView, TreeNode};
use crate::update::visible_rows;

verus! {

broadcast use vstd::std_specs::hash::group_hash_axioms;

#[derive(Clone, Copy, PartialEq, Eq, Debug, Structural)]
pub enum Focus {
    Sidebar,
    Diff,
}

pub enum Mode {
    Normal,
    Commit(Input),
    Branch(Input),
    Confirm,
    Help,
}

#[derive(Clone, Copy, PartialEq, Eq, Debug, Structural)]
pub enum Action {
    Noop,
    Quit,
    NavNext,
    NavPrev,
    Collapse,
    Expand,
    EnterRow,
    ToggleFocus,
    ScrollDiff(i32),
    StageToggle,
    OpenCommit,
    OpenBranch,
    OpenConfirm,
    OpenHelp,
    Edit(EditOp),
    Submit,
    Cancel,
    Pull,
    Push,
    SelectRow(usize),
    FocusSidebar,
    FocusDiff,
}

/// A git command that changes the repository.
pub enum GitOp {
    Stage(String),
    Unstage(String),
    Commit(String),
    Checkout(String),
    ResetHardClean,
    Pull,
    Push,
}

/// Where the diff of one changed file comes from.
pub enum DiffSource {
    /// A new file, compared with nothing.
    Untracked(String),
    /// Changes in the work tree.
    Unstaged(String),
    /// Changes in the index.
    Staged(String),
}

/// Outside work that the application waits for.
pub enum Work {
    Git(GitOp),
    Status,
    /// The diffs to read, in order, and whether they make a folder view.
    Diffs(Vec<DiffSource>, bool),
}

pub struct App {
    pub status: RepoStatus,
    pub tree: Vec<TreeNode>,
    pub rows: Vec<Row>,
    pub collapsed: HashSet<usize>,
    pub selected: usize,
    pub focus: Focus,
    pub diff_rows: Vec<DiffRow>,
    pub diff_scroll: u16,
    pub mode: Mode,
    pub message: String,
    pub theme: Theme,
    pub area: Rect,
    pub sidebar_offset: usize,
    pub count: Option<u32>,
    pub awaiting_g: bool,
    pub quit: bool,
    pub work: Option<Work>,
}

pub enum ModeView {
    Normal,
    Commit(Seq<char>, usize),
    Branch(Seq<char>, usize),
    Confirm,
    Help,
}

pub enum GitOpView {
    Stage(Seq<char>),
    Unstage(Seq<char>),
    Commit(Seq<char>),
    Checkout(Seq<char>),
    ResetHardClean,
    Pull,
    Push,
}

pub enum SourceView {
    Untracked(Seq<char>),
    Unstaged(Seq<char>),
    Staged(Seq<char>),
}

pub enum WorkView {
    Git(GitOpView),
    Status,
    Diffs(Seq<SourceView>, bool),
}

pub open spec fn mode_view(m: Mode) -> ModeView {
    match m {
        Mode::Normal => ModeView::Normal,
        Mode::Commit(i) => ModeView::Commit(i.value@, i.cursor),
        Mode::Branch(i) => ModeView::Branch(i.value@, i.cursor),
        Mode::Confirm => ModeView::Confirm,
        Mode::Help => ModeView::Help,
    }
}

pub open spec fn op_view(op: GitOp) -> GitOpView {
    match op {
        GitOp::Stage(p) => GitOpView::Stage(p@),
        GitOp::Unstage(p) => GitOpView::Unstage(p@),
        GitOp::Commit(m) => GitOpView::Commit(m@),
        GitOp::Checkout(n) => GitOpView::Checkout(n@),
        GitOp::ResetHardClean => GitOpView::ResetHardClean,
        GitOp::Pull => GitOpView::Pull,
        GitOp::Push => GitOpView::Push,
    }
}

pub open spec fn source_view(s: DiffSource) -> SourceView {
    match s {
        DiffSource::Untracked(p) => SourceView::Untracked(p@),
        DiffSource::Unstaged(p) => SourceView::Unstaged(p@),
        DiffSource::Staged(p) => SourceView::Staged(p@),
    }
}

pub open spec fn sources_view(s: Seq<DiffSource>) -> Seq<SourceView> {
    s.map_values(|d: DiffSource| source_view(d))
}

pub open spec fn work_view(w: Option<Work>) -> Option<WorkView> {
    match w {
        None => None,
        Some(Work::Git(op)) => Some(WorkView::Git(op_view(op))),
        Some(Work::Status) => Some(WorkView::Status),
        Some(Work::Diffs(s, folder)) => Some(WorkView::Diffs(sources_view(s@), folder)),
    }
}

/// Everything the application holds, as values.
pub struct AppView {
    pub status: StatusView,
    pub tree: Seq<TreeNode>,
    pub rows: Seq<RowView>,
    pub collapsed: Set<usize>,
    pub selected: usize,
    pub focus: Focus,
    pub diff_rows: Seq<diff::RowView>,
    pub diff_scroll: u16,
    pub mode: ModeView,
    pub message: Seq<char>,
    pub nerd_fonts: bool,
    pub guides_ascii: bool,
    pub area: Rect,
    pub sidebar_offset: usize,
    pub count: Option<u32>,
    pub awaiting_g: bool,
    pub quit: bool,
    pub work: Option<WorkView>,
}

impl View for App {
    type V = AppView;

    open spec fn view(&self) -> AppView {
        AppView {
            status: self.status@,
            tree: self.tree@,
            rows: tree::rows_view(self.rows@),
            collapsed: self.collapsed@,
            selected: self.selected,
            focus: self.focus,
            diff_rows: diff::rows_view(self.diff_rows@),
            diff_scroll: self.diff_scroll,
            mode: mode_view(self.mode),
            message: self.message@,
            nerd_fonts: self.theme.nerd_fonts,
            guides_ascii: self.theme.guides_ascii,
            area: self.area,
            sidebar_offset: self.sidebar_offset,
            count: self.count,
            awaiting_g: self.awaiting_g,
            quit: self.quit,
            work: work_view(self.work),
        }
    }
}

/// A text field whose cursor sits on a character boundary.
pub open spec fn field_ok(value: Seq<char>, cursor: usize) -> bool {
    exists|k: int| at_char(value, k, cursor as int)
}

/// The invariant apart from the rows showing the tree: the selection within
/// the rows, the file indexes within the files, the prompt's cursor on a
/// character boundary.
pub open spec fn parts_ok(v: AppView) -> bool {
    &&& v.rows.len() <= i32::MAX
    &&& (v.rows.len() == 0 ==> v.selected == 0)
    &&& (v.rows.len() > 0 ==> v.selected < v.rows.len())
    &&& v.sidebar_offset <= i32::MAX
    &&& rows_files_ok(v.rows, v.status.files.len())
    &&& tree_files_ok(v.tree, v.status.files.len())
    &&& (v.mode matches ModeView::Commit(s, c) ==> field_ok(s, c))
    &&& (v.mode matches ModeView::Branch(s, c) ==> field_ok(s, c))
}

/// The application's invariant: the rows show the tree as folded, and
/// `parts_ok`.
pub open spec fn app_ok(v: AppView) -> bool {
    &&& v.rows == visible_rows(v.tree, v.collapsed)
    &&& parts_ok(v)
}

impl App {
    pub open spec fn wf(&self) -> bool {
        app_ok(self@)
    }
}

/// The row under the selection, if any.
pub open spec fn selected_row(v: AppView) -> Option<RowView> {
    if v.selected < v.rows.len() {
        Some(v.rows[v.selected as int])
    } else {
        None
    }
}

/// `path` is the folder `prefix` or lies inside it.
pub open spec fn is_under(path: Seq<char>, prefix: Seq<char>) -> bool {
    path == prefix || has_prefix(path, prefix + seq!['/'])
}

/// Where the diff of a changed file is read from.
pub open spec fn source_of(f: FileView) -> SourceView {
    if f.untracked {
        SourceView::Untracked(f.path)
    } else if f.unstaged {
        SourceView::Unstaged(f.path)
    } else {
        SourceView::Staged(f.path)
    }
}

/// The diff sources of the files under `prefix`, in order.
pub open spec fn sources_under(files: Seq<FileView>, prefix: Seq<char>) -> Seq<SourceView>
    decreases files.len(),
{
    if files.len() == 0 {
        seq![]
    } else {
        let r = sources_under(files.drop_last(), prefix);
        if is_under(files.last().path, prefix) {
            r.push(source_of(files.last()))
        } else {
            r
        }
    }
}

/// The state after the diff pane is cleared and scrolled to the top, with the
/// diff of the selected row requested.
pub open spec fn reloaded(v: AppView) -> AppView {
    let base = AppView { diff_scroll: 0, diff_rows: seq![], ..v };
    match selected_row(v) {
        None => base,
        Some(r) => match r.kind {
            RowKind::File { index } => if index < v.status.files.len() {
                AppView {
                    work: Some(
                        WorkView::Diffs(seq![source_of(v.status.files[index as int])], false),
                    ),
                    ..base
                }
            } else {
                base
            },
            RowKind::Dir => AppView {
                work: Some(WorkView::Diffs(sources_under(v.status.files, r.path), true)),
                ..base
            },
        },
    }
}

/// Whether `s` begins with the characters `p`.
pub fn chars_start_with(s: &[char], p: &[char]) -> (b: bool)
    ensures
        b == has_prefix(s@, p@),
{
    let r = crate::text::occurs(s, p, 0);
    proof {
        if p@.len() <= s@.len() {
            assert(s@.subrange(0, p@.len() as int) =~= s@.take(p@.len() as int));
        }
    }
    r
}

/// Whether the path `path` is the folder `prefix` or lies inside it.
pub(crate) fn under(path: &String, prefix: &String) -> (b: bool)
    ensures
        b == is_under(path@, prefix@),
{
    let pc = chars_of(path.as_str());
    let mut dir = chars_of(prefix.as_str());
    let same = crate::text::is_text(pc.as_slice(), prefix.as_str());
    dir.push('/');
    same || chars_start_with(pc.as_slice(), dir.as_slice())
}

fn source_for(f: &FileEntry) -> (s: DiffSource)
    ensures
        source_view(s) == source_of(f@),
{
    if f.untracked {
        DiffSource::Untracked(f.path.clone())
    } else if f.unstaged {
        DiffSource::Unstaged(f.path.clone())
    } else {
        DiffSource::Staged(f.path.clone())
    }
}

fn collect_sources(files: &Vec<FileEntry>, prefix: &String) -> (out: Vec<DiffSource>)
    ensures
        sources_view(out@) == sources_under(crate::status::files_view(files@), prefix@),
{
    let ghost fv = crate::status::files_view(files@);
    let mut out: Vec<DiffSource> = Vec::new();
    let mut i: usize = 0;
    assert(sources_view(out@) =~= Seq::<SourceView>::empty());
    while i < files.len()
        invariant
            fv == crate::status::files_view(files@),
            i <= files.len(),
            sources_view(out@) == sources_under(fv.take(i as int), prefix@),
        decreases files.len() - i,
    {
        assert(fv.take(i + 1).drop_last() =~= fv.take(i as int));
        assert(fv.take(i + 1).last() == files@[i as int]@);
        if under(&files[i].path, prefix) {
            let src = source_for(&files[i]);
            let ghost before = sources_view(out@);
            out.push(src);
            assert(sources_view(out@) =~= before.push(source_view(src)));
        }
        i += 1;
    }
    assert(fv.take(i as int) =~= fv);
    out
}

impl App {
    /// Clears the diff pane, scrolls it to the top, and requests the diff of
    /// the selected row.
    pub fn reload_diff(&mut self)
        ensures
            final(self)@ == reloaded(old(self)@),
    {
        self.diff_scroll = 0;
        self.diff_rows = Vec::new();
        assert(diff::rows_view(self.diff_rows@) =~= Seq::<diff::RowView>::empty());
        if self.selected < self.rows.len() {
            assert(tree::rows_view(self.rows@)[self.selected as int] == self.rows@[self.selected as int]@);
            match self.rows[self.selected].kind {
                RowKind::File { index } => {
                    if index < self.status.files.len() {
                        let src = source_for(&self.status.files[index]);
                        let v = vec![src];
                        assert(sources_view(v@) =~= seq![source_view(src)]);
                        self.work = Some(Work::Diffs(v, false));
                    }
                },
                RowKind::Dir => {
                    let path = self.rows[self.selected].path.clone();
                    let v = collect_sources(&self.status.files, &path);
                    self.work = Some(Work::Diffs(v, true));
                },
            }
        }
    }

    /// Hands out the outside work that is waiting, if any.
    pub fn take_work(&mut self) -> (w: Option<Work>)
        ensures
            work_view(w) == old(self)@.work,
            final(self)@ == (AppView { work: None, ..old(self)@ }),
    {
        self.work.take()
    }

    /// Whether the user asked to leave.
    pub fn should_quit(&self) -> (q: bool)
        ensures
            q == self@.quit,
    {
        self.quit
    }
}

} // verus!
