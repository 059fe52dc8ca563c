//! How the application answers each action of the user.
use vstd::prelude::*;

use crate::app::{
    Action, app_ok, is_under, parts_ok, reloaded, selected_row, under, App, AppView, Focus, GitOp, GitOpView, Mode, ModeView,
    Work, WorkView,
};
use crate::field::{byte_len, edited, EditOp, Input};
use crate::nav::{moved_by, selected_at};
use crate::status::{files_view, FileEntry, FileView};
use crate::tree::{
    depth_fits, flatten, lemma_rows_files, rows_fit, rows_from, rows_view, Row, RowKind, RowView,
    TreeNode,
};
use std::collections::HashSet;

verus! {

broadcast use vstd::std_specs::hash::group_hash_axioms;

/// The rows that the tree shows with the folders of `collapsed` folded; none
/// when a row would sit deeper than a depth can say, or when there are more
/// rows than a selection can count.
pub open spec fn visible_rows(tree: Seq<TreeNode>, collapsed: Set<usize>) -> Seq<RowView> {
    if depth_fits(tree, 0, 0, collapsed) && rows_from(tree, 0, 0, collapsed).len() <= i32::MAX {
        rows_from(tree, 0, 0, collapsed)
    } else {
        seq![]
    }
}

/// The first row at or after `from` that shows the node `id`.
pub open spec fn index_of_id(rows: Seq<RowView>, id: usize, from: int) -> Option<int>
    decreases rows.len() - from,
{
    if from < 0 || from >= rows.len() {
        None
    } else if rows[from].id == id {
        Some(from)
    } else {
        index_of_id(rows, id, from + 1)
    }
}

/// The rows laid out anew from the tree. The selection stays on the node it
/// showed when that node is still visible; else it keeps its place, within
/// the rows.
pub open spec fn reflattened(v: AppView) -> AppView {
    let rows = visible_rows(v.tree, v.collapsed);
    let fallback: usize = if v.selected < rows.len() {
        v.selected
    } else if rows.len() > 0 {
        (rows.len() - 1) as usize
    } else {
        0
    };
    let sel: usize = match selected_row(v) {
        Some(r) => match index_of_id(rows, r.id, 0) {
            Some(i) => i as usize,
            None => fallback,
        },
        None => fallback,
    };
    reloaded(AppView { rows, selected: sel, ..v })
}

/// The folder `id` folded (`fold`) or unfolded, and the rows laid out anew.
pub open spec fn with_collapsed(v: AppView, id: usize, fold: bool) -> AppView {
    reflattened(
        AppView {
            collapsed: if fold {
                v.collapsed.insert(id)
            } else {
                v.collapsed.remove(id)
            },
            ..v
        },
    )
}

/// The closest row above row `i` that is shallower than `depth`.
pub open spec fn parent_index(rows: Seq<RowView>, i: int, depth: u16) -> Option<int>
    decreases i,
{
    if i <= 0 {
        None
    } else if rows[i - 1].depth < depth {
        Some(i - 1)
    } else {
        parent_index(rows, i - 1, depth)
    }
}

/// `h` or left arrow: folds an open folder; from anything else, goes up to
/// the folder it sits in.
pub open spec fn folded(v: AppView) -> AppView {
    match selected_row(v) {
        None => v,
        Some(r) => if r.kind == RowKind::Dir && r.expanded {
            with_collapsed(v, r.id, true)
        } else if r.depth > 0 {
            match parent_index(v.rows, v.selected as int, r.depth) {
                Some(p) => reloaded(AppView { selected: p as usize, ..v }),
                None => v,
            }
        } else {
            v
        },
    }
}

/// `l` or right arrow: opens a folded folder; in an open one, goes down to its
/// first child.
pub open spec fn unfolded(v: AppView) -> AppView {
    match selected_row(v) {
        None => v,
        Some(r) => if r.kind != RowKind::Dir {
            v
        } else if r.expanded {
            if v.selected + 1 < v.rows.len() && v.rows[v.selected + 1].depth > r.depth {
                reloaded(AppView { selected: (v.selected + 1) as usize, ..v })
            } else {
                v
            }
        } else {
            with_collapsed(v, r.id, false)
        },
    }
}

/// Enter: a folder opens or folds; a file moves the focus to its diff.
pub open spec fn entered(v: AppView) -> AppView {
    match selected_row(v) {
        None => v,
        Some(r) => match r.kind {
            RowKind::Dir => with_collapsed(v, r.id, !v.collapsed.contains(r.id)),
            RowKind::File { .. } => AppView { focus: Focus::Diff, ..v },
        },
    }
}

/// The rows that the tree shows with the folders of `collapsed` folded.
pub fn visible(tree: &Vec<TreeNode>, collapsed: &HashSet<usize>) -> (rows: Vec<Row>)
    ensures
        rows_view(rows@) == visible_rows(tree@, collapsed@),
{
    if rows_fit(tree, collapsed) {
        let rows = flatten(tree, collapsed);
        if rows.len() <= i32::MAX as usize {
            return rows;
        }
    }
    let none: Vec<Row> = Vec::new();
    assert(rows_view(none@) =~= Seq::<RowView>::empty());
    none
}

/// The first row that shows the node `id`.
fn position_of(rows: &Vec<Row>, id: usize) -> (i: Option<usize>)
    ensures
        match i {
            Some(k) => index_of_id(rows_view(rows@), id, 0) == Some(k as int),
            None => index_of_id(rows_view(rows@), id, 0) is None,
        },
{
    let ghost rv = rows_view(rows@);
    let mut k: usize = 0;
    while k < rows.len()
        invariant
            rv == rows_view(rows@),
            k <= rows.len(),
            index_of_id(rv, id, 0) == index_of_id(rv, id, k as int),
        decreases rows.len() - k,
    {
        assert(rv[k as int] == rows@[k as int]@);
        if rows[k].id == id {
            return Some(k);
        }
        k += 1;
    }
    None
}

/// The closest row above row `i` that is shallower than `depth`.
fn parent_of(rows: &Vec<Row>, i: usize, depth: u16) -> (p: Option<usize>)
    requires
        i <= rows.len(),
    ensures
        match p {
            Some(k) => parent_index(rows_view(rows@), i as int, depth) == Some(k as int),
            None => parent_index(rows_view(rows@), i as int, depth) is None,
        },
{
    let ghost rv = rows_view(rows@);
    let mut k: usize = i;
    while k > 0
        invariant
            rv == rows_view(rows@),
            k <= i <= rows.len(),
            parent_index(rv, i as int, depth) == parent_index(rv, k as int, depth),
        decreases k,
    {
        assert(rv[k - 1] == rows@[k - 1]@);
        if rows[k - 1].depth < depth {
            return Some(k - 1);
        }
        k -= 1;
    }
    None
}

impl App {
    /// Lays the rows out anew from the tree, keeping the selection on the same
    /// node where it can.
    fn reflatten(&mut self)
        requires
            parts_ok(old(self)@),
        ensures
            final(self).wf(),
            final(self)@ == reflattened(old(self)@),
    {
        let keep: Option<usize> = if self.selected < self.rows.len() {
            Some(self.rows[self.selected].id)
        } else {
            None
        };
        proof {
            if self.selected < self.rows.len() {
                assert(rows_view(self.rows@)[self.selected as int] == self.rows@[self.selected as int]@);
            }
        }
        let rows = visible(&self.tree, &self.collapsed);
        let n = rows.len();
        let fallback = if self.selected < n {
            self.selected
        } else if n > 0 {
            n - 1
        } else {
            0
        };
        let sel = match keep {
            Some(id) => match position_of(&rows, id) {
                Some(i) => i,
                None => fallback,
            },
            None => fallback,
        };
        proof {
            if depth_fits(self.tree@, 0, 0, self.collapsed@) {
                lemma_rows_files(self.tree@, 0, 0, self.collapsed@, self@.status.files.len());
            }
            if let Some(id) = keep {
                if let Some(i) = index_of_id(rows_view(rows@), id, 0) {
                    lemma_index_of_id_bounds(rows_view(rows@), id, 0);
                }
            }
        }
        self.rows = rows;
        self.selected = sel;
        self.reload_diff();
    }

    /// Folds (`fold`) or unfolds the folder `id`.
    fn set_collapsed(&mut self, id: usize, fold: bool)
        requires
            old(self).wf(),
        ensures
            final(self).wf(),
            final(self)@ == with_collapsed(old(self)@, id, fold),
    {
        if fold {
            self.collapsed.insert(id);
        } else {
            self.collapsed.remove(&id);
        }
        self.reflatten();
    }
}

proof fn lemma_index_of_id_bounds(rows: Seq<RowView>, id: usize, from: int)
    ensures
        index_of_id(rows, id, from) matches Some(i) ==> 0 <= from <= i < rows.len() && rows[i].id == id,
    decreases rows.len() - from,
{
    if 0 <= from < rows.len() && rows[from].id != id {
        lemma_index_of_id_bounds(rows, id, from + 1);
    }
}

/// Some file in the folder `prefix` has changes that are not staged.
pub open spec fn has_unstaged_under(files: Seq<FileView>, prefix: Seq<char>) -> bool {
    exists|k: int| 0 <= k < files.len() && is_under((#[trigger] files[k]).path, prefix) && !files[k].staged
}

/// Space: the git command that stages the selected file or folder, or
/// unstages it when all of it is staged.
pub open spec fn toggle_op(v: AppView) -> Option<GitOpView> {
    match selected_row(v) {
        None => None,
        Some(r) => Some(
            match r.kind {
                RowKind::File { index } => {
                    let f = v.status.files[index as int];
                    if f.staged {
                        GitOpView::Unstage(f.path)
                    } else {
                        GitOpView::Stage(f.path)
                    }
                },
                RowKind::Dir => if has_unstaged_under(v.status.files, r.path) {
                    GitOpView::Stage(r.path)
                } else {
                    GitOpView::Unstage(r.path)
                },
            },
        ),
    }
}

/// The state after Space: the command of `toggle_op` requested.
pub open spec fn toggled(v: AppView) -> AppView {
    match toggle_op(v) {
        None => v,
        Some(op) => AppView { work: Some(WorkView::Git(op)), ..v },
    }
}

/// The state after Enter in a prompt: the prompt closes and its command is
/// requested; with no prompt open, the status is read again.
pub open spec fn submitted(v: AppView) -> AppView {
    let base = AppView { mode: ModeView::Normal, ..v };
    match v.mode {
        ModeView::Commit(s, _) => AppView { work: Some(WorkView::Git(GitOpView::Commit(s))), ..base },
        ModeView::Branch(s, _) => AppView {
            work: Some(WorkView::Git(GitOpView::Checkout(s))),
            ..base
        },
        ModeView::Confirm => AppView { work: Some(WorkView::Git(GitOpView::ResetHardClean)), ..base },
        ModeView::Normal => AppView { work: Some(WorkView::Status), ..base },
        ModeView::Help => AppView { work: Some(WorkView::Status), ..base },
    }
}

/// The prompt after the edit `op`; a text too long to take one more character
/// is left as it is.
pub open spec fn edited_mode(m: ModeView, op: EditOp) -> ModeView {
    match m {
        ModeView::Commit(s, c) => if byte_len(s) + 4 <= usize::MAX {
            let (t, d) = edited(s, c as int, op);
            ModeView::Commit(t, d as usize)
        } else {
            m
        },
        ModeView::Branch(s, c) => if byte_len(s) + 4 <= usize::MAX {
            let (t, d) = edited(s, c as int, op);
            ModeView::Branch(t, d as usize)
        } else {
            m
        },
        _ => m,
    }
}

fn unstaged_under(files: &Vec<FileEntry>, prefix: &String) -> (b: bool)
    ensures
        b == has_unstaged_under(files_view(files@), prefix@),
{
    let ghost fv = files_view(files@);
    let mut k: usize = 0;
    while k < files.len()
        invariant
            fv == files_view(files@),
            k <= files.len(),
            forall|j: int| 0 <= j < k ==> !(is_under((#[trigger] fv[j]).path, prefix@) && !fv[j].staged),
        decreases files.len() - k,
    {
        assert(fv[k as int] == files@[k as int]@);
        if !files[k].staged && under(&files[k].path, prefix) {
            return true;
        }
        k += 1;
    }
    false
}

impl App {
    /// `h` or left arrow.
    fn collapse(&mut self)
        requires
            old(self).wf(),
        ensures
            final(self).wf(),
            final(self)@ == folded(old(self)@),
    {
        if self.selected >= self.rows.len() {
            return;
        }
        proof {
            assert(rows_view(self.rows@)[self.selected as int] == self.rows@[self.selected as int]@);
        }
        let id = self.rows[self.selected].id;
        let depth = self.rows[self.selected].depth;
        let is_dir = match self.rows[self.selected].kind {
            RowKind::Dir => true,
            RowKind::File { .. } => false,
        };
        if is_dir && self.rows[self.selected].expanded {
            self.set_collapsed(id, true);
        } else if depth > 0 {
            if let Some(p) = parent_of(&self.rows, self.selected, depth) {
                proof {
                    lemma_parent_bounds(rows_view(self.rows@), self.selected as int, depth);
                }
                self.selected = p;
                self.reload_diff();
            }
        }
    }

    /// `l` or right arrow.
    fn expand(&mut self)
        requires
            old(self).wf(),
        ensures
            final(self).wf(),
            final(self)@ == unfolded(old(self)@),
    {
        if self.selected >= self.rows.len() {
            return;
        }
        proof {
            assert(rows_view(self.rows@)[self.selected as int] == self.rows@[self.selected as int]@);
        }
        let is_dir = match self.rows[self.selected].kind {
            RowKind::Dir => true,
            RowKind::File { .. } => false,
        };
        if !is_dir {
            return;
        }
        if self.rows[self.selected].expanded {
            if self.selected + 1 < self.rows.len() && self.rows[self.selected + 1].depth
                > self.rows[self.selected].depth {
                proof {
                    assert(rows_view(self.rows@)[self.selected + 1] == self.rows@[self.selected + 1]@);
                }
                self.selected = self.selected + 1;
                self.reload_diff();
            } else {
                proof {
                    if self.selected + 1 < self.rows.len() {
                        assert(rows_view(self.rows@)[self.selected + 1] == self.rows@[self.selected + 1]@);
                    }
                }
            }
        } else {
            let id = self.rows[self.selected].id;
            self.set_collapsed(id, false);
        }
    }

    /// Enter in the sidebar.
    fn enter_row(&mut self)
        requires
            old(self).wf(),
        ensures
            final(self).wf(),
            final(self)@ == entered(old(self)@),
    {
        if self.selected >= self.rows.len() {
            return;
        }
        proof {
            assert(rows_view(self.rows@)[self.selected as int] == self.rows@[self.selected as int]@);
        }
        match self.rows[self.selected].kind {
            RowKind::Dir => {
                let id = self.rows[self.selected].id;
                let open = !self.collapsed.contains(&id);
                self.set_collapsed(id, open);
            },
            RowKind::File { .. } => {
                self.focus = Focus::Diff;
            },
        }
    }

    /// Space: requests the command that stages or unstages the selection.
    fn stage_toggle(&mut self)
        requires
            old(self).wf(),
        ensures
            final(self).wf(),
            final(self)@ == toggled(old(self)@),
    {
        if self.selected >= self.rows.len() {
            return;
        }
        proof {
            assert(rows_view(self.rows@)[self.selected as int] == self.rows@[self.selected as int]@);
        }
        let op = match self.rows[self.selected].kind {
            RowKind::File { index } => {
                assert(files_view(self.status.files@)[index as int] == self.status.files@[index as int]@);
                let path = self.status.files[index].path.clone();
                if self.status.files[index].staged {
                    GitOp::Unstage(path)
                } else {
                    GitOp::Stage(path)
                }
            },
            RowKind::Dir => {
                let path = self.rows[self.selected].path.clone();
                if unstaged_under(&self.status.files, &path) {
                    GitOp::Stage(path)
                } else {
                    GitOp::Unstage(path)
                }
            },
        };
        self.work = Some(Work::Git(op));
    }

    /// Enter in a prompt.
    fn submit(&mut self)
        requires
            old(self).wf(),
        ensures
            final(self).wf(),
            final(self)@ == submitted(old(self)@),
    {
        let mut mode = Mode::Normal;
        std::mem::swap(&mut mode, &mut self.mode);
        let work = match mode {
            Mode::Commit(input) => Work::Git(GitOp::Commit(input.value)),
            Mode::Branch(input) => Work::Git(GitOp::Checkout(input.value)),
            Mode::Confirm => Work::Git(GitOp::ResetHardClean),
            Mode::Normal => Work::Status,
            Mode::Help => Work::Status,
        };
        self.work = Some(work);
    }

    /// Applies the edit `op` to the open prompt, if any.
    fn edit(&mut self, op: EditOp)
        requires
            old(self).wf(),
        ensures
            final(self).wf(),
            final(self)@ == (AppView { mode: edited_mode(old(self)@.mode, op), ..old(self)@ }),
    {
        let mut mode = Mode::Normal;
        std::mem::swap(&mut mode, &mut self.mode);
        self.mode = match mode {
            Mode::Commit(mut input) => {
                if input.has_room() {
                    input.apply(op);
                }
                Mode::Commit(input)
            },
            Mode::Branch(mut input) => {
                if input.has_room() {
                    input.apply(op);
                }
                Mode::Branch(input)
            },
            other => other,
        };
    }
}

proof fn lemma_parent_bounds(rows: Seq<RowView>, i: int, depth: u16)
    ensures
        parent_index(rows, i, depth) matches Some(p) ==> 0 <= p < i,
    decreases i,
{
    if i > 0 && rows[i - 1].depth >= depth {
        lemma_parent_bounds(rows, i - 1, depth);
    }
}

/// The state after the action `a`.
pub open spec fn performed(v: AppView, a: Action) -> AppView {
    match a {
        Action::Noop => v,
        Action::Quit => AppView { quit: true, ..v },
        Action::NavNext => moved_by(v, 1i32),
        Action::NavPrev => moved_by(v, -1i32),
        Action::Collapse => folded(v),
        Action::Expand => unfolded(v),
        Action::EnterRow => entered(v),
        Action::ToggleFocus => AppView {
            focus: match v.focus {
                Focus::Sidebar => Focus::Diff,
                Focus::Diff => Focus::Sidebar,
            },
            ..v
        },
        Action::ScrollDiff(lines) => AppView {
            diff_scroll: (if v.diff_scroll + lines < 0 {
                0
            } else {
                v.diff_scroll + lines
            }) as u16,
            ..v
        },
        Action::StageToggle => toggled(v),
        Action::OpenCommit => AppView { mode: ModeView::Commit(seq![], 0), ..v },
        Action::OpenBranch => AppView { mode: ModeView::Branch(seq![], 0), ..v },
        Action::OpenConfirm => AppView { mode: ModeView::Confirm, ..v },
        Action::OpenHelp => AppView { mode: ModeView::Help, ..v },
        Action::Edit(op) => AppView { mode: edited_mode(v.mode, op), ..v },
        Action::Submit => submitted(v),
        Action::Cancel => AppView { mode: ModeView::Normal, ..v },
        Action::Pull => AppView { work: Some(WorkView::Git(GitOpView::Pull)), ..v },
        Action::Push => AppView { work: Some(WorkView::Git(GitOpView::Push)), ..v },
        Action::SelectRow(index) => selected_at(AppView { focus: Focus::Sidebar, ..v }, index),
        Action::FocusSidebar => AppView { focus: Focus::Sidebar, ..v },
        Action::FocusDiff => AppView { focus: Focus::Diff, ..v },
    }
}

impl App {
    /// Answers one action of the user. Work that needs git is left in `work`.
    /// Scrolling the diff here keeps it from going above the top; the next
    /// `set_area` keeps it within its rows.
    pub fn perform(&mut self, action: Action)
        requires
            old(self).wf(),
            action matches Action::ScrollDiff(lines) ==> old(self).diff_scroll + lines <= i32::MAX,
        ensures
            final(self).wf(),
            final(self)@ == performed(old(self)@, action),
    {
        match action {
            Action::Noop => {},
            Action::Quit => {
                self.quit = true;
            },
            Action::NavNext => self.move_selection(1),
            Action::NavPrev => self.move_selection(-1),
            Action::Collapse => self.collapse(),
            Action::Expand => self.expand(),
            Action::EnterRow => self.enter_row(),
            Action::ToggleFocus => {
                self.focus = match self.focus {
                    Focus::Sidebar => Focus::Diff,
                    Focus::Diff => Focus::Sidebar,
                };
            },
            Action::ScrollDiff(lines) => {
                let t = self.diff_scroll as i32 + lines;
                let t = if t < 0 {
                    0
                } else {
                    t
                };
                self.diff_scroll = #[verifier::truncate] (t as u16);
            },
            Action::StageToggle => self.stage_toggle(),
            Action::OpenCommit => {
                self.mode = Mode::Commit(Input::default());
            },
            Action::OpenBranch => {
                self.mode = Mode::Branch(Input::default());
            },
            Action::OpenConfirm => {
                self.mode = Mode::Confirm;
            },
            Action::OpenHelp => {
                self.mode = Mode::Help;
            },
            Action::Edit(op) => self.edit(op),
            Action::Submit => self.submit(),
            Action::Cancel => {
                self.mode = Mode::Normal;
            },
            Action::Pull => {
                self.work = Some(Work::Git(GitOp::Pull));
            },
            Action::Push => {
                self.work = Some(Work::Git(GitOp::Push));
            },
            Action::SelectRow(index) => {
                self.focus = Focus::Sidebar;
                self.set_selected(index);
            },
            Action::FocusSidebar => {
                self.focus = Focus::Sidebar;
            },
            Action::FocusDiff => {
                self.focus = Focus::Diff;
            },
        }
    }
}

/// Laying the rows out anew keeps the selection on the node it showed, when
/// that node is still visible.
pub proof fn law_selection_follows_node(v: AppView)
    requires
        selected_row(v) matches Some(r) && index_of_id(visible_rows(v.tree, v.collapsed), r.id, 0) is Some,
    ensures
        selected_row(reflattened(v)) matches Some(r2) && r2.id == selected_row(v)->0.id,
{
    let r = selected_row(v)->0;
    lemma_index_of_id_bounds(visible_rows(v.tree, v.collapsed), r.id, 0);
}

/// Folding an open folder and unfolding it again gives the same folds and the
/// same rows back.
pub proof fn law_fold_then_unfold(v: AppView, id: usize)
    requires
        app_ok(v),
        !v.collapsed.contains(id),
    ensures
        with_collapsed(with_collapsed(v, id, true), id, false).collapsed == v.collapsed,
        with_collapsed(with_collapsed(v, id, true), id, false).rows == v.rows,
{
    assert(v.collapsed.insert(id).remove(id) =~= v.collapsed);
}

/// Space on a folder asks git to stage the folder exactly when some file
/// whose path is the folder's or starts with the folder's path and `/` has
/// changes that are not staged, and to unstage it otherwise; files elsewhere
/// do not count.
pub proof fn law_space_on_folder(v: AppView)
    requires
        selected_row(v) matches Some(r) && r.kind == RowKind::Dir,
    ensures
        ({
            let path = selected_row(v)->0.path;
            let files = v.status.files;
            performed(v, Action::StageToggle) == (AppView {
                work: Some(
                    WorkView::Git(
                        if exists|k: int|
                            0 <= k < files.len() && ((#[trigger] files[k]).path == path
                                || (path.len() + 1 <= files[k].path.len() && files[k].path.take(path.len() + 1 as int) == path.push('/'))) && !files[k].staged {
                            GitOpView::Stage(path)
                        } else {
                            GitOpView::Unstage(path)
                        },
                    ),
                ),
                ..v
            })
        }),
{
    let path = selected_row(v)->0.path;
    let files = v.status.files;
    assert(path + seq!['/'] =~= path.push('/'));
    assert forall|k: int| 0 <= k < files.len() implies (is_under((#[trigger] files[k]).path, path)
        <==> (files[k].path == path || (path.len() + 1 <= files[k].path.len() && files[k].path.take(path.len() + 1 as int) == path.push('/')))) by {
        if path.len() + 1 <= files[k].path.len() && files[k].path.take(path.len() + 1 as int)
            =~= path.push('/') {
        }
    }
}

/// Space on a file asks git to unstage it when it has staged changes, and to
/// stage it otherwise.
pub proof fn law_space_on_file(v: AppView)
    requires
        selected_row(v) matches Some(r) && r.kind is File,
    ensures
        ({
            let f = v.status.files[selected_row(v)->0.kind->index as int];
            performed(v, Action::StageToggle) == (AppView {
                work: Some(
                    WorkView::Git(
                        if f.staged {
                            GitOpView::Unstage(f.path)
                        } else {
                            GitOpView::Stage(f.path)
                        },
                    ),
                ),
                ..v
            })
        }),
{
}

} // verus!
