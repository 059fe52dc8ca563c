//! What the application does with the outcome of outside work: a new status,
//! the reply of a git command, the text of diffs.
use std::collections::HashSet;
use vstd::prelude::*;

use crate::app::{op_view, reloaded, App, AppView, Focus, GitOp, GitOpView, Mode, ModeView, Work, WorkView};
use crate::diff::{join_chunks, joined, parse_checked, parse_model, rows_view, strings_view, DiffRow, RowView};
use crate::layout::Rect;
use crate::status::{empty_status, lossy_text, parse, status_of, FileView, RepoStatus, StatusView};
use crate::text::{append, push_char, split_on};
use crate::theme::Theme;
use crate::tree::{
    build, entries_of, ids_ok, lemma_tree_files, level_ok, segments_fit, total_segments, Entry,
    TreeNode,
};
use crate::update::{visible, visible_rows};

verus! {

broadcast use vstd::std_specs::hash::group_hash_axioms;

/// The entries of the files: each path split at `/`, with its index.
pub open spec fn path_entries(files: Seq<FileView>) -> Seq<Entry> {
    Seq::new(files.len(), |i: int| (split_on(files[i].path, '/'), i))
}

/// `tree` is the folder tree of `files`: the one `build` makes when the paths
/// have few enough segments to number every node, else empty.
pub open spec fn tree_for(tree: Seq<TreeNode>, files: Seq<FileView>) -> bool {
    if total_segments(path_entries(files)) <= usize::MAX {
        level_ok(tree, path_entries(files), seq![]) && ids_ok(tree, 0)
    } else {
        tree.len() == 0
    }
}

/// The state after the status `s` and its tree `tree` are taken in: the rows
/// laid out anew, the selection kept within them, and the diff of the
/// selection requested.
pub open spec fn loaded(v: AppView, s: StatusView, tree: Seq<TreeNode>) -> AppView {
    let rows = visible_rows(tree, v.collapsed);
    let sel: usize = if v.selected < rows.len() {
        v.selected
    } else if rows.len() > 0 {
        (rows.len() - 1) as usize
    } else {
        0
    };
    reloaded(AppView { status: s, tree, rows, selected: sel, work: None, ..v })
}

/// `label`, a colon, a space and `text`.
pub open spec fn reported(label: Seq<char>, text: Seq<char>) -> Seq<char> {
    label + seq![':', ' '] + text
}

/// The message after a command that gives no text: `label: ok`, or the error.
pub open spec fn unit_report(label: Seq<char>, result: Result<Seq<char>, Seq<char>>) -> Seq<char> {
    match result {
        Ok(_) => reported(label, "ok"@),
        Err(e) => reported(label, e),
    }
}

/// The message after a command whose reply is shown: its text, or the error.
pub open spec fn text_report(label: Seq<char>, result: Result<Seq<char>, Seq<char>>) -> Seq<char> {
    match result {
        Ok(t) => reported(label, t),
        Err(e) => reported(label, e),
    }
}

/// The message after the command `op` answered `result`; staging shows only
/// its errors.
pub open spec fn git_message(
    message: Seq<char>,
    op: GitOpView,
    result: Result<Seq<char>, Seq<char>>,
) -> Seq<char> {
    match op {
        GitOpView::Stage(_) => match result {
            Ok(_) => message,
            Err(e) => e,
        },
        GitOpView::Unstage(_) => match result {
            Ok(_) => message,
            Err(e) => e,
        },
        GitOpView::Commit(_) => unit_report("commit"@, result),
        GitOpView::Checkout(_) => unit_report("branch"@, result),
        GitOpView::ResetHardClean => unit_report("reset"@, result),
        GitOpView::Pull => text_report("pull"@, result),
        GitOpView::Push => text_report("push"@, result),
    }
}

pub open spec fn result_view(r: Result<String, String>) -> Result<Seq<char>, Seq<char>> {
    match r {
        Ok(t) => Ok(t@),
        Err(e) => Err(e@),
    }
}

/// The text whose diff the pane shows: the chunks joined for a folder, else
/// the one chunk of the file (none: empty).
pub open spec fn diff_text(chunks: Seq<Seq<char>>, folder: bool) -> Seq<char> {
    if folder {
        joined(chunks)
    } else if chunks.len() > 0 {
        chunks[0]
    } else {
        seq![]
    }
}

/// The rows of the diff `text`; none when a line number would pass `u32::MAX`.
pub open spec fn diff_rows_of(text: Seq<char>, folder: bool) -> Seq<RowView> {
    if parse_model(text, folder).fits {
        parse_model(text, folder).rows
    } else {
        seq![]
    }
}

/// The state of a freshly started application: nothing read yet, and the
/// status requested.
pub open spec fn started(theme: Theme) -> AppView {
    AppView {
        status: empty_status(),
        tree: seq![],
        rows: seq![],
        collapsed: Set::empty(),
        selected: 0,
        focus: Focus::Sidebar,
        diff_rows: seq![],
        diff_scroll: 0,
        mode: ModeView::Normal,
        message: seq![],
        nerd_fonts: theme.nerd_fonts,
        guides_ascii: theme.guides_ascii,
        area: Rect { x: 0, y: 0, width: 0, height: 0 },
        sidebar_offset: 0,
        count: None,
        awaiting_g: false,
        quit: false,
        work: Some(WorkView::Status),
    }
}

/// `label: text`.
fn report(label: &str, text: &str) -> (s: String)
    ensures
        s@ == reported(label@, text@),
{
    let mut s = String::new();
    append(&mut s, label);
    push_char(&mut s, ':');
    push_char(&mut s, ' ');
    append(&mut s, text);
    assert(s@ =~= reported(label@, text@));
    s
}

impl App {
    /// A new application with the given look; the status is requested.
    pub fn new(theme: Theme) -> (app: App)
        ensures
            app.wf(),
            app@ == started(theme),
    {
        let app = App {
            status: RepoStatus::default(),
            tree: Vec::new(),
            rows: Vec::new(),
            collapsed: HashSet::new(),
            selected: 0,
            focus: Focus::Sidebar,
            diff_rows: Vec::new(),
            diff_scroll: 0,
            mode: Mode::Normal,
            message: String::new(),
            theme,
            area: Rect::zero(),
            sidebar_offset: 0,
            count: None,
            awaiting_g: false,
            quit: false,
            work: Some(Work::Status),
        };
        assert(crate::tree::rows_view(app.rows@) =~= Seq::<crate::tree::RowView>::empty());
        assert(rows_view(app.diff_rows@) =~= Seq::<RowView>::empty());
        assert(app@ =~= started(theme));
        app
    }

    /// Takes in a new status: its tree, the rows, the selection within them,
    /// and the diff of the selection requested.
    pub fn load_status(&mut self, status: RepoStatus)
        requires
            old(self).wf(),
        ensures
            final(self).wf(),
            tree_for(final(self)@.tree, status@.files),
            final(self)@ == loaded(old(self)@, status@, final(self)@.tree),
    {
        let ghost es = entries_of(status.files@);
        assert(es =~= path_entries(status@.files));
        let tree = if segments_fit(status.files.as_slice()) {
            build(status.files.as_slice())
        } else {
            Vec::new()
        };
        proof {
            if total_segments(es) <= usize::MAX {
                lemma_tree_files(tree@, es, seq![], status.files.len() as nat);
            }
        }
        self.status = status;
        self.tree = tree;
        self.rows = visible(&self.tree, &self.collapsed);
        proof {
            if crate::tree::depth_fits(self.tree@, 0, 0, self.collapsed@) {
                crate::tree::lemma_rows_files(self.tree@, 0, 0, self.collapsed@, self@.status.files.len());
            }
        }
        if self.selected >= self.rows.len() {
            self.selected = if self.rows.len() > 0 {
                self.rows.len() - 1
            } else {
                0
            };
        }
        self.work = None;
        self.reload_diff();
    }

    /// Takes in the outcome of reading the status: the raw report, or the
    /// error, which becomes the message.
    pub fn finish_status(&mut self, result: Result<Vec<u8>, String>)
        requires
            old(self).wf(),
        ensures
            final(self).wf(),
            match result {
                Ok(bytes) => {
                    let s = status_of(lossy_text(bytes@));
                    &&& tree_for(final(self)@.tree, s.files)
                    &&& final(self)@ == loaded(old(self)@, s, final(self)@.tree)
                },
                Err(e) => final(self)@ == (AppView { message: e@, work: None, ..old(self)@ }),
            },
    {
        match result {
            Ok(bytes) => {
                let status = parse(bytes.as_slice());
                self.load_status(status);
            },
            Err(e) => {
                self.message = e;
                self.work = None;
            },
        }
    }

    /// Takes in the reply of the git command `op`: the message it leaves, and
    /// the status requested again.
    pub fn finish_git(&mut self, op: &GitOp, result: Result<String, String>)
        requires
            old(self).wf(),
        ensures
            final(self).wf(),
            final(self)@ == (AppView {
                message: git_message(old(self)@.message, op_view(*op), result_view(result)),
                work: Some(WorkView::Status),
                ..old(self)@
            }),
    {
        let message = match op {
            GitOp::Stage(_) | GitOp::Unstage(_) => match result {
                Ok(_) => None,
                Err(e) => Some(e),
            },
            GitOp::Commit(_) => Some(
                match result {
                    Ok(_) => report("commit", "ok"),
                    Err(e) => report("commit", e.as_str()),
                },
            ),
            GitOp::Checkout(_) => Some(
                match result {
                    Ok(_) => report("branch", "ok"),
                    Err(e) => report("branch", e.as_str()),
                },
            ),
            GitOp::ResetHardClean => Some(
                match result {
                    Ok(_) => report("reset", "ok"),
                    Err(e) => report("reset", e.as_str()),
                },
            ),
            GitOp::Pull => Some(
                match result {
                    Ok(t) => report("pull", t.as_str()),
                    Err(e) => report("pull", e.as_str()),
                },
            ),
            GitOp::Push => Some(
                match result {
                    Ok(t) => report("push", t.as_str()),
                    Err(e) => report("push", e.as_str()),
                },
            ),
        };
        if let Some(m) = message {
            self.message = m;
        }
        self.work = Some(Work::Status);
    }

    /// Takes in the diff text read for the selection: the chunk of one file,
    /// or those of a folder's files, in order.
    pub fn finish_diff(&mut self, chunks: Vec<String>, folder: bool)
        requires
            old(self).wf(),
        ensures
            final(self).wf(),
            final(self)@ == (AppView {
                diff_rows: diff_rows_of(diff_text(strings_view(chunks@), folder), folder),
                diff_scroll: 0,
                ..old(self)@
            }),
    {
        let text = if folder {
            join_chunks(&chunks)
        } else if chunks.len() > 0 {
            chunks[0].clone()
        } else {
            String::new()
        };
        proof {
            if !folder && chunks.len() > 0 {
                assert(strings_view(chunks@)[0] == chunks@[0]@);
            }
        }
        let rows: Vec<DiffRow> = match parse_checked(text.as_str(), folder) {
            Some(r) => r,
            None => {
                let none: Vec<DiffRow> = Vec::new();
                assert(rows_view(none@) =~= Seq::<RowView>::empty());
                none
            },
        };
        self.diff_rows = rows;
        self.diff_scroll = 0;
    }
}

} // verus!
