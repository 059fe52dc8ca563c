//! The git command lines behind each operation, and which runs next given how
//! the ones before it went.
use vstd::prelude::*;

use crate::app::{op_view, source_view, DiffSource, GitOp, GitOpView, SourceView};

verus! {

/// What to do next for an operation.
pub enum Step {
    /// Run git with these arguments; its error output is the error.
    Run(Vec<String>),
    /// Run git with these arguments and show the last line of its output,
    /// whether it fails or not.
    Remote(Vec<String>),
    /// Nothing more: the outcome of the last command is the operation's.
    Finish,
}

pub enum StepView {
    Run(Seq<Seq<char>>),
    Remote(Seq<Seq<char>>),
    Finish,
}

pub open spec fn args_view(a: Seq<String>) -> Seq<Seq<char>> {
    a.map_values(|s: String| s@)
}

pub open spec fn step_view(s: Step) -> StepView {
    match s {
        Step::Run(a) => StepView::Run(args_view(a@)),
        Step::Remote(a) => StepView::Remote(args_view(a@)),
        Step::Finish => StepView::Finish,
    }
}

/// The step after the commands run so far for `op`, `outcomes` saying which
/// of them succeeded: unstaging falls back to removing from the index, a
/// checkout that fails creates the branch, a hard reset is followed by a
/// clean only when it succeeds.
pub open spec fn next_step_of(op: GitOpView, outcomes: Seq<bool>) -> StepView {
    let n = outcomes.len();
    match op {
        GitOpView::Stage(p) => if n == 0 {
            StepView::Run(seq!["add"@, "--"@, p])
        } else {
            StepView::Finish
        },
        GitOpView::Unstage(p) => if n == 0 {
            StepView::Run(seq!["restore"@, "--staged"@, "--"@, p])
        } else if n == 1 && !outcomes[0] {
            StepView::Run(seq!["rm"@, "--cached"@, "-r"@, "-q"@, "--"@, p])
        } else {
            StepView::Finish
        },
        GitOpView::Commit(m) => if n == 0 {
            StepView::Run(seq!["commit"@, "-m"@, m])
        } else {
            StepView::Finish
        },
        GitOpView::Checkout(b) => if n == 0 {
            StepView::Run(seq!["checkout"@, b])
        } else if n == 1 && !outcomes[0] {
            StepView::Run(seq!["checkout"@, "-b"@, b])
        } else {
            StepView::Finish
        },
        GitOpView::ResetHardClean => if n == 0 {
            StepView::Run(seq!["reset"@, "--hard"@])
        } else if n == 1 && outcomes[0] {
            StepView::Run(seq!["clean"@, "-fd"@])
        } else {
            StepView::Finish
        },
        GitOpView::Pull => if n == 0 {
            StepView::Remote(seq!["pull"@])
        } else {
            StepView::Finish
        },
        GitOpView::Push => if n == 0 {
            StepView::Remote(seq!["push"@])
        } else {
            StepView::Finish
        },
    }
}

/// Adds the argument `w`.
fn arg(a: &mut Vec<String>, w: &str)
    ensures
        args_view(final(a)@) == args_view(old(a)@).push(w@),
{
    a.push(w.to_owned());
    assert(args_view(a@) =~= args_view(old(a)@).push(w@));
}

/// The arguments `w1`, `w2`, `w3` where given, then `last` where given.
fn args(w1: &str, w2: Option<&str>, w3: Option<&str>, last: Option<&String>) -> (a: Vec<String>)
    ensures
        args_view(a@) == seq![w1@] + (match w2 {
            Some(w) => seq![w@],
            None => seq![],
        }) + (match w3 {
            Some(w) => seq![w@],
            None => seq![],
        }) + (match last {
            Some(l) => seq![l@],
            None => seq![],
        }),
{
    let mut a: Vec<String> = Vec::new();
    arg(&mut a, w1);
    if let Some(w) = w2 {
        arg(&mut a, w);
    }
    if let Some(w) = w3 {
        arg(&mut a, w);
    }
    if let Some(l) = last {
        arg(&mut a, l.as_str());
    }
    assert(args_view(a@) =~= seq![w1@] + (match w2 {
        Some(w) => seq![w@],
        None => seq![],
    }) + (match w3 {
        Some(w) => seq![w@],
        None => seq![],
    }) + (match last {
        Some(l) => seq![l@],
        None => seq![],
    }));
    a
}

/// The step after the commands run so far for `op`, `outcomes` saying which
/// of them succeeded.
pub fn next_step(op: &GitOp, outcomes: &[bool]) -> (s: Step)
    ensures
        step_view(s) == next_step_of(op_view(*op), outcomes@),
{
    let n = outcomes.len();
    match op {
        GitOp::Stage(p) => if n == 0 {
            let a = args("add", Some("--"), None, Some(p));
            assert(args_view(a@) =~= seq!["add"@, "--"@, p@]);
            Step::Run(a)
        } else {
            Step::Finish
        },
        GitOp::Unstage(p) => if n == 0 {
            let a = args("restore", Some("--staged"), Some("--"), Some(p));
            assert(args_view(a@) =~= seq!["restore"@, "--staged"@, "--"@, p@]);
            Step::Run(a)
        } else if n == 1 && !outcomes[0] {
            let mut a = args("rm", Some("--cached"), Some("-r"), None);
            arg(&mut a, "-q");
            arg(&mut a, "--");
            arg(&mut a, p.as_str());
            assert(args_view(a@) =~= seq!["rm"@, "--cached"@, "-r"@, "-q"@, "--"@, p@]);
            Step::Run(a)
        } else {
            Step::Finish
        },
        GitOp::Commit(m) => if n == 0 {
            let a = args("commit", Some("-m"), None, Some(m));
            assert(args_view(a@) =~= seq!["commit"@, "-m"@, m@]);
            Step::Run(a)
        } else {
            Step::Finish
        },
        GitOp::Checkout(b) => if n == 0 {
            let a = args("checkout", None, None, Some(b));
            assert(args_view(a@) =~= seq!["checkout"@, b@]);
            Step::Run(a)
        } else if n == 1 && !outcomes[0] {
            let a = args("checkout", Some("-b"), None, Some(b));
            assert(args_view(a@) =~= seq!["checkout"@, "-b"@, b@]);
            Step::Run(a)
        } else {
            Step::Finish
        },
        GitOp::ResetHardClean => if n == 0 {
            let a = args("reset", Some("--hard"), None, None);
            assert(args_view(a@) =~= seq!["reset"@, "--hard"@]);
            Step::Run(a)
        } else if n == 1 && outcomes[0] {
            let a = args("clean", Some("-fd"), None, None);
            assert(args_view(a@) =~= seq!["clean"@, "-fd"@]);
            Step::Run(a)
        } else {
            Step::Finish
        },
        GitOp::Pull => if n == 0 {
            let a = args("pull", None, None, None);
            assert(args_view(a@) =~= seq!["pull"@]);
            Step::Remote(a)
        } else {
            Step::Finish
        },
        GitOp::Push => if n == 0 {
            let a = args("push", None, None, None);
            assert(args_view(a@) =~= seq!["push"@]);
            Step::Remote(a)
        } else {
            Step::Finish
        },
    }
}

/// The arguments that read the repository status.
pub open spec fn status_args_of() -> Seq<Seq<char>> {
    seq!["status"@, "--porcelain=v2"@, "--branch"@, "-z"@, "-uall"@]
}

/// The arguments that read the repository status.
pub fn status_args() -> (a: Vec<String>)
    ensures
        args_view(a@) == status_args_of(),
{
    let mut a = args("status", Some("--porcelain=v2"), Some("--branch"), None);
    arg(&mut a, "-z");
    arg(&mut a, "-uall");
    assert(args_view(a@) =~= status_args_of());
    a
}

/// The arguments that print the diff of `s`: a new file against nothing,
/// the work tree against the index, or the index against the last commit.
pub open spec fn diff_args_of(s: SourceView) -> Seq<Seq<char>> {
    match s {
        SourceView::Untracked(p) => seq![
            "diff"@,
            "--no-color"@,
            "--no-index"@,
            "--"@,
            "/dev/null"@,
            p,
        ],
        SourceView::Unstaged(p) => seq!["diff"@, "--no-color"@, "--"@, p],
        SourceView::Staged(p) => seq!["diff"@, "--no-color"@, "--cached"@, "--"@, p],
    }
}

/// The arguments that print the diff of `source`.
pub fn diff_args(source: &DiffSource) -> (a: Vec<String>)
    ensures
        args_view(a@) == diff_args_of(source_view(*source)),
{
    match source {
        DiffSource::Untracked(p) => {
            let mut a = args("diff", Some("--no-color"), Some("--no-index"), None);
            arg(&mut a, "--");
            arg(&mut a, "/dev/null");
            arg(&mut a, p.as_str());
            assert(args_view(a@) =~= diff_args_of(source_view(*source)));
            a
        },
        DiffSource::Unstaged(p) => {
            let a = args("diff", Some("--no-color"), Some("--"), Some(p));
            assert(args_view(a@) =~= diff_args_of(source_view(*source)));
            a
        },
        DiffSource::Staged(p) => {
            let mut a = args("diff", Some("--no-color"), Some("--cached"), None);
            arg(&mut a, "--");
            arg(&mut a, p.as_str());
            assert(args_view(a@) =~= diff_args_of(source_view(*source)));
            a
        },
    }
}

} // verus!
