use laziergit::app::{DiffSource, GitOp};
use laziergit::commands::{diff_args, next_step, status_args, Step};

fn run_args(s: Step) -> Vec<String> {
    match s {
        Step::Run(a) => a,
        _ => panic!("expected a command"),
    }
}

#[test]
fn unstage_falls_back_to_removing_from_the_index() {
    let op = GitOp::Unstage("src".to_string());
    assert_eq!(run_args(next_step(&op, &[])), vec!["restore", "--staged", "--", "src"]);
    assert!(matches!(next_step(&op, &[true]), Step::Finish));
    assert_eq!(run_args(next_step(&op, &[false])), vec!["rm", "--cached", "-r", "-q", "--", "src"]);
    assert!(matches!(next_step(&op, &[false, false]), Step::Finish));
}

#[test]
fn checkout_creates_a_missing_branch() {
    let op = GitOp::Checkout("dev".to_string());
    assert_eq!(run_args(next_step(&op, &[])), vec!["checkout", "dev"]);
    assert_eq!(run_args(next_step(&op, &[false])), vec!["checkout", "-b", "dev"]);
    assert!(matches!(next_step(&op, &[true]), Step::Finish));
}

#[test]
fn reset_cleans_only_after_it_succeeds() {
    let op = GitOp::ResetHardClean;
    assert_eq!(run_args(next_step(&op, &[])), vec!["reset", "--hard"]);
    assert_eq!(run_args(next_step(&op, &[true])), vec!["clean", "-fd"]);
    assert!(matches!(next_step(&op, &[false]), Step::Finish));
    assert!(matches!(next_step(&op, &[true, true]), Step::Finish));
}

#[test]
fn single_commands() {
    let stage = GitOp::Stage("a b.rs".to_string());
    assert_eq!(run_args(next_step(&stage, &[])), vec!["add", "--", "a b.rs"]);
    assert!(matches!(next_step(&stage, &[false]), Step::Finish));
    let commit = GitOp::Commit("fix it".to_string());
    assert_eq!(run_args(next_step(&commit, &[])), vec!["commit", "-m", "fix it"]);
    assert!(matches!(next_step(&GitOp::Pull, &[]), Step::Remote(a) if a == vec!["pull"]));
    assert!(matches!(next_step(&GitOp::Push, &[]), Step::Remote(a) if a == vec!["push"]));
    assert!(matches!(next_step(&GitOp::Push, &[false]), Step::Finish));
}

#[test]
fn status_and_diff_arguments() {
    assert_eq!(status_args(), vec!["status", "--porcelain=v2", "--branch", "-z", "-uall"]);
    assert_eq!(
        diff_args(&DiffSource::Untracked("n.txt".to_string())),
        vec!["diff", "--no-color", "--no-index", "--", "/dev/null", "n.txt"]
    );
    assert_eq!(diff_args(&DiffSource::Unstaged("a".to_string())), vec!["diff", "--no-color", "--", "a"]);
    assert_eq!(
        diff_args(&DiffSource::Staged("a".to_string())),
        vec!["diff", "--no-color", "--cached", "--", "a"]
    );
}
