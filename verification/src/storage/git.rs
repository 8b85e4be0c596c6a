//! Committing what was compiled. The vault has to be a repository already: none is ever
//! created here.

use vstd::prelude::*;

use crate::text::views;

verus! {

/// What a run of `git` gave.
#[derive(Debug)]
pub struct GitOutput {
    pub success: bool,
    pub stdout: String,
    pub stderr: String,
}

/// What came of a commit.
#[derive(Debug)]
pub struct CommitOutcome {
    pub committed: bool,
    pub stdout: String,
}

/// What a run of `git` says, or why it could not be run.
pub type Ran = Result<GitOutput, String>;

/// The arguments that ask whether a directory is in a repository.
pub open spec fn repository_args() -> Seq<Seq<char>> {
    seq!["rev-parse"@, "--is-inside-work-tree"@]
}

/// The arguments that stage `paths`.
pub open spec fn add_args(paths: Seq<Seq<char>>) -> Seq<Seq<char>> {
    seq!["add"@, "--"@] + paths
}

/// The arguments that ask whether anything is staged; success means that nothing is.
pub open spec fn staged_args() -> Seq<Seq<char>> {
    seq!["diff"@, "--cached"@, "--quiet"@]
}

/// The arguments that commit what is staged.
pub open spec fn commit_args(message: Seq<char>) -> Seq<Seq<char>> {
    seq!["commit"@, "-m"@, message]
}

/// Whether a run succeeded.
pub open spec fn succeeded(ran: Ran) -> bool {
    ran is Ok && ran->Ok_0.success
}

/// Which run of `git` a commit waits for.
#[derive(Debug, Clone, Copy)]
pub enum GitStage {
    /// Whether the vault is in a repository.
    Asking,
    /// Staging the paths.
    Adding,
    /// Whether anything is staged.
    Looking,
    /// Committing it.
    Committing,
}

/// A commit that waits for a run of `git`.
#[derive(Debug)]
pub struct Commit {
    root: String,
    paths: Vec<String>,
    message: String,
    stage: GitStage,
}

pub struct CommitView {
    pub root: Seq<char>,
    pub paths: Seq<Seq<char>>,
    pub message: Seq<char>,
    pub stage: GitStage,
}

impl View for Commit {
    type V = CommitView;

    closed spec fn view(&self) -> CommitView {
        CommitView {
            root: self.root@,
            paths: views(self.paths@),
            message: self.message@,
            stage: self.stage,
        }
    }
}

/// What a commit asks for next.
#[derive(Debug)]
pub enum GitStep {
    /// `git` has to be run with `args`; what it gives is what `then` waits for.
    Run { args: Vec<String>, then: Commit },
    /// The commit is over.
    Done(Result<CommitOutcome, String>),
}

/// What came of a commit: whether there is a new one and what `git` said, or why it failed.
pub type OutcomeView = Result<(bool, Seq<char>), Seq<char>>;

pub enum GitStepView {
    Run { args: Seq<Seq<char>>, then: CommitView },
    Done(OutcomeView),
}

impl View for GitStep {
    type V = GitStepView;

    open spec fn view(&self) -> GitStepView {
        match *self {
            GitStep::Run { args, then } => GitStepView::Run { args: views(args@), then: then@ },
            GitStep::Done(Ok(outcome)) => GitStepView::Done(
                Ok((outcome.committed, outcome.stdout@)),
            ),
            GitStep::Done(Err(e)) => GitStepView::Done(Err(e@)),
        }
    }
}

/// The step that a commit begins with.
pub open spec fn first_step(
    root: Seq<char>,
    paths: Seq<Seq<char>>,
    message: Seq<char>,
) -> GitStepView {
    GitStepView::Run {
        args: repository_args(),
        then: CommitView { root, paths, message, stage: GitStage::Asking },
    }
}

/// The step after the run that `c` waits for gave `ran`.
pub open spec fn step_after(c: CommitView, ran: Ran) -> GitStepView {
    match c.stage {
        GitStage::Asking => if !succeeded(ran) {
            GitStepView::Done(
                Err("'"@ + c.root + "' is not a git repository — run 'git init' there first"@),
            )
        } else if c.paths.len() == 0 {
            GitStepView::Done(Ok((false, seq![])))
        } else {
            GitStepView::Run {
                args: add_args(c.paths),
                then: CommitView { stage: GitStage::Adding, ..c },
            }
        },
        GitStage::Adding => match ran {
            Err(e) => GitStepView::Done(Err(e@)),
            Ok(output) => if output.success {
                GitStepView::Run {
                    args: staged_args(),
                    then: CommitView { stage: GitStage::Looking, ..c },
                }
            } else {
                GitStepView::Done(Err("git add failed: "@ + output.stderr@))
            },
        },
        GitStage::Looking => match ran {
            Err(e) => GitStepView::Done(Err(e@)),
            Ok(output) => if output.success {
                GitStepView::Done(Ok((false, seq![])))
            } else {
                GitStepView::Run {
                    args: commit_args(c.message),
                    then: CommitView { stage: GitStage::Committing, ..c },
                }
            },
        },
        GitStage::Committing => match ran {
            Err(e) => GitStepView::Done(Err(e@)),
            Ok(output) => if output.success {
                GitStepView::Done(Ok((true, output.stdout@)))
            } else {
                GitStepView::Done(Err("git commit failed: "@ + output.stderr@))
            },
        },
    }
}

fn args2(a: &str, b: &str) -> (r: Vec<String>)
    ensures
        views(r@) == seq![a@, b@],
{
    let mut v: Vec<String> = Vec::new();
    v.push(a.to_string());
    v.push(b.to_string());
    assert(views(v@) =~= seq![a@, b@]);
    v
}

fn args3(a: &str, b: &str, c: &str) -> (r: Vec<String>)
    ensures
        views(r@) == seq![a@, b@, c@],
{
    let mut v: Vec<String> = Vec::new();
    v.push(a.to_string());
    v.push(b.to_string());
    v.push(c.to_string());
    assert(views(v@) =~= seq![a@, b@, c@]);
    v
}

/// The arguments with which `git` is asked whether a directory is in a repository.
pub fn repository_check() -> (r: Vec<String>)
    ensures
        views(r@) == repository_args(),
{
    args2("rev-parse", "--is-inside-work-tree")
}

/// Whether a directory is in a repository, where `ran` is what `git` gave when it was
/// asked. It is not where `git` cannot be run.
pub fn is_git_repository(ran: &Ran) -> (r: bool)
    ensures
        r == succeeded(*ran),
{
    match ran {
        Ok(output) => output.success,
        Err(_) => false,
    }
}

fn nothing_committed() -> (r: GitStep)
    ensures
        r@ == GitStepView::Done(Ok((false, seq![]))),
{
    let none = CommitOutcome { committed: false, stdout: String::new() };
    assert(none.stdout@ =~= seq![]);
    GitStep::Done(Ok(none))
}

fn failed(what: &str, why: &str) -> (r: GitStep)
    ensures
        r@ == GitStepView::Done(Err(what@ + why@)),
{
    let mut s = what.to_string();
    s.append(why);
    GitStep::Done(Err(s))
}

/// Stages `paths` and commits them, run of `git` by run of `git`, in the vault at `root`.
/// Nothing is committed where there is nothing to stage, or nothing ends up staged.
pub fn commit(root: &str, paths: &Vec<String>, message: &str) -> (r: GitStep)
    ensures
        r@ == first_step(root@, views(paths@), message@),
{
    let then = Commit {
        root: root.to_string(),
        paths: crate::text::copy_texts(paths),
        message: message.to_string(),
        stage: GitStage::Asking,
    };
    GitStep::Run { args: repository_check(), then }
}

impl Commit {
    /// The next step, where `ran` is what the run of `git` gave that this commit waits for.
    pub fn answered(self, ran: Ran) -> (r: GitStep)
        ensures
            r@ == step_after(self@, ran),
    {
        let ghost before = self@;
        match self.stage {
            GitStage::Asking => {
                if !is_git_repository(&ran) {
                    let mut s = "'".to_string();
                    s.append(self.root.as_str());
                    return failed(
                        s.as_str(),
                        "' is not a git repository — run 'git init' there first",
                    );
                }
                if self.paths.len() == 0 {
                    return nothing_committed();
                }
                let mut args = args2("add", "--");
                let ghost head = args@;
                let mut more = crate::text::copy_texts(&self.paths);
                args.append(&mut more);
                assert(views(args@) =~= views(head) + views(self.paths@));
                assert(views(args@) =~= add_args(before.paths));
                GitStep::Run { args, then: Commit { stage: GitStage::Adding, ..self } }
            },
            GitStage::Adding => match ran {
                Err(e) => GitStep::Done(Err(e)),
                Ok(output) => if output.success {
                    GitStep::Run {
                        args: args3("diff", "--cached", "--quiet"),
                        then: Commit { stage: GitStage::Looking, ..self },
                    }
                } else {
                    failed("git add failed: ", output.stderr.as_str())
                },
            },
            GitStage::Looking => match ran {
                Err(e) => GitStep::Done(Err(e)),
                Ok(output) => if output.success {
                    nothing_committed()
                } else {
                    GitStep::Run {
                        args: args3("commit", "-m", self.message.as_str()),
                        then: Commit { stage: GitStage::Committing, ..self },
                    }
                },
            },
            GitStage::Committing => match ran {
                Err(e) => GitStep::Done(Err(e)),
                Ok(output) => if output.success {
                    GitStep::Done(Ok(CommitOutcome { committed: true, stdout: output.stdout }))
                } else {
                    failed("git commit failed: ", output.stderr.as_str())
                },
            },
        }
    }
}

/// The runs of `git` that are made from `step` on, where the answers are `answers`.
pub open spec fn runs_made(step: GitStepView, answers: Seq<Ran>) -> Seq<Seq<Seq<char>>>
    decreases answers.len(),
{
    match step {
        GitStepView::Done(outcome) => seq![],
        GitStepView::Run { args, then } => if answers.len() == 0 {
            seq![args]
        } else {
            seq![args] + runs_made(step_after(then, answers[0]), answers.skip(1))
        },
    }
}

/// What comes of `step`, where the answers are `answers`, if they are enough.
pub open spec fn outcome_of(step: GitStepView, answers: Seq<Ran>) -> Option<OutcomeView>
    decreases answers.len(),
{
    match step {
        GitStepView::Done(outcome) => Some(outcome),
        GitStepView::Run { args, then } => if answers.len() == 0 {
            None
        } else {
            outcome_of(step_after(then, answers[0]), answers.skip(1))
        },
    }
}

/// Every run of `git` that a commit can come to, in order.
pub open spec fn all_runs(paths: Seq<Seq<char>>, message: Seq<char>) -> Seq<Seq<Seq<char>>> {
    seq![repository_args(), add_args(paths), staged_args(), commit_args(message)]
}

proof fn lemma_answers(step: GitStepView, answers: Seq<Ran>)
    requires
        answers.len() > 0,
        step is Run,
    ensures
        runs_made(step, answers) == seq![step->args] + runs_made(
            step_after(step->then, answers[0]),
            answers.skip(1),
        ),
        outcome_of(step, answers) == outcome_of(
            step_after(step->then, answers[0]),
            answers.skip(1),
        ),
{
}

/// Whatever `git` answers, a commit asks for a repository, then stages, then looks whether
/// anything is staged, then commits, each at most once; it may stop early, and runs
/// nothing else. It commits only in a repository, only if there are paths and staging
/// them succeeded, and only if something is then staged. It says that there is a new
/// commit exactly if that last run was made and succeeded.
pub proof fn law_commit_runs_in_order(
    root: Seq<char>,
    paths: Seq<Seq<char>>,
    message: Seq<char>,
    answers: Seq<Ran>,
)
    ensures
        ({
            let step = first_step(root, paths, message);
            let runs = runs_made(step, answers);
            let outcome = outcome_of(step, answers);
            &&& runs.len() <= 4
            &&& runs == all_runs(paths, message).take(runs.len() as int)
            &&& runs.len() == 4 ==> answers.len() >= 3 && paths.len() > 0 && succeeded(answers[0])
                && succeeded(answers[1]) && answers[2] is Ok && !succeeded(answers[2])
            &&& (outcome is Some && outcome->0 is Ok && outcome->0->Ok_0.0) <==> (runs.len() == 4
                && answers.len() >= 4 && succeeded(answers[3]))
            &&& answers.len() >= 4 ==> outcome is Some
        }),
{
    let step = first_step(root, paths, message);
    let runs = runs_made(step, answers);
    if answers.len() > 0 {
        lemma_answers(step, answers);
        let second = step_after(step->then, answers[0]);
        let a1 = answers.skip(1);
        if second is Run && a1.len() > 0 {
            lemma_answers(second, a1);
            let third = step_after(second->then, a1[0]);
            let a2 = a1.skip(1);
            assert(a1[0] == answers[1]);
            if third is Run && a2.len() > 0 {
                lemma_answers(third, a2);
                let fourth = step_after(third->then, a2[0]);
                let a3 = a2.skip(1);
                assert(a2[0] == answers[2]);
                if fourth is Run && a3.len() > 0 {
                    lemma_answers(fourth, a3);
                    assert(a3[0] == answers[3]);
                }
            }
        }
    }
    assert(runs =~= all_runs(paths, message).take(runs.len() as int));
}

/// Where there is a repository, staging succeeds and something is then staged, a commit is
/// made, of all of the paths and with the message that was given. The runs are spelt out.
pub proof fn law_a_commit_is_made_where_it_can_be(
    root: Seq<char>,
    paths: Seq<Seq<char>>,
    message: Seq<char>,
    answers: Seq<Ran>,
)
    requires
        paths.len() > 0,
        answers.len() == 4,
        succeeded(answers[0]),
        succeeded(answers[1]),
        answers[2] is Ok && !answers[2]->Ok_0.success,
    ensures
        ({
            let step = first_step(root, paths, message);
            let runs = runs_made(step, answers);
            &&& runs.len() == 4
            &&& runs[0] == seq!["rev-parse"@, "--is-inside-work-tree"@]
            &&& runs[1] == seq!["add"@, "--"@] + paths
            &&& runs[2] == seq!["diff"@, "--cached"@, "--quiet"@]
            &&& runs[3] == seq!["commit"@, "-m"@, message]
            &&& outcome_of(step, answers) is Some
            &&& succeeded(answers[3]) ==> outcome_of(step, answers)->0 == Ok::<
                (bool, Seq<char>),
                Seq<char>,
            >((true, answers[3]->Ok_0.stdout@))
        }),
{
    let step = first_step(root, paths, message);
    lemma_answers(step, answers);
    let second = step_after(step->then, answers[0]);
    let a1 = answers.skip(1);
    lemma_answers(second, a1);
    let third = step_after(second->then, a1[0]);
    let a2 = a1.skip(1);
    lemma_answers(third, a2);
    let fourth = step_after(third->then, a2[0]);
    let a3 = a2.skip(1);
    lemma_answers(fourth, a3);
    assert(a3[0] == answers[3]);
    let fifth = step_after(fourth->then, a3[0]);
    let a4 = a3.skip(1);
    assert(runs_made(fifth, a4) =~= seq![]);
}

} // verus!
