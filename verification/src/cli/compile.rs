//! The end of a compile run: what is said of it, what is repaired, and whether it is
//! committed. Nothing of a run with a failure in it is.

use vstd::prelude::*;

use crate::compiler::driver::{failures, CompileReport, OutcomeRow};
use crate::compiler::link_fix::{
    as_link, bracketed, bracketed_text, fix_summary, slugs_of, summary_line, LinkFixReport,
};
use crate::order::{
    gathered, law_gathered_values_are_those_that_are_made, law_gathering_goes_value_by_value,
    lemma_sorted_set, sort_and_dedup, sorted_set,
};
use crate::paths::{relative, relative_to};
use crate::storage::bundle::BUNDLE_RELATIVE_PATH;
use crate::storage::git::CommitOutcome;
use crate::storage::wiki_log::LOG_RELATIVE_PATH;
use crate::text::{
    copy_texts, decimal, decimal_text, has_part, has_prefix, law_joined_parts_are_there, lemma_part,
    views,
};
use crate::validator::fix::{summary, FixReport};
use crate::validator::report::{counted, report_text, to_text};
use crate::validator::rules::LintReport;

verus! {

/// What has to be done next.
#[derive(Debug)]
pub enum FinishAction {
    /// Repair what can be repaired without a model.
    FixMechanically,
    /// Fill in the pages that links lead to and that are not there.
    FixLinks,
    /// Give up with an error, once a line with `detail` is added to the log.
    Fail { detail: String, error: String },
    /// Add a line with `detail` to the log, then write the bundle.
    WriteBundle { detail: String },
    /// Ask a person whether to commit.
    Ask { message: String },
    /// Commit these paths.
    Commit { paths: Vec<String>, message: String },
    /// Nothing.
    End,
}

/// A step towards the end of a run: what is said, and what has to be done next.
#[derive(Debug)]
pub struct FinishStep {
    pub lines: Vec<String>,
    pub action: FinishAction,
}

/// A compile run that comes to its end.
#[derive(Debug)]
pub struct Finish {
    pub report: CompileReport,
    /// What the run is called in the commit.
    pub summary: String,
    /// Whether findings are to be repaired.
    pub fix: bool,
    /// Whether a person need not be asked.
    pub assume_yes: bool,
    /// The last check.
    pub lint: LintReport,
    /// The paths of what was repaired.
    pub fixed_paths: Vec<String>,
    /// The pages that a model filled in.
    pub synthesized: Vec<String>,
    /// The paths to commit, once the bundle is written.
    pub paths: Vec<String>,
}

/// A line for each source that failed.
pub open spec fn failure_lines(sources: Seq<OutcomeRow>) -> Seq<Seq<char>>
    decreases sources.len(),
{
    if sources.len() == 0 {
        seq![]
    } else {
        let rest = failure_lines(sources.drop_last());
        match sources.last().error {
            Some(e) => rest.push("  "@ + sources.last().uri + " failed: "@ + e),
            None => rest,
        }
    }
}

/// How many sources were compiled.
pub open spec fn processed(report: CompileReport) -> nat {
    (report.sources@.len() - failures(views(report.sources@))) as nat
}

/// What is said of a run first.
pub open spec fn opening(report: CompileReport) -> Seq<Seq<char>> {
    seq![
        "Compiled "@ + decimal(processed(report)) + " source(s), "@ + decimal(
            failures(views(report.sources@)),
        ) + " failed."@,
    ] + failure_lines(views(report.sources@))
}

/// `true` or `false`.
pub open spec fn truth(b: bool) -> Seq<char> {
    if b {
        "true"@
    } else {
        "false"@
    }
}

/// Whether a run may be committed: every source was compiled, and the check passed.
pub open spec fn is_clean_run(report: CompileReport, lint: LintReport) -> bool {
    failures(views(report.sources@)) == 0 && !lint.failed()
}

/// What is said when nothing is left to repair.
pub open spec fn gate_lines(report: CompileReport, lint: LintReport) -> Seq<Seq<char>> {
    let found: Seq<Seq<char>> = if lint.failed() {
        seq![report_text(lint)]
    } else {
        seq![]
    };
    if is_clean_run(report, lint) {
        found
    } else {
        found.push(
            decimal(failures(views(report.sources@)))
                + " source(s) failed / lint found errors — not committing; fix and re-run compile."@,
        )
    }
}

/// Whether `action` is what has to be done when nothing is left to repair.
pub open spec fn is_gate_action(
    action: FinishAction,
    report: CompileReport,
    lint: LintReport,
    fixed: nat,
) -> bool {
    if is_clean_run(report, lint) {
        action is WriteBundle && action->WriteBundle_detail@ == decimal(processed(report))
            + " source(s) compiled, "@ + decimal(fixed) + " path(s) fixed"@
    } else {
        action is Fail && action->error@ == "compile finished with errors"@
            && action->Fail_detail@ == decimal(failures(views(report.sources@)))
            + " source(s) failed, lint errors: "@ + truth(lint.failed())
    }
}

/// The paths of the vault at `root` among `paths`, seen from there.
pub open spec fn relative_paths(root: Seq<char>, paths: Seq<Seq<char>>) -> Seq<Seq<char>> {
    gathered(paths, |p: Seq<char>| relative(root, p))
}

/// Everything that is committed, in order and each once.
pub open spec fn commit_paths(
    touched: Seq<Seq<char>>,
    fixed: Seq<Seq<char>>,
    log_exists: bool,
) -> Seq<Seq<char>> {
    let own = touched + fixed + seq!["wiki/index.md"@, "wiki/schema.md"@];
    let logged = if log_exists {
        own.push(LOG_RELATIVE_PATH@)
    } else {
        own
    };
    sorted_set(logged.push(BUNDLE_RELATIVE_PATH@))
}

/// What the commit is called.
pub open spec fn commit_message(summary: Seq<char>, report: CompileReport) -> Seq<char> {
    summary + ": "@ + decimal(processed(report)) + " source(s) compiled"@
}

/// What a person is asked before pages that a model filled in are committed.
pub open spec fn commit_question(slugs: Seq<Seq<char>>) -> Seq<char> {
    "--fix synthesized "@ + decimal(slugs.len()) + " new concept page(s) via LLM: "@ + bracketed(
        slugs,
    ) + ". Commit these changes now?"@
}

/// What is said if they are not to be committed.
pub const NOT_COMMITTED: &'static str =
    "Fix changes written but not committed — review and `git commit` yourself, or re-run with --yes.";

fn truth_text(b: bool) -> (r: &'static str)
    ensures
        r@ == truth(b),
{
    if b {
        "true"
    } else {
        "false"
    }
}

fn opening_text(report: &CompileReport) -> (r: Vec<String>)
    ensures
        views(r@) == opening(*report),
{
    let ghost rows = views(report.sources@);
    let mut first = counted("Compiled ", report.sources_processed(), " source(s), ");
    let n = decimal_text(report.sources_failed() as u64);
    first.append(n.as_str());
    first.append(" failed.");
    let ghost head = seq![first@];
    let mut out: Vec<String> = Vec::new();
    out.push(first);
    let mut i: usize = 0;
    assert(rows.take(0) =~= seq![]);
    assert(views(out@) =~= head + failure_lines(rows.take(0)));
    while i < report.sources.len()
        invariant
            rows == views(report.sources@),
            i <= rows.len(),
            views(out@) == head + failure_lines(rows.take(i as int)),
        decreases rows.len() - i,
    {
        let ghost before = out@;
        proof {
            assert(rows.take(i + 1).drop_last() =~= rows.take(i as int));
            assert(rows.take(i + 1).last() == report.sources@[i as int]@);
        }
        match &report.sources[i].error {
            Some(e) => {
                let mut s = "  ".to_string();
                s.append(report.sources[i].uri.as_str());
                s.append(" failed: ");
                s.append(e.as_str());
                let ghost what = s@;
                out.push(s);
                assert(views(out@) =~= views(before).push(what));
                assert(views(out@) =~= head + failure_lines(rows.take(i + 1)));
            },
            None => {},
        }
        i += 1;
    }
    assert(rows.take(rows.len() as int) =~= rows);
    out
}

fn relative_texts(root: &str, paths: &Vec<String>) -> (r: Vec<String>)
    ensures
        views(r@) == relative_paths(root@, views(paths@)),
{
    let ghost all = views(paths@);
    let ghost f = |p: Seq<char>| relative(root@, p);
    let mut out: Vec<String> = Vec::new();
    let mut i: usize = 0;
    assert(all.take(0) =~= seq![]);
    assert(views(out@) =~= seq![]);
    while i < paths.len()
        invariant
            all == views(paths@),
            f == (|p: Seq<char>| relative(root@, p)),
            i <= paths@.len(),
            views(out@) == gathered(all.take(i as int), f),
        decreases paths@.len() - i,
    {
        let ghost before = out@;
        proof {
            assert(all.take(i + 1).drop_last() =~= all.take(i as int));
            assert(all.take(i + 1).last() == paths@[i as int]@);
        }
        match relative_to(root, paths[i].as_str()) {
            Some(path) => {
                let ghost what = path@;
                out.push(path);
                assert(views(out@) =~= views(before).push(what));
            },
            None => {},
        }
        i += 1;
    }
    assert(all.take(all.len() as int) =~= all);
    out
}

impl Finish {
    /// A run that comes to its end with this report.
    pub fn new(report: CompileReport, summary: &str, fix: bool, assume_yes: bool) -> (r: Finish)
        ensures
            r.report == report,
            r.summary@ == summary@,
            r.fix == fix,
            r.assume_yes == assume_yes,
            r.lint.broken_links@ == report.lint_report.broken_links@,
            r.lint.missing_sources@ == report.lint_report.missing_sources@,
            r.lint.orphan_pages@ == report.lint_report.orphan_pages@,
            r.lint.pending_compiles@ == report.lint_report.pending_compiles@,
            r.lint.cross_vault_links@ == report.lint_report.cross_vault_links@,
            r.fixed_paths@.len() == 0,
            r.synthesized@.len() == 0,
            r.paths@.len() == 0,
    {
        let lint = report.lint_report.duplicate();
        Finish {
            report,
            summary: summary.to_string(),
            fix,
            assume_yes,
            lint,
            fixed_paths: Vec::new(),
            synthesized: Vec::new(),
            paths: Vec::new(),
        }
    }

    fn gate(&self, lines: Vec<String>) -> (r: FinishStep)
        ensures
            views(r.lines@) == views(lines@) + gate_lines(self.report, self.lint),
            is_gate_action(r.action, self.report, self.lint, self.fixed_paths@.len()),
    {
        let ghost head = views(lines@);
        let mut lines = lines;
        let failed: usize = self.report.sources_failed();
        let bad: bool = self.lint.has_errors();
        let ghost mut said: Seq<Seq<char>> = seq![];
        if bad {
            let ghost before = lines@;
            let text = to_text(&self.lint);
            let ghost what = text@;
            lines.push(text);
            proof {
                said = said.push(what);
                assert(views(lines@) =~= views(before).push(what));
            }
        }
        assert(views(lines@) =~= head + said);
        if failed > 0 || bad {
            let ghost before = lines@;
            let text = counted(
                "",
                failed,
                " source(s) failed / lint found errors — not committing; fix and re-run compile.",
            );
            let ghost what = text@;
            proof {
                reveal_strlit("");
                assert(what =~= decimal(failed as nat)
                    + " source(s) failed / lint found errors — not committing; fix and re-run compile."@);
            }
            lines.push(text);
            let mut detail = counted("", failed, " source(s) failed, lint errors: ");
            detail.append(truth_text(bad));
            proof {
                assert(views(lines@) =~= views(before).push(what));
                assert(views(lines@) =~= head + said.push(what));
                assert(said.push(what) =~= gate_lines(self.report, self.lint));
                assert(detail@ =~= decimal(failed as nat) + " source(s) failed, lint errors: "@
                    + truth(bad));
            }
            return FinishStep {
                lines,
                action: FinishAction::Fail {
                    detail,
                    error: "compile finished with errors".to_string(),
                },
            };
        }
        let mut detail = counted("", self.report.sources_processed(), " source(s) compiled, ");
        let fixed = decimal_text(self.fixed_paths.len() as u64);
        detail.append(fixed.as_str());
        detail.append(" path(s) fixed");
        proof {
            reveal_strlit("");
            assert(said =~= gate_lines(self.report, self.lint));
            assert(detail@ =~= decimal(processed(self.report)) + " source(s) compiled, "@ + decimal(
                self.fixed_paths@.len(),
            ) + " path(s) fixed"@);
        }
        FinishStep { lines, action: FinishAction::WriteBundle { detail } }
    }

    /// The first step: what is said of the run, and whether findings are repaired.
    pub fn begin(&self) -> (r: FinishStep)
        ensures
            if self.fix {
                &&& views(r.lines@) == opening(self.report)
                &&& r.action is FixMechanically
            } else {
                &&& views(r.lines@) == opening(self.report) + gate_lines(self.report, self.lint)
                &&& is_gate_action(r.action, self.report, self.lint, self.fixed_paths@.len())
            },
    {
        let lines = opening_text(&self.report);
        if self.fix {
            FinishStep { lines, action: FinishAction::FixMechanically }
        } else {
            self.gate(lines)
        }
    }

    /// The step after the repairs without a model: `lint` is the check that followed. If
    /// links still lead nowhere, the pages they lead to are filled in.
    pub fn mechanically_fixed(&mut self, fixed: &FixReport, lint: LintReport) -> (r: FinishStep)
        ensures
            final(self).report == old(self).report,
            final(self).summary == old(self).summary,
            final(self).assume_yes == old(self).assume_yes,
            final(self).synthesized == old(self).synthesized,
            final(self).lint == lint,
            views(final(self).fixed_paths@) == views(old(self).fixed_paths@) + views(
                fixed.fixed_frontmatter_typos@,
            ),
            ({
                let said: Seq<Seq<char>> = if fixed.fixed_frontmatter_typos@.len() == 0 {
                    seq![]
                } else {
                    seq![summary(*fixed)]
                };
                if lint.broken_links@.len() > 0 {
                    &&& views(r.lines@) == said
                    &&& r.action is FixLinks
                } else {
                    &&& views(r.lines@) == said + gate_lines(old(self).report, lint)
                    &&& is_gate_action(
                        r.action,
                        old(self).report,
                        lint,
                        final(self).fixed_paths@.len(),
                    )
                }
            }),
    {
        let ghost before = *self;
        let mut lines: Vec<String> = Vec::new();
        assert(views(lines@) =~= seq![]);
        if !fixed.is_empty() {
            let text = crate::validator::fix::summary_line(fixed);
            let ghost what = text@;
            lines.push(text);
            assert(views(lines@) =~= seq![what]);
        }
        let mut more = copy_texts(&fixed.fixed_frontmatter_typos);
        self.fixed_paths.append(&mut more);
        assert(views(self.fixed_paths@) =~= views(before.fixed_paths@) + views(
            fixed.fixed_frontmatter_typos@,
        ));
        self.lint = lint;
        if self.lint.broken_links.len() > 0 {
            FinishStep { lines, action: FinishAction::FixLinks }
        } else {
            self.gate(lines)
        }
    }

    /// The step after the pages were filled in: `lint` is the check that followed.
    pub fn links_fixed(&mut self, root: &str, fixed: &LinkFixReport, lint: LintReport) -> (r:
        FinishStep)
        ensures
            final(self).report == old(self).report,
            final(self).summary == old(self).summary,
            final(self).assume_yes == old(self).assume_yes,
            final(self).lint == lint,
            views(final(self).synthesized@) == slugs_of(views(fixed.outcomes@), true),
            views(final(self).fixed_paths@) == views(old(self).fixed_paths@) + relative_paths(
                root@,
                views(fixed.touched_paths@),
            ),
            views(r.lines@) == seq![fix_summary(views(fixed.outcomes@))] + gate_lines(
                old(self).report,
                lint,
            ),
            is_gate_action(r.action, old(self).report, lint, final(self).fixed_paths@.len()),
    {
        let ghost before = *self;
        let mut lines: Vec<String> = Vec::new();
        let text = summary_line(fixed);
        let ghost what = text@;
        lines.push(text);
        assert(views(lines@) =~= seq![what]);
        self.synthesized = fixed.synthesized_slugs();
        let mut more = relative_texts(root, &fixed.touched_paths);
        let ghost added = more@;
        self.fixed_paths.append(&mut more);
        assert(views(self.fixed_paths@) =~= views(before.fixed_paths@) + views(added));
        self.lint = lint;
        self.gate(lines)
    }

    fn commit_step(&self) -> (r: FinishStep)
        ensures
            r.lines@.len() == 0,
            r.action is Commit,
            r.action->paths@ == self.paths@,
            r.action->Commit_message@ == commit_message(self.summary@, self.report),
    {
        let mut message = self.summary.clone();
        message.append(": ");
        let n = decimal_text(self.report.sources_processed() as u64);
        message.append(n.as_str());
        message.append(" source(s) compiled");
        FinishStep {
            lines: Vec::new(),
            action: FinishAction::Commit { paths: copy_texts(&self.paths), message },
        }
    }

    /// The step after the bundle was written. Outside a repository nothing is committed.
    /// Pages that a model filled in are committed only if a person agrees, or has agreed
    /// beforehand; where nobody can be asked, they are not.
    pub fn bundled(
        &mut self,
        root: &str,
        log_exists: bool,
        is_repository: bool,
        interactive: bool,
    ) -> (r: FinishStep)
        ensures
            final(self).report == old(self).report,
            final(self).summary == old(self).summary,
            final(self).synthesized == old(self).synthesized,
            views(final(self).paths@) == commit_paths(
                relative_paths(root@, views(old(self).report.touched_paths@)),
                views(old(self).fixed_paths@),
                log_exists,
            ),
            if !is_repository {
                r.action is End && r.lines@.len() == 0
            } else if old(self).synthesized@.len() > 0 && !old(self).assume_yes {
                if interactive {
                    &&& r.lines@.len() == 0
                    &&& r.action is Ask
                    &&& r.action->Ask_message@ == commit_question(views(old(self).synthesized@))
                } else {
                    &&& views(r.lines@) == seq![NOT_COMMITTED@]
                    &&& r.action is End
                }
            } else {
                &&& r.lines@.len() == 0
                &&& r.action is Commit
                &&& r.action->paths@ == final(self).paths@
                &&& r.action->Commit_message@ == commit_message(
                    old(self).summary@,
                    old(self).report,
                )
            },
    {
        let mut paths = relative_texts(root, &self.report.touched_paths);
        let ghost touched = views(paths@);
        let mut fixed = copy_texts(&self.fixed_paths);
        let ghost p0 = paths@;
        paths.append(&mut fixed);
        let ghost p1 = paths@;
        assert(views(p1) =~= touched + views(self.fixed_paths@));
        paths.push("wiki/index.md".to_string());
        paths.push("wiki/schema.md".to_string());
        let ghost p2 = paths@;
        assert(views(p2) =~= views(p1) + seq!["wiki/index.md"@, "wiki/schema.md"@]);
        if log_exists {
            paths.push(LOG_RELATIVE_PATH.to_string());
            assert(views(paths@) =~= views(p2).push(LOG_RELATIVE_PATH@));
        }
        let ghost p3 = paths@;
        paths.push(BUNDLE_RELATIVE_PATH.to_string());
        assert(views(paths@) =~= views(p3).push(BUNDLE_RELATIVE_PATH@));
        self.paths = sort_and_dedup(paths);
        if !is_repository {
            return FinishStep { lines: Vec::new(), action: FinishAction::End };
        }
        if self.synthesized.len() > 0 && !self.assume_yes {
            if !interactive {
                let mut lines: Vec<String> = Vec::new();
                lines.push(NOT_COMMITTED.to_string());
                assert(views(lines@) =~= seq![NOT_COMMITTED@]);
                return FinishStep { lines, action: FinishAction::End };
            }
            let mut message = counted(
                "--fix synthesized ",
                self.synthesized.len(),
                " new concept page(s) via LLM: ",
            );
            let names = bracketed_text(&self.synthesized);
            message.append(names.as_str());
            message.append(". Commit these changes now?");
            return FinishStep { lines: Vec::new(), action: FinishAction::Ask { message } };
        }
        self.commit_step()
    }

    /// The step after a person was asked.
    pub fn answered(&self, yes: bool) -> (r: FinishStep)
        ensures
            if yes {
                &&& r.lines@.len() == 0
                &&& r.action is Commit
                &&& r.action->paths@ == self.paths@
                &&& r.action->Commit_message@ == commit_message(self.summary@, self.report)
            } else {
                &&& views(r.lines@) == seq![NOT_COMMITTED@]
                &&& r.action is End
            },
    {
        if yes {
            self.commit_step()
        } else {
            let mut lines: Vec<String> = Vec::new();
            lines.push(NOT_COMMITTED.to_string());
            assert(views(lines@) =~= seq![NOT_COMMITTED@]);
            FinishStep { lines, action: FinishAction::End }
        }
    }
}

/// What is said of the commit. That it failed does not make the run fail.
pub fn commit_line(outcome: &Result<CommitOutcome, String>) -> (r: String)
    ensures
        r@ == (match outcome {
            Ok(done) => if done.committed {
                "Committed changes."@
            } else {
                "Nothing to commit."@
            },
            Err(e) => "git commit skipped: "@ + e@,
        }),
{
    match outcome {
        Ok(done) => if done.committed {
            "Committed changes.".to_string()
        } else {
            "Nothing to commit.".to_string()
        },
        Err(e) => {
            let mut s = "git commit skipped: ".to_string();
            s.append(e.as_str());
            s
        },
    }
}

/// Whether something that cannot be undone is done: if it was agreed to beforehand, or a
/// person can be asked and agrees. Nothing, if a person has to be asked first.
pub fn confirmed(assume_yes: bool, interactive: bool, answer: Option<bool>) -> (r: Option<bool>)
    ensures
        r == (if assume_yes {
            Some(true)
        } else if !interactive {
            Some(false)
        } else {
            answer
        }),
{
    if assume_yes {
        Some(true)
    } else if !interactive {
        Some(false)
    } else {
        answer
    }
}

/// A run with a source that failed, or with a check that did, is neither bundled nor
/// committed, whatever was repaired: the step that decides gives up.
pub proof fn law_a_run_with_a_failure_is_not_committed(
    action: FinishAction,
    report: CompileReport,
    lint: LintReport,
    fixed: nat,
)
    requires
        is_gate_action(action, report, lint, fixed),
    ensures
        action is WriteBundle <==> failures(views(report.sources@)) == 0 && !lint.failed(),
        action !is WriteBundle ==> action is Fail,
{
}

/// The index, the schema and the bundle are always committed, and so is everything that
/// was touched or repaired; the log if it is there. Nothing is named twice.
pub proof fn law_everything_that_changed_is_committed(
    touched: Seq<Seq<char>>,
    fixed: Seq<Seq<char>>,
    log_exists: bool,
    path: Seq<char>,
)
    ensures
        commit_paths(touched, fixed, log_exists).no_duplicates(),
        commit_paths(touched, fixed, log_exists).contains(path) <==> (touched.contains(path)
            || fixed.contains(path) || path == "wiki/index.md"@ || path == "wiki/schema.md"@ || (
        log_exists && path == LOG_RELATIVE_PATH@) || path == BUNDLE_RELATIVE_PATH@),
{
    let own = touched + fixed + seq!["wiki/index.md"@, "wiki/schema.md"@];
    let logged = if log_exists {
        own.push(LOG_RELATIVE_PATH@)
    } else {
        own
    };
    let all = logged.push(BUNDLE_RELATIVE_PATH@);
    lemma_sorted_set(all, path);
    let n = touched.len() as int;
    let m = fixed.len() as int;
    if touched.contains(path) {
        let k = choose|k: int| 0 <= k < touched.len() && touched[k] == path;
        assert(all[k] == path);
    }
    if fixed.contains(path) {
        let k = choose|k: int| 0 <= k < fixed.len() && fixed[k] == path;
        assert(all[n + k] == path);
    }
    assert(all[n + m] == "wiki/index.md"@);
    assert(all[n + m + 1] == "wiki/schema.md"@);
    if log_exists {
        assert(all[n + m + 2] == LOG_RELATIVE_PATH@);
    }
    assert(all[all.len() - 1] == BUNDLE_RELATIVE_PATH@);
    if all.contains(path) {
        let k = choose|k: int| 0 <= k < all.len() && all[k] == path;
        if k < n {
            assert(touched[k] == path);
        } else if k < n + m {
            assert(fixed[k - n] == path);
        }
    }
}

proof fn lemma_failure_lines(sources: Seq<OutcomeRow>)
    ensures
        failure_lines(sources) == gathered(
            sources,
            |row: OutcomeRow|
                match row.error {
                    Some(e) => Some("  "@ + row.uri + " failed: "@ + e),
                    None => None,
                },
        ),
        failure_lines(sources).len() == failures(sources),
    decreases sources.len(),
{
    if sources.len() > 0 {
        lemma_failure_lines(sources.drop_last());
    }
}

/// Every source of a run that failed is told by a line of its own, with the reason, and no
/// other is; as many as are counted.
pub proof fn law_every_failure_is_told(report: CompileReport, line: Seq<char>)
    ensures
        opening(report).len() == 1 + failures(views(report.sources@)),
        opening(report).skip(1).contains(line) <==> exists|i: int|
            0 <= i < report.sources@.len() && (#[trigger] report.sources@[i]).error is Some && line
                == "  "@ + report.sources@[i].uri@ + " failed: "@ + report.sources@[i].error->0@,
        processed(report) + failures(views(report.sources@)) == report.sources@.len(),
{
    let rows = views(report.sources@);
    let f = |row: OutcomeRow|
        match row.error {
            Some(e) => Some("  "@ + row.uri + " failed: "@ + e),
            None => None,
        };
    lemma_failure_lines(rows);
    law_gathered_values_are_those_that_are_made(rows, f, line);
    assert(opening(report).skip(1) =~= failure_lines(rows));
    if failure_lines(rows).contains(line) {
        let i = choose|i: int| 0 <= i < rows.len() && f(#[trigger] rows[i]) == Some(line);
        assert(rows[i] == report.sources@[i]@);
        assert(report.sources@[i].error is Some);
    }
    if exists|i: int|
        0 <= i < report.sources@.len() && (#[trigger] report.sources@[i]).error is Some && line
            == "  "@ + report.sources@[i].uri@ + " failed: "@ + report.sources@[i].error->0@ {
        let i = choose|i: int|
            0 <= i < report.sources@.len() && (#[trigger] report.sources@[i]).error is Some && line
                == "  "@ + report.sources@[i].uri@ + " failed: "@ + report.sources@[i].error->0@;
        assert(rows[i] == report.sources@[i]@);
        assert(f(rows[i]) == Some(line));
    }
}

/// The paths that are seen from a vault are those of every file that lies in it, and no
/// others.
pub proof fn law_paths_outside_the_vault_are_left_out(
    root: Seq<char>,
    a: Seq<Seq<char>>,
    b: Seq<Seq<char>>,
    path: Seq<char>,
)
    ensures
        relative_paths(root, a).contains(path) <==> exists|i: int|
            0 <= i < a.len() && relative(root, #[trigger] a[i]) == Some(path),
        relative_paths(root, a + b) == relative_paths(root, a) + relative_paths(root, b),
{
    let f = |p: Seq<char>| relative(root, p);
    law_gathered_values_are_those_that_are_made(a, f, path);
    law_gathering_goes_value_by_value(a, b, path, f);
    if relative_paths(root, a).contains(path) {
        let i = choose|i: int| 0 <= i < a.len() && f(#[trigger] a[i]) == Some(path);
        assert(relative(root, a[i]) == Some(path));
    }
    if exists|i: int| 0 <= i < a.len() && relative(root, #[trigger] a[i]) == Some(path) {
        let i = choose|i: int| 0 <= i < a.len() && relative(root, #[trigger] a[i]) == Some(path);
        assert(f(a[i]) == Some(path));
    }
}

/// A run that may be committed is announced with nothing but what it made; one that may not
/// is told why: what the check found, if it failed, and how many sources failed.
pub proof fn law_a_run_is_told_why_it_is_not_committed(report: CompileReport, lint: LintReport)
    ensures
        gate_lines(report, lint).len() == 0 <==> failures(views(report.sources@)) == 0
            && !lint.failed(),
        lint.failed() ==> gate_lines(report, lint).len() == 2 && gate_lines(report, lint)[0]
            == report_text(lint),
        !lint.failed() && failures(views(report.sources@)) > 0 ==> gate_lines(report, lint).len()
            == 1,
        gate_lines(report, lint).len() > 0 ==> has_prefix(
            gate_lines(report, lint).last(),
            decimal(failures(views(report.sources@))) + " source(s) failed"@,
        ),
{
    let head = decimal(failures(views(report.sources@)));
    let rest = " source(s) failed / lint found errors — not committing; fix and re-run compile."@;
    let begin = " source(s) failed"@;
    reveal_strlit(" source(s) failed / lint found errors — not committing; fix and re-run compile.");
    reveal_strlit(" source(s) failed");
    assert(rest.subrange(0, begin.len() as int) =~= begin);
    let line = head + rest;
    assert(line.subrange(0, (head + begin).len() as int) =~= head + begin);
}

/// A commit says how many sources were compiled, and whoever is asked about pages that a
/// model filled in is told how many there are and which.
pub proof fn law_a_commit_says_what_is_in_it(
    summary: Seq<char>,
    report: CompileReport,
    slugs: Seq<Seq<char>>,
    i: int,
)
    requires
        0 <= i < slugs.len(),
    ensures
        has_prefix(
            commit_message(summary, report),
            summary + ": "@ + decimal(
                (report.sources@.len() - failures(views(report.sources@))) as nat,
            ),
        ),
        has_part(commit_question(slugs), "[["@ + slugs[i] + "]]"@),
        has_prefix(commit_question(slugs), "--fix synthesized "@ + decimal(slugs.len())),
{
    let told = summary + ": "@ + decimal(processed(report));
    assert(commit_message(summary, report).subrange(0, told.len() as int) =~= told);
    let head = "--fix synthesized "@ + decimal(slugs.len());
    let question = commit_question(slugs);
    assert(question.subrange(0, head.len() as int) =~= head);
    let names = slugs.map_values(|s: Seq<char>| as_link(s));
    law_joined_parts_are_there(names, ", "@, i);
    assert(names[i] == "[["@ + slugs[i] + "]]"@);
    lemma_part(
        head + " new concept page(s) via LLM: "@,
        bracketed(slugs),
        ". Commit these changes now?"@,
        names[i],
    );
}

} // verus!
