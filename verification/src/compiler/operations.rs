//! What a model asks to be done to the wiki, and what of it is done. A path that a
//! model wrote reaches the disk only through the sandbox.

use vstd::prelude::*;

use crate::paths::{path_under, pieces};
use crate::text::{
    has_prefix, has_suffix, is_white, lemma_trim_is, strip_prefix, strip_suffix, trim, trimmed,
    views,
};
use crate::vault::vault_resolver::{
    law_plain_paths_are_let_through, plain_step, sandbox_path, sandboxed, SandboxError,
};

verus! {

/// One change to the wiki.
#[derive(Debug, PartialEq)]
pub enum CompileOperation {
    CreateOrUpdate { path: String, content: String },
    Delete { path: String, reason: String },
}

pub enum OperationView {
    CreateOrUpdate { path: Seq<char>, content: Seq<char> },
    Delete { path: Seq<char>, reason: Seq<char> },
}

impl View for CompileOperation {
    type V = OperationView;

    open spec fn view(&self) -> OperationView {
        match self {
            CompileOperation::CreateOrUpdate { path, content } => OperationView::CreateOrUpdate {
                path: path@,
                content: content@,
            },
            CompileOperation::Delete { path, reason } => OperationView::Delete {
                path: path@,
                reason: reason@,
            },
        }
    }
}

/// The path that an operation is about.
pub open spec fn operation_path(op: OperationView) -> Seq<char> {
    match op {
        OperationView::CreateOrUpdate { path, content } => path,
        OperationView::Delete { path, reason } => path,
    }
}

/// Everything that a model asked for in one answer.
#[derive(Debug)]
pub struct CompilePayload {
    pub operations: Vec<CompileOperation>,
}

/// `s` without a prefix, where it has it.
pub open spec fn without_prefix(s: Seq<char>, prefix: Seq<char>) -> Seq<char> {
    if has_prefix(s, prefix) {
        s.skip(prefix.len() as int)
    } else {
        s
    }
}

/// `s` without a suffix, where it has it.
pub open spec fn without_suffix(s: Seq<char>, suffix: Seq<char>) -> Seq<char> {
    if has_suffix(s, suffix) {
        s.take(s.len() - suffix.len())
    } else {
        s
    }
}

/// A text without a code fence around it.
pub open spec fn unfenced(text: Seq<char>) -> Seq<char> {
    let whole = trim(text);
    let opened = if has_prefix(whole, "```json"@) {
        whole.skip("```json"@.len() as int)
    } else {
        without_prefix(whole, "```"@)
    };
    trim(without_suffix(opened, "```"@))
}

/// A model's answer without a code fence around it, in case it put one there.
pub fn strip_code_fence(text: &str) -> (r: String)
    ensures
        r@ == unfenced(text@),
{
    let whole = trimmed(text);
    let opened: String = match strip_prefix(whole.as_str(), "```json") {
        Some(rest) => rest,
        None => match strip_prefix(whole.as_str(), "```") {
            Some(rest) => rest,
            None => whole,
        },
    };
    match strip_suffix(opened.as_str(), "```") {
        Some(inner) => trimmed(inner.as_str()),
        None => trimmed(opened.as_str()),
    }
}

/// The operations in a model's answer. `parsed` is what the answer without its code
/// fence (`strip_code_fence`) deserialises to, or the reason why it does not; an
/// answer that does not is refused as a whole.
pub fn parse_compile_payload(parsed: Result<CompilePayload, String>) -> (r: Result<
    CompilePayload,
    String,
>)
    ensures
        match parsed {
            Ok(payload) => r == Ok::<CompilePayload, String>(payload),
            Err(reason) => r is Err && r->Err_0@
                == "LLM response was not valid CompilePayload JSON: "@ + reason@,
        },
{
    match parsed {
        Ok(payload) => Ok(payload),
        Err(reason) => {
            let mut s = "LLM response was not valid CompilePayload JSON: ".to_string();
            s.append(reason.as_str());
            Err(s)
        },
    }
}

/// Something to be done on disk.
#[derive(Debug)]
pub enum FileAction {
    /// Write `content` to `temporary`, then put that in the place of `path`.
    Write { path: String, temporary: String, content: String },
    /// Remove `path`, if there is such a file.
    Remove { path: String },
}

pub enum ActionView {
    Write { path: Seq<char>, temporary: Seq<char>, content: Seq<char> },
    Remove { path: Seq<char> },
}

impl View for FileAction {
    type V = ActionView;

    open spec fn view(&self) -> ActionView {
        match self {
            FileAction::Write { path, temporary, content } => ActionView::Write {
                path: path@,
                temporary: temporary@,
                content: content@,
            },
            FileAction::Remove { path } => ActionView::Remove { path: path@ },
        }
    }
}

/// The path that an action touches.
pub open spec fn touched(action: ActionView) -> Seq<char> {
    match action {
        ActionView::Write { path, temporary, content } => path,
        ActionView::Remove { path } => path,
    }
}

/// An operation whose path is refused.
#[derive(Debug)]
pub struct Refusal {
    pub path: String,
    pub error: SandboxError,
}

/// What is to be done for a list of operations: the actions, in order, and the
/// operation at which it ends, if one is refused.
#[derive(Debug)]
pub struct ApplyPlan {
    pub actions: Vec<FileAction>,
    pub refused: Option<Refusal>,
}

/// What is to be done for an operation in the vault at `root`.
pub open spec fn action_for(root: Seq<char>, op: OperationView) -> Result<
    ActionView,
    SandboxError,
> {
    match sandboxed(operation_path(op)) {
        Err(e) => Err(e),
        Ok(steps) => {
            let path = path_under(root, steps);
            Ok(
                match op {
                    OperationView::CreateOrUpdate { path: p, content } => ActionView::Write {
                        path,
                        temporary: path + ".tmp"@,
                        content,
                    },
                    OperationView::Delete { path: p, reason } => ActionView::Remove { path },
                },
            )
        },
    }
}

/// The first operation, from position `from` on, whose path is refused, or the end.
pub open spec fn first_refused(ops: Seq<OperationView>, from: int) -> int
    decreases ops.len() - from,
{
    if from < 0 || from >= ops.len() || sandboxed(operation_path(ops[from])) is Err {
        from
    } else {
        first_refused(ops, from + 1)
    }
}

fn plan_one(root: &str, op: &CompileOperation) -> (r: Result<FileAction, SandboxError>)
    ensures
        match r {
            Ok(action) => action_for(root@, op@) == Ok::<ActionView, SandboxError>(action@),
            Err(e) => action_for(root@, op@) == Err::<ActionView, SandboxError>(e),
        },
{
    match op {
        CompileOperation::CreateOrUpdate { path, content } => match sandbox_path(
            root,
            path.as_str(),
        ) {
            Err(e) => Err(e),
            Ok(full) => {
                let mut temporary = full.clone();
                temporary.append(".tmp");
                Ok(FileAction::Write { path: full, temporary, content: content.clone() })
            },
        },
        CompileOperation::Delete { path, reason } => match sandbox_path(root, path.as_str()) {
            Err(e) => Err(e),
            Ok(full) => Ok(FileAction::Remove { path: full }),
        },
    }
}

/// What is to be done for the operations of `payload`, in order, in the vault at
/// `root`. The first operation whose path the sandbox refuses ends it: what comes
/// before is done, that one and what comes after it is not.
pub fn apply_operations(root: &str, payload: &CompilePayload) -> (r: ApplyPlan)
    ensures
        ({
            let ops = views(payload.operations@);
            let end = first_refused(ops, 0);
            &&& 0 <= end <= ops.len()
            &&& r.actions@.len() == end
            &&& forall|i: int|
                0 <= i < end ==> action_for(root@, ops[i]) == Ok::<ActionView, SandboxError>(
                    (#[trigger] r.actions@[i])@,
                )
            &&& match r.refused {
                None => end == ops.len(),
                Some(refusal) => end < ops.len() && refusal.path@ == operation_path(ops[end])
                    && sandboxed(operation_path(ops[end])) == Err::<
                    Seq<Seq<char>>,
                    SandboxError,
                >(refusal.error),
            }
        }),
{
    let ghost ops = views(payload.operations@);
    let mut actions: Vec<FileAction> = Vec::new();
    let mut i: usize = 0;
    while i < payload.operations.len()
        invariant
            ops == views(payload.operations@),
            i <= ops.len(),
            first_refused(ops, 0) == first_refused(ops, i as int),
            actions@.len() == i,
            forall|k: int|
                0 <= k < i ==> action_for(root@, ops[k]) == Ok::<ActionView, SandboxError>(
                    (#[trigger] actions@[k])@,
                ),
        decreases ops.len() - i,
    {
        assert(ops[i as int] == payload.operations@[i as int]@);
        match plan_one(root, &payload.operations[i]) {
            Ok(action) => {
                actions.push(action);
            },
            Err(error) => {
                let path: String = match &payload.operations[i] {
                    CompileOperation::CreateOrUpdate { path, content } => path.clone(),
                    CompileOperation::Delete { path, reason } => path.clone(),
                };
                return ApplyPlan { actions, refused: Some(Refusal { path, error }) };
            },
        }
        i += 1;
    }
    ApplyPlan { actions, refused: None }
}

/// Every path that an operation makes the disk see lies inside the vault: it is the
/// root followed by plain steps.
pub proof fn law_operations_stay_inside_the_vault(root: Seq<char>, op: OperationView)
    requires
        action_for(root, op) is Ok,
    ensures
        ({
            let steps = sandboxed(operation_path(op))->Ok_0;
            &&& touched(action_for(root, op)->Ok_0) == path_under(root, steps)
            &&& forall|i: int|
                0 <= i < steps.len() ==> crate::vault::vault_resolver::plain_step(
                    #[trigger] steps[i],
                )
            &&& has_prefix(touched(action_for(root, op)->Ok_0), root)
        }),
{
    crate::vault::vault_resolver::law_sandboxed_paths_stay_inside(root, operation_path(op));
}

/// An operation on a plain path writes what it says, or removes, at that path below the
/// root, and nowhere else.
pub proof fn law_an_operation_does_what_it_says(
    root: Seq<char>,
    path: Seq<char>,
    content: Seq<char>,
    reason: Seq<char>,
)
    requires
        forall|i: int| 0 <= i < pieces(path, '/').len() ==> plain_step(#[trigger] pieces(path, '/')[i]),
        root.len() == 0 || root.last() != '/',
    ensures
        action_for(root, OperationView::CreateOrUpdate { path, content }) == Ok::<
            ActionView,
            SandboxError,
        >(
            ActionView::Write {
                path: root + seq!['/'] + path,
                temporary: root + seq!['/'] + path + ".tmp"@,
                content,
            },
        ),
        action_for(root, OperationView::Delete { path, reason }) == Ok::<ActionView, SandboxError>(
            ActionView::Remove { path: root + seq!['/'] + path },
        ),
{
    law_plain_paths_are_let_through(root, path);
}

/// Operations are done from the front up to the first whose path is refused: every one in
/// front of it is let through.
pub proof fn law_operations_are_done_up_to_the_first_refused(ops: Seq<OperationView>, from: int)
    requires
        0 <= from <= ops.len(),
    ensures
        from <= first_refused(ops, from) <= ops.len(),
        forall|i: int|
            from <= i < first_refused(ops, from) ==> sandboxed(operation_path(#[trigger] ops[i]))
                is Ok,
        first_refused(ops, from) < ops.len() ==> sandboxed(
            operation_path(ops[first_refused(ops, from)]),
        ) is Err,
    decreases ops.len() - from,
{
    if from < ops.len() && sandboxed(operation_path(ops[from])) is Ok {
        law_operations_are_done_up_to_the_first_refused(ops, from + 1);
    }
}

/// An answer comes out the same with a code fence around it, with or without a language, and
/// without one.
pub proof fn law_a_code_fence_makes_no_difference(answer: Seq<char>)
    requires
        answer.len() > 0,
        !is_white(answer[0]) && !is_white(answer.last()),
        !has_prefix(answer, "```"@),
        !has_suffix(answer, "```"@),
    ensures
        unfenced(answer) == answer,
        unfenced("```json"@ + seq!['\n'] + answer + seq!['\n'] + "```"@) == answer,
        unfenced("```"@ + seq!['\n'] + answer + seq!['\n'] + "```"@) == answer,
{
    reveal_strlit("```json");
    reveal_strlit("```");
    let none = Seq::<char>::empty();
    let feed = seq!['\n'];
    let inner = feed + answer + feed;
    assert(none + answer + none =~= answer);
    lemma_trim_is(none, answer, none);
    if has_prefix(answer, "```json"@) {
        assert(answer.subrange(0, 3) =~= answer.subrange(0, 7).take(3));
        assert("```json"@.take(3) =~= "```"@);
    }
    assert(is_white(feed[0]));
    lemma_trim_is(feed, answer, feed);
    let a = "```json"@ + feed + answer + feed + "```"@;
    let b = "```"@ + feed + answer + feed + "```"@;
    assert(none + a + none =~= a);
    assert(none + b + none =~= b);
    assert(a[0] == '`' && a.last() == '`' && b[0] == '`' && b.last() == '`');
    lemma_trim_is(none, a, none);
    lemma_trim_is(none, b, none);
    assert(a.subrange(0, 7) =~= "```json"@);
    assert(a.skip(7) =~= inner + "```"@);
    assert(b.subrange(0, 7)[3] == '\n');
    assert(!has_prefix(b, "```json"@)) by {
        if has_prefix(b, "```json"@) {
            assert(b.subrange(0, 7)[3] == "```json"@[3]);
        }
    }
    assert(b.subrange(0, 3) =~= "```"@);
    assert(b.skip(3) =~= inner + "```"@);
    let opened = inner + "```"@;
    assert(opened.subrange(opened.len() - 3, opened.len() as int) =~= "```"@);
    assert(opened.take(opened.len() - 3) =~= inner);
}

} // verus!
