//! Where the lines for a user go, and what they say of progress.

use vstd::prelude::*;

use crate::text::{decimal, decimal_text, has_prefix, has_suffix};

verus! {

/// How a client talks to the server.
#[derive(Debug, Clone, Copy, PartialEq, Eq, Structural)]
pub enum Transport {
    Stdio,
    Http,
}

#[derive(Debug, Clone, Copy, PartialEq, Eq, Structural)]
pub enum OutputStream {
    Stdout,
    Stderr,
}

/// Where the lines for a user go.
#[derive(Debug, Clone, Copy)]
pub struct Output(pub OutputStream);

impl Output {
    /// For a command that was given directly: standard output.
    pub fn cli() -> (r: Output)
        ensures
            r.0 == OutputStream::Stdout,
    {
        Output(OutputStream::Stdout)
    }

    /// For a tool that a client calls. Over stdio, standard output carries the protocol
    /// and nothing else, so the lines go to standard error there.
    pub fn for_transport(transport: Transport) -> (r: Output)
        ensures
            r.0 == (if transport == Transport::Http {
                OutputStream::Stdout
            } else {
                OutputStream::Stderr
            }),
    {
        Output(
            if transport == Transport::Http {
                OutputStream::Stdout
            } else {
                OutputStream::Stderr
            },
        )
    }
}

/// What becomes of the items of a list that is worked through. `label` says what is
/// done to which item.
#[derive(Debug)]
pub enum ProgressEvent {
    Started { index: usize, total: usize, label: String },
    Finished { index: usize, total: usize, label: String, error: Option<String> },
}

/// The line that says that an item is started.
pub open spec fn started_line(index: nat, total: nat, label: Seq<char>) -> Seq<char> {
    "["@ + decimal(index) + "/"@ + decimal(total) + "] "@ + label + "..."@
}

/// The line that says how an item ended.
pub open spec fn finished_line(error: Option<Seq<char>>) -> Seq<char> {
    match error {
        None => "  done"@,
        Some(e) => "  failed: "@ + e,
    }
}

impl ProgressEvent {
    /// The line for the event.
    pub fn text(&self) -> (r: String)
        ensures
            r@ == (match self {
                ProgressEvent::Started { index, total, label } => started_line(
                    *index as nat,
                    *total as nat,
                    label@,
                ),
                ProgressEvent::Finished { index, total, label, error } => finished_line(
                    match error {
                        Some(e) => Some(e@),
                        None => None,
                    },
                ),
            }),
    {
        match self {
            ProgressEvent::Started { index, total, label } => {
                let mut s = "[".to_string();
                let at = decimal_text(*index as u64);
                s.append(at.as_str());
                s.append("/");
                let of = decimal_text(*total as u64);
                s.append(of.as_str());
                s.append("] ");
                s.append(label.as_str());
                s.append("...");
                s
            },
            ProgressEvent::Finished { index, total, label, error } => match error {
                None => "  done".to_string(),
                Some(e) => {
                    let mut s = "  failed: ".to_string();
                    s.append(e.as_str());
                    s
                },
            },
        }
    }
}

/// The line that says that an item is started tells its number, how many there are and what
/// it is; the one that says how it ended tells a failure by its reason.
pub proof fn law_progress_tells_the_item_and_the_failure(
    index: nat,
    total: nat,
    label: Seq<char>,
    error: Seq<char>,
)
    ensures
        has_prefix(
            started_line(index, total, label),
            "["@ + decimal(index) + "/"@ + decimal(total) + "] "@ + label,
        ),
        has_suffix(finished_line(Some(error)), error),
        finished_line(Some(error)) != finished_line(None),
{
    let front = "["@ + decimal(index) + "/"@ + decimal(total) + "] "@ + label;
    assert(started_line(index, total, label).subrange(0, front.len() as int) =~= front);
    let failed = finished_line(Some(error));
    assert(failed.subrange(failed.len() - error.len(), failed.len() as int) =~= error);
    reveal_strlit("  done");
    reveal_strlit("  failed: ");
    assert(failed[2] == 'f');
    assert(finished_line(None)[2] == 'd');
}

} // verus!
