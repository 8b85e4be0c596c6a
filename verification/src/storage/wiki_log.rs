//! The log of a vault: a line for each run that was finished, for a person to skim.

use vstd::prelude::*;

use crate::text::has_prefix;

verus! {

/// Where the log stands in a vault.
pub const LOG_RELATIVE_PATH: &'static str = "wiki/log.md";

/// What the log begins with.
pub const HEADER: &'static str =
    "# Compile Log\n\nAppend-only summary of each compile/fix/commit pass — see git history for the full detail behind each line.\n";

/// A line of the log.
pub open spec fn log_line(
    timestamp: Seq<char>,
    source: Seq<char>,
    status: Seq<char>,
    detail: Seq<char>,
) -> Seq<char> {
    "- "@ + timestamp + " ["@ + source + "] "@ + status + ": "@ + detail + "\n"@
}

/// What is added to the end of the log: a line, and before it the header, if there was
/// no log. What the log holds already is never looked at.
pub fn append(is_new: bool, timestamp: &str, source: &str, status: &str, detail: &str) -> (r:
    String)
    ensures
        r@ == (if is_new {
            HEADER@ + "\n"@ + log_line(timestamp@, source@, status@, detail@)
        } else {
            log_line(timestamp@, source@, status@, detail@)
        }),
{
    let mut s = if is_new {
        let mut head = HEADER.to_string();
        head.append("\n");
        head
    } else {
        String::new()
    };
    let ghost head = s@;
    s.append("- ");
    s.append(timestamp);
    s.append(" [");
    s.append(source);
    s.append("] ");
    s.append(status);
    s.append(": ");
    s.append(detail);
    s.append("\n");
    assert(s@ =~= head + log_line(timestamp@, source@, status@, detail@));
    s
}

/// A line of the log tells when it was written, by what, how it went and the detail, in this
/// order; it is one line as long as they are.
pub proof fn law_a_line_tells_when_and_what(
    timestamp: Seq<char>,
    source: Seq<char>,
    status: Seq<char>,
    detail: Seq<char>,
)
    ensures
        has_prefix(
            log_line(timestamp, source, status, detail),
            "- "@ + timestamp + " ["@ + source + "] "@ + status + ": "@ + detail,
        ),
        log_line(timestamp, source, status, detail).last() == '\n',
        !timestamp.contains('\n') && !source.contains('\n') && !status.contains('\n')
            && !detail.contains('\n') ==> !log_line(
            timestamp,
            source,
            status,
            detail,
        ).drop_last().contains('\n'),
{
    reveal_strlit("\n");
    reveal_strlit("- ");
    reveal_strlit(" [");
    reveal_strlit("] ");
    reveal_strlit(": ");
    let line = log_line(timestamp, source, status, detail);
    let front = "- "@ + timestamp + " ["@ + source + "] "@ + status + ": "@ + detail;
    assert(line =~= front + "\n"@);
    assert(line.subrange(0, front.len() as int) =~= front);
    assert(line.drop_last() =~= front);
    if !timestamp.contains('\n') && !source.contains('\n') && !status.contains('\n')
        && !detail.contains('\n') && front.contains('\n') {
        let k = choose|k: int| 0 <= k < front.len() && front[k] == '\n';
        let a = 2 + timestamp.len();
        let b = a + 2 + source.len();
        let c = b + 2 + status.len();
        if 2 <= k < a {
            assert(timestamp[k - 2] == '\n');
        } else if a + 2 <= k < b {
            assert(source[k - a - 2] == '\n');
        } else if b + 2 <= k < c {
            assert(status[k - b - 2] == '\n');
        } else if c + 2 <= k {
            assert(detail[k - c - 2] == '\n');
        }
    }
}

} // verus!
