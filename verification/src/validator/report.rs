//! A lint report as text for a person.

use vstd::prelude::*;

use crate::order::lemma_contained_in_either;
use crate::text::{
    decimal, decimal_text, has_part, join, joined, law_joined_parts_are_there, views,
};
use crate::validator::rules::LintReport;

verus! {

/// The lines `before + item + after`, one for each item.
pub open spec fn item_lines(items: Seq<Seq<char>>, before: Seq<char>, after: Seq<char>) -> Seq<
    Seq<char>,
> {
    items.map_values(|s: Seq<char>| before + s + after)
}

/// The lines `before + first + between + second + after`, one for each pair.
pub open spec fn pair_lines(
    items: Seq<(Seq<char>, Seq<char>)>,
    before: Seq<char>,
    between: Seq<char>,
    after: Seq<char>,
) -> Seq<Seq<char>> {
    items.map_values(|p: (Seq<char>, Seq<char>)| before + p.0 + between + p.1 + after)
}

/// A headline and the lines under it, or nothing where there are none.
pub open spec fn section(headline: Seq<char>, lines: Seq<Seq<char>>) -> Seq<Seq<char>> {
    if lines.len() == 0 {
        seq![]
    } else {
        seq![headline] + lines
    }
}

/// Whether there is nothing at all to report.
pub open spec fn is_clean(report: LintReport) -> bool {
    !report.failed() && report.pending_compiles@.len() == 0 && report.orphan_pages@.len() == 0
        && report.cross_vault_links@.len() == 0
}

/// The lines of a report: the sources to compile, the broken links, the missing
/// sources, the orphans, the links to other vaults, and the verdict.
pub open spec fn report_lines(report: LintReport) -> Seq<Seq<char>> {
    section(
        "Pending compile ("@ + decimal(report.pending_compiles@.len())
            + " source(s) not yet fully compiled — run 'okf-mcp compile'):"@,
        item_lines(views(report.pending_compiles@), "  "@, ""@),
    ) + section(
        "Broken links ("@ + decimal(report.broken_links@.len()) + "):"@,
        pair_lines(
            views(report.broken_links@),
            "  "@,
            " -> [["@,
            "]] (target does not exist)"@,
        ),
    ) + section(
        "Missing provenance sources ("@ + decimal(report.missing_sources@.len()) + "):"@,
        pair_lines(
            views(report.missing_sources@),
            "  "@,
            ": sources entry '"@,
            "' does not exist"@,
        ),
    ) + section(
        "Orphan pages ("@ + decimal(report.orphan_pages@.len()) + ", warning):"@,
        item_lines(views(report.orphan_pages@), "  "@, " is not linked from any other page"@),
    ) + section(
        "Cross-vault links ("@ + decimal(report.cross_vault_links@.len()) + ", informational):"@,
        pair_lines(views(report.cross_vault_links@), "  "@, " -> [["@, "]]"@),
    ) + seq![
        if report.failed() {
            "FAILED: fix broken links and missing sources above."@
        } else {
            "OK: no blocking issues (see warnings above)."@
        },
    ]
}

/// The text of a report.
pub open spec fn report_text(report: LintReport) -> Seq<char> {
    if is_clean(report) {
        "OK: no lint issues found."@
    } else {
        joined(report_lines(report), "\n"@)
    }
}

/// `before`, `n` in decimal, and `after`.
pub fn counted(before: &str, n: usize, after: &str) -> (r: String)
    ensures
        r@ == before@ + decimal(n as nat) + after@,
{
    let mut s = before.to_string();
    let digits = decimal_text(n as u64);
    s.append(digits.as_str());
    s.append(after);
    s
}

/// Adds a headline and a line for each item, unless there are none.
pub fn add_items(
    out: &mut Vec<String>,
    headline: String,
    items: &Vec<String>,
    before: &str,
    after: &str,
)
    ensures
        views(final(out)@) == views(old(out)@) + section(
            headline@,
            item_lines(views(items@), before@, after@),
        ),
{
    let ghost had = views(out@);
    if items.len() == 0 {
        assert(views(out@) + seq![] =~= views(out@));
        return;
    }
    let ghost first = headline@;
    out.push(headline);
    let ghost lines = item_lines(views(items@), before@, after@);
    assert(views(out@) =~= had + (seq![first] + lines.take(0)));
    let mut i: usize = 0;
    while i < items.len()
        invariant
            i <= items@.len(),
            lines == item_lines(views(items@), before@, after@),
            views(out@) == had + (seq![first] + lines.take(i as int)),
        decreases items@.len() - i,
    {
        let ghost was = out@;
        let mut line = before.to_string();
        line.append(items[i].as_str());
        line.append(after);
        let ghost what = line@;
        out.push(line);
        proof {
            assert(views(out@) =~= views(was).push(what));
            assert(what == lines[i as int]);
            assert(lines.take(i + 1) =~= lines.take(i as int).push(what));
            assert((had + (seq![first] + lines.take(i as int))).push(what) =~= had + (seq![first]
                + lines.take(i + 1)));
        }
        i += 1;
    }
    assert(lines.take(lines.len() as int) =~= lines);
}

fn add_pairs(
    out: &mut Vec<String>,
    headline: String,
    items: &Vec<(String, String)>,
    before: &str,
    between: &str,
    after: &str,
)
    ensures
        views(final(out)@) == views(old(out)@) + section(
            headline@,
            pair_lines(views(items@), before@, between@, after@),
        ),
{
    let ghost had = views(out@);
    if items.len() == 0 {
        assert(views(out@) + seq![] =~= views(out@));
        return;
    }
    let ghost first = headline@;
    out.push(headline);
    let ghost lines = pair_lines(views(items@), before@, between@, after@);
    assert(views(out@) =~= had + (seq![first] + lines.take(0)));
    let mut i: usize = 0;
    while i < items.len()
        invariant
            i <= items@.len(),
            lines == pair_lines(views(items@), before@, between@, after@),
            views(out@) == had + (seq![first] + lines.take(i as int)),
        decreases items@.len() - i,
    {
        let ghost was = out@;
        let mut line = before.to_string();
        line.append(items[i].0.as_str());
        line.append(between);
        line.append(items[i].1.as_str());
        line.append(after);
        let ghost what = line@;
        out.push(line);
        proof {
            assert(views(out@) =~= views(was).push(what));
            assert(what == lines[i as int]);
            assert(lines.take(i + 1) =~= lines.take(i as int).push(what));
            assert((had + (seq![first] + lines.take(i as int))).push(what) =~= had + (seq![first]
                + lines.take(i + 1)));
        }
        i += 1;
    }
    assert(lines.take(lines.len() as int) =~= lines);
}

/// A lint report as text: what is to be done, what is broken, what is missing, what
/// is unused, and whether the check failed.
pub fn to_text(report: &LintReport) -> (r: String)
    ensures
        r@ == report_text(*report),
{
    if !report.has_errors() && report.pending_compiles.len() == 0 && report.orphan_pages.len() == 0
        && report.cross_vault_links.len() == 0 {
        return "OK: no lint issues found.".to_string();
    }
    let mut lines: Vec<String> = Vec::new();
    assert(views(lines@) =~= seq![]);
    add_items(
        &mut lines,
        counted(
            "Pending compile (",
            report.pending_compiles.len(),
            " source(s) not yet fully compiled — run 'okf-mcp compile'):",
        ),
        &report.pending_compiles,
        "  ",
        "",
    );
    add_pairs(
        &mut lines,
        counted("Broken links (", report.broken_links.len(), "):"),
        &report.broken_links,
        "  ",
        " -> [[",
        "]] (target does not exist)",
    );
    add_pairs(
        &mut lines,
        counted("Missing provenance sources (", report.missing_sources.len(), "):"),
        &report.missing_sources,
        "  ",
        ": sources entry '",
        "' does not exist",
    );
    add_items(
        &mut lines,
        counted("Orphan pages (", report.orphan_pages.len(), ", warning):"),
        &report.orphan_pages,
        "  ",
        " is not linked from any other page",
    );
    add_pairs(
        &mut lines,
        counted("Cross-vault links (", report.cross_vault_links.len(), ", informational):"),
        &report.cross_vault_links,
        "  ",
        " -> [[",
        "]]",
    );
    let ghost before = lines@;
    let verdict: String = if report.has_errors() {
        "FAILED: fix broken links and missing sources above.".to_string()
    } else {
        "OK: no blocking issues (see warnings above).".to_string()
    };
    let ghost last = verdict@;
    lines.push(verdict);
    proof {
        assert(views(lines@) =~= views(before).push(last));
        assert(views(lines@) =~= report_lines(*report));
    }
    join(&lines, "\n")
}

// ---------------------------------------------------------------------------
// Laws
// ---------------------------------------------------------------------------

proof fn lemma_line_is_told(report: LintReport, line: Seq<char>)
    requires
        !is_clean(report),
        report_lines(report).contains(line),
    ensures
        has_part(report_text(report), line),
{
    let lines = report_lines(report);
    let k = choose|k: int| 0 <= k < lines.len() && lines[k] == line;
    law_joined_parts_are_there(lines, "\n"@, k);
}

proof fn lemma_in_section(headline: Seq<char>, lines: Seq<Seq<char>>, i: int)
    requires
        0 <= i < lines.len(),
    ensures
        section(headline, lines).contains(lines[i]),
{
    assert(section(headline, lines)[i + 1] == lines[i]);
}

/// A report tells every finding in full, at whatever place of its list, and says at its end
/// whether the check failed. It says that nothing was found only if nothing was.
pub proof fn law_a_report_tells_every_finding(report: LintReport, i: int)
    ensures
        0 <= i < report.pending_compiles@.len() ==> has_part(
            report_text(report),
            "  "@ + report.pending_compiles@[i]@ + ""@,
        ),
        0 <= i < report.broken_links@.len() ==> has_part(
            report_text(report),
            "  "@ + report.broken_links@[i].0@ + " -> [["@ + report.broken_links@[i].1@
                + "]] (target does not exist)"@,
        ),
        0 <= i < report.missing_sources@.len() ==> has_part(
            report_text(report),
            "  "@ + report.missing_sources@[i].0@ + ": sources entry '"@
                + report.missing_sources@[i].1@ + "' does not exist"@,
        ),
        0 <= i < report.orphan_pages@.len() ==> has_part(
            report_text(report),
            "  "@ + report.orphan_pages@[i]@ + " is not linked from any other page"@,
        ),
        0 <= i < report.cross_vault_links@.len() ==> has_part(
            report_text(report),
            "  "@ + report.cross_vault_links@[i].0@ + " -> [["@ + report.cross_vault_links@[i].1@
                + "]]"@,
        ),
        report.broken_links@.len() > 0 || report.missing_sources@.len() > 0 ==> has_part(
            report_text(report),
            "FAILED: fix broken links and missing sources above."@,
        ),
        report.broken_links@.len() == 0 && report.missing_sources@.len() == 0 && (
        report.pending_compiles@.len() > 0 || report.orphan_pages@.len() > 0
            || report.cross_vault_links@.len() > 0) ==> has_part(
            report_text(report),
            "OK: no blocking issues (see warnings above)."@,
        ),
        report.broken_links@.len() == 0 && report.missing_sources@.len() == 0
            && report.pending_compiles@.len() == 0 && report.orphan_pages@.len() == 0
            && report.cross_vault_links@.len() == 0 ==> report_text(report)
            == "OK: no lint issues found."@,
{
    let la = item_lines(views(report.pending_compiles@), "  "@, ""@);
    let lb = pair_lines(
        views(report.broken_links@),
        "  "@,
        " -> [["@,
        "]] (target does not exist)"@,
    );
    let lc = pair_lines(
        views(report.missing_sources@),
        "  "@,
        ": sources entry '"@,
        "' does not exist"@,
    );
    let ld = item_lines(
        views(report.orphan_pages@),
        "  "@,
        " is not linked from any other page"@,
    );
    let le = pair_lines(views(report.cross_vault_links@), "  "@, " -> [["@, "]]"@);
    let ha = "Pending compile ("@ + decimal(report.pending_compiles@.len())
        + " source(s) not yet fully compiled — run 'okf-mcp compile'):"@;
    let hb = "Broken links ("@ + decimal(report.broken_links@.len()) + "):"@;
    let hc = "Missing provenance sources ("@ + decimal(report.missing_sources@.len()) + "):"@;
    let hd = "Orphan pages ("@ + decimal(report.orphan_pages@.len()) + ", warning):"@;
    let he = "Cross-vault links ("@ + decimal(report.cross_vault_links@.len())
        + ", informational):"@;
    let verdict = if report.failed() {
        "FAILED: fix broken links and missing sources above."@
    } else {
        "OK: no blocking issues (see warnings above)."@
    };
    let a = section(ha, la);
    let b = section(hb, lb);
    let c = section(hc, lc);
    let d = section(hd, ld);
    let e = section(he, le);
    let f = seq![verdict];
    assert(report_lines(report) == a + b + c + d + e + f);
    assert forall|line: Seq<char>| #[trigger] report_lines(report).contains(line) <==> a.contains(
        line,
    ) || b.contains(line) || c.contains(line) || d.contains(line) || e.contains(line)
        || f.contains(line) by {
        lemma_contained_in_either(a, b, line);
        lemma_contained_in_either(a + b, c, line);
        lemma_contained_in_either(a + b + c, d, line);
        lemma_contained_in_either(a + b + c + d, e, line);
        lemma_contained_in_either(a + b + c + d + e, f, line);
    }
    if 0 <= i < report.pending_compiles@.len() {
        lemma_in_section(ha, la, i);
        lemma_line_is_told(report, la[i]);
    }
    if 0 <= i < report.broken_links@.len() {
        lemma_in_section(hb, lb, i);
        lemma_line_is_told(report, lb[i]);
    }
    if 0 <= i < report.missing_sources@.len() {
        lemma_in_section(hc, lc, i);
        lemma_line_is_told(report, lc[i]);
    }
    if 0 <= i < report.orphan_pages@.len() {
        lemma_in_section(hd, ld, i);
        lemma_line_is_told(report, ld[i]);
    }
    if 0 <= i < report.cross_vault_links@.len() {
        lemma_in_section(he, le, i);
        lemma_line_is_told(report, le[i]);
    }
    if !is_clean(report) {
        assert(f[0] == verdict);
        assert(f.contains(verdict));
        lemma_line_is_told(report, verdict);
    }
}

} // verus!
