//! The vector index. A document is indexed by sections, so that a search can point to
//! the place that matches.

use vstd::prelude::*;

use crate::order::{by_rank, lemma_ranked, ranked, sort_by_rank, Ranked};
use crate::text::{
    chars_of, decimal, decimal_text, has_prefix, is_blank, lines, lines_of, opt_view, strip_prefix,
    text_eq, text_slice, trim, trimmed, views,
};

verus! {

/// How many numbers a vector has.
pub const EMBEDDING_DIM: usize = 768;

/// How many characters of a section are shown.
pub const SNIPPET_CHARS: usize = 280;

/// `## `, which begins a section.
pub open spec fn section_mark() -> Seq<char> {
    seq!['#', '#', ' ']
}

/// A body that is being cut into sections.
pub struct Cutting {
    /// The sections that are complete.
    pub done: Seq<(Option<Seq<char>>, Seq<char>)>,
    /// What the section that is being read is called.
    pub heading: Option<Seq<char>>,
    /// Its text so far.
    pub text: Seq<char>,
}

/// The sections that there are when nothing follows. A section without text is none.
pub open spec fn completed(cutting: Cutting) -> Seq<(Option<Seq<char>>, Seq<char>)> {
    if trim(cutting.text).len() == 0 {
        cutting.done
    } else {
        cutting.done.push((cutting.heading, trim(cutting.text)))
    }
}

/// A body after these lines.
pub open spec fn cut_lines(all: Seq<Seq<char>>) -> Cutting
    decreases all.len(),
{
    if all.len() == 0 {
        Cutting { done: seq![], heading: None, text: seq![] }
    } else {
        let before = cut_lines(all.drop_last());
        if has_prefix(all.last(), section_mark()) {
            Cutting {
                done: completed(before),
                heading: Some(trim(all.last().skip(3))),
                text: seq![],
            }
        } else {
            Cutting { text: before.text + all.last() + seq!['\n'], ..before }
        }
    }
}

/// The sections of a body; a single one without text, if there is no text at all.
pub open spec fn chunks_of(body: Seq<char>) -> Seq<(Option<Seq<char>>, Seq<char>)> {
    let all = completed(cut_lines(lines(body)));
    if all.len() == 0 {
        seq![(None, seq![])]
    } else {
        all
    }
}

/// A section as a pair of its heading and its text.
pub open spec fn chunk_view(chunk: (Option<String>, String)) -> (Option<Seq<char>>, Seq<char>) {
    (opt_view(chunk.0), chunk.1@)
}

/// Sections as pairs of their headings and their texts.
pub open spec fn chunk_views(chunks: Seq<(Option<String>, String)>) -> Seq<
    (Option<Seq<char>>, Seq<char>),
> {
    chunks.map_values(|c: (Option<String>, String)| chunk_view(c))
}

/// Cuts a body into sections at the headings of the second level. What stands before the
/// first of them is a section without a heading.
pub fn chunk_by_heading(body: &str) -> (r: Vec<(Option<String>, String)>)
    ensures
        chunk_views(r@) == chunks_of(body@),
        r@.len() > 0,
{
    proof {
        reveal_strlit("## ");
        assert("## "@ =~= section_mark());
    }
    let all = lines_of(body);
    let ghost ls = views(all@);
    let mut chunks: Vec<(Option<String>, String)> = Vec::new();
    let mut heading: Option<String> = None;
    let mut text = String::new();
    let mut i: usize = 0;
    proof {
        assert(ls.take(0) =~= seq![]);
        assert(chunk_views(chunks@) =~= seq![]);
        assert(text@ =~= seq![]);
    }
    while i < all.len()
        invariant
            ls == views(all@),
            i <= all@.len(),
            "## "@ == section_mark(),
            cut_lines(ls.take(i as int)) == (Cutting {
                done: chunk_views(chunks@),
                heading: opt_view(heading),
                text: text@,
            }),
        decreases all@.len() - i,
    {
        let ghost before = cut_lines(ls.take(i as int));
        proof {
            assert(ls.take(i + 1).drop_last() =~= ls.take(i as int));
            assert(ls.take(i + 1).last() == all@[i as int]@);
        }
        match strip_prefix(all[i].as_str(), "## ") {
            Some(rest) => {
                if !is_blank(text.as_str()) {
                    let ghost had = chunks@;
                    let done = (heading.take(), trimmed(text.as_str()));
                    let ghost what = chunk_view(done);
                    chunks.push(done);
                    assert(chunk_views(chunks@) =~= chunk_views(had).push(what));
                }
                assert(chunk_views(chunks@) == completed(before));
                heading = Some(trimmed(rest.as_str()));
                text = String::new();
                assert(text@ =~= seq![]);
            },
            None => {
                text.append(all[i].as_str());
                text.push('\n');
                assert(text@ =~= before.text + all@[i as int]@ + seq!['\n']);
            },
        }
        i += 1;
    }
    assert(ls.take(ls.len() as int) =~= ls);
    if !is_blank(text.as_str()) {
        let ghost had = chunks@;
        let done = (heading, trimmed(text.as_str()));
        let ghost what = chunk_view(done);
        chunks.push(done);
        assert(chunk_views(chunks@) =~= chunk_views(had).push(what));
    }
    if chunks.len() == 0 {
        let empty = String::new();
        assert(empty@ =~= seq![]);
        chunks.push((None, empty));
        assert(chunk_views(chunks@) =~= seq![(None::<Seq<char>>, Seq::<char>::empty())]);
    }
    chunks
}

/// Lines, each with a line break behind it.
pub open spec fn ended_lines(all: Seq<Seq<char>>) -> Seq<char>
    decreases all.len(),
{
    if all.len() == 0 {
        seq![]
    } else {
        ended_lines(all.drop_last()) + all.last() + seq!['\n']
    }
}

proof fn lemma_no_section(all: Seq<Seq<char>>)
    requires
        forall|i: int| 0 <= i < all.len() ==> !has_prefix(#[trigger] all[i], section_mark()),
    ensures
        cut_lines(all) == (Cutting { done: seq![], heading: None, text: ended_lines(all) }),
    decreases all.len(),
{
    if all.len() > 0 {
        assert forall|i: int| 0 <= i < all.drop_last().len() implies !has_prefix(
            #[trigger] all.drop_last()[i],
            section_mark(),
        ) by {
            assert(all.drop_last()[i] == all[i]);
        }
        lemma_no_section(all.drop_last());
        assert(!has_prefix(all[all.len() - 1], section_mark()));
    }
}

/// A body without headings of the second level is one section: all of it.
pub proof fn law_without_headings_there_is_one_section(body: Seq<char>)
    requires
        forall|i: int|
            0 <= i < lines(body).len() ==> !has_prefix(#[trigger] lines(body)[i], section_mark()),
    ensures
        chunks_of(body) == seq![(None::<Seq<char>>, trim(ended_lines(lines(body))))],
{
    lemma_no_section(lines(body));
    if trim(ended_lines(lines(body))).len() == 0 {
        assert(trim(ended_lines(lines(body))) =~= seq![]);
    }
    assert(chunks_of(body) =~= seq![(None::<Seq<char>>, trim(ended_lines(lines(body))))]);
}

/// Whether the vectors of a document have to be computed again: its content is not what
/// it was, or it is not indexed yet. `stored` is the hash that is noted of it.
pub fn needs_reembedding(stored: Option<&str>, content_hash: &str) -> (r: bool)
    ensures
        r == (match stored {
            Some(h) => h@ != content_hash@,
            None => true,
        }),
{
    match stored {
        Some(h) => !text_eq(h, content_hash),
        None => true,
    }
}

/// A section as the vector index keeps it. Its vector is that of `text`.
#[derive(Debug)]
pub struct Section {
    pub section_key: String,
    pub heading: Option<String>,
    pub snippet: String,
    pub text: String,
}

/// What is shown of a section.
pub open spec fn snippet_of(text: Seq<char>) -> Seq<char> {
    if text.len() <= SNIPPET_CHARS {
        text
    } else {
        text.take(SNIPPET_CHARS as int)
    }
}

/// The sections of the document at `path`, each with a key of its own.
pub fn sections_of(path: &str, body: &str) -> (r: Vec<Section>)
    ensures
        r@.len() == chunks_of(body@).len(),
        forall|i: int|
            0 <= i < r@.len() ==> {
                &&& (#[trigger] r@[i]).section_key@ == path@ + "#"@ + decimal(i as nat)
                &&& opt_view(r@[i].heading) == chunks_of(body@)[i].0
                &&& r@[i].text@ == chunks_of(body@)[i].1
                &&& r@[i].snippet@ == snippet_of(chunks_of(body@)[i].1)
            },
{
    let chunks = chunk_by_heading(body);
    let ghost all = chunks@;
    let total: usize = chunks.len();
    let mut out: Vec<Section> = Vec::new();
    let mut index: usize = 0;
    for chunk in it: chunks
        invariant
            it.seq() == all,
            index == it.index(),
            total == all.len(),
            chunk_views(all) == chunks_of(body@),
            out@.len() == it.index(),
            forall|i: int|
                0 <= i < out@.len() ==> {
                    &&& (#[trigger] out@[i]).section_key@ == path@ + "#"@ + decimal(i as nat)
                    &&& opt_view(out@[i].heading) == chunks_of(body@)[i].0
                    &&& out@[i].text@ == chunks_of(body@)[i].1
                    &&& out@[i].snippet@ == snippet_of(chunks_of(body@)[i].1)
                },
    {
        assert(chunk_views(all)[it.index()] == chunk_view(chunk));
        let (heading, text) = chunk;
        let mut section_key = path.to_string();
        section_key.append("#");
        let digits = decimal_text(index as u64);
        section_key.append(digits.as_str());
        let cs = chars_of(text.as_str());
        let n: usize = if cs.len() <= SNIPPET_CHARS {
            cs.len()
        } else {
            SNIPPET_CHARS
        };
        let snippet = text_slice(&cs, 0, n);
        assert(snippet@ =~= snippet_of(text@));
        out.push(Section { section_key, heading, snippet, text });
        index += 1;
    }
    out
}

// ---------------------------------------------------------------------------
// Hits
// ---------------------------------------------------------------------------

/// A section that was found. Its distance is a number in double precision that is not
/// negative; such numbers are ordered as their bits are.
#[derive(Debug)]
pub struct VectorHit {
    pub path: String,
    pub section_key: String,
    pub heading: Option<String>,
    pub snippet: String,
    pub distance_bits: u64,
}

pub struct HitView {
    pub path: Seq<char>,
    pub section_key: Seq<char>,
    pub heading: Option<Seq<char>>,
    pub snippet: Seq<char>,
    pub distance_bits: u64,
}

impl View for VectorHit {
    type V = HitView;

    open spec fn view(&self) -> HitView {
        HitView {
            path: self.path@,
            section_key: self.section_key@,
            heading: opt_view(self.heading),
            snippet: self.snippet@,
            distance_bits: self.distance_bits,
        }
    }
}

/// The first hit in the document at `path`, from position `from` on.
pub open spec fn hit_for(hits: Seq<HitView>, path: Seq<char>, from: int) -> Option<HitView>
    decreases hits.len() - from,
{
    if from < 0 || from >= hits.len() {
        None
    } else if hits[from].path == path {
        Some(hits[from])
    } else {
        hit_for(hits, path, from + 1)
    }
}

/// The first hit in the document at `path`.
pub fn find_hit<'a>(hits: &'a Vec<VectorHit>, path: &str) -> (r: Option<&'a VectorHit>)
    ensures
        opt_view(r) == hit_for(views(hits@), path@, 0),
{
    let mut i: usize = 0;
    while i < hits.len()
        invariant
            i <= hits@.len(),
            hit_for(views(hits@), path@, 0) == hit_for(views(hits@), path@, i as int),
        decreases hits@.len() - i,
    {
        assert(views(hits@)[i as int] == hits@[i as int]@);
        if text_eq(hits[i].path.as_str(), path) {
            return Some(&hits[i]);
        }
        i += 1;
    }
    None
}

/// Whether `hit` is the nearest of `hits` in its document, and the first such.
pub open spec fn is_best(hits: Seq<HitView>, i: int) -> bool {
    &&& forall|j: int|
        0 <= j < hits.len() && (#[trigger] hits[j]).path == hits[i].path ==> hits[i].distance_bits
            <= hits[j].distance_bits
    &&& forall|j: int|
        0 <= j < i && (#[trigger] hits[j]).path == hits[i].path ==> hits[i].distance_bits
            < hits[j].distance_bits
}

/// The best hits of the documents among the first `n` hits, as they came.
pub open spec fn best_among(hits: Seq<HitView>, n: nat) -> Seq<HitView>
    decreases n,
{
    if n == 0 || n > hits.len() {
        seq![]
    } else {
        let rest = best_among(hits, (n - 1) as nat);
        if is_best(hits, n - 1) {
            rest.push(hits[n - 1])
        } else {
            rest
        }
    }
}

impl Ranked for VectorHit {
    open spec fn rank(v: HitView) -> u64 {
        v.distance_bits
    }

    fn rank_of(&self) -> (r: u64) {
        self.distance_bits
    }
}

fn best(hits: &Vec<VectorHit>, i: usize) -> (r: bool)
    requires
        i < hits@.len(),
    ensures
        r == is_best(views(hits@), i as int),
{
    let ghost all = views(hits@);
    let mut j: usize = 0;
    while j < hits.len()
        invariant
            all == views(hits@),
            i < hits@.len(),
            j <= hits@.len(),
            forall|k: int|
                0 <= k < j && (#[trigger] all[k]).path == all[i as int].path
                    ==> all[i as int].distance_bits <= all[k].distance_bits && (k < i
                    ==> all[i as int].distance_bits < all[k].distance_bits),
        decreases hits@.len() - j,
    {
        assert(all[j as int] == hits@[j as int]@);
        assert(all[i as int] == hits@[i as int]@);
        if text_eq(hits[j].path.as_str(), hits[i].path.as_str()) {
            if hits[j].distance_bits < hits[i].distance_bits || (j < i && hits[j].distance_bits
                == hits[i].distance_bits) {
                return false;
            }
        }
        j += 1;
    }
    true
}

fn copy_hit(hit: &VectorHit) -> (r: VectorHit)
    ensures
        r@ == hit@,
{
    VectorHit {
        path: hit.path.clone(),
        section_key: hit.section_key.clone(),
        heading: crate::text::copy_opt(&hit.heading),
        snippet: hit.snippet.clone(),
        distance_bits: hit.distance_bits,
    }
}

/// The best hit of each document, the nearest first; those that are equally near as they
/// came.
pub fn best_hits(hits: &Vec<VectorHit>) -> (r: Vec<VectorHit>)
    ensures
        views(r@) == ranked::<VectorHit>(best_among(views(hits@), hits@.len())),
{
    let ghost all = views(hits@);
    let mut out: Vec<VectorHit> = Vec::new();
    let mut i: usize = 0;
    assert(views(out@) =~= seq![]);
    while i < hits.len()
        invariant
            all == views(hits@),
            i <= hits@.len(),
            views(out@) == best_among(all, i as nat),
        decreases hits@.len() - i,
    {
        let ghost before = out@;
        assert(all[i as int] == hits@[i as int]@);
        if best(hits, i) {
            let copy = copy_hit(&hits[i]);
            let ghost what = copy@;
            out.push(copy);
            assert(views(out@) =~= views(before).push(what));
        }
        i += 1;
    }
    sort_by_rank(out)
}

/// Of the hits in a document one is the best.
proof fn lemma_best_exists(hits: Seq<HitView>, n: nat, path: Seq<char>) -> (i: int)
    requires
        n <= hits.len(),
        exists|j: int| 0 <= j < n && (#[trigger] hits[j]).path == path,
    ensures
        0 <= i < n,
        hits[i].path == path,
        forall|j: int|
            0 <= j < n && (#[trigger] hits[j]).path == path ==> hits[i].distance_bits
                <= hits[j].distance_bits,
        forall|j: int|
            0 <= j < i && (#[trigger] hits[j]).path == path ==> hits[i].distance_bits
                < hits[j].distance_bits,
    decreases n,
{
    let last = n - 1;
    if exists|j: int| 0 <= j < last && (#[trigger] hits[j]).path == path {
        let i = lemma_best_exists(hits, last as nat, path);
        if hits[last].path == path && hits[last].distance_bits < hits[i].distance_bits {
            last
        } else {
            i
        }
    } else {
        last
    }
}

spec fn is_a_best(hits: Seq<HitView>, n: nat, hit: HitView) -> bool {
    exists|i: int| 0 <= i < n && #[trigger] is_best(hits, i) && hits[i] == hit
}

proof fn lemma_best_among(hits: Seq<HitView>, n: nat)
    requires
        n <= hits.len(),
    ensures
        forall|i: int|
            0 <= i < n && #[trigger] is_best(hits, i) ==> best_among(hits, n).contains(hits[i]),
        forall|k: int|
            0 <= k < best_among(hits, n).len() ==> is_a_best(
                hits,
                n,
                #[trigger] best_among(hits, n)[k],
            ),
    decreases n,
{
    if n > 0 {
        lemma_best_among(hits, (n - 1) as nat);
        let rest = best_among(hits, (n - 1) as nat);
        let all = best_among(hits, n);
        assert forall|i: int| 0 <= i < n && #[trigger] is_best(hits, i) implies all.contains(
            hits[i],
        ) by {
            if i < n - 1 {
                assert(rest.contains(hits[i]));
                let k = choose|k: int| 0 <= k < rest.len() && rest[k] == hits[i];
                assert(all[k] == hits[i]);
            } else {
                assert(all[rest.len() as int] == hits[i]);
            }
        }
        assert forall|k: int| 0 <= k < all.len() implies is_a_best(hits, n, #[trigger] all[k]) by {
            if k < rest.len() {
                assert(all[k] == rest[k]);
                assert(is_a_best(hits, (n - 1) as nat, rest[k]));
                let i = choose|i: int|
                    0 <= i < n - 1 && #[trigger] is_best(hits, i) && hits[i] == rest[k];
                assert(is_best(hits, i) && hits[i] == all[k]);
            } else {
                assert(is_best(hits, n - 1) && hits[n - 1] == all[k]);
            }
        }
    }
}

/// Every document in which something was found is listed, by the hit that is nearest, and
/// what is nearer is listed first.
pub proof fn law_best_hits_are_the_nearest(hits: Seq<HitView>, path: Seq<char>)
    requires
        exists|j: int| 0 <= j < hits.len() && (#[trigger] hits[j]).path == path,
    ensures
        ({
            let best = ranked::<VectorHit>(best_among(hits, hits.len()));
            &&& by_rank::<VectorHit>(best)
            &&& exists|k: int| 0 <= k < best.len() && (#[trigger] best[k]).path == path
            &&& forall|k: int, j: int|
                0 <= k < best.len() && (#[trigger] best[k]).path == path && 0 <= j < hits.len() && (
                #[trigger] hits[j]).path == path ==> best[k].distance_bits
                    <= hits[j].distance_bits
        }),
{
    let n = hits.len();
    let among = best_among(hits, n);
    let best = ranked::<VectorHit>(among);
    lemma_ranked::<VectorHit>(among);
    lemma_best_among(hits, n);
    let i = lemma_best_exists(hits, n, path);
    assert(is_best(hits, i));
    assert(among.contains(hits[i]));
    broadcast use vstd::seq_lib::group_to_multiset_ensures;

    assert(among.to_multiset().count(hits[i]) > 0);
    assert(best.contains(hits[i]));
    let k = choose|k: int| 0 <= k < best.len() && best[k] == hits[i];
    assert(best[k].path == path);
    assert forall|k: int, j: int|
        0 <= k < best.len() && (#[trigger] best[k]).path == path && 0 <= j < hits.len() && (
        #[trigger] hits[j]).path == path implies best[k].distance_bits
        <= hits[j].distance_bits by {
        assert(best.contains(best[k]));
        assert(best.to_multiset().count(best[k]) > 0);
        assert(among.contains(best[k]));
        let m = choose|m: int| 0 <= m < among.len() && among[m] == best[k];
        assert(is_a_best(hits, n, among[m]));
        let h = choose|h: int| 0 <= h < n && #[trigger] is_best(hits, h) && hits[h] == among[m];
        assert(is_best(hits, h));
    }
}

proof fn lemma_section(
    all: Seq<Seq<char>>,
    heading: Seq<char>,
    rest: Seq<Seq<char>>,
)
    requires
        has_prefix(heading, section_mark()),
        forall|i: int| 0 <= i < rest.len() ==> !has_prefix(#[trigger] rest[i], section_mark()),
    ensures
        cut_lines(all.push(heading) + rest) == (Cutting {
            done: completed(cut_lines(all)),
            heading: Some(trim(heading.skip(3))),
            text: ended_lines(rest),
        }),
    decreases rest.len(),
{
    let whole = all.push(heading) + rest;
    if rest.len() == 0 {
        assert(whole =~= all.push(heading));
        assert(whole.drop_last() =~= all);
    } else {
        let front = rest.drop_last();
        assert forall|i: int| 0 <= i < front.len() implies !has_prefix(
            #[trigger] front[i],
            section_mark(),
        ) by {
            assert(front[i] == rest[i]);
        }
        lemma_section(all, heading, front);
        assert(whole.drop_last() =~= all.push(heading) + front);
        assert(whole.last() == rest.last());
        assert(!has_prefix(rest[rest.len() - 1], section_mark()));
    }
}

/// Each heading of the second level begins a section that goes by what the heading says and
/// holds all lines up to the next one; it is left out only if there is nothing but white
/// space in it. What stands in front of the heading is cut as if nothing followed.
pub proof fn law_each_heading_begins_a_section(
    before: Seq<Seq<char>>,
    heading: Seq<char>,
    under: Seq<Seq<char>>,
)
    requires
        has_prefix(heading, seq!['#', '#', ' ']),
        forall|i: int| 0 <= i < under.len() ==> !has_prefix(
            #[trigger] under[i],
            section_mark(),
        ),
    ensures
        completed(cut_lines(before.push(heading) + under)) == completed(cut_lines(before)) + (
        if trim(ended_lines(under)).len() > 0 {
            seq![(Some(trim(heading.skip(3))), trim(ended_lines(under)))]
        } else {
            seq![]
        }),
{
    assert(section_mark() =~= seq!['#', '#', ' ']);
    lemma_section(before, heading, under);
    let done = completed(cut_lines(before));
    assert(done + Seq::<(Option<Seq<char>>, Seq<char>)>::empty() =~= done);
}

/// A snippet is the front of a section, and all of it where it is short enough.
pub proof fn law_a_snippet_is_the_front_of_a_section(text: Seq<char>)
    ensures
        snippet_of(text).len() <= 280,
        has_prefix(text, snippet_of(text)),
        text.len() <= 280 ==> snippet_of(text) == text,
        text.len() > 280 ==> snippet_of(text).len() == 280,
{
    assert(text.subrange(0, snippet_of(text).len() as int) =~= snippet_of(text));
}

proof fn lemma_best_paths(hits: Seq<HitView>, n: nat)
    requires
        n <= hits.len(),
    ensures
        ({
            let all = best_among(hits, n);
            forall|a: int, b: int|
                #![trigger all[a], all[b]]
                0 <= a < b < all.len() ==> all[a].path != all[b].path
        }),
    decreases n,
{
    if n > 0 {
        let m = (n - 1) as nat;
        lemma_best_paths(hits, m);
        lemma_best_among(hits, m);
        let rest = best_among(hits, m);
        let all = best_among(hits, n);
        assert forall|a: int, b: int|
            #![trigger all[a], all[b]]
            0 <= a < b < all.len() implies all[a].path != all[b].path by {
            assert(all[a] == rest[a]);
            if b < rest.len() {
                assert(all[b] == rest[b]);
            } else {
                assert(is_a_best(hits, m, rest[a]));
                let i = choose|i: int|
                    0 <= i < m && #[trigger] is_best(hits, i) && hits[i] == rest[a];
                assert(is_best(hits, n - 1));
                if hits[i].path == hits[n - 1].path {
                    assert(hits[i].distance_bits <= hits[n - 1].distance_bits);
                    assert(hits[n - 1].distance_bits < hits[i].distance_bits);
                }
            }
        }
    }
}

/// No document is listed twice, and every hit that is listed is one that was found.
pub proof fn law_each_document_is_listed_once(hits: Seq<HitView>, a: int, b: int)
    ensures
        ({
            let best = ranked::<VectorHit>(best_among(hits, hits.len()));
            &&& 0 <= a < b < best.len() ==> best[a].path != best[b].path
            &&& 0 <= a < best.len() ==> hits.contains(best[a])
        }),
{
    broadcast use vstd::seq_lib::group_to_multiset_ensures;

    let n = hits.len();
    let among = best_among(hits, n);
    let best = ranked::<VectorHit>(among);
    lemma_ranked::<VectorHit>(among);
    lemma_best_paths(hits, n);
    lemma_best_among(hits, n);
    assert(among.no_duplicates()) by {
        assert forall|i: int, j: int|
            0 <= i < among.len() && 0 <= j < among.len() && i != j implies among[i] != among[j] by {
            if i < j {
                assert(among[i].path != among[j].path);
            } else {
                assert(among[j].path != among[i].path);
            }
        }
    }
    among.lemma_multiset_has_no_duplicates();
    best.lemma_multiset_has_no_duplicates_conv();
    if 0 <= a < best.len() {
        assert(best.contains(best[a]));
        assert(best.to_multiset().count(best[a]) > 0);
        assert(among.contains(best[a]));
        let i = choose|i: int| 0 <= i < among.len() && among[i] == best[a];
        assert(is_a_best(hits, n, among[i]));
        let h = choose|h: int| 0 <= h < n && #[trigger] is_best(hits, h) && hits[h] == among[i];
        assert(hits[h] == best[a]);
        if a < b < best.len() {
            assert(best.contains(best[b]));
            assert(best.to_multiset().count(best[b]) > 0);
            assert(among.contains(best[b]));
            let j = choose|j: int| 0 <= j < among.len() && among[j] == best[b];
            assert(best[a] != best[b]);
            if i < j {
                assert(among[i].path != among[j].path);
            } else {
                assert(among[j].path != among[i].path);
            }
        }
    }
}

/// A hit is found for a document exactly if there is one, and it is the first.
pub proof fn law_a_hit_is_found_by_its_path(hits: Seq<HitView>, path: Seq<char>, from: int)
    requires
        0 <= from,
    ensures
        match hit_for(hits, path, from) {
            Some(hit) => exists|i: int|
                from <= i < hits.len() && #[trigger] hits[i] == hit && hit.path == path && forall|
                    j: int,
                |
                    from <= j < i ==> (#[trigger] hits[j]).path != path,
            None => forall|j: int| from <= j < hits.len() ==> (#[trigger] hits[j]).path != path,
        },
    decreases hits.len() - from,
{
    if from < hits.len() {
        if hits[from].path == path {
            assert(hits[from] == hit_for(hits, path, from)->0);
        } else {
            law_a_hit_is_found_by_its_path(hits, path, from + 1);
            if hit_for(hits, path, from) is Some {
                let hit = hit_for(hits, path, from)->0;
                let i = choose|i: int|
                    from + 1 <= i < hits.len() && #[trigger] hits[i] == hit && hit.path == path
                        && forall|j: int| from + 1 <= j < i ==> (#[trigger] hits[j]).path != path;
                assert(hits[i] == hit);
            }
        }
    }
}

} // verus!
