//! What the explorer's server answers, and to whom.

use vstd::prelude::*;

use crate::explorer::graph::{node_named, Graph, GraphNode};
use crate::ingest::frontmatter::{
    blob_name, filename_identity, id_shaped, law_blob_name_carries_its_raw_id, law_slug_shape,
    raw_id_from_filename, slug,
};
use crate::order::{lemma_sorted_set, sort_and_dedup, sorted_set};
use crate::paths::{
    file_name, file_name_of, file_stem, law_a_file_name_is_the_last_step, stem, stem_of,
};
use crate::search::query::SearchResult;
use crate::text::{
    decimal, decimal_text, has_prefix, is_alnum, lowercase_ascii, lowered, starts_with, text_eq,
    trim, trimmed, views,
};

verus! {

/// The stem of the file that a path names, or the path itself where it names none.
pub open spec fn stem_or_path(path: Seq<char>) -> Seq<char> {
    match file_name(path) {
        Some(name) => stem(name),
        None => path,
    }
}

fn stem_or_path_of(path: &str) -> (r: String)
    ensures
        r@ == stem_or_path(path@),
{
    match file_name_of(path) {
        Some(name) => stem_of(name.as_str()),
        None => path.to_string(),
    }
}

/// The node that stands for the document at `path`.
pub open spec fn node_for(path: Seq<char>) -> Seq<char> {
    if has_prefix(path, "raw/"@) {
        "raw:"@ + (match filename_identity(path) {
            Some(id) => id,
            None => stem_or_path(path),
        })
    } else {
        stem_or_path(path)
    }
}

/// The node that stands for the document at `path`: a page by its slug, a raw document by
/// its raw id, however its file is called. A path that names no file stands for itself.
pub fn node_id_for_path(path: &str) -> (r: String)
    ensures
        r@ == node_for(path@),
{
    if starts_with(path, "raw/") {
        let mut s = "raw:".to_string();
        match raw_id_from_filename(path) {
            Some(id) => {
                s.append(id.as_str());
            },
            None => {
                let name = stem_or_path_of(path);
                s.append(name.as_str());
            },
        }
        s
    } else {
        stem_or_path_of(path)
    }
}

/// `host` and a port.
pub open spec fn at_port(host: Seq<char>, port: u16) -> Seq<char> {
    host + ":"@ + decimal(port as nat)
}

fn with_port(host: &str, port: u16) -> (r: String)
    ensures
        r@ == at_port(host@, port),
{
    let mut s = host.to_string();
    s.append(":");
    let digits = decimal_text(port as u64);
    s.append(digits.as_str());
    s
}

/// The names under which a server that is bound at `bound` may be asked.
pub open spec fn host_names(bound: Seq<char>, port: u16, host: Seq<char>) -> Seq<Seq<char>> {
    seq![
        bound,
        at_port("localhost"@, port),
        at_port("127.0.0.1"@, port),
        at_port("[::1]"@, port),
        at_port(host, port),
    ]
}

/// The names under which the server may be asked, in order and each once. `bound` is the
/// address it is bound at, with its port, and `host` what it was told to bind at.
pub fn allowed_hosts(bound: &str, port: u16, host: &str) -> (r: Vec<String>)
    ensures
        views(r@) == sorted_set(host_names(bound@, port, host@)),
{
    let mut v: Vec<String> = Vec::new();
    v.push(bound.to_string());
    v.push(with_port("localhost", port));
    v.push(with_port("127.0.0.1", port));
    v.push(with_port("[::1]", port));
    v.push(with_port(host, port));
    assert(views(v@) =~= host_names(bound@, port, host@));
    sort_and_dedup(v)
}

/// Whether a request under this name is answered. Letters count alike, small or not.
pub open spec fn is_expected(allowed: Seq<Seq<char>>, host: Seq<char>) -> bool {
    exists|i: int| 0 <= i < allowed.len() && lowered(#[trigger] allowed[i]) == lowered(trim(host))
}

/// Refuses a request whose `Host` header names another server: a page that is open in the
/// same browser could make such a request. `host` is the header; nothing, if there is
/// none.
pub fn require_expected_host(allowed: &Vec<String>, host: &str) -> (r: Result<(), String>)
    ensures
        if is_expected(views(allowed@), host@) {
            r is Ok
        } else {
            r is Err && r->Err_0@ == "unexpected Host header '"@ + trim(host@) + "'"@
        },
{
    let name = trimmed(host);
    let wanted = lowercase_ascii(name.as_str());
    let mut i: usize = 0;
    while i < allowed.len()
        invariant
            i <= allowed@.len(),
            wanted@ == lowered(trim(host@)),
            forall|k: int|
                0 <= k < i ==> lowered(#[trigger] views(allowed@)[k]) != lowered(trim(host@)),
        decreases allowed@.len() - i,
    {
        assert(views(allowed@)[i as int] == allowed@[i as int]@);
        let own = lowercase_ascii(allowed[i].as_str());
        if text_eq(own.as_str(), wanted.as_str()) {
            return Ok(());
        }
        i += 1;
    }
    let mut s = "unexpected Host header '".to_string();
    s.append(name.as_str());
    s.append("'");
    Err(s)
}

/// The server answers under the address it is bound at and under the names of its own
/// machine.
pub proof fn law_own_names_are_expected(bound: Seq<char>, port: u16, host: Seq<char>, i: int)
    requires
        0 <= i < host_names(bound, port, host).len(),
        trim(host_names(bound, port, host)[i]) == host_names(bound, port, host)[i],
    ensures
        is_expected(sorted_set(host_names(bound, port, host)), host_names(bound, port, host)[i]),
{
    let names = host_names(bound, port, host);
    let name = names[i];
    lemma_sorted_set(names, name);
    assert(names.contains(name));
    let k = choose|k: int| 0 <= k < sorted_set(names).len() && sorted_set(names)[k] == name;
    assert(lowered(sorted_set(names)[k]) == lowered(trim(name)));
}

/// How many results the explorer asks for: twenty, unless it says otherwise, and never
/// none or more than two hundred.
pub fn explorer_limit(limit: Option<usize>) -> (r: usize)
    ensures
        r == (match limit {
            None => 20,
            Some(n) => if n < 1 {
                1
            } else if n > 200 {
                200
            } else {
                n
            },
        }),
{
    match limit {
        None => 20,
        Some(n) => if n < 1 {
            1
        } else if n > 200 {
            200
        } else {
            n
        },
    }
}

/// A search result as the explorer shows it.
#[derive(Debug)]
pub struct ExplorerHit {
    pub id: String,
    pub in_graph: bool,
    pub snippet: String,
}

/// A search result as the explorer shows it: its node, whether that is in the graph, and
/// what is shown of it: the section that was found, else what the page says of itself.
pub fn explorer_hit(graph: &Graph, result: &SearchResult) -> (r: ExplorerHit)
    ensures
        r.id@ == node_for(result.path@),
        ({
            let node = node_named(graph.nodes@, node_for(result.path@), 0);
            &&& r.in_graph == (node is Some)
            &&& r.snippet@ == (if result.snippet@.len() > 0 {
                result.snippet@
            } else {
                match node {
                    Some(n) => match n.description {
                        Some(d) => d@,
                        None => seq![],
                    },
                    None => seq![],
                }
            })
        }),
{
    let id = node_id_for_path(result.path.as_str());
    let node = graph.node(id.as_str());
    let in_graph: bool = node.is_some();
    let snippet: String = if !result.snippet.as_str().is_empty() {
        result.snippet.clone()
    } else {
        match node {
            Some(n) => match &n.description {
                Some(d) => d.clone(),
                None => {
                    let s = String::new();
                    assert(s@ =~= seq![]);
                    s
                },
            },
            None => {
                let s = String::new();
                assert(s@ =~= seq![]);
                s
            },
        }
    };
    ExplorerHit { id, in_graph, snippet }
}

/// What is said beside the results: that there is no index, if nothing was found and there
/// was none.
pub fn search_hint(results: usize, had_index: bool) -> (r: Option<&'static str>)
    ensures
        match r {
            Some(text) => results == 0 && !had_index && text@
                == "no search index yet — run `okf-mcp reindex --embeddings` for this vault"@,
            None => results > 0 || had_index,
        },
{
    if results == 0 && !had_index {
        Some("no search index yet — run `okf-mcp reindex --embeddings` for this vault")
    } else {
        None
    }
}

/// How many of the first `n` nodes are of this kind.
pub open spec fn kind_count(nodes: Seq<GraphNode>, kind: Seq<char>, n: nat) -> nat
    decreases n,
{
    if n == 0 {
        0
    } else {
        kind_count(nodes, kind, (n - 1) as nat) + (if nodes[n - 1].kind@ == kind {
            1nat
        } else {
            0nat
        })
    }
}

/// The kinds of the nodes, as they come.
pub open spec fn node_kinds(nodes: Seq<GraphNode>) -> Seq<Seq<char>> {
    nodes.map_values(|n: GraphNode| n.kind@)
}

fn count_kind(nodes: &Vec<GraphNode>, kind: &str) -> (r: usize)
    ensures
        r == kind_count(nodes@, kind@, nodes@.len()),
{
    let mut n: usize = 0;
    let mut i: usize = 0;
    while i < nodes.len()
        invariant
            i <= nodes@.len(),
            n <= i,
            n == kind_count(nodes@, kind@, i as nat),
        decreases nodes@.len() - i,
    {
        if text_eq(nodes[i].kind, kind) {
            n += 1;
        }
        i += 1;
    }
    n
}

/// The kinds of nodes in a graph, in order, and how many nodes there are of each.
pub fn kinds(graph: &Graph) -> (r: Vec<(String, usize)>)
    ensures
        r@.len() == sorted_set(node_kinds(graph.nodes@)).len(),
        forall|i: int|
            0 <= i < r@.len() ==> (#[trigger] r@[i]).0@ == sorted_set(node_kinds(graph.nodes@))[i]
                && r@[i].1 == kind_count(graph.nodes@, r@[i].0@, graph.nodes@.len()),
{
    let ghost all = node_kinds(graph.nodes@);
    let mut names: Vec<String> = Vec::new();
    let mut i: usize = 0;
    assert(views(names@) =~= all.take(0));
    while i < graph.nodes.len()
        invariant
            all == node_kinds(graph.nodes@),
            i <= graph.nodes@.len(),
            views(names@) == all.take(i as int),
        decreases graph.nodes@.len() - i,
    {
        let ghost before = names@;
        names.push(graph.nodes[i].kind.to_string());
        proof {
            assert(views(names@) =~= views(before).push(graph.nodes@[i as int].kind@));
            assert(all.take(i + 1) =~= all.take(i as int).push(graph.nodes@[i as int].kind@));
        }
        i += 1;
    }
    assert(all.take(all.len() as int) =~= all);
    let names = sort_and_dedup(names);
    let ghost wanted = sorted_set(all);
    let mut out: Vec<(String, usize)> = Vec::new();
    while out.len() < names.len()
        invariant
            views(names@) == wanted,
            out@.len() <= names@.len(),
            forall|i: int|
                0 <= i < out@.len() ==> (#[trigger] out@[i]).0@ == wanted[i] && out@[i].1
                    == kind_count(graph.nodes@, out@[i].0@, graph.nodes@.len()),
        decreases names@.len() - out@.len(),
    {
        let k: usize = out.len();
        assert(wanted[k as int] == names@[k as int]@);
        let n: usize = count_kind(&graph.nodes, names[k].as_str());
        out.push((names[k].clone(), n));
    }
    out
}

// ---------------------------------------------------------------------------
// Laws
// ---------------------------------------------------------------------------

/// A document stands for the node that the graph has for it: a page for its file name, and
/// the file of a raw blob for `raw:` and its raw id, whatever the name says behind it.
pub proof fn law_a_document_stands_for_its_node(
    path: Seq<char>,
    raw_id: Seq<char>,
    text: Seq<char>,
)
    requires
        id_shaped(raw_id),
    ensures
        !has_prefix(path, "raw/"@) && file_name(path) is Some ==> node_for(path) == file_stem(path),
        node_for("raw/"@ + blob_name(raw_id, slug(text))) == "raw:"@ + raw_id,
        node_for("raw/"@ + blob_name(raw_id, None)) == "raw:"@ + raw_id,
{
    lemma_node_of_blob(raw_id, slug(text), text);
    lemma_node_of_blob(raw_id, None, text);
}

proof fn lemma_node_of_blob(raw_id: Seq<char>, part: Option<Seq<char>>, text: Seq<char>)
    requires
        id_shaped(raw_id),
        part is None || part == slug(text),
    ensures
        node_for("raw/"@ + blob_name(raw_id, part)) == "raw:"@ + raw_id,
{
    let name = blob_name(raw_id, part);
    let path = "raw/"@ + name;
    reveal_strlit("raw/");
    reveal_strlit("--");
    reveal_strlit(".md");
    law_blob_name_carries_its_raw_id(raw_id, text);
    if part is Some {
        law_slug_shape(text);
    }
    assert forall|i: int| 0 <= i < name.len() implies #[trigger] name[i] != '/' by {
        if i < raw_id.len() {
            assert(name[i] == raw_id[i]);
            assert(is_alnum(raw_id[i]) || raw_id[i] == '_');
        } else if part is Some && i < raw_id.len() + 2 {
            assert(name[i] == '-');
        } else if part is Some && i < raw_id.len() + 2 + part->0.len() {
            assert(name[i] == part->0[i - raw_id.len() - 2]);
        }
    }
    let dir = seq!['r', 'a', 'w'];
    assert(path =~= dir + seq!['/'] + name);
    assert(name.len() > 2);
    law_a_file_name_is_the_last_step(dir, name);
    assert(path.subrange(0, 4) =~= "raw/"@);
}

/// As many nodes are counted of a kind as there are of it.
pub proof fn law_nodes_are_counted_by_kind(nodes: Seq<GraphNode>, kind: Seq<char>, n: nat)
    ensures
        ({
            let same = Set::new(|i: int| 0 <= i < n && nodes[i].kind@ == kind);
            same.finite() && same.len() == kind_count(nodes, kind, n)
        }),
    decreases n,
{
    let same = Set::new(|i: int| 0 <= i < n && nodes[i].kind@ == kind);
    if n == 0 {
        assert(same =~= Set::empty());
    } else {
        let m = (n - 1) as nat;
        let before = Set::new(|i: int| 0 <= i < m && nodes[i].kind@ == kind);
        law_nodes_are_counted_by_kind(nodes, kind, m);
        if nodes[n - 1].kind@ == kind {
            assert(same =~= before.insert(n - 1));
        } else {
            assert(same =~= before);
        }
    }
}

/// A request is answered only under the address that the server is bound at, under the three
/// names of its own machine and under the host it was told, all with its port.
pub proof fn law_no_other_name_is_expected(
    bound: Seq<char>,
    port: u16,
    host: Seq<char>,
    asked: Seq<char>,
)
    ensures
        is_expected(sorted_set(host_names(bound, port, host)), asked) <==> (lowered(trim(asked))
            == lowered(bound) || lowered(trim(asked)) == lowered(
            "localhost"@ + ":"@ + decimal(port as nat),
        ) || lowered(trim(asked)) == lowered("127.0.0.1"@ + ":"@ + decimal(port as nat)) || lowered(
            trim(asked),
        ) == lowered("[::1]"@ + ":"@ + decimal(port as nat)) || lowered(trim(asked)) == lowered(
            host + ":"@ + decimal(port as nat),
        )),
{
    let names = host_names(bound, port, host);
    let allowed = sorted_set(names);
    assert forall|name: Seq<char>| #[trigger] allowed.contains(name) <==> names.contains(name) by {
        lemma_sorted_set(names, name);
    }
    if is_expected(allowed, asked) {
        let i = choose|i: int|
            0 <= i < allowed.len() && lowered(#[trigger] allowed[i]) == lowered(trim(asked));
        assert(allowed.contains(allowed[i]));
        let k = choose|k: int| 0 <= k < names.len() && names[k] == allowed[i];
        assert(0 <= k < 5);
    }
    assert forall|k: int| 0 <= k < 5 && lowered(#[trigger] names[k]) == lowered(
        trim(asked),
    ) implies is_expected(allowed, asked) by {
        assert(names.contains(names[k]));
        assert(allowed.contains(names[k]));
        let i = choose|i: int| 0 <= i < allowed.len() && allowed[i] == names[k];
        assert(lowered(allowed[i]) == lowered(trim(asked)));
    }
    assert(names[0] == bound);
    assert(names[1] == "localhost"@ + ":"@ + decimal(port as nat));
    assert(names[2] == "127.0.0.1"@ + ":"@ + decimal(port as nat));
    assert(names[3] == "[::1]"@ + ":"@ + decimal(port as nat));
    assert(names[4] == host + ":"@ + decimal(port as nat));
}

} // verus!
