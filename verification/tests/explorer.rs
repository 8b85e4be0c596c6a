use okf_mcp::explorer::graph::{
    adjacency, build_graph, strip_anchor, structural_metrics, Graph, GraphLink,
};
use okf_mcp::explorer::network::{distances, pivots};
use okf_mcp::explorer::render::{
    escape_html, render_markdown, render_page, render_target, safe_url, PageView, RenderError,
};
use okf_mcp::explorer::server::{
    allowed_hosts, explorer_hit, explorer_limit, kinds, node_id_for_path, require_expected_host,
    search_hint,
};
use okf_mcp::ingest::frontmatter::RawFile;
use okf_mcp::manifest::model::Manifest;
use okf_mcp::search::query::SearchResult;
use okf_mcp::validator::frontmatter::{
    parse_wiki_page, split_frontmatter, PageFile, SourceRef, WikiFrontmatter,
};

fn text_field(value: &serde_yaml::Value, key: &str) -> Option<String> {
    value.get(key).and_then(|v| v.as_str()).map(|s| s.to_string())
}

fn frontmatter_of(yaml: &str) -> Result<WikiFrontmatter, String> {
    let value = serde_yaml::from_str::<serde_yaml::Value>(yaml).map_err(|e| e.to_string())?;
    if !value.is_mapping() {
        return Err("not a mapping".to_string());
    }
    let page_type = text_field(&value, "type").ok_or("missing field `type`".to_string())?;
    let title = text_field(&value, "title").ok_or("missing field `title`".to_string())?;
    let mut sources = Vec::new();
    if let Some(list) = value.get("sources").and_then(|v| v.as_sequence()) {
        for item in list {
            sources.push(SourceRef {
                resource: text_field(item, "resource").ok_or("missing field `resource`".to_string())?,
                id: text_field(item, "id"),
                title: text_field(item, "title"),
            });
        }
    }
    let mut tags = Vec::new();
    if let Some(list) = value.get("tags").and_then(|v| v.as_sequence()) {
        for item in list {
            tags.push(item.as_str().unwrap_or_default().to_string());
        }
    }
    Ok(WikiFrontmatter {
        okf_version: text_field(&value, "okf_version"),
        page_type,
        id: text_field(&value, "id"),
        title,
        description: text_field(&value, "description"),
        sources,
        tags,
        timestamp: text_field(&value, "timestamp"),
    })
}

fn page(path: &str, content: &str) -> PageFile {
    let frontmatter = match split_frontmatter(content) {
        Ok((yaml, _)) => frontmatter_of(&yaml),
        Err(_) => Err(String::new()),
    };
    PageFile {
        path: path.to_string(),
        content: content.to_string(),
        parsed: parse_wiki_page(content, frontmatter),
    }
}

fn page_text(title: &str, tags: &[&str], sources: &[&str], body: &str) -> String {
    let tags = tags.iter().map(|t| format!("  - {t}")).collect::<Vec<_>>().join("\n");
    let sources = sources
        .iter()
        .map(|s| format!("  - resource: {s}"))
        .collect::<Vec<_>>()
        .join("\n");
    format!(
        "---\ntype: Concept\ntitle: {title}\ndescription: about {title}\ntags:\n{tags}\nsources:\n{sources}\n---\n\n{body}\n"
    )
}

fn raw(path: &str, content: &str) -> RawFile {
    RawFile { path: path.to_string(), is_file: true, content: Ok(content.to_string()) }
}

fn sample_files() -> Vec<RawFile> {
    vec![raw(
        "raw/raw_abc.md",
        "---\ntype: raw_source\nsource_url: https://example.com/a\n---\n\nraw body\n",
    )]
}

fn sample_graph() -> Graph {
    let concepts = vec![
        page(
            "wiki/concepts/alpha.md",
            &page_text(
                "Alpha",
                &["travel", "ai"],
                &["/raw/raw_abc.md"],
                "Links to [[beta]] and [[beta|Beta alias]] and [[gamma#Section]] and [[other::thing]] and [[alpha]].",
            ),
        ),
        page(
            "wiki/concepts/beta.md",
            &page_text("Beta", &["travel"], &[], "Back to [[alpha]]."),
        ),
        page("wiki/concepts/broken.md", "no frontmatter [[alpha]]"),
    ];
    let entities = vec![page(
        "wiki/entities/gamma.md",
        &page_text(
            "Gamma",
            &[],
            &["/raw/raw_missing.md", "/../../../etc/passwd"],
            "See [[alpha]] and [[nowhere]].",
        ),
    )];
    build_graph(concepts, entities, &Manifest::default(), &sample_files())
}

#[test]
fn builds_nodes_of_every_kind() {
    let graph = sample_graph();
    let kind = |id: &str| graph.node(id).map(|n| n.kind);
    assert_eq!(kind("alpha"), Some("concept"));
    assert_eq!(kind("gamma"), Some("entity"));
    assert_eq!(kind("#travel"), Some("tag"));
    assert_eq!(kind("raw:raw_abc"), Some("raw"));
    assert_eq!(kind("raw:raw_missing"), Some("raw"));
    assert_eq!(kind("other::thing"), Some("cross_vault"));
    assert_eq!(kind("nowhere"), Some("missing"));
    assert_eq!(kind("broken"), Some("concept"));
    assert_eq!(graph.unparsed_pages, 1);
    let raw = graph.node("raw:raw_abc").unwrap();
    assert_eq!(raw.title, "https://example.com/a");
    assert_eq!(raw.path.as_deref(), Some("raw/raw_abc.md"));
    assert!(graph.node("raw:raw_missing").unwrap().path.is_none());
    let escaping = graph.node("raw:passwd").unwrap();
    assert!(escaping.path.is_none());
    assert_eq!(escaping.title, "passwd");
    assert_eq!(graph.node("alpha").unwrap().path.as_deref(), Some("wiki/concepts/alpha.md"));
}

#[test]
fn links_are_distinct_and_self_links_and_anchors_are_normalized() {
    let graph = sample_graph();
    let has = |s: &str, t: &str, k: &str| {
        graph.links.iter().any(|l| l.source == s && l.target == t && l.kind == k)
    };
    assert_eq!(
        graph.links.iter().filter(|l| l.source == "alpha" && l.target == "beta").count(),
        1
    );
    assert!(has("alpha", "gamma", "wikilink"));
    assert!(has("alpha", "other::thing", "cross_vault"));
    assert!(has("alpha", "#travel", "tag"));
    assert!(has("alpha", "raw:raw_abc", "source"));
    assert!(!has("alpha", "alpha", "wikilink"));
    assert!(has("broken", "alpha", "wikilink"));
}

#[test]
fn degrees_backlinks_and_hub_rank() {
    let graph = sample_graph();
    let alpha = graph.node("alpha").unwrap();
    assert_eq!(alpha.in_degree, 3);
    assert_eq!(alpha.hub_rank, 1);
    assert_eq!(alpha.out_degree, 6);
    let travel = graph.node("#travel").unwrap();
    assert_eq!(travel.in_degree, 2);
    assert_eq!(travel.hub_rank, 2);
    let nowhere = graph.node("nowhere").unwrap();
    assert_eq!(nowhere.in_degree, 1);
    assert_eq!(nowhere.hub_rank, 3);
    let broken = graph.node("broken").unwrap();
    assert_eq!(broken.in_degree, 0);
    assert_eq!(broken.hub_rank, 4);
    let mut backlinks: Vec<&str> =
        graph.backlinks_of("alpha").into_iter().map(|n| n.id.as_str()).collect();
    backlinks.sort();
    assert_eq!(backlinks, vec!["beta", "broken", "gamma"]);
    let outlinks: Vec<&str> =
        graph.outlinks_of("beta").into_iter().map(|n| n.id.as_str()).collect();
    assert_eq!(outlinks, vec!["#travel", "alpha"]);
}

/// The floating-point part: all that it is computed from is the library's.
fn betweenness(ids: &Vec<String>, links: &Vec<GraphLink>) -> Vec<f64> {
    let lists = adjacency(ids, links);
    let n = lists.len();
    let mut through = vec![0.0f64; n];
    for source in pivots(n) {
        let found = distances(&lists, source, n);
        let mut sigma = vec![0.0f64; n];
        let mut delta = vec![0.0f64; n];
        sigma[source] = 1.0;
        for &v in &found.order {
            for &w in &lists[v] {
                if found.dist[w] == found.dist[v] + 1 {
                    sigma[w] += sigma[v];
                }
            }
        }
        for &w in found.order.iter().rev() {
            for &v in &lists[w] {
                if found.dist[v] + 1 == found.dist[w] {
                    delta[v] += sigma[v] / sigma[w] * (1.0 + delta[w]);
                }
            }
            if w != source {
                through[w] += delta[w];
            }
        }
    }
    let max = through.iter().copied().fold(0.0f64, f64::max);
    if max > 0.0 {
        for b in &mut through {
            *b /= max;
        }
    }
    through
}

#[test]
fn structural_metrics_find_bridges_not_just_popular_nodes() {
    let names = ["a", "b", "c", "bridge", "d", "e", "f", "tag"];
    let ids: Vec<String> = names.iter().map(|s| s.to_string()).collect();
    let mut links = Vec::new();
    for (s, t) in [
        ("a", "b"),
        ("b", "c"),
        ("c", "a"),
        ("c", "bridge"),
        ("bridge", "d"),
        ("d", "e"),
        ("e", "f"),
        ("f", "d"),
        ("a", "tag"),
        ("b", "tag"),
        ("c", "tag"),
    ] {
        links.push(GraphLink { source: s.to_string(), target: t.to_string(), kind: "wikilink" });
    }
    let metrics = structural_metrics(&ids, &links);
    let of = |name: &str| &metrics[names.iter().position(|n| *n == name).unwrap()];
    assert_eq!(of("tag").degree, 3);
    assert_eq!(of("c").degree, 4);
    assert_eq!(of("bridge").degree, 2);
    assert!(of("bridge").articulation);
    assert!(of("c").articulation);
    assert!(of("d").articulation);
    assert!(!of("tag").articulation);
    assert!(!of("a").articulation);
    let through = betweenness(&ids, &links);
    let between = |name: &str| through[names.iter().position(|n| *n == name).unwrap()];
    assert!(between("bridge") > 0.9);
    assert!(between("c") > between("tag"));
    assert_eq!(between("tag"), 0.0);
    let top = through.iter().copied().fold(0.0, f64::max);
    assert!((top - 1.0).abs() < 1e-9);
}

#[test]
fn graph_nodes_carry_structural_metrics() {
    let graph = sample_graph();
    let alpha = graph.node("alpha").unwrap();
    assert_eq!(alpha.degree, 7);
    assert!(alpha.articulation);
    assert!(!graph.node("#ai").unwrap().articulation);
    let ids: Vec<String> = graph.nodes.iter().map(|n| n.id.clone()).collect();
    let through = betweenness(&ids, &graph.links);
    let at = ids.iter().position(|id| id == "alpha").unwrap();
    assert!(through[at] > 0.99, "{}", through[at]);
}

#[test]
fn large_graphs_are_sampled() {
    assert_eq!(pivots(3), vec![0, 1, 2]);
    assert!(pivots(0).is_empty());
    assert_eq!(pivots(4000).len(), 4000);
    let some = pivots(4001);
    assert_eq!(&some[..3], &[0, 3, 6]);
    assert_eq!(some.len(), 1334);
}

#[test]
fn empty_vault_is_an_empty_graph() {
    let graph = build_graph(Vec::new(), Vec::new(), &Manifest::default(), &Vec::new());
    assert!(graph.nodes.is_empty());
    assert!(graph.links.is_empty());
}

#[test]
fn strip_anchor_cases() {
    assert_eq!(strip_anchor("foo#Bar"), "foo");
    assert_eq!(strip_anchor("foo^blk"), "foo");
    assert_eq!(strip_anchor("foo"), "foo");
    assert_eq!(strip_anchor("#only"), "");
}

fn render(body: &str, missing: &[&str]) -> String {
    render_markdown(body, &|t: &str| missing.contains(&t))
}

#[test]
fn rewrites_plain_alias_anchor_and_cross_vault_links() {
    let out = render(
        "a [[beta]] b [[beta|Nice]] c [[beta#Head]] d [[other::thing]] e [[ghost]] f [[]] g",
        &["ghost"],
    );
    assert!(
        out.contains(r##"<a class="wikilink" href="#/note/beta" data-slug="beta">beta</a>"##),
        "{out}"
    );
    assert!(out.contains(r##"data-slug="beta">Nice</a>"##), "{out}");
    assert!(out.contains(r##"data-slug="beta">beta#Head</a>"##), "{out}");
    assert!(out.contains(r##"data-slug="other::thing">other::thing</a>"##), "{out}");
    assert!(
        out.contains(
            r##"<a class="wikilink missing" href="#/note/ghost" data-slug="ghost">ghost</a>"##
        ),
        "{out}"
    );
    assert!(out.contains("f [[]] g"), "empty link left alone: {out}");
}

#[test]
fn wikilinks_inside_code_are_left_alone() {
    let out = render("x `[[a]]` y\n\n```\n[[b]]\n```\n", &[]);
    assert!(!out.contains("wikilink"), "{out}");
    assert!(out.contains("<code>[[a]]</code>"), "{out}");
    assert!(out.contains("[[b]]"), "{out}");
}

#[test]
fn raw_html_and_script_urls_are_neutralised() {
    let out = render(
        "hi\n\n<img src=x onerror=alert(1)>\n\ninline <b onclick=\"x()\">bold</b> [go](javascript:alert(1)) ![i](javascript:alert(2)) [ok](https://example.com)\n",
        &[],
    );
    assert!(!out.contains("<img src=x"), "{out}");
    assert!(!out.contains("<b onclick"), "{out}");
    assert!(!out.contains("javascript:"), "{out}");
    assert!(out.contains("&lt;img src=x onerror=alert(1)&gt;"), "{out}");
    assert!(out.contains(r#"<a href="https://example.com">ok</a>"#), "{out}");
}

#[test]
fn text_and_literal_html_add_no_tag() {
    let brackets =
        |html: &str| html.chars().filter(|c| *c == '<' || *c == '>').collect::<String>();
    let plain = render("a `x` b\n\nc ![alt](i.png) [[beta]] [d](e:f/g.md)\n", &[]);
    let wordy = render("a > 1 `x` <b>\n\nc ![<i> alt](i.png) [[beta]] [<u>](e/f:g.md)\n", &[]);
    assert_eq!(brackets(&plain), brackets(&wordy), "{plain} {wordy}");
    assert!(plain.contains(r##"<a href="#">d</a>"##), "{plain}");
    assert!(wordy.contains(r#"<a href="e/f:g.md">&lt;u&gt;</a>"#), "{wordy}");
    assert!(wordy.contains("a &gt; 1"), "{wordy}");
    let block = render("<div>\n&nbsp;\n</div>\n", &[]);
    assert_eq!(block, "&lt;div&gt;\n&amp;nbsp;\n&lt;/div&gt;\n");
}

#[test]
fn links_keep_their_titles_and_addresses() {
    assert_eq!(
        render("[a](b.md \"t\") <me@example.com>\n", &[]),
        "<p><a href=\"b.md\" title=\"t\">a</a> <a href=\"mailto:me@example.com\">me@example.com</a></p>\n"
    );
}

#[test]
fn escapes_html_in_link_targets() {
    let out = render("[[<script>|<b>]]", &[]);
    assert!(!out.contains("<script>"), "{out}");
    assert!(out.contains("&lt;script&gt;"), "{out}");
    assert!(out.contains("&lt;b&gt;"), "{out}");
}

#[test]
fn markdown_renders_footnotes_and_tables() {
    let html = render("# T\n\nx[^1]\n\n| a | b |\n|---|---|\n| 1 | 2 |\n\n[^1]: note\n", &[]);
    assert!(html.contains("<h1>T</h1>"));
    assert!(html.contains("<table>"));
    assert!(html.contains("footnote"));
}

#[test]
fn mermaid_fences_keep_their_language_class() {
    let out = render("```mermaid\nflowchart LR\n  A --> B\n```\n", &[]);
    assert!(out.contains(r#"<pre><code class="language-mermaid">"#), "{out}");
    assert!(out.contains("A --&gt; B"), "{out}");
}

#[test]
fn safe_url_cases() {
    assert!(safe_url("https://x"));
    assert!(safe_url("/raw/x.md"));
    assert!(safe_url("#frag"));
    assert!(safe_url("./rel.md"));
    assert!(safe_url("mailto:a@b"));
    assert!(!safe_url("javascript:alert(1)"));
    assert!(!safe_url("JavaScript:alert(1)"));
    assert!(!safe_url("data:text/html,x"));
    assert!(!safe_url("vbscript:x"));
    assert!(safe_url("notes/a:b.md"));
    assert!(safe_url("find?at=10:30"));
    assert!(safe_url("page#a:b"));
    assert!(safe_url(".hidden:x"));
    assert!(safe_url(" HTTPS://x "));
    assert!(!safe_url(":x"));
    assert!(!safe_url("java script:alert(1)"));
}

#[test]
fn escaped_text_holds_no_markup() {
    assert_eq!(escape_html("<a href=\"x\">&'"), "&lt;a href=&quot;x&quot;&gt;&amp;&#39;");
}

fn shown(
    graph: &Graph,
    files: &Vec<RawFile>,
    texts: &[(&str, &str)],
    id: &str,
) -> Result<PageView, RenderError> {
    let target = render_target(graph, &Manifest::default(), files, id)?;
    let content = texts
        .iter()
        .find(|(path, _)| *path == target.path)
        .map(|(_, text)| text.to_string())
        .unwrap();
    Ok(render_page(graph, target, &content))
}

#[test]
fn render_page_end_to_end() {
    let alpha = "---\ntype: Concept\ntitle: Alpha\ngenerated:\n  by: okf-mcp-compiler\n  at: 2026-08-08T00:00:00Z\nsources:\n  - resource: /raw/raw_x.md\n---\n\n# Alpha\n\nSee [[beta]] and [[ghost]].\n";
    let beta = "---\ntype: Concept\ntitle: Beta\n---\n\nBack to [[alpha]].\n";
    let raw_x = "---\ntype: raw_source\nsource_url: https://x\n---\n\nRaw **body**\n";
    let uncited = "---\ntype: raw_source\nsource_url: https://u\n---\n\nlonely\n";
    let texts = [
        ("wiki/concepts/alpha.md", alpha),
        ("wiki/concepts/beta.md", beta),
        ("raw/raw_x.md", raw_x),
        ("raw/raw_uncited.md", uncited),
    ];
    let mut files = vec![raw("raw/raw_x.md", raw_x)];
    let graph = build_graph(
        vec![page("wiki/concepts/alpha.md", alpha), page("wiki/concepts/beta.md", beta)],
        Vec::new(),
        &Manifest::default(),
        &files,
    );
    let view = shown(&graph, &files, &texts, "alpha").unwrap();
    assert_eq!(view.title, "Alpha");
    assert_eq!(view.path, "wiki/concepts/alpha.md");
    let json: serde_json::Value = serde_json::from_str(&view.frontmatter).unwrap();
    assert_eq!(json["generated"]["by"].as_str(), Some("okf-mcp-compiler"));
    assert!(view.html.contains(r##"class="wikilink" href="#/note/beta""##));
    assert!(view.html.contains(r##"class="wikilink missing" href="#/note/ghost""##));
    assert_eq!(view.backlinks.len(), 1);
    assert_eq!(view.backlinks[0].id, "beta");
    let mut out: Vec<&str> = view.outlinks.iter().map(|l| l.id.as_str()).collect();
    out.sort();
    assert_eq!(out, vec!["beta", "ghost", "raw:raw_x"]);
    let raw_view = shown(&graph, &files, &texts, "raw:raw_x").unwrap();
    assert_eq!(raw_view.kind, "raw");
    assert!(raw_view.html.contains("<strong>body</strong>"));
    let json: serde_json::Value = serde_json::from_str(&raw_view.frontmatter).unwrap();
    assert_eq!(json["source_url"], "https://x");
    assert_eq!(raw_view.backlinks[0].id, "alpha");
    assert!(matches!(
        shown(&graph, &files, &texts, "ghost"),
        Err(RenderError::NoFile { .. })
    ));
    assert!(shown(&graph, &files, &texts, "#tag").is_err());
    assert!(matches!(
        shown(&graph, &files, &texts, "../etc/passwd"),
        Err(RenderError::NoNode)
    ));
    files.push(raw("raw/raw_uncited.md", uncited));
    assert!(graph.node("raw:raw_uncited").is_none());
    let lonely = shown(&graph, &files, &texts, "raw:raw_uncited").unwrap();
    assert_eq!(lonely.title, "https://u");
    assert!(lonely.html.contains("lonely"));
    assert!(lonely.backlinks.is_empty());
    assert!(shown(&graph, &files, &texts, "raw:../wiki/concepts/alpha").is_err());
    assert!(shown(&graph, &files, &texts, "raw:nope").is_err());
}

#[test]
fn node_id_mapping() {
    assert_eq!(node_id_for_path("wiki/concepts/foo.md"), "foo");
    assert_eq!(node_id_for_path("wiki/entities/bar.md"), "bar");
    assert_eq!(node_id_for_path("raw/raw_abc.md"), "raw:raw_abc");
    assert_eq!(node_id_for_path("raw/raw_abc--title.md"), "raw:raw_abc");
    assert_eq!(node_id_for_path("raw/--title.md"), "raw:--title");
    assert_eq!(node_id_for_path(".."), "..");
    assert_eq!(node_id_for_path("raw/.."), "raw:raw/..");
    assert_eq!(node_id_for_path(""), "");
}

#[test]
fn allowed_hosts_cover_bound_addr_localhost_and_user_host() {
    let allowed = allowed_hosts("127.0.0.1:4321", 4321, "127.0.0.1");
    for h in ["127.0.0.1:4321", "localhost:4321", "[::1]:4321"] {
        assert!(allowed.contains(&h.to_string()), "{h} missing from {allowed:?}");
    }
    assert_eq!(allowed.len(), 3);
    assert!(!allowed.iter().any(|h| h.starts_with("evil")));
    let allowed = allowed_hosts("127.0.0.1:4321", 4321, "my-box");
    assert!(allowed.contains(&"my-box:4321".to_string()));
}

#[test]
fn requests_under_another_name_are_refused() {
    let allowed = allowed_hosts("127.0.0.1:4321", 4321, "127.0.0.1");
    assert!(require_expected_host(&allowed, " LocalHost:4321 ").is_ok());
    assert_eq!(
        require_expected_host(&allowed, "evil.example:4321").unwrap_err(),
        "unexpected Host header 'evil.example:4321'"
    );
    assert!(require_expected_host(&allowed, "").is_err());
}

#[test]
fn the_explorer_shows_a_description_where_nothing_else_was_found() {
    let graph = sample_graph();
    let result = |path: &str, snippet: &str| SearchResult {
        path: path.to_string(),
        title: String::new(),
        snippet: snippet.to_string(),
        score_bits: 0,
    };
    let hit = explorer_hit(&graph, &result("wiki/concepts/alpha.md", ""));
    assert_eq!(hit.id, "alpha");
    assert!(hit.in_graph);
    assert_eq!(hit.snippet, "about Alpha");
    assert_eq!(explorer_hit(&graph, &result("wiki/concepts/alpha.md", "found")).snippet, "found");
    let gone = explorer_hit(&graph, &result("wiki/concepts/gone.md", ""));
    assert!(!gone.in_graph);
    assert_eq!(gone.snippet, "");
    assert_eq!(explorer_limit(None), 20);
    assert_eq!(explorer_limit(Some(0)), 1);
    assert_eq!(explorer_limit(Some(1000)), 200);
    assert!(search_hint(0, false).is_some());
    assert!(search_hint(0, true).is_none());
    assert!(search_hint(1, false).is_none());
}

#[test]
fn kinds_are_counted_in_order() {
    let counted: Vec<(String, usize)> = kinds(&sample_graph());
    let expected = [
        ("concept", 3),
        ("cross_vault", 1),
        ("entity", 1),
        ("missing", 1),
        ("raw", 3),
        ("tag", 2),
    ];
    assert_eq!(counted.len(), expected.len());
    for (got, want) in counted.iter().zip(expected) {
        assert_eq!((got.0.as_str(), got.1), want);
    }
}

#[test]
fn links_run_between_nodes_and_none_twice() {
    let graph = sample_graph();
    for (i, link) in graph.links.iter().enumerate() {
        assert!(graph.node(&link.source).is_some());
        assert!(graph.node(&link.target).is_some());
        for other in &graph.links[i + 1..] {
            assert!(link.source != other.source || link.target != other.target);
        }
    }
}

#[test]
fn every_extension_of_markdown_that_pages_use_is_on() {
    let html = render("## Head {#own}\n\n~~old~~\n\n- [x] done\n", &[]);
    assert!(html.contains(r#"<h2 id="own">Head</h2>"#), "{html}");
    assert!(html.contains("<del>old</del>"), "{html}");
    assert!(html.contains("checkbox"), "{html}");
}

#[test]
fn a_page_without_a_readable_frontmatter_is_shown_all_the_same() {
    let graph = sample_graph();
    let shown_as = |content: &str| {
        let target =
            render_target(&graph, &Manifest::default(), &sample_files(), "alpha").unwrap();
        render_page(&graph, target, content)
    };
    let plain = shown_as("# No frontmatter\n");
    assert_eq!(plain.frontmatter, "null");
    assert!(plain.html.contains("<h1>No frontmatter</h1>"));
    assert_eq!(shown_as("---\n[a: b: c\n---\nx").frontmatter, "null");
    assert_eq!(shown_as("---\nb: 1\na: [x]\n---\nx").frontmatter, r#"{"a":["x"],"b":1}"#);
}
