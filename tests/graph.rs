use zettl::graph::{link_graph, Graph, Link, Node, NoteText};
use zettl::ident::note_identifier;

fn note(id: &str, text: &str) -> NoteText {
    NoteText { id: id.to_string(), text: text.to_string() }
}

fn ids(g: &Graph) -> Vec<String> {
    g.nodes.iter().map(|n| n.id.clone()).collect()
}

fn edges(g: &Graph) -> Vec<(String, String)> {
    g.links.iter().map(|l| (l.source.clone(), l.target.clone())).collect()
}

fn pair(a: &str, b: &str) -> (String, String) {
    (a.to_string(), b.to_string())
}

#[test]
fn scenario_one_edge_and_one_warning() {
    // Identifiers relative to the `notes` directory as base.
    let notes = vec![note("a", "see [[b]] and [[missing]]"), note("b", "")];
    let (g, broken) = link_graph(&notes);
    assert_eq!(ids(&g), vec!["a", "b"]);
    assert_eq!(edges(&g), vec![pair("a", "b")]);
    assert_eq!(broken.len(), 1);
    assert_eq!(broken[0].text, "missing");
    assert_eq!(broken[0].source, "a");
}

#[test]
fn scenario_with_paths_from_tree_root() {
    let notes = vec![
        note("notes/a", "see [[notes/b]] and [[b]]"),
        note("notes/b", ""),
    ];
    let (g, broken) = link_graph(&notes);
    assert_eq!(ids(&g), vec!["notes/a", "notes/b"]);
    assert_eq!(edges(&g), vec![pair("notes/a", "notes/b")]);
    assert_eq!(broken.len(), 1);
    assert_eq!(broken[0].text, "b");
    assert_eq!(broken[0].source, "notes/a");
}

#[test]
fn repeated_references_are_not_deduplicated() {
    let notes = vec![note("a", "[[b]] again [[b]]"), note("b", "")];
    let (g, broken) = link_graph(&notes);
    assert_eq!(edges(&g), vec![pair("a", "b"), pair("a", "b")]);
    assert!(broken.is_empty());
}

#[test]
fn forward_references_and_index_files_resolve() {
    let notes = vec![
        note("_index", "- [[z]]\n- [[sub/_index]]"),
        note("sub/_index", "[[_index]]"),
        note("z", ""),
    ];
    let (g, broken) = link_graph(&notes);
    assert_eq!(
        edges(&g),
        vec![pair("_index", "z"), pair("_index", "sub/_index"), pair("sub/_index", "_index")]
    );
    assert!(broken.is_empty());
}

#[test]
fn matching_is_exact_and_case_sensitive() {
    let notes = vec![note("a", "[[B]] [[ b]] [[b ]] [[b]]"), note("b", "")];
    let (g, broken) = link_graph(&notes);
    assert_eq!(edges(&g), vec![pair("a", "b")]);
    let texts: Vec<String> = broken.iter().map(|w| w.text.clone()).collect();
    assert_eq!(texts, vec!["B", " b", "b "]);
}

#[test]
fn one_warning_per_broken_occurrence() {
    let notes = vec![note("a", "[[x]] [[x]]"), note("b", "[[x]] [[a]]")];
    let (g, broken) = link_graph(&notes);
    assert_eq!(edges(&g), vec![pair("b", "a")]);
    let got: Vec<(String, String)> =
        broken.iter().map(|w| (w.text.clone(), w.source.clone())).collect();
    assert_eq!(got, vec![pair("x", "a"), pair("x", "a"), pair("x", "b")]);
}

#[test]
fn one_node_per_note() {
    let (g, broken) = link_graph(&Vec::new());
    assert!(g.nodes.is_empty() && g.links.is_empty() && broken.is_empty());
    let notes = vec![note("c", ""), note("a", ""), note("b/c", "")];
    let (g, _) = link_graph(&notes);
    assert_eq!(ids(&g), vec!["c", "a", "b/c"]);
}

#[test]
fn graph_document_layout() {
    let g = Graph {
        nodes: vec![Node { id: "notes/a".to_string() }, Node { id: "notes/b".to_string() }],
        links: vec![Link { source: "notes/a".to_string(), target: "notes/b".to_string() }],
    };
    assert_eq!(
        g.to_json(),
        "{\"nodes\":[{\"id\":\"notes/a\"},{\"id\":\"notes/b\"}],\"links\":[{\"source\":\"notes/a\",\"target\":\"notes/b\"}]}"
    );
}

#[test]
fn graph_document_empty() {
    let g = Graph { nodes: Vec::new(), links: Vec::new() };
    assert_eq!(g.to_json(), "{\"nodes\":[],\"links\":[]}");
}

#[test]
fn graph_document_escapes_identifiers() {
    let g = Graph {
        nodes: vec![Node { id: "say \"hi\"\\now".to_string() }],
        links: Vec::new(),
    };
    assert_eq!(g.to_json(), "{\"nodes\":[{\"id\":\"say \\\"hi\\\"\\\\now\"}],\"links\":[]}");
}

#[test]
fn identifiers_strip_the_extension() {
    assert_eq!(note_identifier("notes/a.md"), Some("notes/a".to_string()));
    assert_eq!(note_identifier("projects/apple/pen.md"), Some("projects/apple/pen".to_string()));
    assert_eq!(note_identifier("_index.md"), Some("_index".to_string()));
    assert_eq!(note_identifier("a..md"), Some("a.".to_string()));
    assert_eq!(note_identifier(".md"), None);
    assert_eq!(note_identifier("dir/.md"), None);
    assert_eq!(note_identifier("notes/a.txt"), None);
    assert_eq!(note_identifier("notes/amd"), None);
    assert_eq!(note_identifier(""), None);
}

#[test]
fn graph_document_escapes_control_characters() {
    let g = Graph {
        nodes: vec![Node { id: "a\tb\nc\u{1}d\u{1f}/é\u{8}\u{c}\r".to_string() }],
        links: Vec::new(),
    };
    assert_eq!(
        g.to_json(),
        "{\"nodes\":[{\"id\":\"a\\tb\\nc\\u0001d\\u001f/é\\b\\f\\r\"}],\"links\":[]}"
    );
}
