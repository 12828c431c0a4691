use vstd::prelude::*;
use crate::ident::{
    identifier_of, is_note_path, lemma_contains_add, lemma_contains_push, lemma_identifier_injective,
    views,
};
use crate::links::{extract_links, links_of};
use vstd::seq_lib::{lemma_multiset_commutative, to_multiset_build};

verus! {

/// A note in the link graph, named by its identifier.
pub struct Node {
    pub id: String,
}

/// A reference from the note `source` to the note `target`.
pub struct Link {
    pub source: String,
    pub target: String,
}

/// The notes of a tree and the references between them.
pub struct Graph {
    pub nodes: Vec<Node>,
    pub links: Vec<Link>,
}

/// A note's identifier together with its body.
pub struct NoteText {
    pub id: String,
    pub text: String,
}

/// A reference `[[text]]` in the note `source` that names no note.
pub struct BrokenLink {
    pub text: String,
    pub source: String,
}

/// The identifiers of the notes, in order.
pub open spec fn note_ids(notes: Seq<NoteText>) -> Seq<Seq<char>> {
    notes.map_values(|n: NoteText| n.id@)
}

/// The identifiers of the nodes, in order.
pub open spec fn node_ids(nodes: Seq<Node>) -> Seq<Seq<char>> {
    nodes.map_values(|n: Node| n.id@)
}

/// The links as (source, target) pairs, in order.
pub open spec fn edge_pairs(links: Seq<Link>) -> Seq<(Seq<char>, Seq<char>)> {
    links.map_values(|l: Link| (l.source@, l.target@))
}

/// The warnings as (capture, source) pairs, in order.
pub open spec fn broken_pairs(b: Seq<BrokenLink>) -> Seq<(Seq<char>, Seq<char>)> {
    b.map_values(|l: BrokenLink| (l.text@, l.source@))
}

/// The edges that the note `source` contributes: one per capture that names a
/// known identifier, in order of occurrence.
pub open spec fn edges_of(source: Seq<char>, caps: Seq<Seq<char>>, known: Seq<Seq<char>>) -> Seq<
    (Seq<char>, Seq<char>),
> {
    caps.filter(|c: Seq<char>| known.contains(c)).map_values(|c: Seq<char>| (source, c))
}

/// The warnings that the note `source` raises, as (capture, source) pairs:
/// one per capture that names no known identifier.
pub open spec fn broken_of(source: Seq<char>, caps: Seq<Seq<char>>, known: Seq<Seq<char>>) -> Seq<
    (Seq<char>, Seq<char>),
> {
    caps.filter(|c: Seq<char>| !known.contains(c)).map_values(|c: Seq<char>| (c, source))
}

/// The edges of all notes, note after note.
pub open spec fn all_edges(notes: Seq<NoteText>, known: Seq<Seq<char>>) -> Seq<
    (Seq<char>, Seq<char>),
>
    decreases notes.len(),
{
    if notes.len() == 0 {
        seq![]
    } else {
        let last = notes.last();
        all_edges(notes.drop_last(), known) + edges_of(last.id@, links_of(last.text@), known)
    }
}

/// The warnings of all notes, note after note.
pub open spec fn all_broken(notes: Seq<NoteText>, known: Seq<Seq<char>>) -> Seq<
    (Seq<char>, Seq<char>),
>
    decreases notes.len(),
{
    if notes.len() == 0 {
        seq![]
    } else {
        let last = notes.last();
        all_broken(notes.drop_last(), known) + broken_of(last.id@, links_of(last.text@), known)
    }
}

/// The lowercase hexadecimal digit of `n`, below 16.
pub open spec fn hex_digit(n: int) -> char {
    seq!['0', '1', '2', '3', '4', '5', '6', '7', '8', '9', 'a', 'b', 'c', 'd', 'e', 'f'][n]
}

/// How a character stands inside a JSON string: quote and backslash behind a
/// backslash, the control characters with a short escape where JSON has one
/// and as `\u00XX` otherwise, every other character as itself.
pub open spec fn json_escape(c: char) -> Seq<char> {
    if c == '"' {
        seq!['\\', '"']
    } else if c == '\\' {
        seq!['\\', '\\']
    } else if c == '\x08' {
        seq!['\\', 'b']
    } else if c == '\t' {
        seq!['\\', 't']
    } else if c == '\n' {
        seq!['\\', 'n']
    } else if c == '\x0c' {
        seq!['\\', 'f']
    } else if c == '\r' {
        seq!['\\', 'r']
    } else if (c as u32) < 0x20 {
        seq!['\\', 'u', '0', '0', hex_digit(c as int / 16), hex_digit(c as int % 16)]
    } else {
        seq![c]
    }
}

/// The characters of `s`, each escaped.
pub open spec fn json_escaped(s: Seq<char>) -> Seq<char>
    decreases s.len(),
{
    if s.len() == 0 {
        seq![]
    } else {
        json_escaped(s.drop_last()) + json_escape(s.last())
    }
}

/// The JSON string literal for `s`, as serde_json writes it.
pub open spec fn json_string_of(s: Seq<char>) -> Seq<char> {
    seq!['"'] + json_escaped(s) + seq!['"']
}

/// Relies on serde_json's `Value::String` and its compact `Display`
/// (`format_escaped_str` and its escape table): the JSON string literal for
/// `s`.
#[verifier::external_body]
fn json_string(s: &str) -> (r: String)
    ensures
        r@ == json_string_of(s@),
{
    serde_json::Value::String(s.to_owned()).to_string()
}

/// The parts, separated by commas.
pub open spec fn joined(parts: Seq<Seq<char>>) -> Seq<char>
    decreases parts.len(),
{
    if parts.len() == 0 {
        seq![]
    } else if parts.len() == 1 {
        parts[0]
    } else {
        joined(parts.drop_last()) + ","@ + parts.last()
    }
}

/// A node object of the graph document.
pub open spec fn node_json(id: Seq<char>) -> Seq<char> {
    "{\"id\":"@ + json_string_of(id) + "}"@
}

/// A link object of the graph document.
pub open spec fn link_json(e: (Seq<char>, Seq<char>)) -> Seq<char> {
    "{\"source\":"@ + json_string_of(e.0) + ",\"target\":"@ + json_string_of(e.1) + "}"@
}

/// The graph document: an object with the array `nodes` of `{"id": ..}`
/// objects and the array `links` of `{"source": .., "target": ..}` objects,
/// in compact JSON.
pub open spec fn graph_json(nodes: Seq<Seq<char>>, edges: Seq<(Seq<char>, Seq<char>)>) -> Seq<
    char,
> {
    "{\"nodes\":["@ + joined(nodes.map_values(|id: Seq<char>| node_json(id))) + "],\"links\":["@
        + joined(edges.map_values(|e: (Seq<char>, Seq<char>)| link_json(e))) + "]}"@
}

/// Joining one more part adds a comma and the part, unless it is the first.
proof fn lemma_joined_step(parts: Seq<Seq<char>>, i: int)
    requires
        0 <= i < parts.len(),
    ensures
        joined(parts.take(i + 1)) == if i == 0 {
            parts[0]
        } else {
            joined(parts.take(i)) + ","@ + parts[i]
        },
{
    assert(parts.take(i + 1).drop_last() =~= parts.take(i));
}

impl Graph {
    /// The graph document of this graph.
    pub fn to_json(&self) -> (r: String)
        ensures
            r@ == graph_json(node_ids(self.nodes@), edge_pairs(self.links@)),
    {
        let ghost nparts = node_ids(self.nodes@).map_values(|id: Seq<char>| node_json(id));
        let ghost lparts = edge_pairs(self.links@).map_values(
            |e: (Seq<char>, Seq<char>)| link_json(e),
        );
        let mut out = "{\"nodes\":[".to_owned();
        let ghost head = out@;
        let mut i: usize = 0;
        while i < self.nodes.len()
            invariant
                i <= self.nodes@.len(),
                nparts == node_ids(self.nodes@).map_values(|id: Seq<char>| node_json(id)),
                out@ == head + joined(nparts.take(i as int)),
            decreases self.nodes.len() - i,
        {
            proof {
                lemma_joined_step(nparts, i as int);
            }
            if i > 0 {
                out.append(",");
            }
            out.append("{\"id\":");
            out.append(json_string(self.nodes[i].id.as_str()).as_str());
            out.append("}");
            assert(nparts[i as int] == node_json(self.nodes@[i as int].id@));
            assert(out@ =~= head + joined(nparts.take(i + 1)));
            i = i + 1;
        }
        assert(nparts.take(i as int) =~= nparts);
        out.append("],\"links\":[");
        let ghost mid = out@;
        let mut i: usize = 0;
        while i < self.links.len()
            invariant
                i <= self.links@.len(),
                lparts == edge_pairs(self.links@).map_values(
                    |e: (Seq<char>, Seq<char>)| link_json(e),
                ),
                out@ == mid + joined(lparts.take(i as int)),
            decreases self.links.len() - i,
        {
            proof {
                lemma_joined_step(lparts, i as int);
            }
            if i > 0 {
                out.append(",");
            }
            let link = &self.links[i];
            out.append("{\"source\":");
            out.append(json_string(link.source.as_str()).as_str());
            out.append(",\"target\":");
            out.append(json_string(link.target.as_str()).as_str());
            out.append("}");
            assert(lparts[i as int] == link_json((link.source@, link.target@)));
            assert(out@ =~= mid + joined(lparts.take(i + 1)));
            i = i + 1;
        }
        assert(lparts.take(i as int) =~= lparts);
        out.append("]}");
        assert(out@ =~= graph_json(node_ids(self.nodes@), edge_pairs(self.links@)));
        out
    }
}

/// Whether `x` is one of `ids`.
fn contains_id(ids: &Vec<String>, x: &String) -> (r: bool)
    ensures
        r == views(ids@).contains(x@),
{
    let mut k: usize = 0;
    while k < ids.len()
        invariant
            k <= ids@.len(),
            forall|m: int| 0 <= m < k ==> ids@[m]@ != x@,
        decreases ids.len() - k,
    {
        if ids[k] == *x {
            assert(views(ids@)[k as int] == x@);
            return true;
        }
        k = k + 1;
    }
    assert forall|m: int| 0 <= m < views(ids@).len() implies views(ids@)[m] != x@ by {
        assert(ids@[m]@ != x@);
    }
    false
}

/// The outcomes of one more capture of a note.
proof fn lemma_edges_step(source: Seq<char>, caps: Seq<Seq<char>>, known: Seq<Seq<char>>, k: int)
    requires
        0 <= k < caps.len(),
    ensures
        edges_of(source, caps.take(k + 1), known) == if known.contains(caps[k]) {
            edges_of(source, caps.take(k), known).push((source, caps[k]))
        } else {
            edges_of(source, caps.take(k), known)
        },
        broken_of(source, caps.take(k + 1), known) == if known.contains(caps[k]) {
            broken_of(source, caps.take(k), known)
        } else {
            broken_of(source, caps.take(k), known).push((caps[k], source))
        },
{
    reveal(Seq::filter);
    assert(caps.take(k + 1).drop_last() =~= caps.take(k));
    assert(caps.take(k + 1).last() == caps[k]);
    let f = |c: Seq<char>| known.contains(c);
    let g = |c: Seq<char>| !known.contains(c);
    let e = |c: Seq<char>| (source, c);
    let b = |c: Seq<char>| (c, source);
    if known.contains(caps[k]) {
        assert(caps.take(k + 1).filter(f) == caps.take(k).filter(f).push(caps[k]));
        assert(caps.take(k + 1).filter(f).map_values(e) =~= caps.take(k).filter(f).map_values(
            e,
        ).push((source, caps[k])));
        assert(caps.take(k + 1).filter(g) == caps.take(k).filter(g));
    } else {
        assert(caps.take(k + 1).filter(g) == caps.take(k).filter(g).push(caps[k]));
        assert(caps.take(k + 1).filter(g).map_values(b) =~= caps.take(k).filter(g).map_values(
            b,
        ).push((caps[k], source)));
        assert(caps.take(k + 1).filter(f) == caps.take(k).filter(f));
    }
}

/// The link graph of a set of notes: one node per note, in the given order,
/// and one edge per link whose capture equals a note's identifier exactly;
/// every other link yields one warning.
pub fn link_graph(notes: &Vec<NoteText>) -> (r: (Graph, Vec<BrokenLink>))
    ensures
        node_ids(r.0.nodes@) == note_ids(notes@),
        edge_pairs(r.0.links@) == all_edges(notes@, note_ids(notes@)),
        broken_pairs(r.1@) == all_broken(notes@, note_ids(notes@)),
{
    let ghost known = note_ids(notes@);
    let mut ids: Vec<String> = Vec::new();
    let mut nodes: Vec<Node> = Vec::new();
    let mut i: usize = 0;
    while i < notes.len()
        invariant
            i <= notes@.len(),
            known == note_ids(notes@),
            views(ids@) == known.take(i as int),
            node_ids(nodes@) == known.take(i as int),
        decreases notes.len() - i,
    {
        let id = notes[i].id.clone();
        let node_id = notes[i].id.clone();
        assert(id@ == known[i as int] && node_id@ == known[i as int]);
        let ghost ids0 = ids@;
        let ghost nodes0 = nodes@;
        ids.push(id);
        nodes.push(Node { id: node_id });
        assert(known.take(i + 1) =~= known.take(i as int).push(known[i as int]));
        assert(views(ids@) =~= views(ids0).push(known[i as int]));
        assert(node_ids(nodes@) =~= node_ids(nodes0).push(known[i as int]));
        i = i + 1;
    }
    assert(views(ids@) =~= known);
    let mut links: Vec<Link> = Vec::new();
    let mut broken: Vec<BrokenLink> = Vec::new();
    let mut i: usize = 0;
    while i < notes.len()
        invariant
            i <= notes@.len(),
            known == note_ids(notes@),
            views(ids@) == known,
            edge_pairs(links@) == all_edges(notes@.take(i as int), known),
            broken_pairs(broken@) == all_broken(notes@.take(i as int), known),
        decreases notes.len() - i,
    {
        let note = &notes[i];
        let caps = extract_links(note.text.as_str());
        let ghost src = note.id@;
        let ghost cs = views(caps@);
        let ghost links0 = edge_pairs(links@);
        let ghost broken0 = broken_pairs(broken@);
        let mut k: usize = 0;
        while k < caps.len()
            invariant
                k <= caps@.len(),
                cs == views(caps@),
                src == note.id@,
                views(ids@) == known,
                edge_pairs(links@) == links0 + edges_of(src, cs.take(k as int), known),
                broken_pairs(broken@) == broken0 + broken_of(src, cs.take(k as int), known),
            decreases caps.len() - k,
        {
            let cap = &caps[k];
            proof {
                lemma_edges_step(src, cs, known, k as int);
            }
            if contains_id(&ids, cap) {
                let link = Link { source: note.id.clone(), target: cap.clone() };
                assert(link.source@ == src && link.target@ == cs[k as int]);
                let ghost before = links@;
                links.push(link);
                assert(edge_pairs(links@) =~= edge_pairs(before).push((src, cs[k as int])));
                assert(edge_pairs(links@) =~= links0 + edges_of(src, cs.take(k + 1), known));
                assert(broken_of(src, cs.take(k + 1), known) =~= broken_of(src, cs.take(k as int), known));
            } else {
                let warning = BrokenLink { text: cap.clone(), source: note.id.clone() };
                assert(warning.text@ == cs[k as int] && warning.source@ == src);
                let ghost before = broken@;
                broken.push(warning);
                assert(broken_pairs(broken@) =~= broken_pairs(before).push((cs[k as int], src)));
                assert(broken_pairs(broken@) =~= broken0 + broken_of(src, cs.take(k + 1), known));
                assert(edges_of(src, cs.take(k + 1), known) =~= edges_of(src, cs.take(k as int), known));
            }
            k = k + 1;
        }
        assert(cs.take(k as int) =~= cs);
        assert(notes@.take(i + 1).drop_last() =~= notes@.take(i as int));
        i = i + 1;
    }
    assert(notes@.take(notes.len() as int) =~= notes@);
    (Graph { nodes, links }, broken)
}

/// The number of link occurrences in all notes.
pub open spec fn link_count(notes: Seq<NoteText>) -> nat
    decreases notes.len(),
{
    if notes.len() == 0 {
        0
    } else {
        link_count(notes.drop_last()) + links_of(notes.last().text@).len()
    }
}

/// Within one note, each link occurrence yields exactly one outcome: an edge
/// from the note when its capture is a known identifier, a warning otherwise.
pub proof fn lemma_note_links(source: Seq<char>, caps: Seq<Seq<char>>, known: Seq<Seq<char>>)
    ensures
        edges_of(source, caps, known).len() + broken_of(source, caps, known).len() == caps.len(),
        forall|k: int|
            0 <= k < caps.len() && known.contains(caps[k]) ==> edges_of(
                source,
                caps,
                known,
            ).contains((source, caps[k])),
        forall|k: int|
            0 <= k < caps.len() && !known.contains(caps[k]) ==> broken_of(
                source,
                caps,
                known,
            ).contains((caps[k], source)),
        forall|e: (Seq<char>, Seq<char>)|
            edges_of(source, caps, known).contains(e) ==> e.0 == source && known.contains(e.1),
        forall|b: (Seq<char>, Seq<char>)|
            broken_of(source, caps, known).contains(b) ==> b.1 == source && !known.contains(b.0),
    decreases caps.len(),
{
    if caps.len() == 0 {
        reveal(Seq::filter);
        assert(edges_of(source, caps, known) =~= seq![]);
        assert(broken_of(source, caps, known) =~= seq![]);
    } else {
        let n = caps.len() - 1;
        let pre = caps.take(n);
        lemma_note_links(source, pre, known);
        lemma_edges_step(source, caps, known, n);
        assert(caps.take(n + 1) =~= caps);
        let e0 = edges_of(source, pre, known);
        let b0 = broken_of(source, pre, known);
        assert forall|e: (Seq<char>, Seq<char>)|
            edges_of(source, caps, known).contains(e) implies e.0 == source && known.contains(
                e.1,
            ) by {
            lemma_contains_push(e0, (source, caps[n]), e);
        }
        assert forall|b: (Seq<char>, Seq<char>)|
            broken_of(source, caps, known).contains(b) implies b.1 == source && !known.contains(
                b.0,
            ) by {
            lemma_contains_push(b0, (caps[n], source), b);
        }
        assert forall|k: int|
            0 <= k < caps.len() && known.contains(caps[k]) implies edges_of(
                source,
                caps,
                known,
            ).contains((source, caps[k])) by {
            lemma_contains_push(e0, (source, caps[n]), (source, caps[k]));
            if k < n {
                assert(pre[k] == caps[k]);
            }
        }
        assert forall|k: int|
            0 <= k < caps.len() && !known.contains(caps[k]) implies broken_of(
                source,
                caps,
                known,
            ).contains((caps[k], source)) by {
            lemma_contains_push(b0, (caps[n], source), (caps[k], source));
            if k < n {
                assert(pre[k] == caps[k]);
            }
        }
    }
}

/// Over all notes, the edges and warnings together number exactly the link
/// occurrences; every edge ends at a known identifier and every warning names
/// an unknown one.
pub proof fn lemma_outcomes_partition_links(notes: Seq<NoteText>, known: Seq<Seq<char>>)
    ensures
        all_edges(notes, known).len() + all_broken(notes, known).len() == link_count(notes),
        forall|e: (Seq<char>, Seq<char>)|
            all_edges(notes, known).contains(e) ==> known.contains(e.1),
        forall|b: (Seq<char>, Seq<char>)|
            all_broken(notes, known).contains(b) ==> !known.contains(b.0),
    decreases notes.len(),
{
    if notes.len() > 0 {
        let pre = notes.drop_last();
        let last = notes.last();
        lemma_outcomes_partition_links(pre, known);
        lemma_note_links(last.id@, links_of(last.text@), known);
        assert forall|e: (Seq<char>, Seq<char>)|
            all_edges(notes, known).contains(e) implies known.contains(e.1) by {
            lemma_contains_add(
                all_edges(pre, known),
                edges_of(last.id@, links_of(last.text@), known),
                e,
            );
        }
        assert forall|b: (Seq<char>, Seq<char>)|
            all_broken(notes, known).contains(b) implies !known.contains(b.0) by {
            lemma_contains_add(
                all_broken(pre, known),
                broken_of(last.id@, links_of(last.text@), known),
                b,
            );
        }
    }
}

/// The outcome of the `k`-th link of the `i`-th note.
proof fn lemma_note_outcome(notes: Seq<NoteText>, known: Seq<Seq<char>>, i: int, k: int)
    requires
        0 <= i < notes.len(),
        0 <= k < links_of(notes[i].text@).len(),
    ensures
        known.contains(links_of(notes[i].text@)[k]) ==> all_edges(notes, known).contains(
            (notes[i].id@, links_of(notes[i].text@)[k]),
        ),
        !known.contains(links_of(notes[i].text@)[k]) ==> all_broken(notes, known).contains(
            (links_of(notes[i].text@)[k], notes[i].id@),
        ),
    decreases notes.len(),
{
    let pre = notes.drop_last();
    let last = notes.last();
    let c = links_of(notes[i].text@)[k];
    if i < notes.len() - 1 {
        lemma_note_outcome(pre, known, i, k);
        assert(pre[i] == notes[i]);
    } else {
        lemma_note_links(last.id@, links_of(last.text@), known);
    }
    lemma_contains_add(
        all_edges(pre, known),
        edges_of(last.id@, links_of(last.text@), known),
        (notes[i].id@, c),
    );
    lemma_contains_add(
        all_broken(pre, known),
        broken_of(last.id@, links_of(last.text@), known),
        (c, notes[i].id@),
    );
}

/// A link `[[X]]` in a note yields the edge (note, X) when X is the
/// identifier of one of the notes, and otherwise a warning naming X and the
/// note; no edge ends anywhere but at a note, and there is exactly one edge or
/// warning per occurrence.
pub proof fn lemma_links_resolve(notes: Seq<NoteText>, i: int, k: int)
    requires
        0 <= i < notes.len(),
        0 <= k < links_of(notes[i].text@).len(),
    ensures
        note_ids(notes).contains(links_of(notes[i].text@)[k]) ==> all_edges(
            notes,
            note_ids(notes),
        ).contains((notes[i].id@, links_of(notes[i].text@)[k])),
        !note_ids(notes).contains(links_of(notes[i].text@)[k]) ==> all_broken(
            notes,
            note_ids(notes),
        ).contains((links_of(notes[i].text@)[k], notes[i].id@)),
        forall|e: (Seq<char>, Seq<char>)|
            all_edges(notes, note_ids(notes)).contains(e) ==> note_ids(notes).contains(e.1),
        all_edges(notes, note_ids(notes)).len() + all_broken(notes, note_ids(notes)).len()
            == link_count(notes),
{
    lemma_note_outcome(notes, note_ids(notes), i, k);
    lemma_outcomes_partition_links(notes, note_ids(notes));
}

/// For notes read from distinct note paths, the graph's nodes and the note
/// files correspond one to one: node `i` is the note at `paths[i]`, and no two
/// nodes share an identifier.
pub proof fn lemma_nodes_round_trip(paths: Seq<Seq<char>>, notes: Seq<NoteText>, nodes: Seq<Node>)
    requires
        paths.no_duplicates(),
        paths.len() == notes.len(),
        forall|i: int|
            0 <= i < paths.len() ==> is_note_path(paths[i]) && notes[i].id@ == identifier_of(
                paths[i],
            ),
        node_ids(nodes) == note_ids(notes),
    ensures
        nodes.len() == paths.len(),
        forall|i: int| 0 <= i < nodes.len() ==> nodes[i].id@ == identifier_of(paths[i]),
        node_ids(nodes).no_duplicates(),
{
    assert(node_ids(nodes).len() == note_ids(notes).len());
    assert(node_ids(nodes).len() == nodes.len());
    assert(note_ids(notes).len() == notes.len());
    assert forall|i: int| 0 <= i < nodes.len() implies nodes[i].id@ == identifier_of(paths[i]) by {
        assert(node_ids(nodes)[i] == note_ids(notes)[i]);
        assert(node_ids(nodes)[i] == nodes[i].id@);
        assert(note_ids(notes)[i] == notes[i].id@);
    }
    assert forall|i: int, j: int|
        0 <= i < node_ids(nodes).len() && 0 <= j < node_ids(nodes).len() && i != j implies node_ids(
            nodes,
        )[i] != node_ids(nodes)[j] by {
        if node_ids(nodes)[i] == node_ids(nodes)[j] {
            assert(node_ids(nodes)[i] == nodes[i].id@);
            assert(node_ids(nodes)[j] == nodes[j].id@);
            lemma_identifier_injective(paths[i], paths[j]);
        }
    }
}

/// The number of occurrences of `x` among the links of the notes with
/// identifier `s`.
pub open spec fn occurrences(notes: Seq<NoteText>, s: Seq<char>, x: Seq<char>) -> nat
    decreases notes.len(),
{
    if notes.len() == 0 {
        0
    } else {
        occurrences(notes.drop_last(), s, x) + if notes.last().id@ == s {
            links_of(notes.last().text@).to_multiset().count(x)
        } else {
            0
        }
    }
}

/// Within one note, a known capture `x` yields as many edges (note, `x`) as
/// it occurs, and no other source appears.
pub proof fn lemma_edge_count(source: Seq<char>, caps: Seq<Seq<char>>, known: Seq<Seq<char>>, s: Seq<
    char,
>, x: Seq<char>)
    requires
        known.contains(x),
    ensures
        edges_of(source, caps, known).to_multiset().count((s, x)) == if s == source {
            caps.to_multiset().count(x)
        } else {
            0
        },
    decreases caps.len(),
{
    broadcast use vstd::multiset::group_multiset_axioms;

    if caps.len() == 0 {
        reveal(Seq::filter);
        assert(edges_of(source, caps, known) =~= seq![]);
        assert(caps =~= Seq::<Seq<char>>::empty());
        broadcast use vstd::seq_lib::group_to_multiset_ensures;

        assert(!edges_of(source, caps, known).contains((s, x)));
        assert(!caps.contains(x));
    } else {
        let n = caps.len() - 1;
        let pre = caps.take(n);
        lemma_edge_count(source, pre, known, s, x);
        lemma_edges_step(source, caps, known, n);
        assert(caps.take(n + 1) =~= caps);
        assert(pre.push(caps[n]) =~= caps);
        to_multiset_build(pre, caps[n]);
        if known.contains(caps[n]) {
            to_multiset_build(edges_of(source, pre, known), (source, caps[n]));
        }
    }
}

/// Over all notes, the edges (`s`, `x`) for a known `x` number the
/// occurrences of `x` in the notes with identifier `s`.
pub proof fn lemma_all_edge_count(notes: Seq<NoteText>, known: Seq<Seq<char>>, s: Seq<char>, x: Seq<
    char,
>)
    requires
        known.contains(x),
    ensures
        all_edges(notes, known).to_multiset().count((s, x)) == occurrences(notes, s, x),
    decreases notes.len(),
{
    broadcast use vstd::multiset::group_multiset_axioms;

    if notes.len() == 0 {
        broadcast use vstd::seq_lib::group_to_multiset_ensures;

        assert(all_edges(notes, known) =~= Seq::<(Seq<char>, Seq<char>)>::empty());
        assert(!all_edges(notes, known).contains((s, x)));
    } else {
        let pre = notes.drop_last();
        let last = notes.last();
        lemma_all_edge_count(pre, known, s, x);
        lemma_edge_count(last.id@, links_of(last.text@), known, s, x);
        lemma_multiset_commutative(
            all_edges(pre, known),
            edges_of(last.id@, links_of(last.text@), known),
        );
    }
}

/// Among notes with distinct identifiers, only the note itself contributes
/// occurrences under its identifier.
proof fn lemma_occurrences_single(notes: Seq<NoteText>, i: int, x: Seq<char>)
    requires
        note_ids(notes).no_duplicates(),
        0 <= i < notes.len(),
    ensures
        occurrences(notes, notes[i].id@, x) == links_of(notes[i].text@).to_multiset().count(x),
    decreases notes.len(),
{
    let pre = notes.drop_last();
    assert(note_ids(pre) =~= note_ids(notes).drop_last());
    if i < notes.len() - 1 {
        assert(pre[i] == notes[i]);
        assert(note_ids(notes)[i] == notes[i].id@);
        assert(note_ids(notes)[notes.len() - 1] == notes.last().id@);
        lemma_occurrences_single(pre, i, x);
    } else {
        lemma_occurrences_absent(pre, notes[i].id@, x);
        assert forall|j: int| 0 <= j < pre.len() implies pre[j].id@ != notes[i].id@ by {
            assert(note_ids(notes)[j] == notes[j].id@);
            assert(note_ids(notes)[i] == notes[i].id@);
        }
    }
}

/// Notes none of which has identifier `s` contribute no occurrences under it.
proof fn lemma_occurrences_absent(notes: Seq<NoteText>, s: Seq<char>, x: Seq<char>)
    ensures
        (forall|j: int| 0 <= j < notes.len() ==> notes[j].id@ != s) ==> occurrences(notes, s, x)
            == 0,
    decreases notes.len(),
{
    if notes.len() > 0 {
        let pre = notes.drop_last();
        lemma_occurrences_absent(pre, s, x);
        if forall|j: int| 0 <= j < notes.len() ==> notes[j].id@ != s {
            assert forall|j: int| 0 <= j < pre.len() implies pre[j].id@ != s by {
                assert(pre[j] == notes[j]);
            }
            assert(notes[notes.len() - 1].id@ != s);
        }
    }
}

/// For notes with distinct identifiers, the graph holds, for each note and
/// each identifier `x`, exactly as many edges (note, `x`) as the note's body
/// has links `[[x]]`: references are not deduplicated.
pub proof fn lemma_edge_count_per_pair(notes: Seq<NoteText>, i: int, x: Seq<char>)
    requires
        note_ids(notes).no_duplicates(),
        0 <= i < notes.len(),
        note_ids(notes).contains(x),
    ensures
        all_edges(notes, note_ids(notes)).to_multiset().count((notes[i].id@, x)) == links_of(
            notes[i].text@,
        ).to_multiset().count(x),
{
    lemma_all_edge_count(notes, note_ids(notes), notes[i].id@, x);
    lemma_occurrences_single(notes, i, x);
}

} // verus!
