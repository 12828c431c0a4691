use zettl::config::Config;
use zettl::index::{
    compose_index, front_matter, get_index_items, index_document, index_file_contents,
    index_title, is_listed_child, list_name, note_title, skeleton_document, sort_by_recency, BuildError, Child, FrontMatter,
};

fn file(path: &str, modified: u128) -> Child {
    Child { path: path.to_string(), is_dir: false, is_file: true, modified }
}

fn dir(path: &str, modified: u128) -> Child {
    Child { path: path.to_string(), is_dir: true, is_file: false, modified }
}

fn strings(v: &[&str]) -> Vec<String> {
    v.iter().map(|s| s.to_string()).collect()
}

#[test]
fn newer_note_comes_first() {
    let (items, dirs) = get_index_items(vec![file("notes/x.md", 100), file("notes/y.md", 200)]);
    assert_eq!(items, strings(&["notes/y", "notes/x"]));
    assert!(dirs.is_empty());
}

#[test]
fn nested_tree_lists_immediate_children_only() {
    let (root, root_dirs) = get_index_items(vec![dir("a", 5)]);
    assert_eq!(root, strings(&["a/_index"]));
    assert_eq!(root_dirs, strings(&["a"]));
    let (a, a_dirs) = get_index_items(vec![dir("a/b", 5)]);
    assert_eq!(a, strings(&["a/b/_index"]));
    assert_eq!(a_dirs, strings(&["a/b"]));
    let (b, b_dirs) = get_index_items(vec![file("a/b/c.md", 5)]);
    assert_eq!(b, strings(&["a/b/c"]));
    assert!(b_dirs.is_empty());
}

#[test]
fn files_and_directories_interleave_by_recency() {
    let children = vec![
        file("n/old.md", 10),
        dir("n/sub", 30),
        file("n/new.md", 40),
        dir("n/mid", 20),
    ];
    let (items, dirs) = get_index_items(children);
    assert_eq!(items, strings(&["n/new", "n/sub/_index", "n/mid/_index", "n/old"]));
    assert_eq!(dirs, strings(&["n/sub", "n/mid"]));
}

#[test]
fn skipped_children() {
    let children = vec![
        dir(".zettl", 90),
        file(".graph.json", 80),
        dir(".git", 70),
        file("_index.md", 60),
        file("readme.txt", 50),
        file("notes/.md", 45),
        dir("notes/.zettl", 44),
        file("kept.md", 40),
    ];
    let (items, dirs) = get_index_items(children);
    assert_eq!(items, strings(&["kept"]));
    assert!(dirs.is_empty());
}

#[test]
fn hidden_only_at_the_first_segment() {
    let (items, dirs) = get_index_items(vec![file("a/.draft.md", 2), dir("a/.cache", 1)]);
    assert_eq!(items, strings(&["a/.draft", "a/.cache/_index"]));
    assert_eq!(dirs, strings(&["a/.cache"]));
}

#[test]
fn subdirectory_index_file_is_skipped() {
    let (items, _) = get_index_items(vec![file("a/_index.md", 9), file("a/_indexes.md", 1)]);
    assert_eq!(items, strings(&["a/_indexes"]));
}

#[test]
fn own_index_does_not_change_listing() {
    let before = get_index_items(vec![file("n/x.md", 1), dir("n/d", 3)]);
    let after = get_index_items(vec![file("n/_index.md", 2), file("n/x.md", 1), dir("n/d", 3)]);
    assert_eq!(before, after);
}

#[test]
fn equal_times_keep_given_order() {
    let sorted = sort_by_recency(vec![file("b.md", 5), file("a.md", 5), file("c.md", 7)]);
    let paths: Vec<String> = sorted.iter().map(|c| c.path.clone()).collect();
    assert_eq!(paths, strings(&["c.md", "b.md", "a.md"]));
}

#[test]
fn sort_handles_empty_and_large_times() {
    assert!(sort_by_recency(Vec::new()).is_empty());
    let sorted = sort_by_recency(vec![file("a.md", 0), file("b.md", u128::MAX), file("c.md", 1)]);
    let paths: Vec<String> = sorted.iter().map(|c| c.path.clone()).collect();
    assert_eq!(paths, strings(&["b.md", "c.md", "a.md"]));
}

#[test]
fn listed_child_test() {
    assert!(is_listed_child(&file("a.md", 0)));
    assert!(!is_listed_child(&file("a.md.txt", 0)));
    assert!(!is_listed_child(&Child { path: "a.md".to_string(), is_dir: false, is_file: false, modified: 0 }));
    assert!(is_listed_child(&dir("_index.md", 0)));
    assert!(!is_listed_child(&dir(".hidden", 0)));
}

#[test]
fn title_from_directory_name() {
    assert_eq!(index_title("notes"), "Notes Index");
    assert_eq!(index_title("my_projects"), "My Projects Index");
    assert_eq!(index_title("apple-pen"), "Apple Pen Index");
}

#[test]
fn front_matter_layout() {
    let fm = front_matter("Notes Index", "Me", "2021-01-02 03:04:05").unwrap();
    assert_eq!(fm, "---\ntitle: Notes Index\nauthor: Me\ncreated: \"2021-01-02 03:04:05\"\n");
}

#[test]
fn index_document_layout() {
    let items = strings(&["n/y", ".hidden", "n/sub/_index"]);
    let doc = index_document("FM\n", "N Index", &items);
    assert_eq!(doc, "FM\n---\n\n# N Index\n\n- [[n/y]]\n- [[n/sub/_index]]\n");
    let empty = index_document("", "E Index", &Vec::new());
    assert_eq!(empty, "---\n\n# E Index\n\n");
}

#[test]
fn compose_full_document() {
    let items = strings(&["notes/y", "notes/x"]);
    let doc = compose_index(Some("notes".to_string()), "Me", "2021-01-02 03:04:05", &items).unwrap();
    assert_eq!(
        doc,
        "---\ntitle: Notes Index\nauthor: Me\ncreated: \"2021-01-02 03:04:05\"\n---\n\n# Notes Index\n\n- [[notes/y]]\n- [[notes/x]]\n"
    );
}

#[test]
fn missing_directory_name() {
    let r = compose_index(None, "Me", "2021-01-02 03:04:05", &Vec::new());
    assert_eq!(r, Err(BuildError::MissingMetadata));
    let r = index_file_contents(None, "Me", vec![file("a.md", 1)]);
    assert_eq!(r.err(), Some(BuildError::MissingMetadata));
}

#[test]
fn rebuilt_document_differs_only_in_front_matter() {
    let children = || vec![file("notes/x.md", 100), file("notes/y.md", 200), dir("notes/d", 150)];
    let (first, dirs) = index_file_contents(Some("notes".to_string()), "Me", children()).unwrap();
    let mut again = children();
    again.push(file("notes/_index.md", 300));
    let (second, dirs2) = index_file_contents(Some("notes".to_string()), "Me", again).unwrap();
    let body = "---\n\n# Notes Index\n\n- [[notes/y]]\n- [[notes/d/_index]]\n- [[notes/x]]\n";
    assert!(first.ends_with(body));
    assert!(second.ends_with(body));
    assert!(first.starts_with("---\ntitle: Notes Index\nauthor: Me\ncreated: \""));
    assert_eq!(dirs, strings(&["notes/d"]));
    assert_eq!(dirs, dirs2);
}

#[test]
fn note_skeleton_layout() {
    let doc = skeleton_document("FM\n", "Pen");
    assert_eq!(doc, "FM\n---\n\n# Pen\n");
}

#[test]
fn default_config() {
    let c = Config::default();
    assert_eq!(c.name, "My Zettelkasten");
    assert_eq!(c.author, "Me");
    assert_eq!(c.editor_cmd, "vim");
    assert!(c.editor_args.is_empty());
    assert!(c.indexes && c.graph);
}

#[test]
fn note_titles() {
    assert_eq!(note_title("pen"), "Pen");
    assert_eq!(note_title("my_first-note"), "My First Note");
    assert_eq!(note_title(""), "");
}

#[test]
fn list_names() {
    assert_eq!(list_name("apple/pen.md"), Some("apple/pen".to_string()));
    assert_eq!(list_name("2021-01-02.md"), Some("2021-01-02".to_string()));
    assert_eq!(list_name("_index.md"), None);
    assert_eq!(list_name("apple/_index.md"), None);
    assert_eq!(list_name("apple/pen.txt"), None);
}

#[test]
fn front_matter_struct_yaml() {
    let fm = FrontMatter {
        title: "Pen".to_string(),
        author: "Ann".to_string(),
        created: "2022-12-31 23:59:59".to_string(),
    };
    assert_eq!(
        fm.to_yaml().unwrap(),
        "---\ntitle: Pen\nauthor: Ann\ncreated: \"2022-12-31 23:59:59\"\n"
    );
}

#[test]
fn index_is_dated_now_in_timestamp_shape() {
    let (doc, _) = index_file_contents(Some("notes".to_string()), "Me", Vec::new()).unwrap();
    let line = doc.lines().find(|l| l.starts_with("created: ")).unwrap();
    let stamp = line.trim_start_matches("created: ").trim_matches('"');
    let chars: Vec<char> = stamp.chars().collect();
    assert_eq!(chars.len(), 19);
    for (i, c) in chars.iter().enumerate() {
        match i {
            4 | 7 => assert_eq!(*c, '-'),
            10 => assert_eq!(*c, ' '),
            13 | 16 => assert_eq!(*c, ':'),
            _ => assert!(c.is_ascii_digit(), "{}", stamp),
        }
    }
    assert!(doc.ends_with("---\n\n# Notes Index\n\n"));
}

#[test]
fn front_matter_always_succeeds_on_awkward_text() {
    let fm = front_matter("yes", "", "a: b").unwrap();
    assert!(fm.starts_with("---\ntitle: "));
}
