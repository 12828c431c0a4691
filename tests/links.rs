use regex::Regex;
use zettl::links::extract_links;

fn captures(text: &str) -> Vec<String> {
    extract_links(text)
}

fn by_regex(text: &str) -> Vec<String> {
    let re = Regex::new(r"\[\[([^\]\[]+)\]\]").unwrap();
    re.captures_iter(text).map(|c| c[1].to_string()).collect()
}

#[test]
fn links_in_order_of_occurrence() {
    assert_eq!(captures("see [[b]] and [[missing]]"), vec!["b", "missing"]);
}

#[test]
fn no_links_in_plain_text() {
    assert!(captures("").is_empty());
    assert!(captures("no links here [ ] [x] ]]").is_empty());
}

#[test]
fn empty_capture_is_no_link() {
    assert!(captures("[[]]").is_empty());
}

#[test]
fn brackets_inside_capture_break_the_link() {
    assert!(captures("[[a]b]]").is_empty());
    assert!(captures("[[a[b]]").is_empty());
}

#[test]
fn extra_opening_bracket_starts_later() {
    assert_eq!(captures("[[[a]]"), vec!["a"]);
    assert_eq!(captures("[[[[x]]]]"), vec!["x"]);
}

#[test]
fn adjacent_and_repeated_links() {
    assert_eq!(captures("[[a]][[b]] [[a]]"), vec!["a", "b", "a"]);
}

#[test]
fn captures_keep_paths_spaces_and_unicode() {
    assert_eq!(
        captures("x [[projects/apple/pen]] y [[two words]] z [[Zürich ☕]]"),
        vec!["projects/apple/pen", "two words", "Zürich ☕"]
    );
}

#[test]
fn scan_agrees_with_link_regex() {
    let samples = [
        "see [[b]] and [[missing]]",
        "[[[a]]",
        "[[a]b]] [[c]]",
        "[[x]]]] [[[y]]]",
        "[[ ]] [[\n]] [[a\nb]]",
        "]] [[ [[q]] [[r",
        "[[a]][[b]][[c]]",
        "text [[ünï]] more [[a|b]]",
    ];
    for s in samples.iter() {
        assert_eq!(captures(s), by_regex(s), "on {:?}", s);
    }
}
