use tagsearch::filter::{FileText, Filter};
use tagsearch::tagset::TagSet;

fn kw(words: &[&str]) -> Vec<String> {
    words.iter().map(|s| s.to_string()).collect()
}

fn tagset(tags: &[&[&str]]) -> TagSet {
    let mut ts = TagSet::new();
    for t in tags {
        ts.insert(t.iter().map(|s| s.to_string()).collect());
    }
    ts
}

fn file(name: &str, text: &str) -> FileText {
    FileText { name: name.to_string(), text: text.to_string() }
}

#[test]
fn match_good() {
    let f = Filter::new(&kw(&["stoicism", "philosophy"]), &kw(&[]), false, false);
    assert!(f.matches(&tagset(&[&["stoicism"], &["philosophy"]])));

    let f = Filter::new(&kw(&["stoicism", "PHILOSOPHY"]), &kw(&[]), false, false);
    assert!(f.matches(&tagset(&[&["STOICISM"], &["pHiLoSOpHy"]])));

    let f = Filter::new(&kw(&["stoicism", "philosophy"]), &kw(&[]), true, false);
    assert!(f.matches(&tagset(&[&["stoicism"], &["philosophy"]])));
    assert!(f.matches(&tagset(&[&["stoicism"]])));
    assert!(f.matches(&tagset(&[&["philosophy"]])));

    let f = Filter::new(&kw(&["stoicism", "philosophy"]), &kw(&["donkey"]), true, false);
    assert!(f.matches(&tagset(&[&["philosophy"]])));
}

#[test]
fn match_bad() {
    let f = Filter::new(&kw(&[]), &kw(&["donkey"]), true, false);
    assert!(!f.matches(&tagset(&[&["stoicism"], &["philosophy"], &["donkey"]])));
}

#[test]
fn and_mode_needs_every_keyword() {
    let f = Filter::new(&kw(&["a", "b"]), &kw(&[]), false, false);
    assert!(f.matches(&tagset(&[&["a"], &["b"]])));
    assert!(!f.matches(&tagset(&[&["a"]])));
}

#[test]
fn or_mode_needs_any_keyword() {
    let f = Filter::new(&kw(&["a", "b"]), &kw(&[]), true, false);
    assert!(f.matches(&tagset(&[&["a"]])));
}

#[test]
fn fuzzy_mode_matches_substrings() {
    let f = Filter::new(&kw(&["stoic"]), &kw(&[]), false, true);
    assert!(f.matches(&tagset(&[&["stoicism"]])));

    let exact = Filter::new(&kw(&["stoic"]), &kw(&[]), false, false);
    assert!(!exact.matches(&tagset(&[&["stoicism"]])));
}

#[test]
fn bad_keyword_vetoes_everything() {
    let f = Filter::new(&kw(&["a"]), &kw(&["x"]), false, false);
    assert!(!f.matches(&tagset(&[&["a"], &["x"]])));

    let f_or = Filter::new(&kw(&["a"]), &kw(&["x"]), true, false);
    assert!(!f_or.matches(&tagset(&[&["a"], &["x"]])));

    let f_deep = Filter::new(&kw(&["a"]), &kw(&["x"]), false, false);
    assert!(!f_deep.matches(&tagset(&[&["a"], &["top", "x"]])));
}

#[test]
fn joined_path_counts_only_for_deep_tags() {
    // one deep tag: segments "a", "b" and the joined path "a/b" are items
    let f = Filter::new(&kw(&["a/b"]), &kw(&[]), false, false);
    assert!(f.matches(&tagset(&[&["a", "b"]])));

    // a flat tag is tested once, not twice: "a" alone cannot reach 2
    let f2 = Filter::new(&kw(&["a", "b"]), &kw(&[]), false, false);
    assert!(!f2.matches(&tagset(&[&["a"]])));
}

#[test]
fn duplicate_keywords_collapse() {
    let f = Filter::new(&kw(&["a", "a"]), &kw(&[]), false, false);
    assert!(f.matches(&tagset(&[&["a"]])));
}

#[test]
fn empty_query_matches_everything() {
    let f = Filter::empty();
    assert!(f.matches(&tagset(&[&["anything"]])));
    assert!(f.matches(&tagset(&[])));
}

#[test]
fn files_matching_keeps_input_order() {
    let files = vec![
        file("one.md", "@keep me"),
        file("two.md", "nothing here"),
        file("three.md", "also @keep"),
    ];
    let f = Filter::new(&kw(&["keep"]), &kw(&[]), false, false);
    assert_eq!(f.files_matching_tag_query(&files), vec!["one.md".to_string(), "three.md".to_string()]);
}

#[test]
fn untagged_files_lists_files_without_tags() {
    let files = vec![
        file("one.md", "@tagged"),
        file("two.md", "no tags at all"),
        file("three.md", "x@not-a-tag either"),
    ];
    let f = Filter::empty();
    assert_eq!(f.untagged_files(&files), vec!["two.md".to_string(), "three.md".to_string()]);
}

#[test]
fn tags_matching_unions_matching_files() {
    let files = vec![
        file("one.md", "@work/alpha @home"),
        file("two.md", "@work/beta"),
        file("three.md", "@other"),
    ];
    let f = Filter::new(&kw(&["work"]), &kw(&[]), false, true);
    let ts = f.tags_matching_tag_query(&files);
    let expected = tagset(&[&["home"], &["work", "alpha"], &["work", "beta"]]);
    assert_eq!(ts, expected);
}

#[test]
fn count_of_tags_counts_segments_and_joined_path() {
    // a depth-3 tag contributes to all 3 segments plus its joined path
    let files = vec![file("one.md", "@a/b/c")];
    let f = Filter::empty();
    let counts = f.count_of_tags(&files);
    let expected: Vec<(usize, String)> = vec![
        (1, "a".to_string()),
        (1, "a/b/c".to_string()),
        (1, "b".to_string()),
        (1, "c".to_string()),
    ];
    assert_eq!(counts, expected);
}

#[test]
fn count_of_tags_sorts_by_count_then_key() {
    let files = vec![file("one.md", "@a @b"), file("two.md", "@a")];
    let f = Filter::empty();
    assert_eq!(
        f.count_of_tags(&files),
        vec![(2, "a".to_string()), (1, "b".to_string())]
    );
}

#[test]
fn count_of_tags_ignores_file_order() {
    let a = file("one.md", "@a @b @deep/tag");
    let b = file("two.md", "@a");
    let c = file("three.md", "@b @c");
    let f = Filter::empty();
    let forward = f.count_of_tags(&vec![a.clone(), b.clone(), c.clone()]);
    let backward = f.count_of_tags(&vec![c, b, a]);
    assert_eq!(forward, backward);
}

#[test]
fn count_of_tags_ignores_the_filter() {
    let files = vec![file("one.md", "@a")];
    let f = Filter::new(&kw(&["unrelated"]), &kw(&["a"]), false, false);
    assert_eq!(f.count_of_tags(&files), vec![(1, "a".to_string())]);
}
