use tagsearch::utility::display_as_tree;

fn tag(parts: &[&str]) -> Vec<String> {
    parts.iter().map(|s| s.to_string()).collect()
}

#[test]
fn display_as_tree_test() {
    let output2 = String::from(
        "completely\n    unrelated\n        heirarchy\nphilosophy\n    mindset\n    stoicism\n        quote\n",
    );
    let input2 = vec![
        tag(&["philosophy", "stoicism", "quote"]),
        tag(&["philosophy", "mindset"]),
        tag(&["completely", "unrelated", "heirarchy"]),
    ];
    assert_eq!(display_as_tree(&input2), output2);
}

#[test]
fn tree_prints_shared_ancestors_once() {
    let input = vec![tag(&["a", "b"]), tag(&["a", "c"]), tag(&["a"])];
    assert_eq!(display_as_tree(&input), "a\n    b\n    c\n");
}

#[test]
fn tree_of_nothing_is_empty() {
    let input: Vec<Vec<String>> = vec![];
    assert_eq!(display_as_tree(&input), "");
}

#[test]
fn tree_ignores_duplicates() {
    let input = vec![tag(&["x", "y"]), tag(&["x", "y"])];
    assert_eq!(display_as_tree(&input), "x\n    y\n");
}
