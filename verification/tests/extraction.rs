use tagsearch::utility::{get_tags_from_string, get_tags_from_string_2, parse_heirarchical_tag};

fn tag(parts: &[&str]) -> Vec<String> {
    parts.iter().map(|s| s.to_string()).collect()
}

#[test]
fn test_tags_from_string() {
    let output: Vec<Vec<String>> = vec![
        tag(&["a"]),
        tag(&["b"]),
        tag(&["c"]),
        tag(&["d", "e", "f"]),
    ];
    let input = "@a @b @c @d/e/f";
    assert_eq!(get_tags_from_string(input).tags, output);

    assert_eq!(get_tags_from_string_2(input).tags, output);
}

#[test]
fn test_parse_heirarchical_tag() {
    let tests = vec![
        ("@d/e/f", vec!["d", "e", "f"]),
        ("@delta/gamma", vec!["delta", "gamma"]),
        ("@single", vec!["single"]),
    ];
    for (inp, outp) in tests {
        assert_eq!(parse_heirarchical_tag(inp), outp);
    }
}

#[test]
fn no_boundary_before_marker_yields_nothing() {
    assert!(get_tags_from_string("x@tag").tags.is_empty());
    assert!(get_tags_from_string_2("x@tag").tags.is_empty());
}

#[test]
fn trailing_punctuation_is_excluded() {
    assert_eq!(get_tags_from_string("@tag.").tags, vec![tag(&["tag"])]);
    assert_eq!(get_tags_from_string_2("@tag.").tags, vec![tag(&["tag"])]);
}

#[test]
fn doubled_marker_yields_nothing() {
    assert!(get_tags_from_string("@@tag").tags.is_empty());
    assert!(get_tags_from_string_2("@@tag").tags.is_empty());
}

#[test]
fn bare_marker_and_empty_segments_are_discarded() {
    assert!(get_tags_from_string("@").tags.is_empty());
    assert!(get_tags_from_string("@/").tags.is_empty());
    assert!(get_tags_from_string("@a//b").tags.is_empty());
    assert!(get_tags_from_string_2("@").tags.is_empty());
    assert!(get_tags_from_string_2("@/").tags.is_empty());
    assert!(get_tags_from_string_2("@a//b").tags.is_empty());
}

#[test]
fn scanners_agree_on_many_inputs() {
    let inputs = [
        "",
        "plain text without tags",
        "@a @b @c @d/e/f",
        "x@tag",
        "@tag.",
        "@@tag",
        "line one @first\nline two @second/child\n@third",
        "tab\t@tabbed and@glued",
        "punct: @dot. @comma, (@paren)",
        "@dup @dup @dup",
        "@a/ @/a @a//b @-",
        "end of input @last",
        "@Mixed/CASE @mixed/case",
    ];
    for input in inputs {
        assert_eq!(
            get_tags_from_string(input),
            get_tags_from_string_2(input),
            "scanners disagree on {:?}",
            input
        );
    }
}

#[test]
fn tagset_is_sorted_and_deduplicated() {
    let ts = get_tags_from_string("@c @a @b @a @b/x");
    let expected: Vec<Vec<String>> = vec![
        tag(&["a"]),
        tag(&["b"]),
        tag(&["b", "x"]),
        tag(&["c"]),
    ];
    assert_eq!(ts.tags, expected);
}

#[test]
fn parse_strips_all_leading_markers() {
    assert_eq!(parse_heirarchical_tag("@@x/y"), vec!["x", "y"]);
    assert_eq!(parse_heirarchical_tag("plain"), vec!["plain"]);
}
