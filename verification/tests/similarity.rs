use tagsearch::filter::{FileText, Filter};
use tagsearch::similar::Issue;
use tagsearch::utility::parse_heirarchical_tag as tagparse;

fn file(name: &str, text: &str) -> FileText {
    FileText { name: name.to_string(), text: text.to_string() }
}

#[test]
fn compare_tags() {
    assert_eq!(
        Filter::compare_heirarchical_tags(&tagparse("as"), &tagparse("a")),
        Some(Issue::Plural("as".to_string(), "a".to_string()))
    );
    assert_eq!(
        Filter::compare_heirarchical_tags(&tagparse("a/b/cs"), &tagparse("a/b/c")),
        Some(Issue::Plural("cs".to_string(), "c".to_string()))
    );
    assert_eq!(
        Filter::compare_heirarchical_tags(&tagparse("a/bs/c"), &tagparse("a/b/c")),
        Some(Issue::Plural("bs".to_string(), "b".to_string()))
    );
    assert_eq!(
        Filter::compare_heirarchical_tags(&tagparse("A"), &tagparse("a")),
        Some(Issue::Case("A".to_string(), "a".to_string()))
    );
    assert_eq!(
        Filter::compare_heirarchical_tags(&tagparse("A/b/c"), &tagparse("a/b/c")),
        Some(Issue::Case("A".to_string(), "a".to_string()))
    );
    assert_eq!(
        Filter::compare_heirarchical_tags(&tagparse("a/B/c"), &tagparse("a/b/c")),
        Some(Issue::Case("B".to_string(), "b".to_string()))
    );
    assert_eq!(
        Filter::compare_heirarchical_tags(&tagparse("As"), &tagparse("a")),
        None
    );
}

#[test]
fn plural_means_exactly_one_trailing_s() {
    // only a single appended `s` counts as a plural variant
    assert_eq!(
        Filter::compare_heirarchical_tags(&tagparse("ass"), &tagparse("a")),
        None
    );
    assert_eq!(
        Filter::compare_heirarchical_tags(&tagparse("sss"), &tagparse("s")),
        None
    );
    assert_eq!(
        Filter::compare_heirarchical_tags(&tagparse("ass"), &tagparse("as")),
        Some(Issue::Plural("ass".to_string(), "as".to_string()))
    );
}

#[test]
fn comparison_stops_at_first_difference() {
    // "x" vs "y" is neither a case nor a plural variant, so the later
    // positions are never looked at
    assert_eq!(
        Filter::compare_heirarchical_tags(&tagparse("x/As"), &tagparse("y/a")),
        None
    );
    // equal tags raise nothing
    assert_eq!(
        Filter::compare_heirarchical_tags(&tagparse("a/b"), &tagparse("a/b")),
        None
    );
}

#[test]
fn similar_tags_reports_each_direction_once() {
    let files = vec![file("one.md", "@as @a @as"), file("two.md", "@a")];
    let f = Filter::empty();
    let issues = f.similar_tags(&files);
    assert_eq!(
        issues,
        vec![
            Issue::Plural("a".to_string(), "as".to_string()),
            Issue::Plural("as".to_string(), "a".to_string()),
        ]
    );
}

#[test]
fn similar_tags_spots_case_variants() {
    let files = vec![file("one.md", "@Work @work @unrelated")];
    let f = Filter::empty();
    let issues = f.similar_tags(&files);
    assert_eq!(
        issues,
        vec![
            Issue::Case("Work".to_string(), "work".to_string()),
            Issue::Case("work".to_string(), "Work".to_string()),
        ]
    );
}

#[test]
fn issue_describe_formats_kind_and_segments() {
    let p = Issue::Plural("as".to_string(), "a".to_string());
    assert_eq!(p.describe(), "Plural - as & a");
    let c = Issue::Case("A".to_string(), "a".to_string());
    assert_eq!(c.describe(), "Case - A & a");
}
