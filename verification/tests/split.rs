use matchmaker::split::{preprocess_line, split_line, Split, SplitRegex};

fn names(ns: &[&str]) -> Vec<String> {
    ns.iter().map(|s| s.to_string()).collect()
}

#[test]
fn no_split_takes_the_whole_line() {
    assert_eq!(split_line(&Split::NoSplit, "abc", &names(&["x"])), vec![(0, 3)]);
}

#[test]
fn delimiter_cuts_one_column_fewer_than_columns() {
    let split = Split::Delimiter(SplitRegex::new(",").unwrap());
    assert_eq!(split_line(&split, "a,b,c,d", &names(&["x", "y", "z"])), vec![(0, 1), (2, 3), (4, 7)]);
    assert_eq!(split_line(&split, "a", &names(&["x", "y"])), vec![(0, 1)]);
}

#[test]
fn unnamed_groups_fill_columns_in_order() {
    let split = Split::Delimiter(SplitRegex::new(r"(\w+)-(\w+)").unwrap());
    assert_eq!(split_line(&split, "ab-cd", &names(&["x", "y", "z"])), vec![(0, 2), (3, 5), (0, 0)]);
    assert_eq!(split_line(&split, "nothing", &names(&["x", "y"])), vec![(0, 0), (0, 0)]);
}

#[test]
fn named_groups_fill_their_columns() {
    let split = Split::Delimiter(SplitRegex::new(r"(?P<b>\w+)-(?P<a>\w+)").unwrap());
    assert_eq!(split_line(&split, "ab-cd", &names(&["a", "b", "c"])), vec![(3, 5), (0, 2), (0, 0)]);
}

#[test]
fn regexes_match_one_after_another() {
    let split = Split::Regexes(vec![SplitRegex::new(r"\d+").unwrap(), SplitRegex::new(r"[a-z]+").unwrap()]);
    assert_eq!(split_line(&split, "12ab", &names(&["x", "y"])), vec![(0, 2), (2, 4)]);
    assert_eq!(split_line(&split, "ab12", &names(&["x", "y"])), vec![(2, 4), (0, 0)]);
}

#[test]
fn refused_patterns_make_no_regex() {
    assert!(SplitRegex::new("(").is_none());
    assert!(SplitRegex::new("a+").is_some());
}

#[test]
fn lines_are_trimmed_split_and_dropped_without_the_required_column() {
    let split = Split::Delimiter(SplitRegex::new(",").unwrap());
    let cols = names(&["x", "y"]);
    assert_eq!(
        preprocess_line("  a,b ", true, &split, &cols, Some(1)),
        Some(("a,b".to_string(), vec![(0, 1), (2, 3)]))
    );
    assert_eq!(preprocess_line("  a ", true, &split, &cols, Some(1)), None);
    assert_eq!(
        preprocess_line(" a ", false, &split, &cols, None),
        Some((" a ".to_string(), vec![(0, 3)]))
    );
    assert_eq!(preprocess_line("   ", true, &Split::NoSplit, &cols, Some(0)), None);
}
