use std::str::FromStr;

use matchmaker::mode_filter::PrefixFilter;
use matchmaker::semantic::{check_cycles, resolve_actions, resolve_alias, BindAction, SemanticBind};

fn bind(name: &str, mode: &str, actions: Vec<BindAction>) -> SemanticBind {
    SemanticBind { name: name.to_string(), mode: PrefixFilter::from_str(mode).unwrap(), actions }
}

fn alias(s: &str) -> BindAction {
    BindAction::Semantic(s.to_string())
}

#[test]
fn chains_of_aliases_without_loops_pass() {
    let bs = vec![
        bind("open", "", vec![alias("edit"), BindAction::Other(1)]),
        bind("edit", "", vec![BindAction::Other(2)]),
        bind("x", "", vec![alias("open"), alias("edit")]),
    ];
    assert_eq!(check_cycles(&bs), Ok(()));
}

#[test]
fn a_loop_of_aliases_is_reported_with_its_path() {
    let bs = vec![
        bind("a", "", vec![alias("b")]),
        bind("b", "", vec![alias("c")]),
        bind("c", "", vec![alias("a")]),
    ];
    assert_eq!(
        check_cycles(&bs),
        Err(vec!["b".to_string(), "c".to_string(), "a".to_string(), "b".to_string()])
    );
    let self_loop = vec![bind("s", "", vec![alias("s")])];
    assert_eq!(check_cycles(&self_loop), Err(vec!["s".to_string(), "s".to_string()]));
}

#[test]
fn aliases_prefer_a_matching_mode_over_every_mode() {
    let bs = vec![
        bind("open", "", vec![BindAction::Other(1)]),
        bind("open", "vim", vec![BindAction::Other(2)]),
        bind("open", "", vec![BindAction::Other(3)]),
    ];
    assert_eq!(resolve_alias(&bs, "open", &vec!["vim".to_string()]), Some(1));
    assert_eq!(resolve_alias(&bs, "open", &vec!["emacs".to_string()]), Some(2));
    assert_eq!(resolve_alias(&bs, "close", &vec![]), None);
}

fn trace(s: &str) -> BindAction {
    BindAction::Trace(s.to_string())
}

#[test]
fn aliases_resolve_into_traced_actions() {
    let bs = vec![
        bind("open", "", vec![BindAction::Other(1), alias("edit")]),
        bind("edit", "", vec![BindAction::Other(2)]),
    ];
    assert_eq!(
        resolve_actions(&bs, &vec![alias("open")], &vec![]),
        Some(vec![
            trace("@@open"),
            BindAction::Other(1),
            trace("@@edit"),
            BindAction::Other(2),
            trace(""),
            trace(""),
        ])
    );
    assert_eq!(
        resolve_actions(&bs, &vec![trace("mine"), alias("edit")], &vec![]),
        Some(vec![trace("mine"), BindAction::Other(2)])
    );
}

#[test]
fn unknown_or_looping_aliases_do_not_resolve() {
    let bs = vec![bind("a", "", vec![alias("a")])];
    assert_eq!(resolve_actions(&bs, &vec![alias("missing")], &vec![]), None);
    assert_eq!(resolve_actions(&bs, &vec![alias("a")], &vec![]), None);
    assert_eq!(resolve_actions(&bs, &vec![], &vec![]), None);
}
