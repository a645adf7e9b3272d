use glob_prime::path::Path;
use glob_prime::selector::Selector;

fn strings(parts: &[&str]) -> Vec<String> {
    parts.iter().map(|p| p.to_string()).collect()
}

#[test]
fn paths_from_text() {
    let path = Path::new("a/b");
    assert_eq!(path.root, "");
    assert_eq!(path.components, strings(&["a", "b"]));
    let path = Path::new("/usr//lib/");
    assert_eq!(path.root, "/");
    assert_eq!(path.components, strings(&["usr", "lib"]));
    let path = Path::new("");
    assert_eq!(path.root, "");
    assert!(path.components.is_empty());
}

#[test]
fn paths_as_text() {
    assert_eq!(Path::new("a/b").to_string(), "a/b");
    assert_eq!(Path::new("/a/b").to_string(), "/a/b");
    assert_eq!(Path::new("/").to_string(), "/");
    assert_eq!(Path::current().to_string(), ".");
    assert_eq!(Path::rooted("C:\\".to_string()).child("x").to_string(), "C:\\x");
}

#[test]
fn joining_components() {
    let path = Path::new("a");
    assert_eq!(path.join("b").to_string(), "a/b");
    assert_eq!(path.join("").to_string(), "a");
    assert_eq!(path.child("").components, strings(&["a", ""]));
    assert_eq!(path.join("..").to_string(), "a/..");
    assert_eq!(Path::current().join("x").to_string(), "x");
    assert_eq!(path.duplicate().components, path.components);
}

#[test]
fn final_components() {
    assert_eq!(Path::new("a/b.txt").file_name(), "b.txt");
    assert_eq!(Path::new("/").file_name(), "");
    assert_eq!(Path::current().file_name(), "");
}

#[test]
fn runs_of_recursive_wildcards_collapse() {
    let pieces = strings(&["a", "**", "**", "b", "**", "c", "**", "**", "**"]);
    assert_eq!(Selector::collapse(&pieces), strings(&["a", "**", "b", "**", "c", "**"]));
    let pieces = strings(&["**"]);
    assert_eq!(Selector::collapse(&pieces), strings(&["**"]));
    assert!(Selector::collapse(&Vec::new()).is_empty());
}

#[test]
fn one_selector_for_each_component() {
    let chain = Selector::from_pattern("one/tw*/**/four").ok().unwrap();
    assert_eq!(chain.len(), 5);
    assert!(chain[0].is_precise());
    assert_eq!(chain[0].literal(), "one");
    assert!(chain[1].is_wildcard());
    assert!(chain[1].accepts("two"));
    assert!(!chain[1].accepts("one"));
    assert!(chain[2].is_recursive());
    assert!(chain[3].is_precise());
    assert_eq!(chain[3].literal(), "four");
    assert!(chain[4].is_terminating());

    let chain = Selector::from_pattern("a/**/**/b/").ok().unwrap();
    assert_eq!(chain.len(), 5);
    assert!(chain[1].is_recursive());
    assert!(chain[2].is_precise());
    assert!(chain[3].is_precise());
    assert_eq!(chain[3].literal(), "");

    let chain = Selector::from_pattern("").ok().unwrap();
    assert_eq!(chain.len(), 2);
    assert_eq!(chain[0].literal(), "");
}

#[test]
fn a_chain_needs_valid_components() {
    let err = Selector::from_pattern("a/b**").err().unwrap();
    assert_eq!(err.pos, 2);
    let components = strings(&["ok", "[x", "[y"]);
    let err = Selector::from_components(&components).err().unwrap();
    assert_eq!(err.pos, 0);
    assert_eq!(err.msg, "invalid range pattern");
}

#[test]
fn the_end_of_the_chain_answers_every_other_time() {
    let mut chain = Selector::from_pattern("a").ok().unwrap();
    assert_eq!(chain[1].toggle(), Some(false));
    assert_eq!(chain[1].toggle(), Some(true));
    assert_eq!(chain[1].toggle(), Some(false));
    assert_eq!(chain[0].toggle(), None);
}
