use glob_prime::glob::{glob, glob_with_root, Paths, Query, Reply, Root, Step};
use glob_prime::path::Path;
use glob_prime::pattern::Pattern;
use std::collections::BTreeSet;

/// A directory tree held in memory: the directories and the files, each by
/// its path from the top.
struct Tree {
    dirs: BTreeSet<String>,
    files: BTreeSet<String>,
}

impl Tree {
    fn new() -> Tree {
        let mut dirs = BTreeSet::new();
        dirs.insert(String::new());
        Tree { dirs, files: BTreeSet::new() }
    }

    fn mk_file(&mut self, path: &str, directory: bool) {
        if directory {
            self.dirs.insert(path.to_string());
        } else {
            self.files.insert(path.to_string());
        }
    }

    /// Where a path leads, if anywhere: every step but the last has to go
    /// through a directory.
    fn resolve(&self, path: &Path) -> Option<String> {
        let mut at: Vec<String> = Vec::new();
        for component in path.components.iter() {
            if !self.dirs.contains(&at.join("/")) {
                return None;
            }
            if component == "." || component.is_empty() {
                continue;
            } else if component == ".." {
                at.pop();
            } else {
                at.push(component.clone());
            }
        }
        let key = at.join("/");
        if self.dirs.contains(&key) || self.files.contains(&key) {
            Some(key)
        } else {
            None
        }
    }

    fn is_dir(&self, path: &Path) -> bool {
        match self.resolve(path) {
            Some(key) => self.dirs.contains(&key),
            None => false,
        }
    }

    fn is_present(&self, path: &Path) -> bool {
        self.resolve(path).is_some()
    }

    fn list(&self, path: &Path) -> Vec<String> {
        let key = match self.resolve(path) {
            Some(key) if self.dirs.contains(&key) => key,
            _ => return Vec::new(),
        };
        let mut names = Vec::new();
        for entry in self.dirs.iter().chain(self.files.iter()) {
            if entry.is_empty() {
                continue;
            }
            let (parent, name) = match entry.rfind('/') {
                Some(cut) => (&entry[..cut], &entry[cut + 1..]),
                None => ("", &entry[..]),
            };
            if parent == key {
                names.push(name.to_string());
            }
        }
        names
    }

    fn answer(&self, query: &Query) -> Reply {
        match query {
            Query::IsDir(path) => Reply::Flag(self.is_dir(path)),
            Query::Exists(path) => Reply::Flag(self.is_present(path)),
            Query::List(path) => Reply::Names(self.list(path)),
        }
    }
}

fn fixture() -> Tree {
    let mut tree = Tree::new();
    tree.mk_file("aaa", true);
    tree.mk_file("aaa/apple", true);
    tree.mk_file("aaa/orange", true);
    tree.mk_file("aaa/tomato", true);
    tree.mk_file("aaa/tomato/tomato.txt", false);
    tree.mk_file("aaa/tomato/tomoto.txt", false);
    tree.mk_file("bbb", true);
    tree.mk_file("bbb/specials", true);
    tree.mk_file("bbb/specials/!", false);
    tree.mk_file("bbb/specials/*", false);
    tree.mk_file("bbb/specials/?", false);
    tree.mk_file("bbb/specials/[", false);
    tree.mk_file("bbb/specials/]", false);
    tree.mk_file("ccc", true);
    tree.mk_file("xyz", true);
    tree.mk_file("xyz/x", false);
    tree.mk_file("xyz/y", false);
    tree.mk_file("xyz/z", false);
    tree.mk_file("r", true);
    tree.mk_file("r/current_dir.md", false);
    tree.mk_file("r/one", true);
    tree.mk_file("r/one/a.md", false);
    tree.mk_file("r/one/another", true);
    tree.mk_file("r/one/another/a.md", false);
    tree.mk_file("r/another", true);
    tree.mk_file("r/another/a.md", false);
    tree.mk_file("r/two", true);
    tree.mk_file("r/two/b.md", false);
    tree.mk_file("r/three", true);
    tree.mk_file("r/three/c.md", false);
    tree
}

/// Pulls every match out of a traversal, answering from the tree.
fn drain(mut paths: Paths, tree: &Tree) -> Vec<Path> {
    let mut found = Vec::new();
    let mut reply = Reply::Nothing;
    let mut calls = 0usize;
    loop {
        calls += 1;
        assert!(calls < 100_000, "the traversal does not end");
        match paths.next(reply) {
            Step::End => break,
            Step::Yield(path) => {
                found.push(path);
                reply = Reply::Nothing;
            }
            Step::Ask(query) => {
                reply = tree.answer(&query);
            }
        }
    }
    found
}

fn glob_vec(pattern: &str) -> Vec<String> {
    let tree = fixture();
    drain(glob(pattern).unwrap(), &tree).iter().map(|p| p.to_string()).collect()
}

fn glob_set(pattern: &str) -> BTreeSet<String> {
    glob_vec(pattern).into_iter().collect()
}

fn set(paths: &[&str]) -> BTreeSet<String> {
    paths.iter().map(|p| p.to_string()).collect()
}

#[test]
fn lots_of_files() {
    // a pattern that reaches four levels down compiles and can be walked
    let tree = fixture();
    let found = drain(glob("*/*/*/*").unwrap(), &tree);
    assert_eq!(found.len(), 1);
    assert_eq!(found[0].to_string(), "r/one/another/a.md");
    assert!(Pattern::new("/*/*/*/*").is_ok());
}

#[test]
fn all_recursive_entities() {
    assert_eq!(
        glob_set("r/**"),
        set(&["r", "r/one", "r/one/another", "r/another", "r/two", "r/three"])
    );
}

#[test]
fn collapse_consecutive_recursive_patterns() {
    assert_eq!(
        glob_set("r/**/**"),
        set(&["r", "r/one", "r/one/another", "r/another", "r/two", "r/three"])
    );
    assert_eq!(glob_set("r/**/**"), glob_set("r/**"));
}

#[test]
fn recursive_followed_by_a_wildcard() {
    assert_eq!(
        glob_set("r/**/*.md"),
        set(&[
            "r/another/a.md",
            "r/current_dir.md",
            "r/one/a.md",
            "r/one/another/a.md",
            "r/three/c.md",
            "r/two/b.md"
        ])
    );
}

#[test]
fn recursive_followed_by_a_precise_pattern() {
    assert_eq!(glob_set("r/one/**/a.md"), set(&["r/one/a.md", "r/one/another/a.md"]));
    assert_eq!(glob_set("r/one/**/**/a.md"), set(&["r/one/a.md", "r/one/another/a.md"]));
    assert_eq!(glob_set("r/**/another/a.md"), set(&["r/another/a.md", "r/one/another/a.md"]));
}

#[test]
fn any_char_in_a_component() {
    assert_eq!(
        glob_set("aaa/tomato/tom?to.txt"),
        set(&["aaa/tomato/tomato.txt", "aaa/tomato/tomoto.txt"])
    );
    assert_eq!(glob_set("xyz/?"), set(&["xyz/x", "xyz/y", "xyz/z"]));
}

#[test]
fn directories_of_three_characters() {
    assert_eq!(glob_set("???/"), set(&["aaa", "bbb", "ccc", "xyz"]));
}

#[test]
fn classes_in_components() {
    assert_eq!(
        glob_set("*/*/t[aob]m?to[.]t[!y]t"),
        set(&["aaa/tomato/tomato.txt", "aaa/tomato/tomoto.txt"])
    );
    assert_eq!(
        glob_set("*/*/*.txt"),
        set(&["aaa/tomato/tomato.txt", "aaa/tomato/tomoto.txt"])
    );
    assert_eq!(glob_set("aa[a]"), set(&["aaa"]));
    assert_eq!(glob_set("aa[abc]"), set(&["aaa"]));
    assert_eq!(glob_set("a[bca]a"), set(&["aaa"]));
    assert_eq!(glob_set("aa[b]"), set(&[]));
    assert_eq!(glob_set("aa[xyz]"), set(&[]));
    assert_eq!(glob_set("aa[]]"), set(&[]));
    assert_eq!(glob_set("aa[!b]"), set(&["aaa"]));
    assert_eq!(glob_set("aa[!bcd]"), set(&["aaa"]));
    assert_eq!(glob_set("a[!bcd]a"), set(&["aaa"]));
    assert_eq!(glob_set("aa[!a]"), set(&[]));
    assert_eq!(glob_set("aa[!abc]"), set(&[]));
}

#[test]
fn brackets_as_file_names() {
    assert_eq!(glob_set("bbb/specials/[[]"), set(&["bbb/specials/["]));
    assert_eq!(glob_set("bbb/specials/!"), set(&["bbb/specials/!"]));
    assert_eq!(glob_set("bbb/specials/[]]"), set(&["bbb/specials/]"]));
    assert_eq!(glob_set("bbb/specials/[*]"), set(&["bbb/specials/*"]));
    assert_eq!(glob_set("bbb/specials/[?]"), set(&["bbb/specials/?"]));
    assert_eq!(
        glob_set("bbb/specials/[![]"),
        set(&["bbb/specials/!", "bbb/specials/*", "bbb/specials/?", "bbb/specials/]"])
    );
    assert_eq!(
        glob_set("bbb/specials/[!]]"),
        set(&["bbb/specials/!", "bbb/specials/*", "bbb/specials/?", "bbb/specials/["])
    );
    assert_eq!(
        glob_set("bbb/specials/[!!]"),
        set(&["bbb/specials/*", "bbb/specials/?", "bbb/specials/[", "bbb/specials/]"])
    );
    assert_eq!(
        glob_set("bbb/specials/[!*]"),
        set(&["bbb/specials/!", "bbb/specials/?", "bbb/specials/[", "bbb/specials/]"])
    );
    assert_eq!(
        glob_set("bbb/specials/[!?]"),
        set(&["bbb/specials/!", "bbb/specials/*", "bbb/specials/[", "bbb/specials/]"])
    );
}

#[test]
fn missing_components_match_nothing() {
    assert_eq!(glob_set("aaa/apple/nope"), set(&[]));
    assert_eq!(glob_set("a"), set(&[]));
    assert_eq!(glob_set("aa"), set(&[]));
    assert_eq!(glob_set("aaaa"), set(&[]));
    assert_eq!(glob_set("nonexistent/../bbb"), set(&[]));
    assert_eq!(glob_set("aaa/tomato/tomato.txt/.."), set(&[]));
    assert_eq!(glob_set("aaa/tomato/tomato.txt/"), set(&[]));
}

#[test]
fn trailing_separator_adds_nothing() {
    assert_eq!(glob_set("aaa"), set(&["aaa"]));
    assert_eq!(glob_set("aaa/"), set(&["aaa"]));
    assert_eq!(glob_set("aaa/apple"), set(&["aaa/apple"]));
    assert_eq!(glob_set("aaa*/"), set(&["aaa"]));
}

#[test]
fn stars_in_a_component() {
    assert_eq!(glob_set("a*"), set(&["aaa"]));
    assert_eq!(glob_set("*a*"), set(&["aaa"]));
    assert_eq!(glob_set("a*a"), set(&["aaa"]));
    assert_eq!(glob_set("aaa*"), set(&["aaa"]));
    assert_eq!(glob_set("*aaa"), set(&["aaa"]));
    assert_eq!(glob_set("*aaa*"), set(&["aaa"]));
    assert_eq!(glob_set("*a*a*a*"), set(&["aaa"]));
    assert_eq!(glob_set("aaa/*"), set(&["aaa/apple", "aaa/orange", "aaa/tomato"]));
    assert_eq!(glob_set("aaa/*a*"), set(&["aaa/apple", "aaa/orange", "aaa/tomato"]));
}

#[test]
fn dots_are_components_like_any_other() {
    assert_eq!(glob_set("."), set(&["."]));
    assert_eq!(glob_set(".."), set(&[".."]));
    // the components of the pattern are kept as they are written
    assert_eq!(glob_set("./aaa"), set(&["./aaa"]));
    assert_eq!(glob_set("aaa/../bbb"), set(&["aaa/../bbb"]));
    let with_dot: BTreeSet<String> =
        glob_set("./*").iter().map(|p| p.trim_start_matches("./").to_string()).collect();
    assert_eq!(with_dot, glob_set("*"));
}

#[test]
fn no_match_comes_twice() {
    for pattern in ["r/**", "r/**/*.md", "*/*", "**", "**/*", "*/*/*", "???/", "r/one/**/a.md"] {
        let found = glob_vec(pattern);
        let as_set: BTreeSet<String> = found.iter().cloned().collect();
        assert_eq!(found.len(), as_set.len(), "{}", pattern);
    }
}

#[test]
fn two_traversals_find_the_same() {
    for pattern in ["r/**", "r/**/*.md", "*/*", "**/*.txt", "???/", "aaa/*a*"] {
        assert_eq!(glob_vec(pattern), glob_vec(pattern), "{}", pattern);
    }
}

#[test]
fn trailing_separator_yields_directories_only() {
    let tree = fixture();
    for pattern in ["*/", "*/*/", "r/*/", "r/**/", "**/", "aaa/tomato/*/", "xyz/?/"] {
        let found = drain(glob(pattern).unwrap(), &tree);
        for path in found.iter() {
            assert!(tree.is_dir(path), "{} gave {}", pattern, path.to_string());
        }
    }
    assert_eq!(glob_set("r/*/"), set(&["r/one", "r/another", "r/two", "r/three"]));
    assert_eq!(glob_set("xyz/?/"), set(&[]));
}

#[test]
fn matches_are_as_deep_as_the_pattern() {
    let tree = fixture();
    let cases: [(&str, usize); 6] =
        [("*", 1), ("*/*", 2), ("*/*/*", 3), ("aaa/*", 2), ("aaa/tomato/tom?to.txt", 3), ("???/", 1)];
    for (pattern, depth) in cases {
        let found = drain(glob(pattern).unwrap(), &tree);
        assert!(!found.is_empty(), "{}", pattern);
        for path in found.iter() {
            assert_eq!(path.components.len(), depth, "{}", pattern);
        }
    }
}

#[test]
fn the_end_stays_the_end() {
    let tree = fixture();
    let mut paths = glob("aaa").unwrap();
    let mut reply = Reply::Nothing;
    let mut found = Vec::new();
    loop {
        match paths.next(reply) {
            Step::End => break,
            Step::Yield(path) => {
                found.push(path.to_string());
                reply = Reply::Nothing;
            }
            Step::Ask(query) => reply = tree.answer(&query),
        }
    }
    assert_eq!(found, vec!["aaa".to_string()]);
    assert!(matches!(paths.next(Reply::Nothing), Step::End));
    assert!(matches!(paths.next(Reply::Flag(true)), Step::End));
}

#[test]
fn the_first_question_is_about_the_scope() {
    let mut paths = glob("aaa/*").unwrap();
    match paths.next(Reply::Nothing) {
        Step::Ask(Query::IsDir(path)) => assert_eq!(path.to_string(), "."),
        other => panic!("unexpected step {:?}", other),
    }
    match paths.next(Reply::Flag(true)) {
        Step::Ask(Query::Exists(path)) => assert_eq!(path.to_string(), "aaa"),
        other => panic!("unexpected step {:?}", other),
    }
    match paths.next(Reply::Flag(true)) {
        Step::Ask(Query::IsDir(path)) => assert_eq!(path.to_string(), "aaa"),
        other => panic!("unexpected step {:?}", other),
    }
    match paths.next(Reply::Flag(true)) {
        Step::Ask(Query::List(path)) => assert_eq!(path.to_string(), "aaa"),
        other => panic!("unexpected step {:?}", other),
    }
    // a listing that could not be read counts as empty
    assert!(matches!(paths.next(Reply::Nothing), Step::End));
}

#[test]
fn rooted_patterns_start_at_the_root() {
    let mut paths = glob("/*").unwrap();
    match paths.next(Reply::Nothing) {
        Step::Ask(Query::IsDir(path)) => {
            assert_eq!(path.root, "/");
            assert!(path.components.is_empty());
            assert_eq!(path.to_string(), "/");
        }
        other => panic!("unexpected step {:?}", other),
    }
    match paths.next(Reply::Flag(true)) {
        Step::Ask(Query::List(path)) => assert_eq!(path.to_string(), "/"),
        other => panic!("unexpected step {:?}", other),
    }
    match paths.next(Reply::Names(vec!["etc".to_string()])) {
        Step::Yield(path) => assert_eq!(path.to_string(), "/etc"),
        other => panic!("unexpected step {:?}", other),
    }
    assert!(glob("//").is_ok());
}

#[test]
fn verbatim_roots_are_refused() {
    let root = Root { path: "\\\\?\\C:\\".to_string(), length: 7, verbatim: true };
    let err = glob_with_root("\\\\?\\C:\\*", Some(root)).err().unwrap();
    assert_eq!(err.pos, 0);
    assert_eq!(err.msg, "verbatim paths are not supported");
    let root = Root { path: "C:\\".to_string(), length: 3, verbatim: false };
    let mut paths = glob_with_root("C:\\*", Some(root)).ok().unwrap();
    match paths.next(Reply::Nothing) {
        Step::Ask(Query::IsDir(path)) => assert_eq!(path.to_string(), "C:\\"),
        other => panic!("unexpected step {:?}", other),
    }
}

#[test]
fn a_bad_pattern_is_refused_when_the_traversal_is_set_up() {
    let err = glob("a/**b").err().unwrap();
    assert_eq!(err.pos, 4);
    assert_eq!(err.msg, "recursive wildcards `**` must form a single path component, e.g. a/**/b");
    let err = glob("/a/*****").err().unwrap();
    assert_eq!(err.pos, 4);
    assert_eq!(err.msg, "wildcards are either regular `*` or recursive `**`");
    // valid as a whole, but the class is cut in two by the separator
    let err = glob("x/[a/b]").err().unwrap();
    assert_eq!(err.pos, 0);
    assert_eq!(err.msg, "invalid range pattern");
}

#[test]
fn a_snapshot_of_the_steps() {
    // every step of a small traversal, in order
    let mut tree = Tree::new();
    tree.mk_file("d", true);
    tree.mk_file("d/e", true);
    tree.mk_file("f", false);
    let mut paths = glob("**").unwrap();
    let mut reply = Reply::Nothing;
    let mut seen = Vec::new();
    loop {
        let step = paths.next(reply);
        match &step {
            Step::End => {
                seen.push("end".to_string());
                break;
            }
            Step::Yield(path) => {
                seen.push(format!("yield {}", path.to_string()));
                reply = Reply::Nothing;
            }
            Step::Ask(query) => {
                let text = match query {
                    Query::IsDir(path) => format!("dir? {}", path.to_string()),
                    Query::Exists(path) => format!("there? {}", path.to_string()),
                    Query::List(path) => format!("list {}", path.to_string()),
                };
                seen.push(text);
                reply = tree.answer(query);
            }
        }
    }
    let expected = [
        "dir? .",
        "list .",
        "dir? d",
        "dir? f",
        "yield .",
        "dir? .",
        "list d",
        "dir? d/e",
        "yield d",
        "dir? .",
        "list d/e",
        "yield d/e",
        "dir? .",
        "end",
    ];
    assert_eq!(seen, expected);
}

#[test]
fn a_wildcard_comes_back_to_its_entry() {
    // the entry that led to a match is looked at again, so that everything
    // below it is found before the next entry has its turn
    assert_eq!(
        glob_vec("r/*/*.md"),
        vec!["r/two/b.md", "r/three/c.md", "r/one/a.md", "r/another/a.md"]
    );
    assert_eq!(glob_vec("x*/?"), vec!["xyz/z", "xyz/y", "xyz/x"]);
}

#[test]
fn two_recursive_wildcards_may_find_a_path_twice() {
    let mut tree = Tree::new();
    tree.mk_file("a", true);
    tree.mk_file("a/a", true);
    let found: Vec<String> =
        drain(glob("**/a/**").unwrap(), &tree).iter().map(|p| p.to_string()).collect();
    assert_eq!(found, vec!["a", "a/a", "a/a"]);
}

#[test]
fn absolute_pattern() {
    // the tree is not empty
    let tree = fixture();
    assert!(drain(glob("/*").unwrap(), &tree).first().is_some());
    assert!(drain(glob("//").unwrap(), &tree).first().is_some());

    // the root of the current directory, with a wildcard below it
    let root_with_device = Path::rooted("/".to_string()).child("*").to_string();
    assert!(drain(glob(&root_with_device).unwrap(), &tree).first().is_some());
    assert_eq!(drain(glob("//").unwrap(), &tree)[0].to_string(), "/");
}

#[test]
fn a_wildcard_matches_the_whole_name() {
    let mut tree = Tree::new();
    tree.mk_file("ab", false);
    tree.mk_file("ba", false);
    tree.mk_file("abcd", true);
    tree.mk_file("abc", true);
    let found: BTreeSet<String> =
        drain(glob("a*").unwrap(), &tree).iter().map(|p| p.to_string()).collect();
    assert_eq!(found, set(&["ab", "abc", "abcd"]));
    let found: BTreeSet<String> =
        drain(glob("???/").unwrap(), &tree).iter().map(|p| p.to_string()).collect();
    assert_eq!(found, set(&["abc"]));
    let found: BTreeSet<String> =
        drain(glob("?a").unwrap(), &tree).iter().map(|p| p.to_string()).collect();
    assert_eq!(found, set(&["ba"]));
}
