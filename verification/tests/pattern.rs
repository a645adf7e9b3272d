use glob_prime::path::Path;
use glob_prime::pattern::{Error, Pattern};

#[test]
fn match_dir() {
    let pat = Pattern::new("some/file.txt/").unwrap();
    assert!(pat.matches("some/file.txt/"));
    assert!(!pat.matches("some/file.txt"));
}

#[test]
fn translation() {
    let pat = Pattern::new("some/**/te*t.t?t").unwrap().to_string();
    assert!(pat == r"some/.*te[^/]*t\.t.t\z(?ms)");

    let pat = Pattern::new("some/*/te*t.t?t").unwrap().to_string();
    assert!(pat == r"some/[^/]*/te[^/]*t\.t.t\z(?ms)");

    let pat = Pattern::new("one/**").unwrap().to_string();
    assert!(pat == r"one/.*\z(?ms)");
}

#[test]
fn errors() {
    let err = Pattern::new("a/**b").unwrap_err();
    assert!(err.pos == 4);

    let err = Pattern::new("a/bc**").unwrap_err();
    assert!(err.pos == 3);

    let err = Pattern::new("a/*****").unwrap_err();
    assert!(err.pos == 4);

    let err = Pattern::new("a/b**c**d").unwrap_err();
    assert!(err.pos == 2);
}

#[test]
fn classes() {
    let pat = Pattern::new("cache/[abc]/files").unwrap();
    assert!(pat.matches("cache/a/files"));
    assert!(pat.matches("cache/b/files"));
    assert!(pat.matches("cache/c/files"));

    let pat = Pattern::new("cache/[][!]/files").unwrap();
    assert!(pat.matches("cache/[/files"));
    assert!(pat.matches("cache/]/files"));
    assert!(pat.matches("cache/!/files"));
    assert!(!pat.matches("cache/a/files"));

    let pat = Pattern::new(r"cache/[[?*\]/files").unwrap();
    assert!(pat.matches("cache/[/files"));
    assert!(pat.matches("cache/?/files"));
    assert!(pat.matches("cache/*/files"));
    assert!(pat.matches(r"cache/\/files"));
}

#[test]
fn ranges() {
    let pat = Pattern::new("cache/[A-Fa-f0-9]/files").unwrap();
    assert!(pat.matches("cache/B/files"));
    assert!(pat.matches("cache/b/files"));
    assert!(pat.matches("cache/7/files"));

    let pat = Pattern::new("cache/[!A-Fa-f0-9]/files").unwrap();
    assert!(!pat.matches("cache/B/files"));
    assert!(!pat.matches("cache/b/files"));
    assert!(!pat.matches("cache/7/files"));

    let pat = Pattern::new("cache/[]-]/files").unwrap();
    assert!(pat.matches("cache/]/files"));
    assert!(pat.matches("cache/-/files"));
    assert!(!pat.matches("cache/0/files"));
}

#[test]
fn escape() {
    assert_eq!(
        Pattern::escape("one/?/two/*/three/[/four/]/end"),
        "one/[?]/two/[*]/three/[[]/four/[]]/end".to_string()
    );

    assert_eq!(
        Pattern::escape("one/?*[]"),
        "one/[?][*][[][]]".to_string()
    );
}

#[test]
fn wildcards_two() {
    assert!(Pattern::new("a*b").unwrap().matches("a_b"));
    assert!(Pattern::new("a*b*c").unwrap().matches("abc"));
    assert!(!Pattern::new("a*b*c").unwrap().matches("abcd"));
    assert!(Pattern::new("a*b*c").unwrap().matches("a_b_c"));
    assert!(Pattern::new("a*b*c").unwrap().matches("a___b___c"));
    assert!(Pattern::new("abc*abc*abc").unwrap().matches("abcabcabcabcabcabcabc"));
    assert!(!Pattern::new("abc*abc*abc").unwrap().matches("abcabcabcabcabcabcabca"));
    assert!(Pattern::new("a*a*a*a*a*a*a*a*a").unwrap().matches("aaaaaaaaaaaaaaaaaaaaaaaaaaaaaaa"));
    assert!(Pattern::new("a*b[xyz]c*d").unwrap().matches("abxcdbxcddd"));
}

#[test]
fn recursive_wildcards() {
    let pat = Pattern::new("some/**/needle.txt").unwrap();
    assert!(pat.matches("some/needle.txt"));
    assert!(pat.matches("some/one/needle.txt"));
    assert!(pat.matches("some/one/two/needle.txt"));
    assert!(pat.matches("some/other/needle.txt"));
    assert!(!pat.matches("some/other/notthis.txt"));

    // a single ** should be valid, for globs
    Pattern::new("**").unwrap();

    // collapse consecutive wildcards
    let pat = Pattern::new("some/**/**/needle.txt").unwrap();
    assert!(pat.matches("some/needle.txt"));
    assert!(pat.matches("some/one/needle.txt"));
    assert!(pat.matches("some/one/two/needle.txt"));
    assert!(pat.matches("some/other/needle.txt"));
    assert!(!pat.matches("some/other/notthis.txt"));

    // ** can begin the pattern
    let pat = Pattern::new("**/test").unwrap();
    assert!(pat.matches("one/two/test"));
    assert!(pat.matches("one/test"));
    assert!(pat.matches("test"));

    // /** can begin the pattern
    let pat = Pattern::new("/**/test").unwrap();
    assert!(pat.matches("/one/two/test"));
    assert!(pat.matches("/one/test"));
    assert!(pat.matches("/test"));
    assert!(!pat.matches("/one/notthis"));
    assert!(!pat.matches("/notthis"));
}

#[test]
fn range_pattern() {
    let pat = Pattern::new("a[0-9]b").unwrap();
    for i in 0..10usize {
        assert!(pat.matches(&format!("a{}b", i)));
    }
    assert!(!pat.matches("a_b"));

    let pat = Pattern::new("a[!0-9]b").unwrap();
    for i in 0..10usize {
        assert!(!pat.matches(&format!("a{}b", i)));
    }
    assert!(pat.matches("a_b"));

    let pats = ["[a-z123]", "[1a-z23]", "[123a-z]"];
    for &p in pats.iter() {
        let pat = Pattern::new(p).unwrap();
        for c in "abcdefghijklmnopqrstuvwxyz".chars() {
            assert!(pat.matches(&c.to_string()));
        }
        assert!(pat.matches("1"));
        assert!(pat.matches("2"));
        assert!(pat.matches("3"));
    }

    let pats = ["[abc-]", "[-abc]", "[a-c-]"];
    for &p in pats.iter() {
        let pat = Pattern::new(p).unwrap();
        assert!(pat.matches("a"));
        assert!(pat.matches("b"));
        assert!(pat.matches("c"));
        assert!(pat.matches("-"));
        assert!(!pat.matches("d"));
    }

    let pat = Pattern::new("[!1-2]").unwrap();
    assert!(!pat.matches("1"));
    assert!(!pat.matches("2"));

    assert!(Pattern::new("[-]").unwrap().matches("-"));
    assert!(!Pattern::new("[!-]").unwrap().matches("-"));
}

#[test]
fn unclosed_bracket() {
    assert!(Pattern::new("abc[def").is_err());
    assert!(Pattern::new("abc[!def").is_err());
    assert!(Pattern::new("abc[").is_err());
    assert!(Pattern::new("abc[!").is_err());
    assert!(Pattern::new("abc[d").is_err());
    assert!(Pattern::new("abc[!d").is_err());
    assert!(Pattern::new("abc[]").is_err());
    assert!(Pattern::new("abc[!]").is_err());
}

#[test]
fn pattern_matches() {
    let txt_pat = Pattern::new("*hello.txt").unwrap();
    assert!(txt_pat.matches("hello.txt"));
    assert!(txt_pat.matches("gareth_says_hello.txt"));
    // a single `*` stays inside one component, and the whole text has to match
    assert!(!txt_pat.matches("some/path/to/hello.txt"));
    assert!(txt_pat.matches("some\\path\\to\\hello.txt"));
    assert!(!txt_pat.matches("/an/absolute/path/to/hello.txt"));
    assert!(!txt_pat.matches("hello.txt-and-then-some"));
    assert!(!txt_pat.matches("goodbye.txt"));

    let dir_pat = Pattern::new("*some/path/to/hello.txt").unwrap();
    assert!(dir_pat.matches("some/path/to/hello.txt"));
    assert!(!dir_pat.matches("a/bigger/some/path/to/hello.txt"));
    assert!(dir_pat.matches("awesome/path/to/hello.txt"));
    assert!(!dir_pat.matches("some/path/to/hello.txt-and-then-some"));
    assert!(!dir_pat.matches("some/other/path/to/hello.txt"));
}

#[test]
fn pattern_escape() {
    let s = "_[_]_?_*_!_";
    assert_eq!(Pattern::escape(s), "_[[]_[]]_[?]_[*]_!_".to_string());
    assert!(Pattern::new(&Pattern::escape(s)).unwrap().matches(s));
}

#[test]
fn matches_path() {
    assert!(Pattern::new("a/b").unwrap().matches_path(&Path::new("a/b")));
}

#[test]
fn errors_as_text() {
    let err = Pattern::new("a/**b").unwrap_err();
    assert_eq!(
        err.to_string(),
        "Pattern syntax error near position 4: recursive wildcards `**` must form a single path component, e.g. a/**/b"
    );
    let err = Error { pos: 1203, msg: "x".to_string() };
    assert_eq!(err.to_string(), "Pattern syntax error near position 1203: x");
    let err = Error { pos: 0, msg: String::new() };
    assert_eq!(err.to_string(), "Pattern syntax error near position 0: ");
}

#[test]
fn error_messages() {
    let err = Pattern::new("a/*****").unwrap_err();
    assert_eq!(err.msg, "wildcards are either regular `*` or recursive `**`");
    let err = Pattern::new("abc[def").unwrap_err();
    assert_eq!(err.pos, 3);
    assert_eq!(err.msg, "invalid range pattern");
    let err = Pattern::new("**a").unwrap_err();
    assert_eq!(err.pos, 2);
    let err = Pattern::new("[!").unwrap_err();
    assert_eq!(err.pos, 0);
    let err = Pattern::new("[").unwrap_err();
    assert_eq!(err.pos, 0);
}

#[test]
fn the_engine_refuses_what_it_cannot_compile() {
    // the class is well formed as a glob, but its range runs backwards
    let err = Pattern::new("[z-a]").unwrap_err();
    assert!(!err.msg.is_empty());
}

#[test]
fn as_str_gives_the_pattern_back() {
    assert_eq!(Pattern::new("a/*/[bc]").unwrap().as_str(), "a/*/[bc]");
}

#[test]
fn component_containment() {
    assert!(Pattern::new("*").unwrap().matches("foo"));
    assert!(Pattern::new("**").unwrap().matches("foo"));
    assert!(Pattern::new("**").unwrap().matches("foo/bar"));
    assert!(!Pattern::new("*").unwrap().matches("foo/bar"));
    assert!(Pattern::new("*/*").unwrap().matches("foo/bar"));
    assert_eq!(Pattern::new("*").unwrap().to_string(), r"[^/]*\z(?ms)");
}

#[test]
fn literal_bracket_in_a_class() {
    assert!(Pattern::new("[]]").unwrap().matches("]"));
    assert!(!Pattern::new("[!]]").unwrap().matches("]"));
}

#[test]
fn collapsing_gives_the_same_expression() {
    let one = Pattern::new("a/**/b").unwrap();
    let two = Pattern::new("a/**/**/b").unwrap();
    assert_eq!(one.to_string(), two.to_string());
    assert_eq!(one.to_string(), r"a/.*b\z(?ms)");
    for text in ["a/b", "a/x/b", "a/x/y/b", "a/c", "b", "xa/b"] {
        assert_eq!(one.matches(text), two.matches(text));
    }
    assert_eq!(Pattern::new("**/**").unwrap().to_string(), r".*\z(?ms)");
}

#[test]
fn backslashes_in_classes_are_doubled() {
    assert_eq!(Pattern::new(r"[\]").unwrap().to_string(), r"[\\]\z(?ms)");
    assert_eq!(Pattern::new(r"[\-a]").unwrap().to_string(), r"[\\-a]\z(?ms)");
    assert!(Pattern::new(r"[\-a]").unwrap().matches("^"));
    assert!(!Pattern::new(r"[\-a]").unwrap().matches("-"));
}

#[test]
fn special_characters_are_escaped() {
    assert_eq!(
        Pattern::new(r"a.b+c(d)e|f{g}h^i$j\k").unwrap().to_string(),
        r"a\.b\+c\(d\)e\|f\{g\}h\^i\$j\\k\z(?ms)"
    );
    assert!(Pattern::new("a.b").unwrap().matches("a.b"));
    assert!(!Pattern::new("a.b").unwrap().matches("axb"));
}

#[test]
fn escape_round_trip() {
    for text in ["", "plain", "a*b", "[x]", "??", "a[b", "]", "*[?]*", "a/b/c"] {
        let pattern = Pattern::new(&Pattern::escape(text)).unwrap();
        assert!(pattern.matches(text), "{}", text);
    }
}

#[test]
fn patterns_compare_by_their_expression() {
    assert!(Pattern::new("a/**/b").unwrap() == Pattern::new("a/**/**/b").unwrap());
    assert!(Pattern::new("a*").unwrap() == Pattern::new("a*").unwrap());
    assert!(Pattern::new("a*").unwrap() != Pattern::new("a?").unwrap());
}

#[test]
fn the_whole_text_has_to_match() {
    assert!(Pattern::new("a*").unwrap().matches("ab"));
    assert!(!Pattern::new("a*").unwrap().matches("ba"));
    assert!(!Pattern::new("a*").unwrap().matches("xab"));
    assert!(Pattern::new("abc").unwrap().matches("abc"));
    assert!(!Pattern::new("abc").unwrap().matches("xabc"));
    assert!(!Pattern::new("abc").unwrap().matches("abcx"));
    assert!(!Pattern::new("bc").unwrap().matches("abc"));
    assert!(Pattern::new("???").unwrap().matches("abc"));
    assert!(!Pattern::new("???").unwrap().matches("abcd"));
    assert!(!Pattern::new("?").unwrap().matches("ab"));
    assert!(Pattern::new("").unwrap().matches(""));
    assert!(!Pattern::new("").unwrap().matches("a"));
    assert!(Pattern::new("[a-c]x").unwrap().matches("bx"));
    assert!(!Pattern::new("[a-c]x").unwrap().matches("abx"));
    // characters of more than one byte count as one
    assert!(Pattern::new("?").unwrap().matches("é"));
    assert!(Pattern::new("*é").unwrap().matches("café"));
    assert!(!Pattern::new("é").unwrap().matches("café"));
}

#[test]
fn the_engine_s_error_comes_through() {
    let err = Pattern::new("[z-a]").unwrap_err();
    assert_eq!(err.pos, 4);
    assert!(err.msg.starts_with("Error parsing regex near"));
    assert!(err.msg.contains("at character offset 4"));
}
