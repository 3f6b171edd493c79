use cafce::path::{join, lies_within, split};
use std::path::Path;

fn parts(path: &str) -> Vec<String> {
    split(path).into_iter().map(|p| p.into_iter().collect()).collect()
}

#[test]
fn join_appends_relative_patterns() {
    assert_eq!(join("/r", "test.txt"), "/r/test.txt");
    assert_eq!(join("/r/", "test.txt"), "/r/test.txt");
    assert_eq!(join("/r", "**/*.rs"), "/r/**/*.rs");
    assert_eq!(join("", "test.txt"), "test.txt");
    assert_eq!(join("r", ""), "r/");
    assert_eq!(join("", ""), "");
    assert_eq!(join(".", "./a"), "././a");
    assert_eq!(join("/", "a"), "/a");
}

#[test]
fn join_keeps_absolute_patterns() {
    assert_eq!(join("/r", "/etc/passwd"), "/etc/passwd");
    assert_eq!(join("", "/"), "/");
    assert_eq!(join("/r", "//x"), "//x");
}

#[test]
fn join_agrees_with_the_standard_library() {
    for base in ["/r", "/r/", "", ".", "a/b", "/", "é", "a//"] {
        for pattern in ["x", "", "/x", "./x", "../x", "x/", "*.txt", "été/*", "/"] {
            let expected = if Path::new(pattern).is_absolute() {
                pattern.to_string()
            } else {
                Path::new(base).join(pattern).to_string_lossy().to_string()
            };
            assert_eq!(join(base, pattern), expected, "{:?} {:?}", base, pattern);
        }
    }
}

#[test]
fn split_gives_the_components() {
    assert_eq!(parts(""), Vec::<String>::new());
    assert_eq!(parts("/"), vec!["/"]);
    assert_eq!(parts("/a/b"), vec!["/", "a", "b"]);
    assert_eq!(parts("a/b"), vec!["a", "b"]);
    assert_eq!(parts("//a///b/"), vec!["/", "a", "b"]);
    assert_eq!(parts("./a"), vec![".", "a"]);
    assert_eq!(parts("."), vec!["."]);
    assert_eq!(parts("a/./b/."), vec!["a", "b"]);
    assert_eq!(parts("/./a"), vec!["/", "a"]);
    assert_eq!(parts("../a/.."), vec!["..", "a", ".."]);
    assert_eq!(parts(".a/..b/..."), vec![".a", "..b", "..."]);
    assert_eq!(parts("././a"), vec![".", "a"]);
}

#[test]
fn split_agrees_with_the_standard_library() {
    for path in [
        "", "/", "//", "/a", "a", "a/", "a//b", "./a", ".", "..", "./.", "/.", "/..", "a/./b",
        "a/../b", ".a", "a.", "./", ".//a", "/a/b/c.txt", "été/ü", "a b/c", "...", "./..",
    ] {
        let expected: Vec<String> = Path::new(path)
            .components()
            .map(|c| c.as_os_str().to_string_lossy().to_string())
            .collect();
        assert_eq!(parts(path), expected, "{:?}", path);
    }
}

#[test]
fn within_goes_by_whole_components() {
    assert!(lies_within("/r/a.txt", "/r"));
    assert!(lies_within("/r/sub/a.txt", "/r"));
    assert!(lies_within("/r/sub/a.txt", "/r/"));
    assert!(lies_within("/r/sub/a.txt", "/r/sub"));
    assert!(lies_within("/r", "/r"));
    assert!(lies_within("/r//a", "/r/."));
    assert!(lies_within("anything", ""));
    assert!(lies_within("/r/../etc/passwd", "/r"));
    assert!(!lies_within("/rx/a.txt", "/r"));
    assert!(!lies_within("/r", "/r/a"));
    assert!(!lies_within("r/a.txt", "/r"));
    assert!(!lies_within("/r/a.txt", "r"));
    assert!(!lies_within("/etc/passwd", "/r"));
    assert!(!lies_within("a.txt", "."));
    assert!(lies_within("./a.txt", "."));
    assert!(!lies_within("/R/a", "/r"));
}

#[test]
fn within_agrees_with_the_standard_library() {
    let all = [
        "", "/", "/r", "/r/", "/r/a", "/rx", "r", "r/a", ".", "./r", "./r/a", "..", "../r",
        "/r/./a", "/r//a/", "/r/../x", "/é/a", "/é", "a/b/c", "a/b",
    ];
    for path in all {
        for root in all {
            assert_eq!(
                lies_within(path, root),
                Path::new(path).starts_with(root),
                "{:?} {:?}",
                path,
                root
            );
        }
    }
}
