use cafce::error::CacheKeyError;
use cafce::file_matcher::{FileMatcher, MAX_FILES};
use cafce::snapshot::{Candidate, Expansion, PatternExpansion, Snapshot};

fn file(path: &str) -> Candidate {
    Candidate { path: path.to_string(), is_file: true }
}

fn directory(path: &str) -> Candidate {
    Candidate { path: path.to_string(), is_file: false }
}

fn matched(pattern: &str, found: Vec<Candidate>) -> PatternExpansion {
    PatternExpansion { pattern: pattern.to_string(), expansion: Expansion::Matches(found) }
}

fn patterns(all: &[&str]) -> Vec<String> {
    all.iter().map(|p| p.to_string()).collect()
}

#[test]
fn file_matcher_test_new() {
    let matcher = FileMatcher::new();
    assert_eq!(matcher.max_files(), MAX_FILES);
}

#[test]
fn test_with_max_files() {
    let matcher = FileMatcher::with_max_files(10);
    assert_eq!(matcher.max_files(), 10);
}

#[test]
fn test_default() {
    let matcher = FileMatcher::default();
    assert_eq!(matcher.max_files(), MAX_FILES);
}

#[test]
fn default_limit_is_fifty() {
    assert_eq!(MAX_FILES, 50);
}

#[test]
fn resolved_files_are_sorted_and_distinct() {
    let snapshot = Snapshot {
        expansions: vec![
            matched("/r/*.txt", vec![file("/r/b.txt"), file("/r/a.txt"), file("/r/B.txt")]),
            matched("/r/a.*", vec![file("/r/a.txt"), file("/r/a.md")]),
        ],
        contents: vec![],
    };
    let files =
        FileMatcher::new().resolve_patterns(&patterns(&["*.txt", "a.*"]), "/r", &snapshot).unwrap();
    assert_eq!(files, vec!["/r/B.txt", "/r/a.md", "/r/a.txt", "/r/b.txt"]);
}

#[test]
fn paths_are_sorted_by_code_point() {
    let snapshot = Snapshot {
        expansions: vec![matched(
            "/r/*",
            vec![file("/r/é"), file("/r/z"), file("/r/a/b"), file("/r/a-b"), file("/r/a")],
        )],
        contents: vec![],
    };
    let files = FileMatcher::new().resolve_patterns(&patterns(&["*"]), "/r", &snapshot).unwrap();
    assert_eq!(files, vec!["/r/a", "/r/a-b", "/r/a/b", "/r/z", "/r/é"]);
}

#[test]
fn directories_and_strays_are_dropped_silently() {
    let snapshot = Snapshot {
        expansions: vec![
            matched("/r/*", vec![directory("/r/sub"), file("/r/kept.txt")]),
            matched("/etc/passwd", vec![file("/etc/passwd")]),
            matched("/r/../other/*", vec![file("/r/../other/x"), file("/rx/y"), file("r/z")]),
        ],
        contents: vec![],
    };
    let files = FileMatcher::new()
        .resolve_patterns(&patterns(&["*", "/etc/passwd", "../other/*"]), "/r", &snapshot)
        .unwrap();
    assert_eq!(files, vec!["/r/../other/x", "/r/kept.txt"]);
}

#[test]
fn absolute_patterns_are_looked_up_as_they_are() {
    let snapshot = Snapshot {
        expansions: vec![
            matched("/r/docs/*.md", vec![file("/r/docs/a.md")]),
            matched("/r//r/docs/*.md", vec![file("/r/docs/wrong.md")]),
        ],
        contents: vec![],
    };
    let files = FileMatcher::new()
        .resolve_patterns(&patterns(&["/r/docs/*.md"]), "/r", &snapshot)
        .unwrap();
    assert_eq!(files, vec!["/r/docs/a.md"]);
}

#[test]
fn first_expansion_of_a_pattern_counts() {
    let snapshot = Snapshot {
        expansions: vec![
            matched("/r/*.txt", vec![file("/r/first.txt")]),
            matched("/r/*.txt", vec![file("/r/second.txt")]),
        ],
        contents: vec![],
    };
    let files =
        FileMatcher::new().resolve_patterns(&patterns(&["*.txt"]), "/r", &snapshot).unwrap();
    assert_eq!(files, vec!["/r/first.txt"]);
}

#[test]
fn a_pattern_not_expanded_matches_nothing() {
    let files = FileMatcher::new()
        .resolve_patterns(&patterns(&["nonexistent.txt"]), "/r", &Snapshot::new())
        .unwrap();
    assert!(files.is_empty());
}

#[test]
fn limit_counts_distinct_files() {
    let found = vec![file("/r/a"), file("/r/b"), file("/r/a"), file("/r/c")];
    let snapshot = Snapshot {
        expansions: vec![matched("/r/*", found.clone()), matched("/r/?", found)],
        contents: vec![],
    };
    let wanted = patterns(&["*", "?"]);
    let at_limit = FileMatcher::with_max_files(3).resolve_patterns(&wanted, "/r", &snapshot);
    assert_eq!(at_limit.unwrap(), vec!["/r/a", "/r/b", "/r/c"]);
    let over = FileMatcher::with_max_files(2).resolve_patterns(&wanted, "/r", &snapshot);
    assert_eq!(over.unwrap_err(), CacheKeyError::TooManyFiles { count: 3, limit: 2 });
    let none = FileMatcher::with_max_files(0).resolve_patterns(&[], "/r", &snapshot);
    assert!(none.unwrap().is_empty());
}

#[test]
fn first_malformed_pattern_is_reported() {
    let snapshot = Snapshot {
        expansions: vec![
            matched("/r/ok", vec![file("/r/ok")]),
            PatternExpansion { pattern: "/r/a**".to_string(), expansion: Expansion::Malformed },
            PatternExpansion { pattern: "/r/[".to_string(), expansion: Expansion::Malformed },
        ],
        contents: vec![],
    };
    let result = FileMatcher::with_max_files(0).resolve_patterns(
        &patterns(&["ok", "[", "a**"]),
        "/r",
        &snapshot,
    );
    assert_eq!(result.unwrap_err(), CacheKeyError::PatternMatchError { pattern: "[".to_string() });
}
