use cafce::cache_key::CacheKeyGenerator;
use cafce::error::CacheKeyError;
use cafce::setting::Key;
use cafce::snapshot::{Candidate, Expansion, FileContent, PatternExpansion, Snapshot};

const EMPTY_DIGEST: &str = "e3b0c44298fc1c149afbf4c8996fb92427ae41e4649b934ca495991b7852b855";

fn file(path: &str) -> Candidate {
    Candidate { path: path.to_string(), is_file: true }
}

fn matched(pattern: &str, found: Vec<Candidate>) -> PatternExpansion {
    PatternExpansion { pattern: pattern.to_string(), expansion: Expansion::Matches(found) }
}

fn content(path: &str, bytes: &str) -> FileContent {
    FileContent { path: path.to_string(), bytes: bytes.as_bytes().to_vec() }
}

fn key(files: &[&str], prefix: Option<&str>) -> Key {
    Key {
        files: files.iter().map(|f| f.to_string()).collect(),
        prefix: prefix.map(|p| p.to_string()),
    }
}

fn generator() -> CacheKeyGenerator {
    CacheKeyGenerator::new(50, "/cache/root".to_string())
}

#[test]
fn cache_key_test_new() {
    let base_path = "/tmp".to_string();
    let generator = CacheKeyGenerator::new(50, base_path.clone());
    assert_eq!(generator.max_files(), 50);
    assert_eq!(generator.base_path(), base_path);
}

#[test]
fn key_of_one_file() {
    let snapshot = Snapshot {
        expansions: vec![matched("/cache/root/test.txt", vec![file("/cache/root/test.txt")])],
        contents: vec![content("/cache/root/test.txt", "test content")],
    };
    let made = generator().generate_key(&key(&["test.txt"], None), &snapshot).unwrap();
    assert_eq!(made, "37784d0aaee73c06fe3b5a1f2ab45c8e3390c8da172079eba8a8db67fbb36c9e");
    let again = generator().generate_key(&key(&["test.txt"], None), &snapshot).unwrap();
    assert_eq!(made, again);
}

#[test]
fn key_with_prefix() {
    let snapshot = Snapshot {
        expansions: vec![matched("/cache/root/test.txt", vec![file("/cache/root/test.txt")])],
        contents: vec![content("/cache/root/test.txt", "test content")],
    };
    let made =
        generator().generate_key(&key(&["test.txt"], Some("my-prefix")), &snapshot).unwrap();
    assert_eq!(
        made,
        "my-prefix-37784d0aaee73c06fe3b5a1f2ab45c8e3390c8da172079eba8a8db67fbb36c9e"
    );
}

#[test]
fn key_with_empty_prefix_keeps_the_hyphen() {
    let made = generator().generate_key(&key(&[], Some("")), &Snapshot::new()).unwrap();
    assert_eq!(made, format!("-{}", EMPTY_DIGEST));
}

#[test]
fn compose_puts_prefix_and_hyphen_in_front() {
    let digest = "abc".to_string();
    assert_eq!(CacheKeyGenerator::compose(&None, digest.clone()), "abc");
    assert_eq!(CacheKeyGenerator::compose(&Some("v1".to_string()), digest), "v1-abc");
}

#[test]
fn key_of_wildcard_in_either_listing_order() {
    let one = Snapshot {
        expansions: vec![matched(
            "/cache/root/*.txt",
            vec![file("/cache/root/test1.txt"), file("/cache/root/test2.txt")],
        )],
        contents: vec![
            content("/cache/root/test1.txt", "content1"),
            content("/cache/root/test2.txt", "content2"),
        ],
    };
    let other = Snapshot {
        expansions: vec![matched(
            "/cache/root/*.txt",
            vec![file("/cache/root/test2.txt"), file("/cache/root/test1.txt")],
        )],
        contents: vec![
            content("/cache/root/test2.txt", "content2"),
            content("/cache/root/test1.txt", "content1"),
        ],
    };
    let expected = "40c7e33508f57007cf26b65f3d314b475090240354cd9d1babb09e5a1ad9043d";
    assert_eq!(generator().generate_key(&key(&["*.txt"], None), &one).unwrap(), expected);
    assert_eq!(generator().generate_key(&key(&["*.txt"], None), &other).unwrap(), expected);
}

#[test]
fn key_of_patterns_in_either_order() {
    let snapshot = Snapshot {
        expansions: vec![
            matched("/cache/root/package.json", vec![file("/cache/root/package.json")]),
            matched("/cache/root/*.lock", vec![file("/cache/root/yarn.lock")]),
        ],
        contents: vec![
            content("/cache/root/package.json", "{\"name\": \"test\"}"),
            content("/cache/root/yarn.lock", "lock content"),
        ],
    };
    let expected = "cache-v1-c1882dcca80373d5e7211e6a4faf34341ade8a70e4a3b1ee6e98d69c1e211c20";
    let forward =
        generator().generate_key(&key(&["package.json", "*.lock"], Some("cache-v1")), &snapshot);
    let backward =
        generator().generate_key(&key(&["*.lock", "package.json"], Some("cache-v1")), &snapshot);
    assert_eq!(forward.unwrap(), expected);
    assert_eq!(backward.unwrap(), expected);
    assert_eq!(expected.len(), "cache-v1-".len() + 64);
}

#[test]
fn key_changes_with_content() {
    let expansions = vec![matched("/cache/root/test.txt", vec![file("/cache/root/test.txt")])];
    let before = Snapshot {
        expansions: expansions.clone(),
        contents: vec![content("/cache/root/test.txt", "content1")],
    };
    let after =
        Snapshot { expansions, contents: vec![content("/cache/root/test.txt", "content2")] };
    let first = generator().generate_key(&key(&["test.txt"], None), &before).unwrap();
    let second = generator().generate_key(&key(&["test.txt"], None), &after).unwrap();
    assert_eq!(first, "0b3d447ac407478b0c2ba9a3d47ffb5b9da00d8be7d827afde50c65a8ea6336b");
    assert_eq!(second, "42eb35c3600990c4874c5e1f87dd9319b461d800340fac10b3408fc54914dadb");
}

#[test]
fn key_changes_with_path() {
    let before = Snapshot {
        expansions: vec![matched("/cache/root/*.txt", vec![file("/cache/root/test.txt")])],
        contents: vec![content("/cache/root/test.txt", "test content")],
    };
    let after = Snapshot {
        expansions: vec![matched("/cache/root/*.txt", vec![file("/cache/root/other.txt")])],
        contents: vec![content("/cache/root/other.txt", "test content")],
    };
    let first = generator().generate_key(&key(&["*.txt"], None), &before).unwrap();
    let second = generator().generate_key(&key(&["*.txt"], None), &after).unwrap();
    assert_eq!(first, "37784d0aaee73c06fe3b5a1f2ab45c8e3390c8da172079eba8a8db67fbb36c9e");
    assert_eq!(second, "f70e1b357b45e270fa83df21dd73442262a3d903544765d7e3c0218f1dcf1d1a");
}

#[test]
fn nothing_matched_gives_the_digest_of_no_bytes() {
    let unexpanded = Snapshot::new();
    let expanded = Snapshot {
        expansions: vec![matched("/cache/root/nonexistent.txt", vec![])],
        contents: vec![],
    };
    let wanted = key(&["nonexistent.txt"], None);
    assert_eq!(generator().generate_key(&wanted, &unexpanded).unwrap(), EMPTY_DIGEST);
    assert_eq!(generator().generate_key(&wanted, &expanded).unwrap(), EMPTY_DIGEST);
}

#[test]
fn too_many_files_fail_the_key() {
    let found: Vec<Candidate> =
        (0..60).map(|i| file(&format!("/cache/root/test{}.txt", i))).collect();
    let snapshot =
        Snapshot { expansions: vec![matched("/cache/root/*.txt", found)], contents: vec![] };
    let result = generator().generate_key(&key(&["*.txt"], None), &snapshot);
    assert_eq!(result.unwrap_err(), CacheKeyError::TooManyFiles { count: 60, limit: 50 });
}

#[test]
fn a_malformed_pattern_fails_the_key() {
    let snapshot = Snapshot {
        expansions: vec![
            matched("/cache/root/test.txt", vec![file("/cache/root/test.txt")]),
            PatternExpansion {
                pattern: "/cache/root/[".to_string(),
                expansion: Expansion::Malformed,
            },
        ],
        contents: vec![content("/cache/root/test.txt", "test content")],
    };
    let result = generator().generate_key(&key(&["test.txt", "["], Some("p")), &snapshot);
    assert_eq!(result.unwrap_err(), CacheKeyError::PatternMatchError { pattern: "[".to_string() });
}

#[test]
fn an_unread_file_fails_the_key() {
    let snapshot = Snapshot {
        expansions: vec![matched(
            "/cache/root/*.txt",
            vec![file("/cache/root/b.txt"), file("/cache/root/a.txt"), file("/cache/root/c.txt")],
        )],
        contents: vec![content("/cache/root/a.txt", "content1")],
    };
    let result = generator().generate_key(&key(&["*.txt"], None), &snapshot);
    assert_eq!(
        result.unwrap_err(),
        CacheKeyError::FileReadError { path: "/cache/root/b.txt".to_string() }
    );
}
