use mini_http::http::path::{match_tokens, HttpPath};

fn path(text: &str) -> HttpPath {
    HttpPath::from(&text.to_string())
}

fn tokens(text: &str) -> Vec<String> {
    path(text).tokens().clone()
}

#[test]
fn path_is_cut_at_slashes() {
    assert_eq!(tokens("/a/b"), vec!["a".to_string(), "b".to_string()]);
    assert_eq!(tokens("items"), vec!["items".to_string()]);
    assert_eq!(tokens("/users/:id/posts"), vec![
        "users".to_string(),
        ":id".to_string(),
        "posts".to_string()
    ]);
}

#[test]
fn trailing_slash_is_irrelevant() {
    assert_eq!(path("/a/b"), path("/a/b/"));
    assert_eq!(tokens("/a/b/"), vec!["a".to_string(), "b".to_string()]);
    assert_eq!(path("/login"), path("/login/"));
    assert_eq!(path("x"), path("x/"));
}

#[test]
fn empty_path_and_slash_are_the_root() {
    assert_eq!(path(""), path("/"));
    assert!(tokens("").is_empty());
    assert!(tokens("/").is_empty());
    assert_eq!(path(""), HttpPath::default());
}

#[test]
fn empty_pieces_are_dropped() {
    assert_eq!(tokens("//a///b//"), vec!["a".to_string(), "b".to_string()]);
    assert!(tokens("////").is_empty());
}

#[test]
fn path_keeps_characters_beyond_ascii() {
    assert_eq!(tokens("/caf\u{e9}/\u{4e16}\u{754c}"), vec![
        "caf\u{e9}".to_string(),
        "\u{4e16}\u{754c}".to_string()
    ]);
}

#[test]
fn root_matches_root() {
    assert!(path("/").does_match(&path("/")));
    assert!(path("").does_match(&path("/")));
}

#[test]
fn literal_tokens_must_be_equal() {
    assert!(path("/a/b").does_match(&path("/a/b")));
    assert!(path("/a/b/").does_match(&path("a/b")));
    assert!(!path("/a/b").does_match(&path("/a/c")));
    assert!(!path("/a/b").does_match(&path("/A/b")));
}

#[test]
fn wildcard_matches_any_token() {
    assert!(path("/users/42").does_match(&path("/users/:id")));
    assert!(path("/users/alice").does_match(&path("/users/:id")));
    assert!(path("/x/y").does_match(&path("/:a/:b")));
    assert!(!path("/posts/42").does_match(&path("/users/:id")));
}

#[test]
fn wildcard_counts_only_in_the_pattern() {
    assert!(!path("/users/:id").does_match(&path("/users/42")));
    assert!(path("/users/:id").does_match(&path("/users/:id")));
    assert!(path("/users/:id").does_match(&path("/users/:other")));
}

#[test]
fn different_token_counts_never_match() {
    assert!(!path("/a").does_match(&path("/a/b")));
    assert!(!path("/a/b").does_match(&path("/a")));
    assert!(!path("/").does_match(&path("/:x")));
    assert!(!path("/a/b/c").does_match(&path("/:x/:y")));
    assert!(!path("/a").does_match(&path("/")));
}

#[test]
fn tokens_match_one_by_one() {
    assert!(match_tokens(&"abc".to_string(), &"abc".to_string()));
    assert!(!match_tokens(&"abc".to_string(), &"abd".to_string()));
    assert!(match_tokens(&"abc".to_string(), &":x".to_string()));
    assert!(match_tokens(&"".to_string(), &":".to_string()));
    assert!(!match_tokens(&":x".to_string(), &"abc".to_string()));
}

#[test]
fn empty_pattern_token_is_no_wildcard() {
    assert!(match_tokens(&"".to_string(), &"".to_string()));
    assert!(!match_tokens(&"a".to_string(), &"".to_string()));
}

#[test]
fn paths_are_equal_by_their_very_tokens() {
    assert_eq!(path("/a/b"), path("a//b"));
    assert_ne!(path("/a/b"), path("/a"));
    assert_ne!(path("/a/b"), path("/a/c"));
    assert_ne!(path("/users/:id"), path("/users/42"));
    assert_ne!(path("/users/:id"), path("/users/:name"));
}
