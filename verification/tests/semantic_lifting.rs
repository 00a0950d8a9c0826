use rpg_encoder::semantic_lifting::{
    normalize_features, parse_line_features, strip_think_blocks,
};
use rpg_encoder::strmap::StrMap;

#[test]
fn test_parse_line_features_basic() {
    let input = "parse_args | parse command arguments, validate input flags\nsend_request | send HTTP request, handle connection errors";
    let features = parse_line_features(input);
    assert_eq!(features.len(), 2);
    assert_eq!(
        features.get("parse_args").unwrap(),
        &vec!["parse command arguments", "validate input flags"]
    );
    assert_eq!(
        features.get("send_request").unwrap(),
        &vec!["send http request", "handle connection errors"]
    );
}

#[test]
fn test_parse_line_features_skips_blanks_and_comments() {
    let input = "# This is a comment\n\nfoo | do something\n\n```json\nbaz | do another thing";
    let features = parse_line_features(input);
    assert_eq!(features.len(), 2);
    assert!(features.contains_key("foo"));
    assert!(features.contains_key("baz"));
}

#[test]
fn test_parse_line_features_skips_lines_without_pipe() {
    let input = "Example:\nfoo | feature one\nSome other text\nbar | feature two";
    let features = parse_line_features(input);
    assert_eq!(features.len(), 2);
}

#[test]
fn test_parse_line_features_empty_input() {
    let features = parse_line_features("");
    assert!(features.is_empty());
}

#[test]
fn test_parse_line_features_partial_corruption() {
    let input = "good_func | parse arguments, validate flags\n| broken line no name\nbad_line_no_pipe\nanother_good | serialize json";
    let features = parse_line_features(input);
    assert_eq!(features.len(), 2);
    assert!(features.contains_key("good_func"));
    assert!(features.contains_key("another_good"));
}

#[test]
fn test_parse_line_features_normalizes_case() {
    let input = "MyFunc | Parse JSON Data, Handle HTTP Errors";
    let features = parse_line_features(input);
    assert_eq!(
        features.get("MyFunc").unwrap(),
        &vec!["parse json data", "handle http errors"]
    );
}

#[test]
fn test_parse_line_features_with_think_blocks() {
    let input =
        "<think>Let me analyze this code...</think>\nfoo | parse config\nbar | send request";
    let features = parse_line_features(input);
    assert_eq!(features.len(), 2);
}

#[test]
fn test_parse_line_features_includes_stubs() {
    let input = "real_func | parse config, validate input\nstub_func | ";
    let features = parse_line_features(input);
    assert!(
        features.contains_key("stub_func"),
        "stub entities with empty features should still be included"
    );
    assert!(features.get("stub_func").unwrap().is_empty());
}

#[test]
fn test_normalize_features_non_consecutive_dedup() {
    let mut features = StrMap::new();
    features.insert(
        "foo".to_string(),
        vec![
            "parse config".to_string(),
            "validate input".to_string(),
            "parse config".to_string(),
        ],
    );
    normalize_features(&mut features);
    let feats = features.get("foo").unwrap();
    assert_eq!(
        feats.len(),
        2,
        "non-consecutive duplicates should be removed"
    );
    assert!(feats.contains(&"parse config".to_string()));
    assert!(feats.contains(&"validate input".to_string()));
}

#[test]
fn strip_think_removes_paired_blocks() {
    assert_eq!(strip_think_blocks("a<think>x</think>b"), "ab");
    assert_eq!(strip_think_blocks("<think>x</think><think>y</think>z"), "z");
    assert_eq!(strip_think_blocks("no blocks"), "no blocks");
}

#[test]
fn strip_think_truncates_at_unclosed_block() {
    assert_eq!(strip_think_blocks("keep<think>never closed"), "keep");
    assert_eq!(strip_think_blocks("a<think>x</think>b<think>c"), "ab");
}

#[test]
fn strip_think_rescans_joined_text() {
    assert_eq!(strip_think_blocks("<th<think>x</think>ink>tail"), "");
}

#[test]
fn parse_line_features_with_comment_and_blanks() {
    let input = "# comment\n\nparse_args | parse command arguments, validate input flags\n\nsend_request | send HTTP request, handle connection errors";
    let features = parse_line_features(input);
    assert_eq!(features.len(), 2);
    assert_eq!(
        features.get("parse_args").unwrap(),
        &vec!["parse command arguments", "validate input flags"]
    );
}

#[test]
fn parse_line_features_later_record_replaces_earlier() {
    let features = parse_line_features("f | one\ng | two\nf | three");
    assert_eq!(features.len(), 2);
    assert_eq!(features.key_at(0), "f");
    assert_eq!(features.get("f").unwrap(), &vec!["three"]);
}

#[test]
fn parse_line_features_handles_crlf_and_inner_pipes() {
    let features = parse_line_features("  name  |  A | B , ,C\r\nnext|x\r\n");
    assert_eq!(features.len(), 2);
    assert_eq!(features.get("name").unwrap(), &vec!["a | b", "c"]);
    assert_eq!(features.get("next").unwrap(), &vec!["x"]);
}

#[test]
fn parse_line_features_unaffected_by_injected_noise() {
    let clean = parse_line_features("a | x\nb | y");
    let noisy = parse_line_features("\n# note\na | x\n<think>hmm</think>\nnot a record\n```\nb | y\n");
    assert_eq!(clean.len(), noisy.len());
    assert_eq!(clean.get("a"), noisy.get("a"));
    assert_eq!(clean.get("b"), noisy.get("b"));
}

#[test]
fn normalize_features_sorts_trims_lowercases_and_drops_empties() {
    let mut features = StrMap::new();
    features.insert(
        "f".to_string(),
        vec![
            "  Zeta ".to_string(),
            "".to_string(),
            "alpha".to_string(),
            "   ".to_string(),
            "ALPHA".to_string(),
            "Mid".to_string(),
        ],
    );
    normalize_features(&mut features);
    assert_eq!(features.get("f").unwrap(), &vec!["alpha", "mid", "zeta"]);
}

#[test]
fn normalize_features_is_idempotent_on_example() {
    let mut features = StrMap::new();
    features.insert("f".to_string(), vec!["B".to_string(), " a".to_string(), "b".to_string()]);
    features.insert("g".to_string(), vec![]);
    normalize_features(&mut features);
    let once_f = features.get("f").unwrap().clone();
    let once_g = features.get("g").unwrap().clone();
    normalize_features(&mut features);
    assert_eq!(features.get("f").unwrap(), &once_f);
    assert_eq!(features.get("g").unwrap(), &once_g);
    assert_eq!(once_f, vec!["a", "b"]);
}

#[test]
fn parse_line_features_map_ignores_order_of_distinct_names() {
    let one = parse_line_features("a | x\nb | y\nc | z");
    let two = parse_line_features("c | z\na | x\nb | y");
    assert_eq!(one.len(), two.len());
    for name in ["a", "b", "c"] {
        assert_eq!(one.get(name), two.get(name));
    }
    assert_eq!(one.key_at(0), "a");
    assert_eq!(two.key_at(0), "c");
}
