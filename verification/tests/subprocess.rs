use strixonomy::plugin::{append_capped, summarize_stdio, SubprocessError, ERROR_SNIPPET_MAX};

#[test]
fn read_capped_rejects_oversize() {
    let data = vec![b'a'; 33];
    let mut buf = Vec::new();
    let err = append_capped(&mut buf, &data, data.len(), 32).unwrap_err();
    assert!(matches!(err, SubprocessError::OutputTooLarge(32)));
    assert!(buf.is_empty());
}

#[test]
fn summarize_stdio_truncates_long_output() {
    let long = "x".repeat(ERROR_SNIPPET_MAX + 80);
    let summary = summarize_stdio(long.as_bytes());
    assert!(summary.contains("truncated"));
    assert!(summary.len() < long.len());
    assert!(summary.starts_with("xxx"));
}

#[test]
fn summarize_stdio_preserves_short_output() {
    assert_eq!(summarize_stdio(b"  boom  "), "boom");
}
