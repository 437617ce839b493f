use ollamux::config::{
    locate, permission_warning, suffix, FileRead, Keys, Origin, ParseError, DEFAULT_CONCURRENCY,
};

fn entry(key: &str, concurrency: u32) -> (String, u32) {
    (key.to_string(), concurrency)
}

#[test]
fn parses_lines_comments_and_whitespace() {
    let k = Keys::parse(" \n # comment\n  key-a:5  \n\nkey-b\n").unwrap();
    assert_eq!(
        k.entries,
        vec![entry("key-a", 5), entry("key-b", DEFAULT_CONCURRENCY)]
    );
    assert_eq!(k.len(), 2);
}

#[test]
fn colon_only_splits_on_digit_tail() {
    let k = Keys::parse("key-abc:3").unwrap();
    assert_eq!(k.entries.first().unwrap().1, 3);
    // A colon in the middle of a key is not a splitter.
    let k = Keys::parse("key-abc:def").unwrap();
    assert_eq!(k.entries.first().unwrap().0, "key-abc:def");
    assert_eq!(k.entries.first().unwrap().1, DEFAULT_CONCURRENCY);
}

#[test]
fn concurrency_floor_is_one() {
    let k = Keys::parse("key-a:0").unwrap();
    assert_eq!(k.entries.first().unwrap().1, 1);
}

#[test]
fn suffix_is_last_four() {
    assert_eq!(suffix("key-abcdefgh"), "efgh");
    assert_eq!(suffix("abc"), "abc");
}

#[test]
fn suffix_never_panics_on_multibyte() {
    assert_eq!(suffix("aébcd"), "ébcd");
    assert_eq!(suffix("日本語テスト"), "語テスト");
    assert_eq!(suffix("héllo"), "éllo");
}

#[test]
fn oversized_concurrency_is_an_error_not_a_silent_default() {
    let err = Keys::parse("key-a:99999999999").unwrap_err();
    assert!(matches!(err, ParseError::BadConcurrency { .. }));
    assert_eq!(
        err.message(),
        "invalid concurrency \"99999999999\" in key line (want `KEY:N`, N = 1..=u32::MAX): \"key-a:99999999999\""
    );
}

#[test]
fn duplicate_keys_are_an_error() {
    let err = Keys::parse("key-a\nkey-b\nkey-a\n").unwrap_err();
    assert!(matches!(err, ParseError::BadLine(_)));
    let ok = Keys::parse("key-a\nkey-b\n").unwrap();
    assert_eq!(ok.len(), 2);
}

#[test]
fn empty_parse_is_ok_but_from_file_is_rejected() {
    // `parse` itself is permissive; the loader enforces that there are keys.
    let k = Keys::parse("# only comments\n").unwrap();
    assert!(k.is_empty());
    let origin = locate(Some("/nonexistent-omlx-keys"), None, None, None).unwrap();
    assert!(Keys::load(origin, FileRead::Missing("no such file".to_string())).is_err());
    let origin = locate(Some("/k"), None, None, None).unwrap();
    let err = Keys::load(origin, FileRead::Text("# only comments\n".to_string())).unwrap_err();
    assert_eq!(err.message(), "no keys: keys file /k has no keys");
}

#[test]
fn comments_may_follow_a_key() {
    let k = Keys::parse(
        "your-free-key...:1\nyour-pro-key...:3           # default when no suffix is given\nyour-max-key...:10\n",
    )
    .unwrap();
    assert_eq!(
        k.entries,
        vec![
            entry("your-free-key...", 1),
            entry("your-pro-key...", 3),
            entry("your-max-key...", 10)
        ]
    );
    // A hash inside a key is part of it.
    let k = Keys::parse("key#a").unwrap();
    assert_eq!(k.entries, vec![entry("key#a", DEFAULT_CONCURRENCY)]);
}

#[test]
fn environment_splits_on_newlines_and_commas() {
    let origin = locate(None, Some("key-a:2,key-b\nkey-c:7"), None, None).unwrap();
    let k = Keys::load(origin, FileRead::Unread).unwrap();
    assert_eq!(
        k.entries,
        vec![entry("key-a", 2), entry("key-b", 3), entry("key-c", 7)]
    );
    assert_eq!(k.source, "");
    assert_eq!(
        k.suffixes(),
        vec!["ey-a".to_string(), "ey-b".to_string(), "ey-c".to_string()]
    );
    let origin = locate(None, Some(" , "), None, None).unwrap();
    let err = Keys::load(origin, FileRead::Unread).unwrap_err();
    assert_eq!(err.message(), "no keys: OLLAMUX_KEYS is set but empty");
}

#[test]
fn keys_are_looked_for_in_order() {
    let explicit = locate(Some("/a"), Some("k"), Some("/x"), Some("/h")).unwrap();
    assert!(matches!(explicit, Origin::File { ref path, explicit: true } if path == "/a"));
    let env = locate(None, Some("k"), Some("/x"), Some("/h")).unwrap();
    assert!(matches!(env, Origin::Env(ref raw) if raw == "k"));
    let xdg = locate(None, None, Some("/x"), Some("/h")).unwrap();
    assert!(
        matches!(xdg, Origin::File { ref path, explicit: false } if path == "/x/ollamux/keys")
    );
    let home = locate(None, None, Some(""), Some("/h")).unwrap();
    assert!(
        matches!(home, Origin::File { ref path, explicit: false } if path == "/h/.config/ollamux/keys")
    );
    let err = locate(None, None, None, None).unwrap_err();
    assert_eq!(
        err.message(),
        "no keys: HOME not set and OLLAMUX_KEYS unset; cannot locate keys"
    );
}

#[test]
fn files_are_reported_as_they_are_read() {
    let found = locate(None, None, None, Some("/h")).unwrap();
    let k = Keys::load(found, FileRead::Text("key-a".to_string())).unwrap();
    assert_eq!(k.source, "/h/.config/ollamux/keys");
    // A default file that is not there is no read error.
    let absent = locate(None, None, None, Some("/h")).unwrap();
    let err = Keys::load(absent, FileRead::Missing("gone".to_string())).unwrap_err();
    assert_eq!(
        err.message(),
        "no keys found: set OLLAMUX_KEYS or create /h/.config/ollamux/keys (one API key per line)"
    );
    // One that was asked for is.
    let asked = locate(Some("/k"), None, None, None).unwrap();
    let err = Keys::load(asked, FileRead::Missing("gone".to_string())).unwrap_err();
    assert_eq!(err.message(), "reading keys: gone");
    let broken = locate(None, None, None, Some("/h")).unwrap();
    let err = Keys::load(broken, FileRead::Failed("denied".to_string())).unwrap_err();
    assert_eq!(err.message(), "reading keys: denied");
}

#[test]
fn messages_quote_what_is_wrong() {
    let err = Keys::parse("key-a\nkey-a").unwrap_err();
    assert_eq!(
        err.message(),
        "unparseable key line: \"duplicate key entry: …ey-a\""
    );
}

#[test]
fn open_files_are_warned_about() {
    assert_eq!(permission_warning("/k", 0o100600), None);
    assert_eq!(
        permission_warning("/k", 0o100644),
        Some(
            "ollamux: warning: /k is readable by others (mode 644); fix: chmod 600 /k".to_string()
        )
    );
}
