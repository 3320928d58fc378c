use dekho::config::{file_key, unquote, value_of, KEY};

#[test]
fn reads_a_quoted_value() {
    assert_eq!(
        value_of("tmdb_api_key = \"abc123\"\n", KEY).as_deref(),
        Some("abc123")
    );
    assert_eq!(
        value_of("tmdb_api_key = 'abc123'\n", KEY).as_deref(),
        Some("abc123")
    );
}

#[test]
fn quotes_are_optional_and_whitespace_is_trimmed() {
    assert_eq!(
        value_of("   tmdb_api_key   =   abc123   \n", KEY).as_deref(),
        Some("abc123")
    );
}

#[test]
fn comments_and_blank_lines_are_skipped() {
    let src = "# dekho config\n\n  # tmdb_api_key = \"wrong\"\ntmdb_api_key = \"right\"\n";
    assert_eq!(value_of(src, KEY).as_deref(), Some("right"));
}

#[test]
fn unknown_keys_are_ignored_rather_than_rejected() {
    // A config file written by a later dekho must still work here.
    let src = "player = \"mpv\"\ntmdb_api_key = \"abc123\"\nsubtitles = true\n";
    assert_eq!(value_of(src, KEY).as_deref(), Some("abc123"));
}

#[test]
fn a_value_containing_an_equals_sign_survives() {
    // Splitting on the first `=` only, so a base64-ish key keeps its tail.
    assert_eq!(
        value_of("tmdb_api_key = \"ab=c1==\"", KEY).as_deref(),
        Some("ab=c1==")
    );
}

#[test]
fn an_empty_or_absent_key_is_none() {
    assert_eq!(value_of("tmdb_api_key = \"\"\n", KEY), None);
    assert_eq!(value_of("# nothing here\n", KEY), None);
    assert_eq!(value_of("", KEY), None);
}

#[test]
fn a_missing_config_file_is_not_an_error() {
    assert_eq!(file_key(None), None);
}

#[test]
fn only_one_layer_of_quotes_comes_off() {
    assert_eq!(unquote("\"'x'\""), "'x'");
    assert_eq!(unquote("\"unbalanced"), "\"unbalanced");
    assert_eq!(unquote("\""), "\"");
}
