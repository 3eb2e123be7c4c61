use smartpage::pager::{pager_exit_code, resolve_pager, STREAM_CHUNK_LEN};

#[test]
fn unset_pager_falls_back() {
    assert_eq!(resolve_pager(None), vec!["less".to_string()]);
}

#[test]
fn pager_with_arguments_is_split() {
    let cmd = resolve_pager(Some("less -R --quit-if-one-screen".to_string()));
    assert_eq!(
        cmd,
        vec!["less".to_string(), "-R".to_string(), "--quit-if-one-screen".to_string()]
    );
}

#[test]
fn quoted_arguments_stay_whole() {
    let cmd = resolve_pager(Some("pager 'one arg'".to_string()));
    assert_eq!(cmd, vec!["pager".to_string(), "one arg".to_string()]);
}

#[test]
fn unusable_pager_value_falls_back() {
    assert_eq!(resolve_pager(Some("less 'unclosed".to_string())), vec!["less".to_string()]);
    assert_eq!(resolve_pager(Some("".to_string())), vec!["less".to_string()]);
}

#[test]
fn exit_code_defaults_to_one() {
    assert_eq!(pager_exit_code(Some(0)), 0);
    assert_eq!(pager_exit_code(Some(42)), 42);
    assert_eq!(pager_exit_code(None), 1);
}

#[test]
fn remainder_streams_in_sixteen_kibibyte_chunks() {
    assert_eq!(STREAM_CHUNK_LEN, 16 * 1024);
}
