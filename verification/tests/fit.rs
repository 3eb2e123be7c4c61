use smartpage::fit::lines_used;

#[test]
fn counts_newlines() {
    assert_eq!(lines_used(b"a", 100), 1);
    assert_eq!(lines_used(b"a\nb", 100), 2);
}

#[test]
fn accounts_for_wrapping() {
    assert_eq!(lines_used(b"aaa", 3), 1);
    assert_eq!(lines_used(b"aaaa", 3), 2);
}

#[test]
fn empty_string_takes_one_line() {
    assert_eq!(lines_used(b"", 100), 1);
}

#[test]
fn sgr_escapes_ignored() {
    assert_eq!(lines_used(b"\x1b[1mfoo\x1b[22m and \x1b[38;5;8mbar\x1b[39m", 11), 1);
}

#[test]
fn exact_multiple_of_width_does_not_wrap_extra() {
    assert_eq!(lines_used(b"aaaa", 2), 2);
    assert_eq!(lines_used(b"aaaa", 4), 1);
}

#[test]
fn narrower_width_never_needs_fewer_rows() {
    let buf = b"hello world\nsecond line\n";
    let mut last = lines_used(buf, 80);
    for w in [12usize, 8, 5, 3, 2, 1] {
        let rows = lines_used(buf, w);
        assert!(rows >= last);
        last = rows;
    }
}

#[test]
fn empty_lines_cost_one_row_at_any_width() {
    for w in [1usize, 2, 10, 1000] {
        assert_eq!(lines_used(b"", w), 1);
        assert_eq!(lines_used(b"a\n\nb", w), 3);
        assert_eq!(lines_used(b"a\n", w), 2);
    }
}
