use smartpage::estimator::visible_length;

#[test]
fn basic() {
    assert_eq!(visible_length(b""), 0);
    assert_eq!(visible_length(b"abc"), 3);
}

#[test]
fn escapes() {
    assert_eq!(visible_length(b"\x1b[1mfoo\x1b[0m bar"), 7);
    assert_eq!(visible_length(b"\x1b[1;2m"), 0);
}

#[test]
fn unterminated_escapes() {
    assert_eq!(visible_length(b"\x1b"), 1);
    assert_eq!(visible_length(b"\x1b["), 2);
    assert_eq!(visible_length(b"\x1b[39"), 4);
}

#[test]
fn unrecognised_escapes() {
    assert_eq!(visible_length(b"\x1b[foo"), 5);
    assert_eq!(visible_length(b"\x1b[1;2z"), 6);
}

#[test]
fn plain_text_is_as_wide_as_it_is_long() {
    let line = b"The quick brown fox jumps over the lazy dog";
    assert_eq!(visible_length(line), line.len());
}

#[test]
fn recognised_sequence_free_unrecognised_charged() {
    assert_eq!(visible_length(b"\x1b[1m"), 0);
    assert_eq!(visible_length(b"\x1b[1q"), 4);
}

#[test]
fn two_byte_csi_form() {
    assert_eq!(visible_length(b"\xc2\x9b1mfoo"), 3);
    assert_eq!(visible_length(b"\xc2x"), 2);
    assert_eq!(visible_length(b"\xc2"), 1);
}
