use smartpage::engine::{begin, decide_bytes, Decision, PrefixReader, Start};

#[test]
fn short_input_is_shown_directly() {
    match decide_bytes(b"abc", 100, 10) {
        Decision::ShowAll(buf) => assert_eq!(buf, b"abc".to_vec()),
        Decision::Page(_) => panic!("three bytes fit on a hundred-column screen"),
    }
}

#[test]
fn long_input_pages_with_a_screen_sized_prefix() {
    let mut input: Vec<u8> = Vec::new();
    for i in 0..1000 {
        input.extend_from_slice(format!("line {}\n", i).as_bytes());
    }
    match decide_bytes(&input, 100, 20) {
        Decision::Page(buf) => {
            assert_eq!(buf.len(), 100 * 17);
            assert_eq!(&input[..buf.len()], &buf[..]);
        }
        Decision::ShowAll(_) => panic!("a thousand lines cannot fit on twenty rows"),
    }
}

#[test]
fn sizing_twice_gives_the_same_decision() {
    let input = b"one\ntwo\nthree\n";
    let first = decide_bytes(input, 4, 5);
    let second = decide_bytes(input, 4, 5);
    match (first, second) {
        (Decision::ShowAll(a), Decision::ShowAll(b)) => assert_eq!(a, b),
        (Decision::Page(a), Decision::Page(b)) => assert_eq!(a, b),
        _ => panic!("identical source and geometry gave different variants"),
    }
}

#[test]
fn chunked_reads_accumulate_in_order() {
    let mut reader = PrefixReader::new(10, 13);
    assert!(reader.fits());
    reader.push_chunk(b"hello ");
    reader.push_chunk(b"world");
    assert!(reader.fits());
    match reader.into_show_all() {
        Decision::ShowAll(buf) => assert_eq!(buf, b"hello world".to_vec()),
        Decision::Page(_) => panic!("the reader does not page on its own"),
    }
}

#[test]
fn overflowing_reader_pages_with_what_it_read() {
    // Two columns, four usable rows: eight bytes of capacity.
    let mut reader = PrefixReader::new(2, 7);
    assert_eq!(reader.room(), 8);
    reader.push_chunk(b"aaaaaaaa");
    // Eight unbroken columns wrap to four rows; still fits, and the
    // notional buffer grew by another screen block.
    assert!(reader.fits());
    assert_eq!(reader.room(), 8);
    reader.push_chunk(b"b");
    assert!(!reader.fits());
    match reader.into_page() {
        Decision::Page(buf) => assert_eq!(buf, b"aaaaaaaab".to_vec()),
        Decision::ShowAll(_) => panic!("nine wrapped columns overflow four rows"),
    }
}

#[test]
fn unknown_geometry_pages_immediately() {
    match begin(None) {
        Start::Decided(Decision::Page(buf)) => assert!(buf.is_empty()),
        _ => panic!("no geometry means an immediate empty-prefix page"),
    }
    match begin(Some((0, 50))) {
        Start::Decided(Decision::Page(buf)) => assert!(buf.is_empty()),
        _ => panic!("zero width means an immediate empty-prefix page"),
    }
}

#[test]
fn known_geometry_starts_reading() {
    match begin(Some((80, 24))) {
        Start::Reading(reader) => {
            assert!(reader.fits());
            assert_eq!(reader.room(), 80 * 21);
        }
        Start::Decided(_) => panic!("a known terminal starts the sizing loop"),
    }
}

#[test]
fn tiny_terminal_pages_at_once() {
    match begin(Some((80, 3))) {
        Start::Reading(reader) => {
            assert!(!reader.fits());
            match reader.into_page() {
                Decision::Page(buf) => assert!(buf.is_empty()),
                Decision::ShowAll(_) => panic!("no usable rows means paging"),
            }
        }
        Start::Decided(_) => panic!("geometry is known, so the loop starts"),
    }
}
