use evosim::template::{decode_template, encode_template, split_lines, HEADER_LINES};

fn tok(s: &str) -> Vec<u8> {
    s.as_bytes().to_vec()
}

fn header() -> Vec<Vec<u8>> {
    vec![tok("0.3"), tok("0.2"), tok("250"), tok("12.5"), tok("3")]
}

#[test]
fn encode_writes_header_rows_and_markers() {
    let weights = vec![vec![vec![tok("a"), tok("b")], vec![tok("c"), tok("d")]]];
    let out = encode_template(&header(), &weights);
    assert_eq!(
        String::from_utf8(out).unwrap(),
        "0.3\n0.2\n250\n12.5\n3\n\na\nb\n\nc\nd\nnew array:"
    );
}

#[test]
fn encode_two_matrices() {
    let weights = vec![vec![vec![tok("1")]], vec![vec![tok("2"), tok("3")]]];
    let out = encode_template(&header(), &weights);
    assert_eq!(
        String::from_utf8(out).unwrap(),
        "0.3\n0.2\n250\n12.5\n3\n\n1\nnew array:\n2\n3\nnew array:"
    );
}

#[test]
fn encode_without_matrices_is_header_only() {
    let out = encode_template(&header(), &vec![]);
    assert_eq!(String::from_utf8(out).unwrap(), "0.3\n0.2\n250\n12.5\n3\n");
}

#[test]
fn written_template_reads_back() {
    let weights = vec![
        vec![vec![tok("-0.5"), tok("0.25"), tok("1")], vec![tok("2"), tok("3"), tok("4")]],
        vec![vec![tok("7")], vec![tok("8")]],
        vec![vec![tok("9"), tok("10")]],
    ];
    let out = encode_template(&header(), &weights);
    let (h, w) = decode_template(&out);
    assert_eq!(h, header());
    assert_eq!(w, weights);
}

#[test]
fn empty_rows_read_back() {
    let weights = vec![vec![vec![], vec![tok("x")], vec![]]];
    let out = encode_template(&header(), &weights);
    let (h, w) = decode_template(&out);
    assert_eq!(h, header());
    assert_eq!(w, weights);
}

#[test]
fn decode_reads_crlf_lines() {
    let text = "1\r\n2\r\n3\r\n4\r\n5\r\n\r\na\r\nb\r\n\r\nc\r\nd\r\nnew array:\r\n";
    let (h, w) = decode_template(text.as_bytes());
    assert_eq!(h, vec![tok("1"), tok("2"), tok("3"), tok("4"), tok("5")]);
    assert_eq!(w, vec![vec![vec![tok("a"), tok("b")], vec![tok("c"), tok("d")]]]);
}

#[test]
fn decode_drops_unfinished_matrix() {
    let text = "1\n2\n3\n4\n5\n\na\nnew array:\nb\nc";
    let (_, w) = decode_template(text.as_bytes());
    assert_eq!(w, vec![vec![vec![tok("a")]]]);
}

#[test]
fn decode_short_file_has_short_header() {
    let (h, w) = decode_template("1\n2\n".as_bytes());
    assert_eq!(h, vec![tok("1"), tok("2")]);
    assert!(w.is_empty());
    assert_eq!(HEADER_LINES, 5);
}

#[test]
fn decode_skips_sixth_line_whatever_it_holds() {
    let text = "1\n2\n3\n4\n5\nnew array:\nq\nnew array:";
    let (_, w) = decode_template(text.as_bytes());
    assert_eq!(w, vec![vec![vec![tok("q")]]]);
}

#[test]
fn split_lines_follows_reader() {
    assert_eq!(split_lines(b""), Vec::<Vec<u8>>::new());
    assert_eq!(split_lines(b"a\n"), vec![tok("a")]);
    assert_eq!(split_lines(b"a\n\nb"), vec![tok("a"), tok(""), tok("b")]);
    assert_eq!(split_lines(b"a\r\nb\r"), vec![tok("a"), tok("b\r")]);
    assert_eq!(split_lines(b"\n"), vec![tok("")]);
}
