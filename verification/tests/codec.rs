use dns_codec::codec::{decode, encode, hostname_labels_fit, DnsClientError, Ipv4Address};

fn example_com_query() -> Vec<u8> {
    let mut expected: Vec<u8> = vec![
        0x00, 0x01, // identification = 1
        0x00, 0x00, // flags = 0
        0x00, 0x01, // question count = 1
        0x00, 0x00, // answer count = 0
        0x00, 0x00, // authority count = 0
        0x00, 0x00, // additional count = 0
    ];
    expected.push(7);
    expected.extend_from_slice(b"example");
    expected.push(3);
    expected.extend_from_slice(b"com");
    expected.push(0); // root-label terminator
    expected.extend_from_slice(&[0x00, 0x01, 0x00, 0x01]); // QTYPE = A, QCLASS = IN
    expected
}

#[test]
fn encode_example_com_exact_bytes() {
    let out = encode(b"example.com");
    let expected = example_com_query();
    assert_eq!(expected.len(), 29);
    assert_eq!(out, expected);
}

#[test]
fn encode_single_label() {
    let out = encode(b"localhost");
    let mut expected: Vec<u8> = vec![0, 1, 0, 0, 0, 1, 0, 0, 0, 0, 0, 0];
    expected.push(9);
    expected.extend_from_slice(b"localhost");
    expected.extend_from_slice(&[0, 0, 1, 0, 1]);
    assert_eq!(out, expected);
}

#[test]
fn encode_twice_is_byte_identical() {
    let first = encode(b"example.com");
    let second = encode(b"example.com");
    assert_eq!(first, second);
}

#[test]
fn encode_empty_label_writes_zero_length_byte() {
    let out = encode(b"a..b");
    let mut expected: Vec<u8> = vec![0, 1, 0, 0, 0, 1, 0, 0, 0, 0, 0, 0];
    expected.extend_from_slice(&[1, b'a', 0, 1, b'b']);
    expected.extend_from_slice(&[0, 0, 1, 0, 1]);
    assert_eq!(out, expected);
    // The zero-length label's length byte sits mid-name, before the
    // terminator that closes the question name.
    assert_eq!(out[14], 0);
    assert!(14 < out.len() - 5);
}

#[test]
fn encode_empty_hostname_is_one_empty_label() {
    // Splitting the empty hostname on `.` yields one empty label, so the
    // name is a zero-length label followed by the terminator.
    let out = encode(b"");
    let mut expected: Vec<u8> = vec![0, 1, 0, 0, 0, 1, 0, 0, 0, 0, 0, 0];
    expected.extend_from_slice(&[0, 0, 0, 1, 0, 1]);
    assert_eq!(out, expected);
}

#[test]
fn labels_fit_accepts_and_rejects() {
    assert!(hostname_labels_fit(b"example.com"));
    assert!(hostname_labels_fit(b""));
    assert!(hostname_labels_fit(&[b'x'; 255]));
    assert!(!hostname_labels_fit(&[b'x'; 256]));
    let mut long_tail: Vec<u8> = Vec::new();
    long_tail.extend_from_slice(b"ok.");
    long_tail.extend_from_slice(&[b'y'; 300]);
    assert!(!hostname_labels_fit(&long_tail));
}

fn single_answer_response(rdata: [u8; 4]) -> Vec<u8> {
    let mut buf: Vec<u8> = vec![
        0x00, 0x01, // identification
        0x81, 0x80, // flags: response, recursion available
        0x00, 0x01, // one question
        0x00, 0x01, // one answer
        0x00, 0x00, // no authority records
        0x00, 0x00, // no additional records
    ];
    buf.push(7);
    buf.extend_from_slice(b"example");
    buf.push(3);
    buf.extend_from_slice(b"com");
    buf.push(0);
    buf.extend_from_slice(&[0x00, 0x01, 0x00, 0x01]); // echoed question trailer
    buf.extend_from_slice(&[0xc0, 0x0c]); // name: compression pointer to offset 12
    buf.extend_from_slice(&[0x00, 0x01]); // type A
    buf.extend_from_slice(&[0x00, 0x01]); // class IN
    buf.extend_from_slice(&[0x00, 0x00, 0x00, 0x3c]); // TTL
    buf.extend_from_slice(&[0x00, 0x04]); // resource-data length
    buf.extend_from_slice(&rdata);
    buf
}

#[test]
fn decode_single_answer_returns_address() {
    let buf = single_answer_response([0x5d, 0xb8, 0xd8, 0x22]);
    let got = decode(&buf);
    assert_eq!(
        got,
        Ok(Ipv4Address { a: 93, b: 184, c: 216, d: 34 })
    );
}

#[test]
fn decode_zero_answers_is_unknown_hostname() {
    let mut buf = single_answer_response([1, 2, 3, 4]);
    buf[7] = 0; // answer count = 0; the answer bytes beyond are never read
    assert_eq!(decode(&buf), Err(DnsClientError::UnknownHostname));
}

#[test]
fn decode_zero_answers_zero_questions_is_unknown_hostname() {
    // QDCOUNT = 0: nothing is skipped, the header alone suffices.
    let buf: Vec<u8> = vec![0, 1, 0x81, 0x80, 0, 0, 0, 0, 0, 0, 0, 0];
    assert_eq!(decode(&buf), Err(DnsClientError::UnknownHostname));
}

#[test]
fn decode_zero_answers_many_questions_is_unknown_hostname() {
    // QDCOUNT = 2 with two well-formed questions and ANCOUNT = 0.
    let mut buf: Vec<u8> = vec![0, 1, 0x81, 0x80, 0, 2, 0, 0, 0, 0, 0, 0];
    for _ in 0..2 {
        buf.push(1);
        buf.push(b'a');
        buf.push(0);
        buf.extend_from_slice(&[0, 1, 0, 1]);
    }
    assert_eq!(decode(&buf), Err(DnsClientError::UnknownHostname));
}

#[test]
fn decode_truncated_header_is_format_error() {
    assert_eq!(decode(&[]), Err(DnsClientError::FormatError));
    let eleven: Vec<u8> = vec![0; 11];
    assert_eq!(decode(&eleven), Err(DnsClientError::FormatError));
}

#[test]
fn decode_truncated_question_is_format_error() {
    // A label claims 7 bytes but the buffer ends after 3 of them.
    let mut buf: Vec<u8> = vec![0, 1, 0x81, 0x80, 0, 1, 0, 1, 0, 0, 0, 0];
    buf.push(7);
    buf.extend_from_slice(b"exa");
    assert_eq!(decode(&buf), Err(DnsClientError::FormatError));
}

#[test]
fn decode_question_missing_trailer_is_format_error() {
    // The name terminates but the 4-byte type and class are cut short.
    let mut buf: Vec<u8> = vec![0, 1, 0x81, 0x80, 0, 1, 0, 1, 0, 0, 0, 0];
    buf.push(1);
    buf.push(b'a');
    buf.push(0);
    buf.extend_from_slice(&[0, 1]);
    assert_eq!(decode(&buf), Err(DnsClientError::FormatError));
}

#[test]
fn decode_truncated_answer_is_format_error() {
    let full = single_answer_response([1, 2, 3, 4]);
    for cut in (full.len() - 15)..full.len() {
        assert_eq!(decode(&full[..cut]), Err(DnsClientError::FormatError));
    }
}

#[test]
fn decode_of_encoded_query_skips_question_exactly() {
    // The query itself is a well-formed message with one question and no
    // answers: decoding it must walk the question section to its exact end
    // and then report the zero answer count, not a format fault.
    let query = encode(b"example.com");
    assert_eq!(decode(&query), Err(DnsClientError::UnknownHostname));
    let deep = encode(b"a.b.c.d.e.f.g");
    assert_eq!(decode(&deep), Err(DnsClientError::UnknownHostname));
}
