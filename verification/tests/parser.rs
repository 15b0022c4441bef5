use multipart::codec::parse_header;
use multipart::model::ParseError;
use multipart::parse_multipart;
use multipart::segment::parse_segment;

#[test]
fn simple_test() {
    let boundary = "boundary";
    let data = b"--boundary\r\nContent-Disposition: form-data; name=\"field1\"\r\n\r\nvalue1\r\n--boundary\r\nContent-Disposition: form-data; name=\"field2\"; filename=\"example.txt\"\r\nContent-Type: text/plain\r\n\r\nvalue2\r\n--boundary--";

    let form_data = parse_multipart(data, boundary).unwrap();

    assert_eq!(form_data.parts.len(), 2);
    let p0 = &form_data.parts[0];
    assert_eq!(p0.headers.len(), 1);
    assert_eq!(p0.headers[0].name, "Content-Disposition");
    assert_eq!(p0.headers[0].value, "form-data; name=\"field1\"");
    assert_eq!(p0.body, b"value1");
    let p1 = &form_data.parts[1];
    assert_eq!(p1.headers.len(), 2);
    assert_eq!(p1.headers[0].name, "Content-Disposition");
    assert_eq!(
        p1.headers[0].value,
        "form-data; name=\"field2\"; filename=\"example.txt\""
    );
    assert_eq!(p1.headers[1].name, "Content-Type");
    assert_eq!(p1.headers[1].value, "text/plain");
    assert_eq!(p1.body, b"value2");
}

#[test]
fn test_parse_header() {
    let line1: &[u8] = b"Content-Disposition: form-data; name=\"field1\"";
    let line2: &[u8] = b"Content-Disposition: form-data; name=\"field2\"";

    let h1 = parse_header(line1, 0, 0).unwrap();
    assert_eq!(h1.name, "Content-Disposition");
    assert_eq!(h1.value, "form-data; name=\"field1\"");

    let h2 = parse_header(line2, 47, 0).unwrap();
    assert_eq!(h2.name, "Content-Disposition");
    assert_eq!(h2.value, "form-data; name=\"field2\"");
}

#[test]
fn test_parse_body() {
    let data: &[u8] = b"\r\n";

    let part = parse_segment(data, 0, 0).unwrap();
    assert_eq!(part.headers.len(), 0);
    assert_eq!(part.body, b"");
}

#[test]
fn two_parts_round_trip() {
    let data = b"--X\r\nContent-Disposition: form-data; name=\"username\"\r\n\r\njohn_doe\r\n--X\r\nContent-Disposition: form-data; name=\"file\"; filename=\"example.txt\"\r\nContent-Type: text/plain\r\n\r\nHello, world!\r\n--X--";

    let form_data = parse_multipart(data, "X").unwrap();

    assert_eq!(form_data.parts.len(), 2);
    let p0 = &form_data.parts[0];
    assert_eq!(p0.headers.len(), 1);
    assert_eq!(p0.headers[0].name, "Content-Disposition");
    assert_eq!(p0.headers[0].value, "form-data; name=\"username\"");
    assert_eq!(p0.body, b"john_doe");
    let p1 = &form_data.parts[1];
    assert_eq!(p1.headers.len(), 2);
    assert_eq!(p1.headers[0].name, "Content-Disposition");
    assert_eq!(
        p1.headers[0].value,
        "form-data; name=\"file\"; filename=\"example.txt\""
    );
    assert_eq!(p1.headers[1].name, "Content-Type");
    assert_eq!(p1.headers[1].value, "text/plain");
    assert_eq!(p1.body, b"Hello, world!");
}

#[test]
fn empty_part_is_not_an_error() {
    let data = b"--X\r\n\r\n--X--";

    let form_data = parse_multipart(data, "X").unwrap();

    assert_eq!(form_data.parts.len(), 1);
    assert_eq!(form_data.parts[0].headers.len(), 0);
    assert_eq!(form_data.parts[0].body, b"");
}

#[test]
fn absent_boundary_is_malformed_input() {
    let data = b"no delimiter anywhere";

    let err = parse_multipart(data, "X").unwrap_err();

    assert_eq!(err, ParseError::MalformedInput { offset: data.len() });
}

#[test]
fn header_without_separator_is_malformed() {
    let data = b"--X\r\nBadHeader\r\n\r\nbody\r\n--X--";

    let err = parse_multipart(data, "X").unwrap_err();

    assert_eq!(
        err,
        ParseError::MalformedHeader {
            offset: 5,
            part_index: 0
        }
    );
}

#[test]
fn header_with_invalid_utf8_is_invalid_encoding() {
    let mut data: Vec<u8> = Vec::new();
    data.extend_from_slice(b"--X\r\n");
    data.extend_from_slice(&[0xff, 0xfe]);
    data.extend_from_slice(b": v\r\n\r\nbody\r\n--X--");

    let err = parse_multipart(&data, "X").unwrap_err();

    assert_eq!(
        err,
        ParseError::InvalidEncoding {
            offset: 5,
            part_index: 0
        }
    );
}

#[test]
fn truncated_delimiter_is_unexpected_end() {
    let err = parse_multipart(b"--X", "X").unwrap_err();
    assert_eq!(err, ParseError::UnexpectedEndOfInput { offset: 0 });
}

#[test]
fn missing_closing_delimiter_is_unexpected_end() {
    let data = b"--X\r\nbody with no end";
    let err = parse_multipart(data, "X").unwrap_err();
    assert_eq!(
        err,
        ParseError::UnexpectedEndOfInput { offset: data.len() }
    );
}

#[test]
fn boundary_like_bytes_inside_body_pass_through() {
    let data = b"--X\r\n\r\nab--Xcd\r\n--Xtail\r\n--X--";

    let form_data = parse_multipart(data, "X").unwrap();

    assert_eq!(form_data.parts.len(), 1);
    assert_eq!(form_data.parts[0].headers.len(), 0);
    assert_eq!(form_data.parts[0].body, b"ab--Xcd\r\n--Xtail");
}

#[test]
fn duplicate_headers_keep_order() {
    let data = b"--X\r\nA: 1\r\nA: 2\r\nB: 3\r\n\r\nbody\r\n--X--";

    let form_data = parse_multipart(data, "X").unwrap();

    let headers = &form_data.parts[0].headers;
    assert_eq!(headers.len(), 3);
    assert_eq!(headers[0].name, "A");
    assert_eq!(headers[0].value, "1");
    assert_eq!(headers[1].name, "A");
    assert_eq!(headers[1].value, "2");
    assert_eq!(headers[2].name, "B");
    assert_eq!(headers[2].value, "3");
}

#[test]
fn closing_delimiter_alone_yields_no_parts() {
    let form_data = parse_multipart(b"--X--", "X").unwrap();
    assert_eq!(form_data.parts.len(), 0);
}

#[test]
fn preamble_before_first_delimiter_is_discarded() {
    let data = b"preamble line\r\n--X\r\n\r\nbody\r\n--X--";

    let form_data = parse_multipart(data, "X").unwrap();

    assert_eq!(form_data.parts.len(), 1);
    assert_eq!(form_data.parts[0].body, b"body");
}

#[test]
fn trailing_bytes_after_closing_delimiter_are_discarded() {
    let data = b"--X\r\n\r\nbody\r\n--X--\r\nepilogue";

    let form_data = parse_multipart(data, "X").unwrap();

    assert_eq!(form_data.parts.len(), 1);
    assert_eq!(form_data.parts[0].body, b"body");
}

#[test]
fn segment_without_empty_line_is_all_body() {
    let part = parse_segment(b"raw bytes only", 0, 0).unwrap();
    assert_eq!(part.headers.len(), 0);
    assert_eq!(part.body, b"raw bytes only");
}

#[test]
fn header_value_may_contain_separator() {
    let h = parse_header(b"A: x: y", 0, 0).unwrap();
    assert_eq!(h.name, "A");
    assert_eq!(h.value, "x: y");
}

#[test]
fn header_line_missing_separator_reports_offset() {
    let err = parse_header(b"NoSeparator", 42, 3).unwrap_err();
    assert_eq!(
        err,
        ParseError::MalformedHeader {
            offset: 42,
            part_index: 3
        }
    );
}

#[test]
fn header_line_with_bad_utf8_value_reports_encoding() {
    let mut line: Vec<u8> = Vec::new();
    line.extend_from_slice(b"A: ");
    line.extend_from_slice(&[0x80]);
    let err = parse_header(&line, 7, 1).unwrap_err();
    assert_eq!(
        err,
        ParseError::InvalidEncoding {
            offset: 7,
            part_index: 1
        }
    );
}

#[test]
fn empty_header_value_is_kept() {
    let data = b"--X\r\nA: \r\n\r\n\r\n--X--";

    let form_data = parse_multipart(data, "X").unwrap();

    let part = &form_data.parts[0];
    assert_eq!(part.headers.len(), 1);
    assert_eq!(part.headers[0].name, "A");
    assert_eq!(part.headers[0].value, "");
    assert_eq!(part.body, b"");
}

#[test]
fn body_with_crlf_sequences_is_exact() {
    let data = b"--X\r\nContent-Type: application/octet-stream\r\n\r\nline1\r\nline2\r\n\r\nline4\r\n--X--";

    let form_data = parse_multipart(data, "X").unwrap();

    assert_eq!(form_data.parts[0].body, b"line1\r\nline2\r\n\r\nline4");
}
