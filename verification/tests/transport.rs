use gosu_lsp::transport::{frame_message, header_line, HeaderStep};

#[test]
fn content_length_header_sets_length() {
    assert!(header_line(None, "Content-Length: 42\r\n") == HeaderStep::Continue(Some(42)));
    assert!(header_line(None, "Content-Length:7") == HeaderStep::Continue(Some(7)));
    assert!(header_line(None, "Content-Length: \t+15  \r\n") == HeaderStep::Continue(Some(15)));
}

#[test]
fn bad_content_length_clears_length() {
    assert!(header_line(Some(5), "Content-Length: abc\r\n") == HeaderStep::Continue(None));
    assert!(header_line(Some(5), "Content-Length: -1\r\n") == HeaderStep::Continue(None));
    assert!(header_line(Some(5), "Content-Length: \r\n") == HeaderStep::Continue(None));
    assert!(header_line(Some(5), "Content-Length: 1 2\r\n") == HeaderStep::Continue(None));
    assert!(
        header_line(Some(5), "Content-Length: 99999999999999999999999\r\n")
            == HeaderStep::Continue(None)
    );
}

#[test]
fn other_headers_keep_length() {
    assert!(
        header_line(Some(9), "Content-Type: application/vscode-jsonrpc\r\n")
            == HeaderStep::Continue(Some(9))
    );
    assert!(header_line(None, "content-length: 3\r\n") == HeaderStep::Continue(None));
}

#[test]
fn blank_line_ends_headers() {
    assert!(header_line(Some(3), "\r\n") == HeaderStep::EndOfHeaders);
    assert!(header_line(None, "\n") == HeaderStep::EndOfHeaders);
    assert!(header_line(None, "\r\r\n") == HeaderStep::EndOfHeaders);
}

#[test]
fn frame_prefixes_length_header() {
    let body = b"{\"a\":1}".to_vec();
    assert_eq!(frame_message(&body), b"Content-Length: 7\r\n\r\n{\"a\":1}".to_vec());
    assert_eq!(frame_message(&Vec::new()), b"Content-Length: 0\r\n\r\n".to_vec());
    let long = vec![b'x'; 1234];
    let framed = frame_message(&long);
    assert!(framed.starts_with(b"Content-Length: 1234\r\n\r\nx"));
    assert_eq!(framed.len(), 1234 + 24);
}

#[test]
fn framed_header_reads_back() {
    let body = vec![b'y'; 305];
    let framed = frame_message(&body);
    let text = String::from_utf8(framed[..framed.len() - body.len()].to_vec()).unwrap();
    let mut lines = text.split_inclusive('\n');
    let first = lines.next().unwrap();
    assert!(header_line(None, first) == HeaderStep::Continue(Some(305)));
    let second = lines.next().unwrap();
    assert!(header_line(Some(305), second) == HeaderStep::EndOfHeaders);
}
