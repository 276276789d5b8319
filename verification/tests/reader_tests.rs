//! Tests for the line reader over in-memory byte streams.

use httpcore::error::HttpError;
use httpcore::reader::{read_bytes, read_line, ByteStream};

#[test]
fn line_without_carriage_return() {
    let mut s = ByteStream::new(b"abc\ndef".to_vec());
    assert_eq!(read_line(&mut s), Ok("abc".to_string()));
    assert_eq!(s.remaining_len(), 3);
}

#[test]
fn line_with_carriage_return() {
    let mut s = ByteStream::new(b"abc\r\ndef".to_vec());
    assert_eq!(read_line(&mut s), Ok("abc".to_string()));
    assert_eq!(s.remaining_len(), 3);
}

#[test]
fn only_one_carriage_return_is_stripped() {
    let mut s = ByteStream::new(b"abc\r\r\n".to_vec());
    assert_eq!(read_line(&mut s), Ok("abc\r".to_string()));
}

#[test]
fn carriage_return_in_the_middle_is_kept() {
    let mut s = ByteStream::new(b"a\rb\n".to_vec());
    assert_eq!(read_line(&mut s), Ok("a\rb".to_string()));
}

#[test]
fn empty_line_is_empty_text() {
    let mut s = ByteStream::new(b"\r\nrest".to_vec());
    assert_eq!(read_line(&mut s), Ok(String::new()));
}

#[test]
fn empty_stream_aborts() {
    let mut s = ByteStream::new(Vec::new());
    assert_eq!(read_line(&mut s), Err(HttpError::ConnectionAborted));
}

#[test]
fn stream_without_line_feed_aborts_with_no_partial_line() {
    let mut s = ByteStream::new(b"partial line, never terminated".to_vec());
    assert_eq!(read_line(&mut s), Err(HttpError::ConnectionAborted));
    assert_eq!(s.remaining_len(), 0);
}

#[test]
fn invalid_utf8_line_is_a_decoding_error() {
    let mut s = ByteStream::new(vec![0xff, 0xfe, b'\n']);
    assert_eq!(read_line(&mut s), Err(HttpError::DecodingError));
}

#[test]
fn valid_multibyte_text_decodes() {
    let mut line = "grüß".as_bytes().to_vec();
    line.push(b'\n');
    let mut s = ByteStream::new(line);
    assert_eq!(read_line(&mut s), Ok("grüß".to_string()));
}

#[test]
fn consecutive_lines_come_in_order() {
    let mut s = ByteStream::new(b"one\r\ntwo\nthree\r\n".to_vec());
    assert_eq!(read_line(&mut s), Ok("one".to_string()));
    assert_eq!(read_line(&mut s), Ok("two".to_string()));
    assert_eq!(read_line(&mut s), Ok("three".to_string()));
    assert_eq!(read_line(&mut s), Err(HttpError::ConnectionAborted));
}

#[test]
fn read_bytes_takes_exactly_the_prefix() {
    let mut s = ByteStream::new(b"hello world".to_vec());
    assert_eq!(read_bytes(&mut s, 5), Ok(b"hello".to_vec()));
    assert_eq!(s.remaining_len(), 6);
}

#[test]
fn read_bytes_past_the_end_aborts() {
    let mut s = ByteStream::new(b"hi".to_vec());
    assert_eq!(read_bytes(&mut s, 3), Err(HttpError::ConnectionAborted));
    assert_eq!(s.remaining_len(), 0);
}

#[test]
fn error_descriptions_are_distinct() {
    let all = [
        HttpError::DecodingError,
        HttpError::ConnectionAborted,
        HttpError::UnsupportedMethod,
        HttpError::MalformedRequestLine,
        HttpError::MalformedHeaderLine,
    ];
    for (i, a) in all.iter().enumerate() {
        for (j, b) in all.iter().enumerate() {
            assert_eq!(i == j, a.describe() == b.describe());
        }
    }
    assert_eq!(
        HttpError::ConnectionAborted.describe(),
        "client aborted early"
    );
}
