use lsp_transport::codec::{write_message_str, DecodeError, LanguageServerDecoder, LanguageServerEncoder};

fn framed(text: &str) -> Vec<u8> {
    let mut out = Vec::new();
    write_message_str(&mut out, text);
    out
}

#[test]
fn encodes_header_and_payload() {
    let out = framed("{ \"some\": \"data\" }");
    assert_eq!(out, b"Content-Length: 18\r\n\r\n{ \"some\": \"data\" }".to_vec());
}

#[test]
fn encodes_empty_payload() {
    assert_eq!(framed(""), b"Content-Length: 0\r\n\r\n".to_vec());
}

#[test]
fn encodes_byte_length_of_text() {
    // two characters, five bytes
    assert_eq!(framed("é€"), b"Content-Length: 5\r\n\r\n\xc3\xa9\xe2\x82\xac".to_vec());
}

#[test]
fn encoder_appends_to_buffer() {
    let mut encoder = LanguageServerEncoder;
    let mut dst = b"xy".to_vec();
    encoder.encode("ab".to_string(), &mut dst);
    assert_eq!(dst, b"xyContent-Length: 2\r\n\r\nab".to_vec());
}

#[test]
fn decodes_whole_frame() {
    let mut decoder = LanguageServerDecoder::new();
    let bytes = framed("{\"id\":1}");
    let r = decoder.decode(&bytes);
    assert_eq!(r, Ok((bytes.len(), Some("{\"id\":1}".to_string()))));
}

#[test]
fn decodes_byte_by_byte() {
    let text = "{ \"some\": \"data\" }";
    let bytes = framed(text);
    let mut decoder = LanguageServerDecoder::new();
    for (i, b) in bytes.iter().enumerate() {
        let r = decoder.decode(&[*b]);
        if i + 1 < bytes.len() {
            assert_eq!(r, Ok((1, None)));
        } else {
            assert_eq!(r, Ok((1, Some(text.to_string()))));
        }
    }
}

#[test]
fn decodes_any_two_chunk_split() {
    let text = "héllo";
    let bytes = framed(text);
    for k in 0..bytes.len() {
        let mut decoder = LanguageServerDecoder::new();
        assert_eq!(decoder.decode(&bytes[..k]), Ok((k, None)));
        assert_eq!(
            decoder.decode(&bytes[k..]),
            Ok((bytes.len() - k, Some(text.to_string())))
        );
    }
}

#[test]
fn decodes_one_frame_at_a_time() {
    let mut bytes = framed("one");
    let first_len = bytes.len();
    bytes.extend_from_slice(&framed("two"));
    let mut decoder = LanguageServerDecoder::new();
    assert_eq!(decoder.decode(&bytes), Ok((first_len, Some("one".to_string()))));
    assert_eq!(
        decoder.decode(&bytes[first_len..]),
        Ok((bytes.len() - first_len, Some("two".to_string())))
    );
}

#[test]
fn skips_leading_blank_lines() {
    let mut bytes = b"\r\n\r\n".to_vec();
    bytes.extend_from_slice(&framed("x"));
    let mut decoder = LanguageServerDecoder::new();
    assert_eq!(decoder.decode(&bytes), Ok((bytes.len(), Some("x".to_string()))));
}

#[test]
fn decodes_empty_body_and_leading_zeros() {
    let mut decoder = LanguageServerDecoder::new();
    assert_eq!(
        decoder.decode(b"Content-Length: 0\r\n\r\n"),
        Ok((21, Some(String::new())))
    );
    assert_eq!(
        decoder.decode(b"Content-Length: 002\r\n\r\nok"),
        Ok((25, Some("ok".to_string())))
    );
}

#[test]
fn rejects_other_header() {
    let mut decoder = LanguageServerDecoder::new();
    let r = decoder.decode(b"\r\nContent-Type: text\r\n\r\n");
    assert_eq!(r, Err(DecodeError::InvalidHeader { position: 10, byte: b'T' }));
}

#[test]
fn rejects_header_without_digits() {
    let mut decoder = LanguageServerDecoder::new();
    let r = decoder.decode(b"Content-Length: \r\n\r\n");
    assert_eq!(r, Err(DecodeError::InvalidHeader { position: 16, byte: b'\r' }));
}

#[test]
fn rejects_lone_carriage_return() {
    let mut decoder = LanguageServerDecoder::new();
    let r = decoder.decode(b"\rX");
    assert_eq!(r, Err(DecodeError::InvalidHeader { position: 1, byte: b'X' }));
}

#[test]
fn rejects_overflowing_length() {
    let mut decoder = LanguageServerDecoder::new();
    let r = decoder.decode(b"Content-Length: 99999999999999999999999\r\n\r\n");
    assert_eq!(r, Err(DecodeError::InvalidHeader { position: 35, byte: b'9' }));
}

#[test]
fn rejects_body_that_is_not_utf8() {
    let mut decoder = LanguageServerDecoder::new();
    let r = decoder.decode(b"Content-Length: 2\r\n\r\n\xff\xfeXYZ");
    assert_eq!(r, Err(DecodeError::InvalidText { consumed: 23 }));
}
