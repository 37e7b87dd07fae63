use paint::id::Id;
use paint::key::{ByteStream, Canvas, Error, Key, SubmissionKey, View, Viewer, MAX_CANVAS_LENGTH};

fn stream(bytes: &[u8]) -> ByteStream {
    ByteStream::new(bytes.to_vec())
}

#[test]
fn id_key_is_big_endian() {
    let bytes = Id::new(0x0102_0304_0506_0708).serialize().unwrap();
    assert_eq!(bytes, vec![1, 2, 3, 4, 5, 6, 7, 8]);
    let back = Id::deserialize(&mut stream(&bytes)).unwrap();
    assert_eq!(back, Id::new(0x0102_0304_0506_0708));
}

#[test]
fn id_key_needs_eight_bytes() {
    match Id::deserialize(&mut stream(&[1, 2, 3])) {
        Err(Error::UnexpectedStreamYield { expected, actual }) => {
            assert_eq!(expected, "byte of canvas id");
            assert_eq!(actual, "end of stream");
        }
        other => panic!("unexpected {:?}", other),
    }
}

#[test]
fn id_key_reads_only_its_bytes() {
    let mut s = stream(&[0, 0, 0, 0, 0, 0, 0, 42, 9, 9]);
    assert_eq!(Id::deserialize(&mut s).unwrap(), Id::new(42));
    assert_eq!(s.remaining(), 2);
    assert_eq!(s.next(), Some(9));
}

#[test]
fn canvas_key_is_padded() {
    let c = Canvas { base_url: "https://canvas.instructure.com".to_string() };
    let bytes = c.serialize().unwrap();
    assert_eq!(bytes.len(), MAX_CANVAS_LENGTH);
    assert_eq!(&bytes[..30], "https://canvas.instructure.com".as_bytes());
    assert!(bytes[30..].iter().all(|b| *b == 0));
    let back = Canvas::deserialize(&mut stream(&bytes)).unwrap();
    assert_eq!(back, c);
}

#[test]
fn canvas_key_of_maximum_length() {
    let url = "a".repeat(MAX_CANVAS_LENGTH);
    let c = Canvas { base_url: url.clone() };
    let bytes = c.serialize().unwrap();
    assert_eq!(bytes, url.as_bytes().to_vec());
    assert_eq!(Canvas::deserialize(&mut stream(&bytes)).unwrap().base_url, url);
}

#[test]
fn canvas_key_too_long() {
    let url = "b".repeat(MAX_CANVAS_LENGTH + 1);
    match (Canvas { base_url: url.clone() }).serialize() {
        Err(Error::IllegalCanvasBaseUrl { base_url, location, problem }) => {
            assert_eq!(base_url, url);
            assert_eq!(location, Some((MAX_CANVAS_LENGTH, MAX_CANVAS_LENGTH)));
            assert_eq!(problem, "exceeds maximum length");
        }
        other => panic!("unexpected {:?}", other),
    }
}

#[test]
fn canvas_key_with_null_byte() {
    match (Canvas { base_url: "a\0b".to_string() }).serialize() {
        Err(Error::UnexpectedStreamYield { expected, actual }) => {
            assert_eq!(expected, "non-null byte");
            assert_eq!(actual, "null byte");
        }
        other => panic!("unexpected {:?}", other),
    }
}

#[test]
fn canvas_key_invalid_utf8() {
    let mut bytes = vec![0xffu8, 0xfe];
    bytes.resize(MAX_CANVAS_LENGTH, 0);
    match Canvas::deserialize(&mut stream(&bytes)) {
        Err(Error::IllegalCanvasBaseUrl { base_url, location, problem }) => {
            assert_eq!(base_url, "Ok(\n    \"\",\n) followed by 0 invalid bytes");
            assert_eq!(location, None);
            assert_eq!(problem, "invalid UTF-8");
        }
        other => panic!("unexpected {:?}", other),
    }
}

#[test]
fn canvas_key_invalid_utf8_after_valid_text() {
    let mut bytes = b"ab\"c".to_vec();
    bytes.push(0xff);
    bytes.resize(MAX_CANVAS_LENGTH, 0);
    match Canvas::deserialize(&mut stream(&bytes)) {
        Err(Error::IllegalCanvasBaseUrl { base_url, .. }) => {
            assert_eq!(base_url, "Ok(\n    \"ab\\\"c\",\n) followed by 4 invalid bytes");
        }
        other => panic!("unexpected {:?}", other),
    }
}

#[test]
fn viewer_key() {
    let v = Viewer::User(Id::new(258));
    let bytes = v.serialize().unwrap();
    assert_eq!(bytes, vec![0, 0, 0, 0, 0, 0, 0, 1, 2]);
    assert_eq!(Viewer::deserialize(&mut stream(&bytes)).unwrap(), v);
}

#[test]
fn viewer_key_errors() {
    match Viewer::deserialize(&mut stream(&[])) {
        Err(Error::UnexpectedStreamYield { expected, actual }) => {
            assert_eq!(expected, "discriminant");
            assert_eq!(actual, "end of stream");
        }
        other => panic!("unexpected {:?}", other),
    }
    match Viewer::deserialize(&mut stream(&[7, 0, 0, 0, 0, 0, 0, 0, 1])) {
        Err(Error::IllegalViewerDiscriminant { discriminant }) => assert_eq!(discriminant, 7),
        other => panic!("unexpected {:?}", other),
    }
    match Viewer::deserialize(&mut stream(&[0, 1, 2])) {
        Err(Error::UnexpectedStreamYield { expected, actual }) => {
            assert_eq!(expected, "eight-byte user id");
            assert_eq!(actual, "end of stream");
        }
        other => panic!("unexpected {:?}", other),
    }
}

#[test]
fn view_key_roundtrip() {
    let url = "x".repeat(MAX_CANVAS_LENGTH - 1);
    let view = View { truth: Canvas { base_url: url }, viewer: Viewer::User(Id::new(5)) };
    let bytes = view.serialize().unwrap();
    assert_eq!(bytes.len(), MAX_CANVAS_LENGTH + 9);
    assert_eq!(View::deserialize(&mut stream(&bytes)).unwrap(), view);
}

#[test]
fn view_key_of_short_url_reads_back() {
    for url in ["", "a", "https://c.test"] {
        let view = View { truth: Canvas { base_url: url.to_string() }, viewer: Viewer::User(Id::new(5)) };
        let bytes = view.serialize().unwrap();
        assert_eq!(bytes.len(), MAX_CANVAS_LENGTH + 9);
        let mut s = stream(&bytes);
        assert_eq!(View::deserialize(&mut s).unwrap(), view);
        assert_eq!(s.remaining(), 0);
    }
}

#[test]
fn canvas_key_reads_its_whole_length() {
    let mut bytes = (Canvas { base_url: String::new() }).serialize().unwrap();
    bytes.push(7);
    let mut s = stream(&bytes);
    assert_eq!(Canvas::deserialize(&mut s).unwrap().base_url, "");
    assert_eq!(s.remaining(), 1);
    assert_eq!(s.next(), Some(7));
}

#[test]
fn submission_key_roundtrip() {
    let key = SubmissionKey::from_parts(Id::new(1), Id::new(2), Some(3));
    let bytes = key.serialize().unwrap();
    assert_eq!(bytes, vec![0, 0, 0, 0, 0, 0, 0, 1, 0, 0, 0, 0, 0, 0, 0, 2, 0, 0, 0, 3]);
    assert_eq!(SubmissionKey::deserialize(&mut stream(&bytes)).unwrap(), key);
}

#[test]
fn submission_key_without_attempt_is_attempt_zero() {
    let key = SubmissionKey::from_parts(Id::new(1), Id::new(2), None);
    assert_eq!(key, SubmissionKey::from_parts(Id::new(1), Id::new(2), Some(0)));
}

#[test]
fn submission_key_needs_attempt() {
    let bytes = [0u8, 0, 0, 0, 0, 0, 0, 1, 0, 0, 0, 0, 0, 0, 0, 2, 0, 0];
    match SubmissionKey::deserialize(&mut stream(&bytes)) {
        Err(Error::UnexpectedStreamYield { expected, actual }) => {
            assert_eq!(expected, "four-byte attempt id");
            assert_eq!(actual, "end of stream");
        }
        other => panic!("unexpected {:?}", other),
    }
}

#[test]
fn key_lengths() {
    assert_eq!(Id::ser_len_exec(), 8);
    assert_eq!(Viewer::ser_len_exec(), 9);
    assert_eq!(Canvas::ser_len_exec(), MAX_CANVAS_LENGTH);
    assert_eq!(View::ser_len_exec(), MAX_CANVAS_LENGTH + 9);
    assert_eq!(SubmissionKey::ser_len_exec(), 20);
}
