use paint::error::Error;

fn parse_error(text: &str) -> serde_json::Error {
    serde_json::from_str::<serde_json::Value>(text).unwrap_err()
}

#[test]
fn json_error_window_of_short_text() {
    let text = "{\"a\": tru}";
    let err = parse_error(text);
    match Error::from_json_err(err, text.to_string()) {
        Error::MalformedJson { json, err_loc, .. } => {
            assert_eq!(json, text);
            assert_eq!(err_loc.1, 0);
            assert!(err_loc.0 <= text.len());
        }
        other => panic!("unexpected {:?}", other),
    }
}

#[test]
fn json_error_window_of_long_text() {
    let text = format!("[{}x]", "1,".repeat(100));
    let err = parse_error(&text);
    // the text is one line of ASCII, so the error's byte offset is its column less one
    let offset = err.column() - 1;
    assert!(offset > 40);
    let end = std::cmp::min(text.len(), offset + 40);
    match Error::from_json_err(err, text.clone()) {
        Error::MalformedJson { json, err_loc, .. } => {
            assert_eq!(json, text[offset - 40..end]);
            assert_eq!(err_loc, (40, 0));
        }
        other => panic!("unexpected {:?}", other),
    }
}

#[test]
fn json_error_window_cut_inside_a_character() {
    let text = format!("[\"{}\", x]", "é".repeat(30));
    let err = parse_error(&text);
    match Error::try_from_json_err(err, text.clone()) {
        Ok(Error::MalformedJson { json, .. }) => assert!(text.contains(&json)),
        Ok(other) => panic!("unexpected {:?}", other),
        Err((_, back)) => assert_eq!(back, text),
    }
}
