use laurent::Codec;
use laurent::Error;

#[test]
fn encode() {
    let mut bytes: Vec<u8> = Vec::new();
    let mut codec = Codec::new();

    let fields = vec!["$KE".to_string(), "INF".to_string()];
    codec.encode(&fields, &mut bytes).unwrap();
    assert_eq!(bytes.as_slice(), b"$KE,INF\r\n");
}

#[test]
fn decode() {
    let mut bytes = b"#INF,Laurent-2\r\n".to_vec();
    let mut codec = Codec::new();

    if let Some(parts) = codec.decode(&mut bytes).unwrap() {
        assert_eq!(parts.as_slice(), &["#INF", "Laurent-2"]);
    } else {
        panic!("No parts found");
    }
}

#[test]
fn round_trip_consumes_all() {
    let mut codec = Codec::new();
    let fields = vec![
        "$KE".to_string(),
        "REL".to_string(),
        "1".to_string(),
        "2".to_string(),
    ];
    let mut bytes: Vec<u8> = Vec::new();
    codec.encode(&fields, &mut bytes).unwrap();
    let got = codec.decode(&mut bytes).unwrap().expect("one whole frame was buffered");
    assert_eq!(got, fields);
    assert!(bytes.is_empty());
}

#[test]
fn two_lines_decode_in_order() {
    let mut codec = Codec::new();
    let mut bytes = b"#A,1\r\n#B,2\r\n".to_vec();
    let first = codec.decode(&mut bytes).unwrap().expect("first frame");
    assert_eq!(first.as_slice(), &["#A", "1"]);
    let second = codec.decode(&mut bytes).unwrap().expect("second frame");
    assert_eq!(second.as_slice(), &["#B", "2"]);
    assert!(bytes.is_empty());
    assert!(codec.decode(&mut bytes).unwrap().is_none());
}

#[test]
fn overlong_line_resyncs() {
    let mut codec = Codec::new();
    let mut bytes = vec![b'a'; 1500];
    bytes.extend_from_slice(b"\r\n$KE\r\n");
    let got = codec.decode(&mut bytes).unwrap().expect("the short line after the bad one");
    assert_eq!(got.as_slice(), &["$KE"]);
    assert!(bytes.is_empty());
}

#[test]
fn partial_line_waits_for_rest() {
    let mut codec = Codec::new();
    let mut bytes = b"#INF,Lau".to_vec();
    assert!(codec.decode(&mut bytes).unwrap().is_none());
    bytes.extend_from_slice(b"rent-2\r\n");
    let got = codec.decode(&mut bytes).unwrap().expect("completed frame");
    assert_eq!(got.as_slice(), &["#INF", "Laurent-2"]);
}

#[test]
fn bare_newline_is_one_empty_field() {
    let mut codec = Codec::new();
    let mut bytes = b"\r\n".to_vec();
    let got = codec.decode(&mut bytes).unwrap().expect("empty line");
    assert_eq!(got.as_slice(), &[""]);
}

#[test]
fn lone_linefeed_terminates_too() {
    let mut codec = Codec::new();
    let mut bytes = b"#OK\n".to_vec();
    let got = codec.decode(&mut bytes).unwrap().expect("line without carriage return");
    assert_eq!(got.as_slice(), &["#OK"]);
}

#[test]
fn invalid_text_is_a_format_error() {
    let mut codec = Codec::new();
    let mut bytes = vec![b'#', b'A', b',', 0xFF, b'\r', b'\n'];
    assert!(matches!(codec.decode(&mut bytes), Err(Error::Format)));
}

#[test]
fn encode_joins_a_string_as_is() {
    let mut codec = Codec::new();
    let mut bytes: Vec<u8> = Vec::new();
    codec.encode(&"$KE,INF".to_string(), &mut bytes).unwrap();
    assert_eq!(bytes.as_slice(), b"$KE,INF\r\n");
}
