use crates_io_changes::codec::{encode_change_line, encode_record};
use crates_io_changes::parse::{parse_line, parse_record};
use crates_io_changes::record::{Change, ChangeType, DependencySpec, PackageVersionRecord};

fn sample_record() -> PackageVersionRecord {
    PackageVersionRecord {
        name: b"foo".to_vec(),
        version: b"1.0.0".to_vec(),
        dependencies: vec![DependencySpec {
            name: b"serde".to_vec(),
            version_requirement: b"^1.0".to_vec(),
            features: vec![b"derive".to_vec()],
            optional: false,
            use_default_features: true,
            target: None,
            kind: b"normal".to_vec(),
        }],
        checksum: b"abc123".to_vec(),
        features: vec![(b"extras".to_vec(), vec![b"serde".to_vec(), b"alloc".to_vec()])],
        yanked: false,
    }
}

#[test]
fn encode_record_exact_bytes() {
    let r = PackageVersionRecord {
        name: b"foo".to_vec(),
        version: b"1.0.0".to_vec(),
        dependencies: vec![],
        checksum: b"abc".to_vec(),
        features: vec![],
        yanked: false,
    };
    let enc = encode_record(&r);
    assert_eq!(
        String::from_utf8(enc).unwrap(),
        r#"{"name":"foo","version":"1.0.0","dependencies":[],"checksum":"abc","features":{},"yanked":false}"#
    );
}

#[test]
fn encode_full_record_exact_bytes() {
    let enc = encode_record(&sample_record());
    let expected = r#"{"name":"foo","version":"1.0.0","dependencies":[{"name":"serde","versionRequirement":"^1.0","features":["derive"],"optional":false,"useDefaultFeatures":true,"target":null,"kind":"normal"}],"checksum":"abc123","features":{"extras":["serde","alloc"]},"yanked":false}"#;
    assert_eq!(String::from_utf8(enc).unwrap(), expected);
}

#[test]
fn round_trip_parse_of_encode() {
    let r = sample_record();
    let enc = encode_record(&r);
    let back = parse_record(&enc).expect("canonical encoding must parse");
    assert_eq!(back, r);
}

#[test]
fn round_trip_encode_of_parse() {
    let line = br#"{"name":"bar","version":"0.2.0","dependencies":[],"checksum":"d","features":{},"yanked":true}"#;
    let rec = parse_record(line).expect("line must parse");
    assert_eq!(rec.name, b"bar".to_vec());
    assert_eq!(rec.version, b"0.2.0".to_vec());
    assert!(rec.yanked);
    assert_eq!(encode_record(&rec), line.to_vec());
}

#[test]
fn round_trip_with_escapes_and_controls() {
    let mut r = sample_record();
    r.name = b"we\"ird\\pkg".to_vec();
    r.checksum = vec![0x01, 0x1f, b'x', 10];
    r.dependencies[0].target = Some(b"cfg(unix)".to_vec());
    let enc = encode_record(&r);
    let back = parse_record(&enc).expect("escaped encoding must parse");
    assert_eq!(back, r);
}

#[test]
fn malformed_lines_do_not_parse() {
    assert!(parse_record(b"").is_none());
    assert!(parse_record(b"not json at all").is_none());
    assert!(parse_record(br#"{"name": "foo"}"#).is_none());
    // right shape but with a space: not canonical
    assert!(parse_record(
        br#"{"name": "foo","version":"1.0.0","dependencies":[],"checksum":"a","features":{},"yanked":false}"#
    ).is_none());
    // trailing garbage after a full record
    assert!(parse_record(
        br#"{"name":"foo","version":"1.0.0","dependencies":[],"checksum":"a","features":{},"yanked":false}x"#
    ).is_none());
    // raw control byte inside a string
    assert!(parse_record(
        b"{\"name\":\"f\x01oo\",\"version\":\"1\",\"dependencies\":[],\"checksum\":\"a\",\"features\":{},\"yanked\":false}"
    ).is_none());
}

#[test]
fn parse_line_strips_one_trailing_newline() {
    let line = b"{\"name\":\"foo\",\"version\":\"1.0.0\",\"dependencies\":[],\"checksum\":\"a\",\"features\":{},\"yanked\":false}\n";
    let rec = parse_line(line).expect("newline-terminated line must parse");
    assert_eq!(rec.name, b"foo".to_vec());
    assert!(parse_line(b"{\"name\":\"foo\"}\n\n").is_none());
}

#[test]
fn encode_change_line_exact_bytes() {
    let c = Change {
        delta: ChangeType::Modified,
        message: None,
        payload: PackageVersionRecord::default(),
    };
    let enc = encode_change_line(&c);
    assert_eq!(
        String::from_utf8(enc).unwrap(),
        "{\"delta\":\"Modified\",\"message\":null,\"payload\":{\"name\":\"\",\"version\":\"\",\"dependencies\":[],\"checksum\":\"\",\"features\":{},\"yanked\":false}}\n"
    );
    let c2 = Change {
        delta: ChangeType::Deleted,
        message: Some(b"publish foo\n".to_vec()),
        payload: PackageVersionRecord::default(),
    };
    let enc2 = encode_change_line(&c2);
    let text = String::from_utf8(enc2).unwrap();
    assert!(text.starts_with("{\"delta\":\"Deleted\",\"message\":\"publish foo\\u000a\","));
    assert!(text.ends_with("}\n"));
}

#[test]
fn default_change_is_empty_modified() {
    let c = Change::default();
    assert_eq!(c.delta, ChangeType::Modified);
    assert!(c.message.is_none());
    assert_eq!(c.payload, PackageVersionRecord::default());
    assert_eq!(c.payload.name, Vec::<u8>::new());
    assert!(!c.payload.yanked);
}
