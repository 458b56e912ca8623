use pg_proxy::startup::StartupData;

fn value_of<'a>(d: &'a StartupData, key: &str) -> Option<&'a Vec<u8>> {
    d.get_parameter(key)
}

#[test]
fn parse_two_parameters() {
    let d = StartupData::parse(b"user\0u\0database\0d\0\0".to_vec());
    assert_eq!(value_of(&d, "user"), Some(&b"u".to_vec()));
    assert_eq!(value_of(&d, "database"), Some(&b"d".to_vec()));
    assert_eq!(value_of(&d, "missing"), None);
    assert_eq!(d.parameters.len(), 2);
}

#[test]
fn parse_duplicate_key_later_wins() {
    let d = StartupData::parse(b"k\0first\0k\0second\0\0".to_vec());
    assert_eq!(value_of(&d, "k"), Some(&b"second".to_vec()));
    assert_eq!(d.parameters.len(), 1);
}

#[test]
fn parse_non_utf8_key_drops_that_pair_only() {
    let mut raw = Vec::new();
    raw.extend_from_slice(&[0xFF, 0xFE, 0x00]); // malformed key
    raw.extend_from_slice(b"v1\0");
    raw.extend_from_slice(b"good\0v2\0\0");
    let d = StartupData::parse(raw);
    assert_eq!(value_of(&d, "good"), Some(&b"v2".to_vec()));
    assert_eq!(d.parameters.len(), 1);
}

#[test]
fn parse_value_bytes_need_not_be_utf8() {
    let mut raw = Vec::new();
    raw.extend_from_slice(b"client_encoding\0");
    raw.extend_from_slice(&[0xC3, 0x28, 0x00]); // raw non-UTF-8 value bytes
    raw.push(0);
    let d = StartupData::parse(raw);
    assert_eq!(value_of(&d, "client_encoding"), Some(&vec![0xC3, 0x28]));
}

#[test]
fn parse_stops_at_empty_key() {
    let d = StartupData::parse(b"a\01\0\0b\02\0\0".to_vec());
    assert_eq!(value_of(&d, "a"), Some(&b"1".to_vec()));
    assert_eq!(value_of(&d, "b"), None);
}

#[test]
fn parse_missing_value_terminator_drops_pair() {
    let d = StartupData::parse(b"a\01\0b\0unfinished".to_vec());
    assert_eq!(value_of(&d, "a"), Some(&b"1".to_vec()));
    assert_eq!(value_of(&d, "b"), None);
}

#[test]
fn parse_empty_payload() {
    let d = StartupData::parse(Vec::new());
    assert_eq!(d.parameters.len(), 0);
}
