use sanitation::from_hex;
use sanitation::to_hex;
use sanitation::Error;
use sanitation::ParseFault;

#[test]
fn lib_test_to_hex() {
    let bytes = vec![0xF0, 0x53, 0x75, 0x52, 0x65];
    assert_eq!(to_hex(&bytes), "0xf053755265");
}

#[test]
fn x_test_to_hex() {
    let bytes = vec![0xF0, 0x53, 0x75, 0x52, 0x65];
    assert_eq!(to_hex(&bytes), "0xf053755265");
}

#[test]
fn test_from_hex() {
    assert_eq!(from_hex("0x0").unwrap(), vec![0u8]);
    assert_eq!(
        from_hex("0xffffffffffffffff").unwrap(),
        vec![0xff, 0xff, 0xff, 0xff, 0xff, 0xff, 0xff, 0xff]
    );
    assert_eq!(from_hex("0x0").unwrap(), vec![0x0]);
    assert_eq!(from_hex("0xf").unwrap(), vec![0x0f]);
    assert_eq!(from_hex("0x0f").unwrap(), vec![0x0f]);
    assert_eq!(from_hex("0xeff").unwrap(), vec![0x0e, 0xff]);
    assert_eq!(
        from_hex("0xffffffffffffffff").unwrap(),
        vec![0xff, 0xff, 0xff, 0xff, 0xff, 0xff, 0xff, 0xff]
    );
}

#[test]
fn test_to_hex_empty() {
    let bytes: Vec<u8> = vec![];
    assert_eq!(to_hex(&bytes), "0x");
}

#[test]
fn test_from_hex_prefixes_and_case() {
    assert_eq!(from_hex("x1a").unwrap(), vec![0x1a]);
    assert_eq!(from_hex("X1A").unwrap(), vec![0x1a]);
    assert_eq!(from_hex("0X1A").unwrap(), vec![0x1a]);
    assert_eq!(from_hex("1a").unwrap(), vec![0x1a]);
    assert_eq!(from_hex("AbCdEf").unwrap(), vec![0xab, 0xcd, 0xef]);
    assert_eq!(from_hex("0x").unwrap(), vec![]);
}

#[test]
fn test_from_hex_rejects_empty() {
    assert_eq!(from_hex(""), Err(Error::ParseError(ParseFault::Empty)));
}

#[test]
fn test_from_hex_rejects_bad_char() {
    assert_eq!(
        from_hex("0x12g4"),
        Err(Error::ParseError(ParseFault::InvalidChar { pos: 3, ch: 'g' }))
    );
    assert_eq!(
        from_hex("zz"),
        Err(Error::ParseError(ParseFault::InvalidChar { pos: 1, ch: 'z' }))
    );
}

#[test]
fn test_hex_round_trip() {
    let cases: Vec<Vec<u8>> = vec![
        vec![],
        vec![0x00],
        vec![0xff],
        vec![0x00, 0x01, 0x7f, 0x80, 0xfe, 0xff],
        vec![0xde, 0xad, 0xbe, 0xef],
    ];
    for b in cases {
        assert_eq!(from_hex(&to_hex(&b)).unwrap(), b);
    }
}
