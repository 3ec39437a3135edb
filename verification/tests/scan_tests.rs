use sanitation::Error;
use sanitation::ParseFault;
use sanitation::SBoolean;
use sanitation::SString;
use sanitation::SafeString;

#[test]
fn test_all_valid_input() {
    let s = SString::new("hello".as_bytes());
    assert_eq!(s.unchecked_safe(), "hello");
    assert_eq!(s.safe_vec(), "hello".as_bytes().to_vec());
    assert_eq!(s.garbage(), vec![]);
    assert_eq!(s.valid_utf8_chunk_boundaries(), vec![]);
    assert_eq!(s.safe().unwrap(), "hello");
}

#[test]
fn test_all_invalid_single_run() {
    let s = SString::new(&[0xFF, 0xFF, 0xFF]);
    assert_eq!(s.safe_vec(), vec![]);
    assert_eq!(s.unchecked_safe(), "");
    assert_eq!(s.garbage(), vec![0xFF, 0xFF, 0xFF]);
    assert_eq!(s.valid_utf8_chunk_boundaries(), vec![(0, 3)]);
}

#[test]
fn test_mixed_example() {
    let s = SString::new(&[
        0xFF, 0x72, 0xFF, 0xFF, 0xFF, 0xFF, 0xFF, 0xFE, 0x31, 0x47, 0x31,
    ]);
    assert_eq!(s.safe_vec(), vec![0x72, 0x31, 0x47, 0x31]);
    assert_eq!(s.unchecked_safe(), "r1G1");
    assert_eq!(s.garbage(), vec![0xFF, 0xFF, 0xFF, 0xFF, 0xFF, 0xFF, 0xFE]);
    assert_eq!(s.valid_utf8_chunk_boundaries(), vec![(2, 8), (0, 1)]);
}

#[test]
fn test_best_effort_total_on_empty() {
    let s = SString::new(&[]);
    assert_eq!(s.unchecked_safe(), "");
    assert_eq!(s.len(), 0);
    assert_eq!(s.safe_len(), 0);
    assert_eq!(s.garbage_len(), 0);
    assert!(!s.has_garbage());
    assert_eq!(s.safe().unwrap(), "");
}

#[test]
fn test_best_effort_total_on_all_ff() {
    let s = SString::new(&[0xFF; 64]);
    assert_eq!(s.unchecked_safe(), "");
    assert_eq!(s.garbage_len(), 64);
    assert!(s.has_garbage());
}

#[test]
fn test_partition_lengths() {
    let inputs: Vec<Vec<u8>> = vec![
        vec![],
        vec![0x41],
        vec![0xFF, 0xFF, 0xFF],
        vec![0x0e, 0xff, 0x4e, 0x4f, 0x4f, 0x4e],
        vec![0xFF, 0x72, 0xFF, 0xFF, 0xFF, 0xFF, 0xFF, 0xFE, 0x31, 0x47, 0x31],
        vec![0xE2, 0x82, 0xAC, 0xF0, 0x9F, 0x92, 0x96],
    ];
    for b in inputs {
        let s = SString::new(&b);
        assert_eq!(s.safe_len() + s.garbage_len(), s.len());
    }
}

#[test]
fn test_truncated_trailing_sequence_is_undecided() {
    // A chunk cut off inside a three-byte character: the two trailing
    // bytes are recorded neither as safe nor as garbage.
    let s = SString::new(&[0x41, 0xE2, 0x82]);
    assert_eq!(s.safe_vec(), vec![0x41]);
    assert_eq!(s.garbage(), vec![]);
    assert_eq!(s.len(), 3);
    assert_eq!(s.safe_len() + s.garbage_len(), 1);
}

#[test]
fn test_multibyte_characters_stay_safe() {
    // A euro sign, a four-byte emoji and ASCII mixed with garbage.
    let bytes = vec![0xE2, 0x82, 0xAC, 0x80, 0xF0, 0x9F, 0x92, 0x96, 0x21];
    let s = SString::new(&bytes);
    assert_eq!(s.unchecked_safe(), "\u{20ac}\u{1f496}!");
    assert_eq!(s.garbage(), vec![0x80]);
    assert_eq!(s.valid_utf8_chunk_boundaries(), vec![(3, 4)]);
}

#[test]
fn test_overlong_and_surrogate_encodings_are_garbage() {
    // 0xC0 0xAF is an overlong encoding of '/', 0xED 0xA0 0x80 encodes a
    // surrogate: both must be flagged, never decoded.
    let s = SString::new(&[0xC0, 0xAF, 0x41, 0xED, 0xA0, 0x80]);
    assert_eq!(s.unchecked_safe(), "A");
    assert_eq!(s.garbage(), vec![0xC0, 0xAF, 0xED, 0xA0, 0x80]);
}

#[test]
fn test_extend_vec_accumulates_chunks() {
    let mut s = SString::empty();
    let mut handler = sanitation::Propagate;
    s.extend_vec(vec![0x68, 0x69], &mut handler);
    s.extend_vec(vec![0xFF], &mut handler);
    s.extend_vec(vec![0x21], &mut handler);
    assert_eq!(s.unchecked_safe(), "hi!");
    assert_eq!(s.garbage(), vec![0xFF]);
    assert_eq!(s.len(), 4);
    // spans are chunk-relative and most recent first
    assert_eq!(s.valid_utf8_chunk_boundaries(), vec![(0, 1)]);
}

#[test]
fn test_verdict_ok_even_with_prior_garbage_chunks() {
    // The strict reading re-validates the whole ingested buffer as one
    // unit, independently of the per-chunk bookkeeping.  A three-byte
    // character split across chunks is garbage chunk by chunk, yet the
    // ingested buffer as a whole is valid: the two checks diverge, and
    // the whole-buffer check wins.
    let mut s = SString::empty();
    let mut handler = sanitation::Propagate;
    s.extend_vec(vec![0xE2], &mut handler);
    s.extend_vec(vec![0x82, 0xAC], &mut handler);
    assert_eq!(s.unchecked_safe(), "");
    assert_eq!(s.garbage(), vec![0x82, 0xAC]);
    assert_eq!(s.safe().unwrap(), "\u{20ac}");
}

#[test]
fn test_verdict_invalid_utf8_when_no_garbage_recorded() {
    // A truncated trailing character is undecided, so nothing lands in
    // garbage, yet whole-buffer validation fails: the forensic error
    // carries the fault and all four evidence sequences.
    let s = SString::new(&[0x41, 0xE2, 0x82]);
    match s.safe() {
        Err(Error::InvalidUtf8(fault, garbage, spans, ingested, safe)) => {
            assert_eq!(fault.valid_up_to, 1);
            assert_eq!(fault.error_len, None);
            assert_eq!(garbage, vec![]);
            assert_eq!(spans, vec![]);
            assert_eq!(ingested, vec![0x41, 0xE2, 0x82]);
            assert_eq!(safe, vec![0x41]);
        },
        other => panic!("expected the forensic error, got {:?}", other),
    }
}

#[test]
fn test_safe_string_sources() {
    let from_text = SafeString::Text(String::from("abc")).into_sstring();
    assert_eq!(from_text.unchecked_safe(), "abc");
    assert_eq!(from_text.garbage(), vec![]);

    let from_bytes = SafeString::Bytes(vec![0x61, 0xFF, 0x62]).into_sstring();
    assert_eq!(from_bytes.unchecked_safe(), "ab");
    assert_eq!(from_bytes.garbage(), vec![0xFF]);

    assert_eq!(SafeString::Text(String::from("abc")).into_bytes(), vec![0x61, 0x62, 0x63]);
    assert_eq!(SafeString::Bytes(vec![0x61, 0xFF, 0x62]).into_bytes(), vec![0x61, 0x62]);
}

#[test]
fn test_from_conversions() {
    let a: SString = SString::from(vec![0x61u8, 0xFF]);
    assert_eq!(a.unchecked_safe(), "a");
    let b: SString = SString::from("ab");
    assert_eq!(b.unchecked_safe(), "ab");
    let c: SString = SString::from(String::from("xy"));
    assert_eq!(c.safe().unwrap(), "xy");
    let d: SString = SString::from(&[0x7Eu8, 0x3F][..]);
    assert_eq!(d.unchecked_safe(), "~?");
    let e: SString = SString::default();
    assert_eq!(e.len(), 0);
}

#[test]
fn test_tocow() {
    let s = SString::new(&[0x61, 0xFF, 0x62]);
    let cow = s.tocow();
    assert_eq!(cow.as_ref(), "ab");
}

#[test]
fn test_classifier_and_codec_shared_policy() {
    // The single-byte classifier and the decoder share the flag-anomalies,
    // never-discard policy: an out-of-range boolean byte stays visible,
    // and renders through the codec for logging.
    let b = SBoolean::new(0xF4);
    assert_eq!(b.value(), true);
    let flagged = b.garbage().unwrap();
    assert_eq!(sanitation::to_hex(&[flagged]), "0xf4");
    assert_eq!(
        sanitation::from_hex("0xf4").unwrap(),
        vec![0xF4]
    );
    assert!(matches!(
        sanitation::from_hex(""),
        Err(Error::ParseError(ParseFault::Empty))
    ));
}
