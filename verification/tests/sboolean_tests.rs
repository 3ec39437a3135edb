use sanitation::SBoolean;

#[test]
fn test_sboolean_false_without_garbage() {
    let b = SBoolean::new(0x0);
    assert_eq!(b.value(), false);
    assert_eq!(b.garbage(), None);
}

#[test]
fn test_sboolean_true_without_garbage() {
    let b = SBoolean::new(0x1);
    assert_eq!(b.value(), true);
    assert_eq!(b.garbage(), None);
}

#[test]
fn test_sboolean_true_with_garbage() {
    let b = SBoolean::new(0x2);
    assert_eq!(b.value(), true);
    assert_eq!(b.garbage(), Some(0x2));

    let b = SBoolean::new(0xf4);
    assert_eq!(b.value(), true);
    assert_eq!(b.garbage(), Some(0xf4));
}

#[test]
fn test_sboolean_0_false_without_garbage() {
    let b = SBoolean::new(0x0);
    assert_eq!(b.value(), false);
    assert_eq!(b.garbage(), None);
}

#[test]
fn test_sboolean_1_true_without_garbage() {
    let b = SBoolean::new(0x1);
    assert_eq!(b.value(), true);
    assert_eq!(b.garbage(), None);
}

#[test]
fn test_sboolean_2_true_with_garbage() {
    let b = SBoolean::new(0x2);
    assert_eq!(b.value(), true);
    assert_eq!(b.garbage(), Some(0x2));
}

#[test]
fn test_sboolean_every_nonzero_is_true() {
    for v in 2..=255u8 {
        let b = SBoolean::new(v);
        assert_eq!(b.value(), true);
        assert_eq!(b.garbage(), Some(v));
    }
}
