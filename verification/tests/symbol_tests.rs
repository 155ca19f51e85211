use kaiser::Char;

#[test]
fn test_upper_lower() {
    let c = Char::from(0u8);

    assert_eq!(c.to_upper(), 'A');
    assert_eq!(c.to_lower(), 'a');
}

#[test]
fn test_conversions() {
    let a = Char::from(0u8);
    let k = Char::from(10u8);

    assert_eq!(0, u8::from(a));
    assert_eq!(10, u8::from(k));
    assert_eq!('A', char::from(a));
    assert_eq!('K', char::from(k));
    assert_eq!(a, Char::from(0));
    assert_eq!(k, Char::from(10));
    assert_eq!(a, Char::from('A'));
    assert_eq!(a, Char::from('a'));
    assert_eq!(k, Char::from('K'));
    assert_eq!(k, Char::from('k'));
}

#[test]
fn test_ops() {
    let a = Char::from(0u8);

    assert_eq!(a, a + 0);
    assert_eq!(a, a - 0);
    assert_eq!(a, a + Char::MAX);
    assert_eq!(a, a - Char::MAX);
    assert_eq!(Char::from(1), a + 1);
    assert_eq!(Char::from(10), a + 10);
    assert_eq!(Char::from(23), a - 3);
    assert_eq!(Char::from(10), a + Char::MAX + 10);
    assert_eq!(Char::from(16), a - Char::MAX - 10);
}

#[test]
fn multiplication_wraps_around_the_alphabet() {
    let h = Char::from(7u8);
    assert_eq!(Char::from(21), h * 3);
    assert_eq!(Char::from(0), Char::from(13u8) * 2);
    assert_eq!(Char::from(5), Char::from(25u8) * 255);
    assert_eq!(Char::from(21), Char::from(0u8) - 239);
    assert_eq!(Char::from(20), Char::from(25u8) + 255);
}
