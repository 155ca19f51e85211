use kaiser::buffer::{count_letters_in, TextError};
use kaiser::{Buffer, Char, CharStream, PartialBuffer};
use std::sync::Arc;

#[test]
fn test_display() {
    let s = "Hello World!".to_owned();
    let buf = Buffer::from_str("Hello World!").unwrap();
    assert_eq!(s, buf.to_string());
}

#[test]
fn test_offset_stride() {
    let buffer = Buffer::from_str("ABCDEFGHIJ").unwrap().partial(3, 2);

    let expected = buffer
        .symbols()
        .iter()
        .map(|&c| -> char { c.to_upper() })
        .collect::<String>();

    assert_eq!("DFHJ", expected);
    assert_eq!(4, buffer.len());
}

#[test]
fn letters_become_symbols_and_the_rest_is_left_out() {
    let buf = Buffer::from_str("a-B c9Z").unwrap();
    assert_eq!(4, buf.len());
    let symbols: Vec<u8> = buf.symbols().iter().map(|&c| u8::from(c)).collect();
    assert_eq!(vec![0u8, 1, 2, 25], symbols);
    assert_eq!("a-B c9Z", buf.original());
}

#[test]
fn a_letter_outside_ascii_is_refused() {
    assert_eq!(Some(TextError::NonAsciiLetter), Buffer::from_str("na\u{ef}ve").err());
    assert_eq!(
        "string contains non-ascii characters",
        TextError::NonAsciiLetter.message()
    );
    assert!(Buffer::from_str("caf\u{e9}").is_err());
}

#[test]
fn characters_outside_ascii_that_are_no_letters_pass() {
    let buf = Buffer::from_str("a\u{2014}b \u{1f600}!").unwrap();
    assert_eq!(2, buf.len());
    assert_eq!("a\u{2014}b \u{1f600}!", buf.to_string());
}

#[test]
fn an_empty_text_gives_an_empty_buffer() {
    let buf = Buffer::from_str("").unwrap();
    assert_eq!(0, buf.len());
    assert_eq!("", buf.to_string());
    let digits = Buffer::from_str("12 34!").unwrap();
    assert_eq!(0, digits.len());
    assert_eq!("12 34!", digits.to_string());
}

#[test]
fn rendering_gives_an_ascii_text_back() {
    for s in ["Hello, World!", "", "UPPER lower MiXeD 123 ?!", "z", "\t\n a;b"] {
        let buf = Buffer::from_str(s).unwrap();
        assert_eq!(s, buf.to_string());
        assert_eq!(s, buf.collect_original());
    }
}

#[test]
fn rendering_keeps_case_and_other_characters() {
    let mut buf = Buffer::from_str("Ab, cD!").unwrap();
    buf.set(0, Char::from(25u8));
    buf.set(1, Char::from(24u8));
    buf.set(2, Char::from(0u8));
    buf.set(3, Char::from(1u8));
    assert_eq!("Zy, aB!", buf.to_string());
}

#[test]
fn a_buffer_is_rendered_only_with_a_symbol_for_each_letter() {
    let short = Buffer::new(
        vec![Char::from(23u8), Char::from(24u8)],
        Arc::new("ab cd".to_owned()),
    );
    assert!(!short.fits_text());
    let long = Buffer::new(
        vec![Char::from(23u8), Char::from(24u8)],
        Arc::new("a-".to_owned()),
    );
    assert!(!long.fits_text());
    let right = Buffer::new(
        vec![Char::from(23u8), Char::from(24u8)],
        Arc::new("a b.".to_owned()),
    );
    assert!(right.fits_text());
    assert_eq!("x y.", right.to_string());
    assert!(Buffer::from_str("Hello, World!").unwrap().fits_text());
    assert_eq!(10, count_letters_in("Hello, World!"));
    assert_eq!(0, count_letters_in("12 + 3"));
    assert_eq!(2, count_letters_in("\u{e9}t\u{2014}"));
}

#[test]
fn a_view_has_the_ceiling_of_the_quotient_as_its_length() {
    let text = "ABCDEFGHIJ";
    for offset in 0..14usize {
        for stride in 1..13usize {
            let view = Buffer::from_str(text).unwrap().partial(offset, stride);
            let expected = if offset >= 10 {
                0
            } else {
                (10 - offset + stride - 1) / stride
            };
            assert_eq!(expected, view.len());
            assert_eq!(expected, view.symbols().len());
        }
    }
}

#[test]
fn the_full_view_yields_every_symbol_in_order() {
    let buf = Buffer::from_str("The quick brown fox").unwrap();
    let all: Vec<Char> = buf.symbols();
    let view = PartialBuffer::from(buf);
    assert_eq!(16, view.len());
    assert_eq!(all, view.symbols());
    assert_eq!("The quick brown fox", view.to_string());
}

#[test]
fn a_view_keeps_the_text_of_its_buffer() {
    let view = Buffer::from_str("Abc def").unwrap().partial(1, 2);
    assert_eq!("Abc def", CharStream::original(&view));
    assert_eq!("Abc def", view.buffer_text());
    let back = view.into_buffer();
    assert_eq!("Abc def", back.to_string());
}

#[test]
fn buffers_are_equal_when_their_symbols_are() {
    let a = Buffer::from_str("Hello").unwrap();
    let b = Buffer::from_str("h-e-l-l-o").unwrap();
    let c = Buffer::from_str("Hella").unwrap();
    let d = Buffer::from_str("Hell").unwrap();
    assert!(a == b);
    assert!(a != c);
    assert!(a != d);
    assert!(a == a.clone());
}

#[test]
fn letters_outside_ascii_lend_their_case() {
    let buf = Buffer::new(
        vec![Char::from(0u8), Char::from(1u8), Char::from(2u8)],
        Arc::new("\u{c9}\u{e9}-\u{3a9}".to_owned()),
    );
    assert_eq!("Ab-C", buf.to_string());
}

#[test]
fn a_view_reads_and_writes_through_to_the_buffer() {
    let mut view = Buffer::from_str("abcdefghij").unwrap().partial(2, 3);
    assert_eq!(3, view.len());
    assert_eq!(Char::from('c'), view.get(0));
    assert_eq!(Char::from('f'), view.get(1));
    assert_eq!(Char::from('i'), view.get(2));
    view.set(1, Char::from('x'));
    assert_eq!(Char::from('x'), view.get(1));
    assert_eq!(Char::from('f'), Buffer::from_str("abcdefghij").unwrap().get(5));
    assert_eq!("abcdexghij", view.into_buffer().to_string());
}
