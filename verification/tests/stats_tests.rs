use kaiser::stats::{
    chi_squared, index_of_coincidence, letter_frequencies, quadgram_score, window_index,
    QuadgramTable, QUADGRAM_ENTRIES,
};
use kaiser::{Buffer, Char};

#[test]
fn test_freqs() {
    let buf = Buffer::from_str("Rust is the best programming language").unwrap();

    let expected = [
        3, 1, 0, 0, 3, 0, 4, 1, 2, 0, 0, 1, 2, 2, 1, 1, 0, 3, 3, 3, 2, 0, 0, 0, 0, 0,
    ];
    assert_eq!(expected, letter_frequencies(&buf));
}

#[test]
fn stats_test_heuristics() {
    let buf = Buffer::from_str("Rust is the best programming language").unwrap();

    let ioc = index_of_coincidence(&buf).unwrap();
    let chi = chi_squared(&buf).unwrap();
    assert_eq!(1310483, ioc);
    assert_eq!(29514273, chi);
    assert!((1.310483870967742 - ioc as f64 / 1e6).abs() < 1e-6);
    assert!((29.514280393617323 - chi as f64 / 1e6).abs() < 1e-4);
}

#[test]
fn heuristic_test_heuristics() {
    let buf = Buffer::from_str("Rust is the best programming language").unwrap();

    assert_eq!(Some(1310483), index_of_coincidence(&buf));
    assert_eq!(Some(29514273), chi_squared(&buf));
}

#[test]
fn frequencies_of_a_view_count_its_symbols_only() {
    let view = Buffer::from_str("ABABABAC").unwrap().partial(1, 2);
    let freqs = letter_frequencies(&view);
    assert_eq!(0, freqs[0]);
    assert_eq!(3, freqs[1]);
    assert_eq!(1, freqs[2]);
}

#[test]
fn statistics_are_undefined_on_texts_too_short() {
    let empty = Buffer::from_str("").unwrap();
    let one = Buffer::from_str("a").unwrap();
    let two = Buffer::from_str("aa").unwrap();
    assert_eq!(None, index_of_coincidence(&empty));
    assert_eq!(None, index_of_coincidence(&one));
    assert_eq!(Some(26000000), index_of_coincidence(&two));
    assert_eq!(None, chi_squared(&empty));
    assert!(chi_squared(&one).is_some());
}

#[test]
fn a_table_needs_one_entry_for_each_quadgram() {
    assert_eq!(456976, QUADGRAM_ENTRIES);
    assert!(QuadgramTable::new(vec![0; QUADGRAM_ENTRIES]).is_some());
    assert!(QuadgramTable::new(vec![0; QUADGRAM_ENTRIES - 1]).is_none());
    assert!(QuadgramTable::new(Vec::new()).is_none());
}

#[test]
fn quadgrams_are_read_in_base_26() {
    let at = |a: u8, b: u8, c: u8, d: u8| {
        window_index(Char::from(a), Char::from(b), Char::from(c), Char::from(d))
    };
    assert_eq!(0, at(0, 0, 0, 0));
    assert_eq!(25, at(0, 0, 0, 25));
    assert_eq!(26 * 26 * 26 + 2 * 26 * 26 + 3 * 26 + 4, at(1, 2, 3, 4));
    assert_eq!(QUADGRAM_ENTRIES - 1, at(25, 25, 25, 25));
}

#[test]
fn the_quadgram_score_is_the_sum_of_the_entries_per_symbol() {
    let mut entries = vec![0i32; QUADGRAM_ENTRIES];
    let abcd = 26 * 26 + 2 * 26 + 3;
    let bcde = 26 * 26 * 26 + 2 * 26 * 26 + 3 * 26 + 4;
    entries[abcd] = -700;
    entries[bcde] = -350;
    let table = QuadgramTable::new(entries).unwrap();
    assert_eq!(-700, table.entry(abcd));
    let five = Buffer::from_str("abcde").unwrap();
    assert_eq!(Some(-210), quadgram_score(&five, &table));
    let four = Buffer::from_str("abcd").unwrap();
    assert_eq!(Some(-175), quadgram_score(&four, &table));
    let six = Buffer::from_str("abcdab").unwrap();
    assert_eq!(Some(-116), quadgram_score(&six, &table));
    let short = Buffer::from_str("abc").unwrap();
    assert_eq!(Some(0), quadgram_score(&short, &table));
    let empty = Buffer::from_str("").unwrap();
    assert_eq!(None, quadgram_score(&empty, &table));
}
