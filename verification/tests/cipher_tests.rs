use kaiser::ciphers::transposition::parse_columns;
use kaiser::ciphers::{
    Affine, Caesar, CipherError, Decrypt, Encrypt, PartialDecrypt, PartialEncrypt, Substitution,
    Transposition, Vigenere,
};
use kaiser::meta::{HeuristicTarget, NoParam};
use kaiser::Buffer;
use rand::rngs::StdRng;
use rand::SeedableRng;

#[test]
fn caesar_test_encrypt_decrypt() {
    let caesar = Caesar::new(5);
    let buf = Buffer::from_str("Hello world!").unwrap();

    let buf = caesar.encrypt(buf).unwrap();
    assert_eq!("Mjqqt btwqi!", buf.to_string());

    let buf = caesar.decrypt(buf).unwrap();
    assert_eq!("Hello world!", buf.to_string());
}

#[test]
fn test_next_key() {
    let mut keys = 0;
    let mut cur_key = None;

    while let Some(key) = Caesar::next_key(cur_key, NoParam) {
        cur_key = Some(key);
        keys += 1;
    }

    assert_eq!(keys, 26);
}

#[test]
fn caesar_keys_come_in_rising_order() {
    let mut cur_key = None;
    let mut shifts = Vec::new();
    while let Some(key) = Caesar::next_key(cur_key, NoParam) {
        shifts.push(key.shift());
        cur_key = Some(key);
    }
    let expected: Vec<u8> = (0..26).collect();
    assert_eq!(expected, shifts);
}

#[test]
fn affine_test_encrypt_decrypt() {
    let buf = Buffer::from_str("Hello world!").unwrap();

    let affine = Affine::new(3, 5);

    let buf = affine.encrypt(buf).unwrap();
    assert_eq!("Armmv tvemo!", buf.to_string());

    let buf = affine.decrypt(buf).unwrap();
    assert_eq!("Hello world!", buf.to_string());
}

#[test]
fn affine_factors_need_an_inverse() {
    let usable: Vec<u8> = (0..26).filter(|&a| Affine::usable_factor(a)).collect();
    assert_eq!(vec![1u8, 3, 5, 7, 9, 11, 15, 17, 19, 21, 23, 25], usable);
    assert!(!Affine::usable_factor(13));
    assert!(!Affine::usable_factor(0));
    assert!(Affine::usable_factor(27));
}

#[test]
fn vigenere_test_encrypt_decrypt() {
    let vigenere = Vigenere::new("KEY");
    let buf = Buffer::from_str("Hello world!").unwrap();

    let buf = vigenere.encrypt(buf).unwrap();
    assert_eq!("Rijvs uyvjn!", buf.to_string());

    let buf = vigenere.decrypt(buf).unwrap();
    assert_eq!("Hello world!", buf.to_string());
}

#[test]
fn vigenere_reads_its_key_without_regard_to_case() {
    let upper = Vigenere::new("KEY");
    let lower = Vigenere::new("key");
    let a = upper.encrypt(Buffer::from_str("attack at dawn").unwrap()).unwrap();
    let b = lower.encrypt(Buffer::from_str("attack at dawn").unwrap()).unwrap();
    assert_eq!("kxrkgi kx bkal", a.to_string());
    assert!(a == b);
}

#[test]
fn substitution_by_key_word() {
    let subst = Substitution::from_word("ZEBRAS");
    assert_eq!("ZEBRASCDFGHIJKLMNOPQTUVWXY", subst.to_string());
    let same = Substitution::from_alphabet("ZEBRASCDFGHIJKLMNOPQTUVWXY");
    let again = Substitution::from_word("zebrasZEBRAS");
    assert!(subst == same);
    assert!(subst != Substitution::from_word("ZEBRA"));
    assert!(subst.same_key(&same));
    assert!(subst.same_key(&again));
    assert!(!subst.same_key(&Substitution::from_word("ZEBRA")));

    let buf = Buffer::from_str("Hello world!").unwrap();
    let buf = subst.encrypt(buf).unwrap();
    assert_eq!("Daiil vloir!", buf.to_string());
    let buf = subst.decrypt(buf).unwrap();
    assert_eq!("Hello world!", buf.to_string());
}

#[test]
fn the_inverse_table_leads_back() {
    let subst = Substitution::from_word("QWERTY");
    let table: Vec<char> = subst.to_string().chars().collect();
    let mut key = [kaiser::Char::from(0u8); 26];
    for (i, c) in table.iter().enumerate() {
        key[i] = kaiser::Char::from(*c);
    }
    let inverse = Substitution::compute_inverse(key);
    for i in 0..26usize {
        assert_eq!(i as u8, u8::from(inverse[u8::from(key[i]) as usize]));
    }
    assert_eq!(6, u8::from(inverse[0]));
}

#[test]
fn every_cipher_undoes_itself_on_many_texts() {
    let texts = ["", "a", "Hello world!", "The quick brown fox jumps over the lazy dog", "zzzz"];
    for text in texts {
        for shift in [0u8, 1, 13, 25, 26, 200, 255] {
            let c = Caesar::new(shift);
            let e = c.encrypt(Buffer::from_str(text).unwrap()).unwrap();
            assert_eq!(text, c.decrypt(e).unwrap().to_string());
        }
        for a in [1u8, 3, 5, 7, 9, 11, 15, 17, 19, 21, 23, 25, 27, 255] {
            for b in [0u8, 5, 25, 26, 255] {
                let c = Affine::new(a, b);
                let e = c.encrypt(Buffer::from_str(text).unwrap()).unwrap();
                assert_eq!(text, c.decrypt(e).unwrap().to_string());
            }
        }
        for word in ["a", "KEY", "lemon", "AbCdEfGhIjKlMnOpQrStUvWxYzAB"] {
            let c = Vigenere::new(word);
            let e = c.encrypt(Buffer::from_str(text).unwrap()).unwrap();
            assert_eq!(text, c.decrypt(e).unwrap().to_string());
            let s = Substitution::from_word(word);
            let e = s.encrypt(Buffer::from_str(text).unwrap()).unwrap();
            assert_eq!(text, s.decrypt(e).unwrap().to_string());
        }
    }
}

#[test]
fn ciphers_work_along_a_view() {
    let caesar = Caesar::new(1);
    let view = Buffer::from_str("aaaaaaaa").unwrap().partial(1, 3);
    let view = caesar.encrypt_partial(view).unwrap();
    assert_eq!("abaabaab", view.buffer_text());
    let view = caesar.decrypt_partial(view).unwrap();
    assert_eq!("aaaaaaaa", view.into_buffer().to_string());

    let vigenere = Vigenere::new("bc");
    let view = Buffer::from_str("aaaaaaaa").unwrap().partial(0, 2);
    let view = vigenere.encrypt_partial(view).unwrap();
    assert_eq!("bacabaca", view.into_buffer().to_string());
}

#[test]
fn random_keys_decrypt_what_they_encrypt() {
    let mut rng = StdRng::seed_from_u64(7);
    let text = "Pack my box with five dozen liquor jugs";
    let mut key = Substitution::rand_key(NoParam, &mut rng);
    for _ in 0..50 {
        let e = key.encrypt(Buffer::from_str(text).unwrap()).unwrap();
        assert_eq!(text, key.decrypt(e).unwrap().to_string());
        let mut seen = [false; 26];
        for c in key.to_string().chars() {
            seen[(c as u8 - b'A') as usize] = true;
        }
        assert!(seen.iter().all(|&s| s));
        let next = key.tweak_key(NoParam, &mut rng);
        let changed = key
            .to_string()
            .chars()
            .zip(next.to_string().chars())
            .filter(|(a, b)| a != b)
            .count();
        assert!(changed == 0 || changed == 2);
        key = next;
    }
    let caesar = Caesar::rand_key(NoParam, &mut rng);
    assert!(caesar.shift() < 26);
    assert!(caesar.tweak_key(NoParam, &mut rng).shift() < 26);
}

#[test]
fn a_shuffled_key_is_not_the_alphabet() {
    let mut rng = StdRng::seed_from_u64(1);
    let key = Substitution::rand_key(NoParam, &mut rng);
    let plain = Buffer::from_str("abcdefghijklmnopqrstuvwxyz").unwrap();
    assert_ne!("abcdefghijklmnopqrstuvwxyz", key.decrypt(plain).unwrap().to_string());
}

#[test]
fn the_error_has_a_message() {
    assert_eq!("malformed key", CipherError::MalformedKey.message());
}

#[test]
fn transposition_test_encrypt_decrypt() {
    let transposition = Transposition::new("2,1");
    let buf = Buffer::from_str("HELLOWORLD").unwrap();

    let buf = transposition.encrypt(buf).unwrap();
    assert_eq!("EHLLWORODL", buf.to_string());

    let buf = transposition.decrypt(buf).unwrap();
    assert_eq!("HELLOWORLD", buf.to_string());
}

#[test]
fn transposition_orders_each_group_by_the_key() {
    let key = Transposition::new("3,1,2");
    let buf = key.encrypt(Buffer::from_str("abcdefgh").unwrap()).unwrap();
    assert_eq!("bcaefdhg", buf.to_string());
    let buf = key.decrypt(buf).unwrap();
    assert_eq!("abcdefgh", buf.to_string());
}

#[test]
fn transposition_undoes_itself_for_keys_that_are_no_involution() {
    for key in ["1", "2,1", "2,3,1", "3,1,2", "4,1,3,2,5", "10,200,0,7", "9,8,7,6,5,4,3,2,1"] {
        let cipher = Transposition::new(key);
        assert!(cipher.is_valid());
        for text in ["", "a", "Hello world!", "The quick brown fox jumps over the lazy dog"] {
            let e = cipher.encrypt(Buffer::from_str(text).unwrap()).unwrap();
            assert_eq!(text.len(), e.to_string().len());
            assert_eq!(text, cipher.decrypt(e).unwrap().to_string());
        }
    }
}

#[test]
fn transposition_keys_are_numbers_between_commas() {
    assert_eq!(Some(vec![2u8, 1]), parse_columns("2,1"));
    assert_eq!(Some(vec![7u8]), parse_columns("007"));
    assert_eq!(Some(vec![255u8, 0, 10]), parse_columns("255,0,10"));
    assert_eq!(None, parse_columns(""));
    assert_eq!(None, parse_columns("1,"));
    assert_eq!(None, parse_columns(",1"));
    assert_eq!(None, parse_columns("1,,2"));
    assert_eq!(None, parse_columns("256"));
    assert_eq!(None, parse_columns("1, 2"));
    assert_eq!(None, parse_columns("a,b"));
    assert!(!Transposition::new("1,2,1").is_valid());
    assert!(Vigenere::new("b").is_valid());
    assert!(!Vigenere::new("").is_valid());
}

#[test]
fn keys_that_cannot_be_used_are_refused() {
    assert!(Affine::try_new(3, 5).is_ok());
    assert_eq!(Some(CipherError::MalformedKey), Affine::try_new(13, 5).err());
    assert_eq!(Some(CipherError::MalformedKey), Affine::try_new(2, 0).err());
    assert!(Vigenere::try_new("Key").is_ok());
    assert!(Vigenere::try_new("k\u{e9}y").is_ok());
    assert_eq!(Some(CipherError::MalformedKey), Vigenere::try_new("").err());
    assert_eq!(Some(CipherError::MalformedKey), Vigenere::try_new("k3y").err());
    assert_eq!(Some(CipherError::MalformedKey), Vigenere::try_new("\u{e9}").err());
    assert!(Transposition::try_new("2,1,3").is_ok());
    assert_eq!(Some(CipherError::MalformedKey), Transposition::try_new("2,1,2").err());
    assert_eq!(Some(CipherError::MalformedKey), Transposition::try_new("2;1").err());
    assert_eq!(Some(CipherError::MalformedKey), Transposition::try_new("").err());
    let text = "Attack at dawn";
    let affine = Affine::try_new(5, 8).unwrap();
    let e = affine.encrypt(Buffer::from_str(text).unwrap()).unwrap();
    assert_eq!("Izzisg iz xiov", e.to_string());
}

#[test]
fn a_drawn_number_stands_for_its_shift() {
    for draw in 0..26usize {
        assert_eq!(draw as u8, Caesar::from_draw(draw).shift());
    }
    assert_eq!(0, Caesar::from_draw(26).shift());
    assert_eq!(5, Caesar::from_draw(57).shift());
    let text = Buffer::from_str("abc").unwrap();
    assert_eq!("def", Caesar::from_draw(3).encrypt(text).unwrap().to_string());
}

#[test]
fn a_number_of_a_transposition_key_may_have_a_plus() {
    assert_eq!(Some(vec![2u8, 1]), parse_columns("+2,1"));
    assert_eq!(Some(vec![2u8, 1]), parse_columns("2,+1"));
    assert_eq!(Some(vec![0u8]), parse_columns("+0"));
    assert_eq!(None, parse_columns("+"));
    assert_eq!(None, parse_columns("++1"));
    assert_eq!(None, parse_columns("1+"));
    assert_eq!(None, parse_columns("1,+"));
    assert_eq!(None, parse_columns("+,1"));
    assert_eq!(None, parse_columns("-1"));
    let key = Transposition::new("+2,+1");
    let buf = key.encrypt(Buffer::from_str("HELLOWORLD").unwrap()).unwrap();
    assert_eq!("EHLLWORODL", buf.to_string());
}

#[test]
fn two_entries_of_a_table_change_places() {
    let key = Substitution::from_word("ZEBRAS");
    let swapped = key.swap_entries(0, 25);
    assert_eq!("YEBRASCDFGHIJKLMNOPQTUVWXZ", swapped.to_string());
    assert!(key.swap_entries(7, 7) == key);
    assert!(swapped.swap_entries(25, 0) == key);
    let text = "Hello world!";
    let e = swapped.encrypt(Buffer::from_str(text).unwrap()).unwrap();
    assert_eq!(text, swapped.decrypt(e).unwrap().to_string());
}
