//! The Vigenere cipher: the symbol at place `k` is shifted by entry `k` of the
//! key, the key being repeated as often as needed.

use crate::buffer::{is_ascii_char, symbols_wf, Buffer, PartialBuffer};
use crate::ciphers::{
    lemma_transform_round_trip, transform, transformed, CipherError, Decrypt, Encrypt,
    PartialDecrypt, PartialEncrypt, SymbolCipher,
};
use crate::keyvec::{key_at, key_from, key_items, key_len, KeyVec};
use crate::symbol::{add_mod, is_ascii_letter, letter_index, sub_mod, Char};
use crate::text::chars_of;
use vstd::prelude::*;

verus! {

/// The shifts that a key word stands for: the position in the alphabet of each
/// of its ASCII letters, in order.
pub open spec fn shifts_of(word: Seq<char>) -> Seq<u8>
    decreases word.len(),
{
    if word.len() == 0 {
        Seq::empty()
    } else if is_ascii_letter(word.last()) {
        shifts_of(word.drop_last()).push(letter_index(word.last()) as u8)
    } else {
        shifts_of(word.drop_last())
    }
}

/// Whether every ASCII character of `word` is a letter.
pub open spec fn ascii_is_letters(word: Seq<char>) -> bool {
    forall|i: int| 0 <= i < word.len() && is_ascii_char(#[trigger] word[i]) ==> is_ascii_letter(word[i])
}

/// Reads the shifts of a key word.
pub fn read_shifts(word: &str) -> (r: Vec<u8>)
    ensures
        r@ == shifts_of(word@),
        symbols_wf(r@),
{
    let chars = chars_of(word);
    let mut out: Vec<u8> = Vec::new();
    let mut i: usize = 0;
    assert(chars@.take(0) =~= Seq::empty());
    while i < chars.len()
        invariant
            i <= chars.len(),
            chars@ == word@,
            out@ == shifts_of(chars@.take(i as int)),
            symbols_wf(out@),
        decreases chars.len() - i,
    {
        let c = chars[i];
        assert(chars@.take(i + 1).drop_last() =~= chars@.take(i as int));
        assert(chars@.take(i + 1).last() == c);
        if 'A' <= c && c <= 'Z' {
            out.push((c as u8) - 65u8);
        } else if 'a' <= c && c <= 'z' {
            out.push((c as u8) - 97u8);
        }
        i += 1;
    }
    assert(chars@.take(i as int) =~= chars@);
    out
}

pub struct Vigenere {
    key: KeyVec,
}

impl View for Vigenere {
    type V = Seq<u8>;

    closed spec fn view(&self) -> Seq<u8> {
        key_items(self.key)
    }
}

impl Vigenere {
    /// The key that `key` spells. Characters outside ASCII are passed over;
    /// every ASCII character must be a letter.
    pub fn new(key: &str) -> (r: Self)
        requires
            ascii_is_letters(key@),
        ensures
            r@ == shifts_of(key@),
            r.ready() <==> shifts_of(key@).len() > 0,
    {
        let shifts = read_shifts(key);
        Self { key: key_from(&shifts) }
    }

    /// The key that `key` spells, or an error where an ASCII character of
    /// `key` is no letter or `key` holds no ASCII letter at all.
    pub fn try_new(key: &str) -> (r: Result<Self, CipherError>)
        ensures
            r is Ok <==> ascii_is_letters(key@) && shifts_of(key@).len() > 0,
            r matches Ok(cipher) ==> cipher@ == shifts_of(key@) && cipher.ready(),
            r matches Err(e) ==> e == CipherError::MalformedKey,
    {
        let chars = chars_of(key);
        let mut i: usize = 0;
        while i < chars.len()
            invariant
                i <= chars.len(),
                chars@ == key@,
                forall|j: int|
                    0 <= j < i && is_ascii_char(#[trigger] key@[j]) ==> is_ascii_letter(key@[j]),
            decreases chars.len() - i,
        {
            let c = chars[i];
            if c <= '\x7f' && !(('A' <= c && c <= 'Z') || ('a' <= c && c <= 'z')) {
                assert(is_ascii_char(key@[i as int]) && !is_ascii_letter(key@[i as int]));
                return Err(CipherError::MalformedKey);
            }
            i += 1;
        }
        let cipher = Self::new(key);
        if cipher.is_valid() {
            Ok(cipher)
        } else {
            Err(CipherError::MalformedKey)
        }
    }

    /// Whether the key can be used: it has at least one shift.
    pub fn is_valid(&self) -> (ok: bool)
        ensures
            ok == self.ready(),
    {
        key_len(&self.key) > 0
    }

    /// Decrypting an encrypted text gives the text back.
    pub proof fn lemma_decrypt_encrypt(&self, s: Seq<u8>)
        requires
            self.ready(),
            symbols_wf(s),
        ensures
            self.decrypted(self.encrypted(s)) == s,
    {
        lemma_transform_round_trip(self, s, 0, 1);
    }
}

impl SymbolCipher for Vigenere {
    open spec fn ready(&self) -> bool {
        self@.len() > 0
    }

    open spec fn forward(&self, k: int, x: u8) -> u8 {
        add_mod(x as int, self@[k % (self@.len() as int)] as int) as u8
    }

    open spec fn backward(&self, k: int, x: u8) -> u8 {
        sub_mod(x as int, self@[k % (self@.len() as int)] as int) as u8
    }

    fn encrypt_symbol(&self, k: usize, x: Char) -> (y: Char) {
        let n = key_len(&self.key);
        x.plus(key_at(&self.key, k % n))
    }

    fn decrypt_symbol(&self, k: usize, x: Char) -> (y: Char) {
        let n = key_len(&self.key);
        x.minus(key_at(&self.key, k % n))
    }

    proof fn lemma_inverse(&self, k: int, x: u8) {
        let a = x as int;
        let b = self@[k % (self@.len() as int)] as int;
        assert(((a + b) % 26 - b) % 26 == a) by (nonlinear_arith)
            requires
                0 <= a < 26,
                0 <= b < 256,
        ;
    }
}

impl Encrypt for Vigenere {
    open spec fn can_encrypt(&self) -> bool {
        self.ready()
    }

    open spec fn encrypted(&self, s: Seq<u8>) -> Seq<u8> {
        transformed(self, s, 0, 1, true)
    }

    fn encrypt(&self, buf: Buffer) -> (r: Result<Buffer, CipherError>) {
        Ok(transform(self, PartialBuffer::from(buf), true).into_buffer())
    }
}

impl Decrypt for Vigenere {
    open spec fn can_decrypt(&self) -> bool {
        self.ready()
    }

    open spec fn decrypted(&self, s: Seq<u8>) -> Seq<u8> {
        transformed(self, s, 0, 1, false)
    }

    fn decrypt(&self, buf: Buffer) -> (r: Result<Buffer, CipherError>) {
        Ok(transform(self, PartialBuffer::from(buf), false).into_buffer())
    }
}

impl PartialEncrypt for Vigenere {
    open spec fn encrypted_view(&self, s: Seq<u8>, offset: int, stride: int) -> Seq<u8> {
        transformed(self, s, offset, stride, true)
    }

    fn encrypt_partial(&self, buf: PartialBuffer) -> (r: Result<PartialBuffer, CipherError>) {
        Ok(transform(self, buf, true))
    }
}

impl PartialDecrypt for Vigenere {
    open spec fn decrypted_view(&self, s: Seq<u8>, offset: int, stride: int) -> Seq<u8> {
        transformed(self, s, offset, stride, false)
    }

    fn decrypt_partial(&self, buf: PartialBuffer) -> (r: Result<PartialBuffer, CipherError>) {
        Ok(transform(self, buf, false))
    }
}

} // verus!
