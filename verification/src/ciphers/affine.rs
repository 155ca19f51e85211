//! The affine cipher: a symbol `x` becomes `a * x + b` modulo 26.

use crate::buffer::{symbols_wf, Buffer, PartialBuffer};
use crate::ciphers::{
    lemma_transform_round_trip, transform, transformed, CipherError, Decrypt, Encrypt,
    PartialDecrypt, PartialEncrypt, SymbolCipher,
};
use crate::symbol::{add_mod, mul_mod, sub_mod, Char};
use vstd::arithmetic::div_mod::{lemma_mul_mod_noop_left, lemma_mul_mod_noop_right};
use vstd::prelude::*;

verus! {

/// Whether `i` undoes multiplication by `a` modulo 26.
pub open spec fn inverts(a: u8, i: u8) -> bool {
    i < 26 && (a * i) % 26 == 1
}

/// Whether multiplication by `a` can be undone modulo 26.
pub open spec fn has_inverse(a: u8) -> bool {
    exists|i: u8| inverts(a, i)
}

#[derive(Clone, Copy, Debug)]
pub struct Affine {
    a: u8,
    b: u8,
    mmi_a: u8,
}

impl Affine {
    /// The factor of the key.
    pub closed spec fn factor(&self) -> u8 {
        self.a
    }

    /// The shift of the key.
    pub closed spec fn shift(&self) -> u8 {
        self.b
    }

    /// The number that undoes the factor.
    pub closed spec fn inverse(&self) -> u8 {
        self.mmi_a
    }

    /// The key for `x -> a * x + b`; `a` must have an inverse modulo 26.
    pub fn new(a: u8, b: u8) -> (r: Self)
        requires
            has_inverse(a),
        ensures
            r.factor() == a,
            r.shift() == b,
            inverts(a, r.inverse()),
            forall|j: u8| j < r.inverse() ==> !inverts(a, j),
            r.ready(),
    {
        let mut i: u8 = 0;
        loop
            invariant
                i < 26,
                has_inverse(a),
                forall|j: u8| j < i ==> !inverts(a, j),
            decreases 26 - i,
        {
            assert(a * i <= 255 * 26) by (nonlinear_arith)
                requires
                    a <= 255,
                    i <= 26,
            ;
            let product: u32 = (a as u32) * (i as u32);
            if product % 26 == 1 {
                return Self { a, b, mmi_a: i };
            }
            if i == 25 {
                proof {
                    let w = choose|w: u8| inverts(a, w);
                    assert(w < i || w == i);
                }
                assert(false);
            }
            i = i + 1;
        }
    }

    /// The key for `x -> a * x + b`, or an error where `a` has no inverse
    /// modulo 26.
    pub fn try_new(a: u8, b: u8) -> (r: Result<Self, CipherError>)
        ensures
            r is Ok <==> has_inverse(a),
            r matches Ok(key) ==> key.factor() == a && key.shift() == b && inverts(a, key.inverse())
                && key.ready(),
            r matches Err(e) ==> e == CipherError::MalformedKey,
    {
        if Self::usable_factor(a) {
            Ok(Self::new(a, b))
        } else {
            Err(CipherError::MalformedKey)
        }
    }

    /// Whether `a` has an inverse modulo 26, so that it can be the factor of a key.
    pub fn usable_factor(a: u8) -> (ok: bool)
        ensures
            ok == has_inverse(a),
    {
        let mut i: u8 = 0;
        while i < 26
            invariant
                i <= 26,
                forall|j: u8| j < i ==> !inverts(a, j),
            decreases 26 - i,
        {
            assert(a * i <= 255 * 26) by (nonlinear_arith)
                requires
                    a <= 255,
                    i <= 26,
            ;
            let product: u32 = (a as u32) * (i as u32);
            if product % 26 == 1 {
                assert(inverts(a, i));
                return true;
            }
            i = i + 1;
        }
        false
    }

    /// Decrypting an encrypted text gives the text back.
    pub proof fn lemma_decrypt_encrypt(&self, s: Seq<u8>)
        requires
            self.ready(),
            symbols_wf(s),
        ensures
            self.decrypted(self.encrypted(s)) == s,
    {
        lemma_transform_round_trip(self, s, 0, 1);
    }
}

impl SymbolCipher for Affine {
    open spec fn ready(&self) -> bool {
        inverts(self.factor(), self.inverse())
    }

    open spec fn forward(&self, k: int, x: u8) -> u8 {
        add_mod(mul_mod(x as int, self.factor() as int), self.shift() as int) as u8
    }

    open spec fn backward(&self, k: int, x: u8) -> u8 {
        mul_mod(sub_mod(x as int, self.shift() as int), self.inverse() as int) as u8
    }

    fn encrypt_symbol(&self, k: usize, x: Char) -> (y: Char) {
        x.times(self.a).plus(self.b)
    }

    fn decrypt_symbol(&self, k: usize, x: Char) -> (y: Char) {
        x.minus(self.b).times(self.mmi_a)
    }

    proof fn lemma_inverse(&self, k: int, x: u8) {
        let a = self.factor() as int;
        let b = self.shift() as int;
        let m = self.inverse() as int;
        let xi = x as int;
        let y = (xi * a) % 26;
        assert(((y + b) % 26 - b) % 26 == y) by (nonlinear_arith)
            requires
                0 <= y < 26,
                0 <= b < 256,
        ;
        lemma_mul_mod_noop_left(xi * a, m, 26);
        assert((xi * a) * m == xi * (a * m)) by (nonlinear_arith);
        lemma_mul_mod_noop_right(xi, a * m, 26);
        assert((y * m) % 26 == xi);
    }
}

impl Encrypt for Affine {
    open spec fn can_encrypt(&self) -> bool {
        self.ready()
    }

    open spec fn encrypted(&self, s: Seq<u8>) -> Seq<u8> {
        transformed(self, s, 0, 1, true)
    }

    fn encrypt(&self, buf: Buffer) -> (r: Result<Buffer, CipherError>) {
        Ok(transform(self, PartialBuffer::from(buf), true).into_buffer())
    }
}

impl Decrypt for Affine {
    open spec fn can_decrypt(&self) -> bool {
        self.ready()
    }

    open spec fn decrypted(&self, s: Seq<u8>) -> Seq<u8> {
        transformed(self, s, 0, 1, false)
    }

    fn decrypt(&self, buf: Buffer) -> (r: Result<Buffer, CipherError>) {
        Ok(transform(self, PartialBuffer::from(buf), false).into_buffer())
    }
}

impl PartialEncrypt for Affine {
    open spec fn encrypted_view(&self, s: Seq<u8>, offset: int, stride: int) -> Seq<u8> {
        transformed(self, s, offset, stride, true)
    }

    fn encrypt_partial(&self, buf: PartialBuffer) -> (r: Result<PartialBuffer, CipherError>) {
        Ok(transform(self, buf, true))
    }
}

impl PartialDecrypt for Affine {
    open spec fn decrypted_view(&self, s: Seq<u8>, offset: int, stride: int) -> Seq<u8> {
        transformed(self, s, offset, stride, false)
    }

    fn decrypt_partial(&self, buf: PartialBuffer) -> (r: Result<PartialBuffer, CipherError>) {
        Ok(transform(self, buf, false))
    }
}

} // verus!
