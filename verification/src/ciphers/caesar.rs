//! The shift cipher: every symbol moves on by the same number of places.

use crate::buffer::{Buffer, PartialBuffer};
use crate::ciphers::{
    transform, transformed, CipherError, Decrypt, Encrypt, PartialDecrypt, PartialEncrypt,
    SymbolCipher,
};
use crate::meta::brute::{
    best_first, drawn_from, holds_all, lemma_sweep_best, lemma_sweep_keeps_all, swept,
};
use crate::meta::{candidate, distinct, sorted};
use crate::score::min_score;
use crate::meta::{HeuristicTarget, NoParam};
use crate::score::ScoreMethod;
use crate::random::below;
use crate::symbol::{add_mod, sub_mod, Char};
use rand::rngs::StdRng;
use vstd::prelude::*;

verus! {

#[derive(Clone, Copy, Debug, PartialEq, Eq, Structural)]
pub struct Caesar {
    shift: u8,
}

impl View for Caesar {
    type V = u8;

    closed spec fn view(&self) -> u8 {
        self.shift
    }
}

impl Caesar {
    pub fn new(shift: u8) -> (r: Self)
        ensures
            r@ == shift,
    {
        Self { shift }
    }

    /// The number of places by which the cipher shifts.
    pub fn shift(&self) -> (r: u8)
        ensures
            r == self@,
    {
        self.shift
    }

    /// Decrypting an encrypted text gives the text back.
    pub proof fn lemma_decrypt_encrypt(&self, s: Seq<u8>)
        requires
            crate::buffer::symbols_wf(s),
        ensures
            self.decrypted(self.encrypted(s)) == s,
    {
        crate::ciphers::lemma_transform_round_trip(self, s, 0, 1);
    }
}

impl SymbolCipher for Caesar {
    open spec fn ready(&self) -> bool {
        true
    }

    open spec fn forward(&self, k: int, x: u8) -> u8 {
        add_mod(x as int, self@ as int) as u8
    }

    open spec fn backward(&self, k: int, x: u8) -> u8 {
        sub_mod(x as int, self@ as int) as u8
    }

    fn encrypt_symbol(&self, k: usize, x: Char) -> (y: Char) {
        x.plus(self.shift)
    }

    fn decrypt_symbol(&self, k: usize, x: Char) -> (y: Char) {
        x.minus(self.shift)
    }

    proof fn lemma_inverse(&self, k: int, x: u8) {
        let a = x as int;
        let b = self@ as int;
        assert(((a + b) % 26 - b) % 26 == a) by (nonlinear_arith)
            requires
                0 <= a < 26,
                0 <= b < 256,
        ;
    }
}

impl Encrypt for Caesar {
    open spec fn can_encrypt(&self) -> bool {
        true
    }

    open spec fn encrypted(&self, s: Seq<u8>) -> Seq<u8> {
        transformed(self, s, 0, 1, true)
    }

    fn encrypt(&self, buf: Buffer) -> (r: Result<Buffer, CipherError>) {
        Ok(transform(self, PartialBuffer::from(buf), true).into_buffer())
    }
}

impl Decrypt for Caesar {
    open spec fn can_decrypt(&self) -> bool {
        true
    }

    open spec fn decrypted(&self, s: Seq<u8>) -> Seq<u8> {
        transformed(self, s, 0, 1, false)
    }

    fn decrypt(&self, buf: Buffer) -> (r: Result<Buffer, CipherError>) {
        Ok(transform(self, PartialBuffer::from(buf), false).into_buffer())
    }
}

impl PartialEncrypt for Caesar {
    open spec fn encrypted_view(&self, s: Seq<u8>, offset: int, stride: int) -> Seq<u8> {
        transformed(self, s, offset, stride, true)
    }

    fn encrypt_partial(&self, buf: PartialBuffer) -> (r: Result<PartialBuffer, CipherError>) {
        Ok(transform(self, buf, true))
    }
}

impl PartialDecrypt for Caesar {
    open spec fn decrypted_view(&self, s: Seq<u8>, offset: int, stride: int) -> Seq<u8> {
        transformed(self, s, offset, stride, false)
    }

    fn decrypt_partial(&self, buf: PartialBuffer) -> (r: Result<PartialBuffer, CipherError>) {
        Ok(transform(self, buf, false))
    }
}

impl HeuristicTarget for Caesar {
    type KeyParam = NoParam;

    open spec fn key_id(&self) -> Seq<u8> {
        seq![self@]
    }

    open spec fn enumerable(param: NoParam) -> bool {
        true
    }

    closed spec fn key_space(param: NoParam) -> Seq<Caesar> {
        Seq::new(26, |i: int| Caesar { shift: i as u8 })
    }

    open spec fn rank(&self, param: NoParam) -> int {
        self@ as int
    }

    open spec fn of_shape(&self, param: NoParam) -> bool {
        self@ < 26
    }

    /// Every shift is one change away from every other.
    open spec fn neighbour(&self, other: &Self, param: NoParam) -> bool {
        other@ < 26
    }

    fn rand_key(param: NoParam, rng: &mut StdRng) -> (key: Self) {
        Caesar::from_draw(below(rng, 26))
    }

    fn tweak_key(&self, param: NoParam, rng: &mut StdRng) -> (key: Self) {
        Caesar::from_draw(below(rng, 26))
    }

    fn next_key(key: Option<Self>, param: NoParam) -> (r: Option<Self>) {
        match key {
            Some(k) => {
                if k.shift == Char::MAX - 1 {
                    None
                } else {
                    Some(Caesar { shift: k.shift + 1 })
                }
            },
            None => Some(Caesar { shift: 0 }),
        }
    }

    fn same_key(&self, other: &Self) -> (b: bool) {
        let b = self.shift == other.shift;
        assert(b == (seq![self@] == seq![other@])) by {
            if !b {
                assert(seq![self@][0] != seq![other@][0]);
            }
        }
        b
    }

    fn copy_key(&self) -> (key: Self) {
        Caesar { shift: self.shift }
    }

    proof fn lemma_key_space(param: NoParam, i: int, j: int) {
        if i != j {
            assert(seq![Self::key_space(param)[i]@][0] != seq![Self::key_space(param)[j]@][0]);
        }
    }
}

impl Caesar {
    /// The key that a drawn number stands for: the shift `draw` modulo 26.
    /// A random key and a tweaked key are this key of the number drawn.
    pub fn from_draw(draw: usize) -> (key: Self)
        ensures
            key@ == draw % 26,
    {
        Caesar { shift: (draw % 26) as u8 }
    }

    /// An exhaustive search over the shifts tries each of the 26 shifts once,
    /// and the candidate that heads its list has the greatest score of all
    /// 26 decryptions that can be scored.
    pub proof fn lemma_exhaustive_search(
        text: Seq<u8>,
        method: ScoreMethod,
        table: Seq<i32>,
        capacity: int,
    )
        requires
            capacity > 0,
        ensures
            Self::key_space(NoParam).len() == 26,
            forall|i: int| 0 <= i < 26 ==> (#[trigger] Self::key_space(NoParam)[i])@ == i,
            drawn_from(
                swept(Self::key_space(NoParam), 26, text, method, table, capacity),
                Self::key_space(NoParam),
                26,
                text,
                method,
                table,
            ),
            best_first(
                swept(Self::key_space(NoParam), 26, text, method, table, capacity),
                Self::key_space(NoParam),
                26,
                text,
                method,
                table,
            ),
    {
        let space = Self::key_space(NoParam);
        assert forall|i: int, j: int|
            0 <= i < space.len() && 0 <= j < space.len() && i != j implies space[i].key_id()
            != space[j].key_id() by {
            Self::lemma_key_space(NoParam, i, j);
        }
        lemma_sweep_best(space, 26, text, method, table, capacity);
    }

    /// With room for 26 candidates, an exhaustive search over the shifts of a
    /// text that every shift decrypts to something that can be scored keeps
    /// all 26: one candidate for each shift, the best first.
    pub proof fn lemma_exhaustive_search_keeps_all(
        text: Seq<u8>,
        method: ScoreMethod,
        table: Seq<i32>,
        capacity: int,
    )
        requires
            capacity >= 26,
            forall|j: int|
                0 <= j < 26 ==> (#[trigger] candidate(
                    Self::key_space(NoParam)[j],
                    text,
                    method,
                    table,
                )).score > min_score(),
        ensures
            swept(Self::key_space(NoParam), 26, text, method, table, capacity).len() == 26,
            holds_all(
                swept(Self::key_space(NoParam), 26, text, method, table, capacity),
                Self::key_space(NoParam),
                26,
                text,
                method,
                table,
            ),
            sorted(swept(Self::key_space(NoParam), 26, text, method, table, capacity)),
            distinct(swept(Self::key_space(NoParam), 26, text, method, table, capacity)),
    {
        let space = Self::key_space(NoParam);
        assert forall|i: int, j: int|
            0 <= i < space.len() && 0 <= j < space.len() && i != j implies space[i].key_id()
            != space[j].key_id() by {
            Self::lemma_key_space(NoParam, i, j);
        }
        lemma_sweep_best(space, 26, text, method, table, capacity);
        lemma_sweep_keeps_all(space, 26, text, method, table, capacity);
    }
}

} // verus!
