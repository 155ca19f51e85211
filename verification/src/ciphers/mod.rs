//! The cipher transforms and what each of them owes: encryption and
//! decryption are total on well-formed input and undo each other.

use crate::buffer::{selected, symbols_wf, Buffer, PartialBuffer};
use crate::symbol::Char;
use vstd::arithmetic::div_mod::lemma_fundamental_div_mod_converse;
use vstd::prelude::*;

pub mod affine;
pub mod caesar;
pub mod substitution;
pub mod transposition;
pub mod vigenere;

pub use self::affine::Affine;
pub use self::caesar::Caesar;
pub use self::substitution::Substitution;
pub use self::transposition::Transposition;
pub use self::vigenere::Vigenere;

verus! {

/// Why a cipher could not be applied.
#[derive(Copy, Clone, Debug, PartialEq, Eq, Structural)]
pub enum CipherError {
    /// The key does not describe a transform.
    MalformedKey,
}

impl CipherError {
    pub fn message(&self) -> (r: String)
        ensures
            r@ == "malformed key"@,
    {
        "malformed key".to_owned()
    }
}

/// A cipher that works symbol by symbol: what becomes of a symbol depends on
/// the key, on the symbol, and on its place `k` in the stream.
pub trait SymbolCipher {
    /// The key describes a transform.
    spec fn ready(&self) -> bool;

    /// The symbol that stands for `x` at place `k` after encryption.
    spec fn forward(&self, k: int, x: u8) -> u8;

    /// The symbol that stands for `x` at place `k` after decryption.
    spec fn backward(&self, k: int, x: u8) -> u8;

    fn encrypt_symbol(&self, k: usize, x: Char) -> (y: Char)
        requires
            self.ready(),
            x.wf(),
        ensures
            y@ == self.forward(k as int, x@),
            y.wf(),
    ;

    fn decrypt_symbol(&self, k: usize, x: Char) -> (y: Char)
        requires
            self.ready(),
            x.wf(),
        ensures
            y@ == self.backward(k as int, x@),
            y.wf(),
    ;

    /// Decryption undoes encryption at every place.
    proof fn lemma_inverse(&self, k: int, x: u8)
        requires
            self.ready(),
            0 <= k,
            x < 26,
        ensures
            self.backward(k, self.forward(k, x)) == x,
    ;
}

/// The symbols `s` with the cipher applied along a view: the symbol at the
/// `k`-th selected position is encrypted (or, if `encrypting` is false,
/// decrypted) as place `k`; all others stay.
pub open spec fn transformed<C: SymbolCipher>(
    c: &C,
    s: Seq<u8>,
    offset: int,
    stride: int,
    encrypting: bool,
) -> Seq<u8> {
    Seq::new(
        s.len(),
        |p: int|
            if selected(p, offset, stride) {
                if encrypting {
                    c.forward((p - offset) / stride, s[p])
                } else {
                    c.backward((p - offset) / stride, s[p])
                }
            } else {
                s[p]
            },
    )
}

/// Applies a symbol cipher along a view, in place.
pub fn transform<C: SymbolCipher>(c: &C, buf: PartialBuffer, encrypting: bool) -> (out:
    PartialBuffer)
    requires
        c.ready(),
        buf.wf(),
        buf.buffer().wf(),
    ensures
        out.wf(),
        out.offset() == buf.offset(),
        out.stride() == buf.stride(),
        out.buffer().text() == buf.buffer().text(),
        out.buffer().wf(),
        out.buffer()@ == transformed(
            c,
            buf.buffer()@,
            buf.offset() as int,
            buf.stride() as int,
            encrypting,
        ),
{
    let mut out = buf;
    let n = out.buffer_len();
    let offset = out.start();
    let stride = out.step();
    let ghost s = buf.buffer()@;
    let ghost goal = transformed(c, s, offset as int, stride as int, encrypting);
    let mut pos: usize = if offset < n {
        offset
    } else {
        n
    };
    let mut k: usize = 0;
    proof {
        assert forall|p: int| 0 <= p < pos implies !selected(p, offset as int, stride as int) by {}
        assert(0 * (stride as int) == 0);
    }
    while pos < n
        invariant
            c.ready(),
            stride > 0,
            stride == buf.stride(),
            offset == buf.offset(),
            n == s.len(),
            s == buf.buffer()@,
            symbols_wf(s),
            goal == transformed(c, s, offset as int, stride as int, encrypting),
            out.offset() == offset,
            out.stride() == stride,
            out.buffer().text() == buf.buffer().text(),
            out.buffer()@.len() == n,
            pos <= n,
            k <= pos,
            pos < n ==> pos - offset == k * stride,
            forall|p: int| 0 <= p < pos ==> out.buffer()@[p] == goal[p] && goal[p] < 26,
            forall|p: int| pos <= p < n ==> out.buffer()@[p] == s[p],
        decreases n - pos,
    {
        let x = out.get_at(pos);
        assert(x@ == s[pos as int]);
        proof {
            lemma_fundamental_div_mod_converse(pos - offset, stride as int, k as int, 0);
        }
        let y = if encrypting {
            c.encrypt_symbol(k, x)
        } else {
            c.decrypt_symbol(k, x)
        };
        out.set_at(pos, y);
        let following: usize = if n - pos > stride {
            pos + stride
        } else {
            n
        };
        proof {
            assert forall|p: int| pos < p < following implies out.buffer()@[p] == goal[p]
                && goal[p] < 26 by {
                lemma_fundamental_div_mod_converse(p - offset, stride as int, k as int, p - pos);
            }
            assert((k + 1) * stride == k * stride + stride) by (nonlinear_arith);
        }
        pos = following;
        k = k + 1;
    }
    assert(out.buffer()@ =~= goal);
    out
}

/// Along any view, decrypting what was encrypted gives the symbols back.
pub proof fn lemma_transform_round_trip<C: SymbolCipher>(
    c: &C,
    s: Seq<u8>,
    offset: int,
    stride: int,
)
    requires
        c.ready(),
        symbols_wf(s),
        0 <= offset,
        0 < stride,
    ensures
        transformed(c, transformed(c, s, offset, stride, true), offset, stride, false) == s,
{
    let e = transformed(c, s, offset, stride, true);
    let d = transformed(c, e, offset, stride, false);
    assert forall|p: int| 0 <= p < s.len() implies d[p] == s[p] by {
        if selected(p, offset, stride) {
            let k = (p - offset) / stride;
            assert(k >= 0) by (nonlinear_arith)
                requires
                    k == (p - offset) / stride,
                    p - offset >= 0,
                    stride > 0,
            ;
            c.lemma_inverse(k, s[p]);
        }
    }
    assert(d =~= s);
}

/// A cipher that can encrypt a buffer.
pub trait Encrypt {
    /// The key describes a transform.
    spec fn can_encrypt(&self) -> bool;

    /// The symbols that stand for `s` after encryption.
    spec fn encrypted(&self, s: Seq<u8>) -> Seq<u8>;

    fn encrypt(&self, buf: Buffer) -> (r: Result<Buffer, CipherError>)
        requires
            self.can_encrypt(),
            buf.wf(),
        ensures
            r matches Ok(b) && b@ == self.encrypted(buf@) && b@.len() == buf@.len() && b.text()
                == buf.text() && b.wf(),
    ;
}

/// A cipher that can decrypt a buffer.
pub trait Decrypt {
    /// The key describes a transform.
    spec fn can_decrypt(&self) -> bool;

    /// The symbols that stand for `s` after decryption.
    spec fn decrypted(&self, s: Seq<u8>) -> Seq<u8>;

    fn decrypt(&self, buf: Buffer) -> (r: Result<Buffer, CipherError>)
        requires
            self.can_decrypt(),
            buf.wf(),
        ensures
            r matches Ok(b) && b@ == self.decrypted(buf@) && b@.len() == buf@.len() && b.text()
                == buf.text() && b.wf(),
    ;
}

/// A cipher that can encrypt along a view.
pub trait PartialEncrypt: Encrypt {
    /// The symbols of the whole buffer after encryption along the view.
    spec fn encrypted_view(&self, s: Seq<u8>, offset: int, stride: int) -> Seq<u8>;

    fn encrypt_partial(&self, buf: PartialBuffer) -> (r: Result<PartialBuffer, CipherError>)
        requires
            self.can_encrypt(),
            buf.wf(),
            buf.buffer().wf(),
        ensures
            r matches Ok(out) && out.wf() && out.offset() == buf.offset() && out.stride()
                == buf.stride() && out.buffer().text() == buf.buffer().text() && out.buffer().wf()
                && out.buffer()@ == self.encrypted_view(
                buf.buffer()@,
                buf.offset() as int,
                buf.stride() as int,
            ),
    ;
}

/// A cipher that can decrypt along a view.
pub trait PartialDecrypt: Decrypt {
    /// The symbols of the whole buffer after decryption along the view.
    spec fn decrypted_view(&self, s: Seq<u8>, offset: int, stride: int) -> Seq<u8>;

    fn decrypt_partial(&self, buf: PartialBuffer) -> (r: Result<PartialBuffer, CipherError>)
        requires
            self.can_decrypt(),
            buf.wf(),
            buf.buffer().wf(),
        ensures
            r matches Ok(out) && out.wf() && out.offset() == buf.offset() && out.stride()
                == buf.stride() && out.buffer().text() == buf.buffer().text() && out.buffer().wf()
                && out.buffer()@ == self.decrypted_view(
                buf.buffer()@,
                buf.offset() as int,
                buf.stride() as int,
            ),
    ;
}

} // verus!
