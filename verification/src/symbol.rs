//! One letter of the 26-symbol alphabet, with arithmetic modulo 26.

use std::ops::{Add, Mul, Sub};
use vstd::prelude::*;
use vstd::std_specs::convert::FromSpecImpl;
use vstd::std_specs::ops::{AddSpecImpl, MulSpecImpl, SubSpecImpl};

verus! {

/// `(a + b) mod 26`.
pub open spec fn add_mod(a: int, b: int) -> int {
    (a + b) % 26
}

/// `(a - b) mod 26`, always in `0..26`.
pub open spec fn sub_mod(a: int, b: int) -> int {
    (a - b) % 26
}

/// `(a * b) mod 26`.
pub open spec fn mul_mod(a: int, b: int) -> int {
    (a * b) % 26
}

/// Whether `c` is one of the 52 ASCII letters.
pub open spec fn is_ascii_letter(c: char) -> bool {
    ('A' <= c && c <= 'Z') || ('a' <= c && c <= 'z')
}

/// Whether `c` is an ASCII capital letter.
pub open spec fn is_ascii_upper(c: char) -> bool {
    'A' <= c && c <= 'Z'
}

/// The position in the alphabet of an ASCII letter, regardless of case.
pub open spec fn letter_index(c: char) -> int {
    if is_ascii_upper(c) {
        c as int - 'A' as int
    } else {
        c as int - 'a' as int
    }
}

/// The capital letter at position `i` of the alphabet.
pub open spec fn upper_letter(i: int) -> char {
    (i + 'A' as int) as char
}

/// The small letter at position `i` of the alphabet.
pub open spec fn lower_letter(i: int) -> char {
    (i + 'a' as int) as char
}

/// A symbol: the position of a letter in the alphabet, case set aside.
#[derive(Copy, Clone, Debug, PartialEq, Eq, PartialOrd, Ord, Structural)]
pub struct Char {
    c: u8,
}

impl View for Char {
    type V = u8;

    closed spec fn view(&self) -> u8 {
        self.c
    }
}

impl Char {
    /// The number of symbols.
    pub const MAX: u8 = 26;

    /// A symbol is well formed when it names one of the 26 letters.
    pub open spec fn wf(self) -> bool {
        self@ < 26
    }

    /// The symbol at position `v`, as a specification value.
    pub closed spec fn of(v: u8) -> Char {
        Char { c: v }
    }

    /// The symbol at position `v` has position `v`.
    pub proof fn lemma_of_view(v: u8)
        ensures
            Char::of(v)@ == v,
    {
    }

    /// The capital letter of the symbol.
    pub fn to_upper(self) -> (r: char)
        requires
            self.wf(),
        ensures
            r == upper_letter(self@ as int),
            is_ascii_upper(r),
            letter_index(r) == self@,
    {
        (self.c + 65u8) as char
    }

    /// The small letter of the symbol.
    pub fn to_lower(self) -> (r: char)
        requires
            self.wf(),
        ensures
            r == lower_letter(self@ as int),
            is_ascii_letter(r),
            !is_ascii_upper(r),
            letter_index(r) == self@,
    {
        (self.c + 97u8) as char
    }

    /// The symbol `other` places further on, around the alphabet.
    pub fn plus(self, other: u8) -> (r: Char)
        ensures
            r@ == add_mod(self@ as int, other as int),
            r.wf(),
            r == Char::of(add_mod(self@ as int, other as int) as u8),
    {
        let sum: u16 = (self.c as u16 + other as u16) % 26u16;
        Char { c: sum as u8 }
    }

    /// The symbol `other` places back, around the alphabet.
    pub fn minus(self, other: u8) -> (r: Char)
        ensures
            r@ == sub_mod(self@ as int, other as int),
            r.wf(),
            r == Char::of(sub_mod(self@ as int, other as int) as u8),
    {
        let lifted: u16 = self.c as u16 + 260u16 - other as u16;
        let low: u16 = lifted % 26u16;
        assert(low as int == sub_mod(self.c as int, other as int)) by {
            assert((self.c as int - other as int + 26 * 10) % 26 == (self.c as int - other as int)
                % 26) by (nonlinear_arith);
        }
        Char { c: low as u8 }
    }

    /// The symbol at `other` times this position, around the alphabet.
    pub fn times(self, other: u8) -> (r: Char)
        ensures
            r@ == mul_mod(self@ as int, other as int),
            r.wf(),
            r == Char::of(mul_mod(self@ as int, other as int) as u8),
    {
        let left: u32 = self.c as u32;
        let right: u32 = other as u32;
        assert(left * right <= 255 * 255) by (nonlinear_arith)
            requires
                left <= 255,
                right <= 255,
        ;
        let product: u32 = (left * right) % 26u32;
        Char { c: product as u8 }
    }

    /// The symbol at position `v` of the alphabet.
    pub fn from_index(v: u8) -> (r: Char)
        requires
            v < 26,
        ensures
            r@ == v,
            r.wf(),
    {
        Char { c: v }
    }

    /// The position of the symbol, `0..26`.
    pub fn index(self) -> (r: usize)
        ensures
            r == self@,
    {
        self.c as usize
    }
}

impl Add<u8> for Char {
    type Output = Char;

    fn add(self, other: u8) -> (r: Char) {
        self.plus(other)
    }
}

impl AddSpecImpl<u8> for Char {
    open spec fn obeys_add_spec() -> bool {
        true
    }

    open spec fn add_req(self, other: u8) -> bool {
        true
    }

    open spec fn add_spec(self, other: u8) -> Char {
        Char::of(add_mod(self@ as int, other as int) as u8)
    }
}

impl Sub<u8> for Char {
    type Output = Char;

    fn sub(self, other: u8) -> (r: Char) {
        self.minus(other)
    }
}

impl SubSpecImpl<u8> for Char {
    open spec fn obeys_sub_spec() -> bool {
        true
    }

    open spec fn sub_req(self, other: u8) -> bool {
        true
    }

    open spec fn sub_spec(self, other: u8) -> Char {
        Char::of(sub_mod(self@ as int, other as int) as u8)
    }
}

impl Mul<u8> for Char {
    type Output = Char;

    fn mul(self, other: u8) -> (r: Char) {
        self.times(other)
    }
}

impl MulSpecImpl<u8> for Char {
    open spec fn obeys_mul_spec() -> bool {
        true
    }

    open spec fn mul_req(self, other: u8) -> bool {
        true
    }

    open spec fn mul_spec(self, other: u8) -> Char {
        Char::of(mul_mod(self@ as int, other as int) as u8)
    }
}

impl From<u8> for Char {
    fn from(c: u8) -> (r: Char) {
        Char { c }
    }
}

impl FromSpecImpl<u8> for Char {
    open spec fn obeys_from_spec() -> bool {
        true
    }

    open spec fn from_spec(c: u8) -> Char {
        Char::of(c)
    }
}

impl From<char> for Char {
    fn from(c: char) -> (r: Char) {
        if 'A' <= c && c <= 'Z' {
            Char { c: (c as u8) - 65u8 }
        } else if 'a' <= c && c <= 'z' {
            Char { c: (c as u8) - 97u8 }
        } else {
            Char { c: 0 }
        }
    }
}

impl FromSpecImpl<char> for Char {
    open spec fn obeys_from_spec() -> bool {
        true
    }

    open spec fn from_spec(c: char) -> Char {
        Char::of(
            if is_ascii_letter(c) {
                letter_index(c) as u8
            } else {
                0u8
            },
        )
    }
}

impl From<Char> for u8 {
    fn from(c: Char) -> (r: u8) {
        c.c
    }
}

impl FromSpecImpl<Char> for u8 {
    open spec fn obeys_from_spec() -> bool {
        true
    }

    open spec fn from_spec(c: Char) -> u8 {
        c@
    }
}

impl From<Char> for char {
    fn from(c: Char) -> (r: char) {
        if c.c < 26 {
            c.to_upper()
        } else {
            'A'
        }
    }
}

impl FromSpecImpl<Char> for char {
    open spec fn obeys_from_spec() -> bool {
        true
    }

    open spec fn from_spec(c: Char) -> char {
        if c@ < 26 {
            upper_letter(c@ as int)
        } else {
            'A'
        }
    }
}

} // verus!
