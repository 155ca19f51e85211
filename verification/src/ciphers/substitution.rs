//! The substitution cipher: every letter is replaced by the letter that a
//! fixed table gives for it.

use crate::buffer::{push_char, symbols_wf, Buffer, PartialBuffer};
use crate::ciphers::vigenere::{ascii_is_letters, read_shifts, shifts_of};
use crate::ciphers::{
    lemma_transform_round_trip, transform, transformed, CipherError, Decrypt, Encrypt,
    PartialDecrypt, PartialEncrypt, SymbolCipher,
};
use crate::meta::{HeuristicTarget, NoParam};
use crate::random::{below, shuffle};
use crate::symbol::{is_ascii_letter, letter_index, upper_letter, Char};
use crate::text::chars_of;
use rand::rngs::StdRng;
use vstd::prelude::*;
use vstd::std_specs::cmp::PartialEqSpecImpl;

verus! {

/// A table of 26 symbols as a sequence of positions in the alphabet.
pub open spec fn table_view(table: [Char; 26]) -> Seq<u8> {
    Seq::new(26, |i: int| table@[i]@)
}

/// The last place before `upto` at which `key` holds `v`; 0 if there is none.
pub open spec fn last_index(key: Seq<u8>, v: u8, upto: int) -> int
    decreases upto,
{
    if upto <= 0 {
        0
    } else if key[upto - 1] == v {
        upto - 1
    } else {
        last_index(key, v, upto - 1)
    }
}

/// The table that undoes `key`: for each symbol the last place at which `key`
/// holds it.
pub open spec fn inverse_of(key: Seq<u8>) -> Seq<u8> {
    Seq::new(26, |v: int| last_index(key, v as u8, 26) as u8)
}

/// The symbols of `s` without repetitions, each at its first occurrence.
pub open spec fn first_occurrences(s: Seq<u8>) -> Seq<u8>
    decreases s.len(),
{
    if s.len() == 0 {
        Seq::empty()
    } else {
        let before = first_occurrences(s.drop_last());
        if before.contains(s.last()) {
            before
        } else {
            before.push(s.last())
        }
    }
}

/// `prefix`, followed in rising order by the symbols below `upto` that it lacks.
pub open spec fn completed(prefix: Seq<u8>, upto: int) -> Seq<u8>
    decreases upto,
{
    if upto <= 0 {
        prefix
    } else if prefix.contains((upto - 1) as u8) {
        completed(prefix, upto - 1)
    } else {
        completed(prefix, upto - 1).push((upto - 1) as u8)
    }
}

/// The table of a key word: its letters without repetitions, then the rest of
/// the alphabet.
pub open spec fn keyed_alphabet(word: Seq<char>) -> Seq<u8> {
    completed(first_occurrences(shifts_of(word)), 26)
}

/// The 26 symbols in rising order.
pub open spec fn alphabet() -> Seq<u8> {
    Seq::new(26, |i: int| i as u8)
}

/// The table with the entries at `c1` and `c2` exchanged.
pub open spec fn swapped(table: Seq<u8>, c1: int, c2: int) -> Seq<u8> {
    table.update(c1, table[c2]).update(c2, table[c1])
}

/// How many of the first `upto` flags are set.
pub open spec fn count_set(flags: Seq<bool>, upto: int) -> int
    decreases upto,
{
    if upto <= 0 {
        0
    } else {
        count_set(flags, upto - 1) + if flags[upto - 1] {
            1int
        } else {
            0int
        }
    }
}

/// Where no flag is set the count of set flags is zero.
pub proof fn lemma_count_set_clear(flags: Seq<bool>, upto: int)
    requires
        0 <= upto <= flags.len(),
        forall|i: int| 0 <= i < flags.len() ==> !flags[i],
    ensures
        count_set(flags, upto) == 0,
    decreases upto,
{
    if upto > 0 {
        lemma_count_set_clear(flags, upto - 1);
    }
}

/// Setting a flag that was clear raises the count of set flags by one.
pub proof fn lemma_count_set_update(flags: Seq<bool>, at: int, upto: int)
    requires
        0 <= at < flags.len(),
        0 <= upto <= flags.len(),
        !flags[at],
    ensures
        count_set(flags.update(at, true), upto) == count_set(flags, upto) + if at < upto {
            1int
        } else {
            0int
        },
        0 <= count_set(flags, upto) <= upto,
    decreases upto,
{
    if upto > 0 {
        lemma_count_set_update(flags, at, upto - 1);
    }
}

/// Where the table holds no symbol twice, its inverse leads from each symbol
/// back to the place where the table holds it.
pub proof fn lemma_last_index_of_entry(key: Seq<u8>, i: int, upto: int)
    requires
        0 <= i < upto <= key.len(),
        forall|a: int, b: int| 0 <= a < key.len() && 0 <= b < key.len() && a != b ==> key[a] != key[b],
    ensures
        last_index(key, key[i], upto) == i,
    decreases upto,
{
    if key[upto - 1] != key[i] {
        lemma_last_index_of_entry(key, i, upto - 1);
    }
}

/// Where the table holds a symbol, its inverse leads to a place where it does.
pub proof fn lemma_last_index_hits(key: Seq<u8>, v: u8, i: int, upto: int)
    requires
        0 <= i < upto <= key.len(),
        key[i] == v,
    ensures
        0 <= last_index(key, v, upto) < upto,
        key[last_index(key, v, upto)] == v,
    decreases upto,
{
    if key[upto - 1] != v {
        lemma_last_index_hits(key, v, i, upto - 1);
    }
}

/// The place that the inverse gives lies within the table.
pub proof fn lemma_last_index_bounds(key: Seq<u8>, v: u8, upto: int)
    requires
        0 <= upto,
    ensures
        0 <= last_index(key, v, upto) <= upto,
        upto > 0 ==> last_index(key, v, upto) < upto,
    decreases upto,
{
    if upto > 0 && key[upto - 1] != v {
        lemma_last_index_bounds(key, v, upto - 1);
    }
}

/// The 26 symbols of `entries` as a table.
pub fn table_from(entries: &Vec<u8>) -> (table: [Char; 26])
    requires
        entries@.len() == 26,
        symbols_wf(entries@),
    ensures
        table_view(table) == entries@,
{
    let first = Char::from_index(0);
    let mut table: [Char; 26] = [first; 26];
    let mut i: usize = 0;
    while i < 26
        invariant
            i <= 26,
            entries@.len() == 26,
            symbols_wf(entries@),
            forall|j: int| 0 <= j < i ==> table@[j]@ == entries@[j],
        decreases 26 - i,
    {
        table[i] = Char::from_index(entries[i]);
        i += 1;
    }
    assert(table_view(table) =~= entries@);
    table
}

#[derive(Debug, Clone, Copy)]
pub struct Substitution {
    key: [Char; 26],
    inverse: [Char; 26],
}

impl View for Substitution {
    type V = Seq<u8>;

    closed spec fn view(&self) -> Seq<u8> {
        table_view(self.key)
    }
}

impl Substitution {
    /// The table by which the key decrypts.
    pub closed spec fn decrypt_table(&self) -> Seq<u8> {
        table_view(self.inverse)
    }

    /// The table that undoes `key`.
    pub fn compute_inverse(key: [Char; 26]) -> (out: [Char; 26])
        requires
            symbols_wf(table_view(key)),
        ensures
            table_view(out) == inverse_of(table_view(key)),
            symbols_wf(table_view(out)),
    {
        let ghost k = table_view(key);
        let mut raw: [u8; 26] = [0u8; 26];
        let mut i: usize = 0;
        while i < 26
            invariant
                i <= 26,
                k == table_view(key),
                symbols_wf(k),
                forall|v: int| 0 <= v < 26 ==> raw@[v] == last_index(k, v as u8, i as int),
            decreases 26 - i,
        {
            let ch = key[i];
            assert(ch@ == k[i as int]);
            raw[ch.index()] = i as u8;
            i += 1;
        }
        let mut places: Vec<u8> = Vec::new();
        let mut v: usize = 0;
        while v < 26
            invariant
                v <= 26,
                places@.len() == v,
                forall|w: int| 0 <= w < 26 ==> raw@[w] == last_index(k, w as u8, 26),
                forall|w: int| 0 <= w < v ==> places@[w] == raw@[w],
                symbols_wf(places@),
            decreases 26 - v,
        {
            proof {
                lemma_last_index_bounds(k, v as u8, 26);
            }
            places.push(raw[v]);
            v += 1;
        }
        let out = table_from(&places);
        assert(table_view(out) =~= inverse_of(k));
        out
    }

    /// The key whose table is the letters of `word`, without repetitions, and
    /// then the rest of the alphabet. Characters outside ASCII are passed
    /// over; every ASCII character must be a letter.
    pub fn from_word(word: &str) -> (r: Self)
        requires
            ascii_is_letters(word@),
        ensures
            r@ == keyed_alphabet(word@),
            r.decrypt_table() == inverse_of(r@),
            r.ready(),
    {
        let letters = read_shifts(word);
        let mut flags: [bool; 26] = [false; 26];
        let mut buffer: Vec<u8> = Vec::new();
        let mut i: usize = 0;
        assert(letters@.take(0) =~= Seq::empty());
        proof {
            lemma_count_set_clear(flags@, 26);
        }
        while i < letters.len()
            invariant
                i <= letters.len(),
                symbols_wf(letters@),
                buffer@ == first_occurrences(letters@.take(i as int)),
                symbols_wf(buffer@),
                buffer@.no_duplicates(),
                forall|v: int| 0 <= v < 26 ==> flags@[v] == buffer@.contains(v as u8),
                buffer@.len() == count_set(flags@, 26),
            decreases letters.len() - i,
        {
            let x = letters[i];
            assert(letters@.take(i + 1).drop_last() =~= letters@.take(i as int));
            assert(letters@.take(i + 1).last() == x);
            if !flags[x as usize] {
                proof {
                    lemma_count_set_update(flags@, x as int, 26);
                }
                let ghost before = buffer@;
                flags[x as usize] = true;
                buffer.push(x);
                assert forall|v: int| 0 <= v < 26 implies flags@[v] == buffer@.contains(v as u8) by {
                    if v == x {
                        assert(buffer@[before.len() as int] == x);
                    } else if before.contains(v as u8) {
                        let at = choose|at: int| 0 <= at < before.len() && before[at] == v as u8;
                        assert(buffer@[at] == v as u8);
                    }
                }
            }
            i += 1;
        }
        assert(letters@.take(i as int) =~= letters@);
        let ghost prefix = buffer@;
        let mut v: u8 = 0;
        while v < 26
            invariant
                v <= 26,
                prefix == first_occurrences(letters@),
                buffer@ == completed(prefix, v as int),
                symbols_wf(buffer@),
                buffer@.no_duplicates(),
                forall|w: int| 0 <= w < 26 ==> flags@[w] == prefix.contains(w as u8),
                forall|j: int| 0 <= j < buffer@.len() ==> prefix.contains(#[trigger] buffer@[j]) || buffer@[j] < v,
                buffer@.len() == count_set(flags@, 26) + v - count_set(flags@, v as int),
            decreases 26 - v,
        {
            if !flags[v as usize] {
                buffer.push(v);
            }
            v += 1;
        }
        proof {
            assert(count_set(flags@, 26) + 26 - count_set(flags@, 26) == 26);
        }
        let key = table_from(&buffer);
        let inverse = Self::compute_inverse(key);
        let r = Self { key, inverse };
        proof {
            assert forall|x: int| 0 <= x < 26 implies r.decrypt_table()[r@[x] as int] == x by {
                lemma_last_index_of_entry(r@, x, 26);
            }
        }
        r
    }

    /// The key whose table is the 26 letters of `alphabet`, in order.
    pub fn from_alphabet(alphabet: &str) -> (r: Self)
        requires
            alphabet@.len() == 26,
            forall|i: int| 0 <= i < 26 ==> is_ascii_letter(#[trigger] alphabet@[i]),
        ensures
            r@ == Seq::new(26, |i: int| letter_index(alphabet@[i]) as u8),
            r.decrypt_table() == inverse_of(r@),
            r@.no_duplicates() ==> r.ready(),
    {
        let chars = chars_of(alphabet);
        let mut buffer: Vec<u8> = Vec::new();
        let mut i: usize = 0;
        while i < 26
            invariant
                i <= 26,
                chars@ == alphabet@,
                chars@.len() == 26,
                forall|i: int| 0 <= i < 26 ==> is_ascii_letter(#[trigger] alphabet@[i]),
                buffer@.len() == i,
                forall|j: int| 0 <= j < i ==> buffer@[j] == letter_index(alphabet@[j]) as u8,
                symbols_wf(buffer@),
            decreases 26 - i,
        {
            let c = chars[i];
            assert(is_ascii_letter(c));
            let symbol = Char::from(c);
            proof {
                Char::lemma_of_view(letter_index(c) as u8);
            }
            buffer.push(symbol.index() as u8);
            i += 1;
        }
        let key = table_from(&buffer);
        let inverse = Self::compute_inverse(key);
        let r = Self { key, inverse };
        proof {
            assert(r@ =~= Seq::new(26, |i: int| letter_index(alphabet@[i]) as u8));
            if r@.no_duplicates() {
                assert forall|x: int| 0 <= x < 26 implies r.decrypt_table()[r@[x] as int] == x by {
                    lemma_last_index_of_entry(r@, x, 26);
                }
            }
        }
        r
    }

    /// The key whose table is this one with the entries at `c1` and `c2`
    /// exchanged.
    pub fn swap_entries(&self, c1: usize, c2: usize) -> (key: Self)
        requires
            self.ready(),
            c1 < 26,
            c2 < 26,
        ensures
            key@ == swapped(self@, c1 as int, c2 as int),
            key.ready(),
    {
        let mut s = Self { key: self.key, inverse: self.inverse };
        let first = s.key[c1];
        let second = s.key[c2];
        assert(first@ == self@[c1 as int] && second@ == self@[c2 as int]);
        s.key[c1] = second;
        s.key[c2] = first;
        s.inverse[second.index()] = Char::from_index(c1 as u8);
        s.inverse[first.index()] = Char::from_index(c2 as u8);
        proof {
            assert forall|x: int| 0 <= x < 26 implies #[trigger] s@[x] < 26 by {
                assert(self@[x] < 26);
            }
            assert forall|x: int| 0 <= x < 26 implies #[trigger] s.decrypt_table()[x] < 26 by {
                assert(self.decrypt_table()[x] < 26);
            }
            assert forall|x: int| 0 <= x < 26 implies s.decrypt_table()[#[trigger] s@[x] as int]
                == x by {
                assert(self.decrypt_table()[self@[x] as int] == x);
                assert(self.decrypt_table()[self@[c1 as int] as int] == c1);
                assert(self.decrypt_table()[self@[c2 as int] as int] == c2);
            }
            assert(s@ =~= swapped(self@, c1 as int, c2 as int));
        }
        s
    }

    /// The table of the key as 26 capital letters.
    pub fn to_string(&self) -> (r: String)
        requires
            symbols_wf(self@),
        ensures
            r@ == Seq::new(26, |i: int| upper_letter(self@[i] as int)),
    {
        let mut out = String::new();
        let mut i: usize = 0;
        while i < 26
            invariant
                i <= 26,
                symbols_wf(self@),
                out@ == Seq::new(i as nat, |j: int| upper_letter(self@[j] as int)),
            decreases 26 - i,
        {
            let ghost before = out@;
            let c = self.key[i];
            assert(c@ == self@[i as int]);
            let letter = c.to_upper();
            push_char(&mut out, letter);
            assert(out@ =~= Seq::new((i + 1) as nat, |j: int| upper_letter(self@[j] as int)));
            i += 1;
        }
        out
    }

    /// Decrypting an encrypted text gives the text back.
    pub proof fn lemma_decrypt_encrypt(&self, s: Seq<u8>)
        requires
            self.ready(),
            symbols_wf(s),
        ensures
            self.decrypted(self.encrypted(s)) == s,
    {
        lemma_transform_round_trip(self, s, 0, 1);
    }
}

impl PartialEq for Substitution {
    fn eq(&self, other: &Substitution) -> (r: bool) {
        self.same_key(other)
    }
}

impl PartialEqSpecImpl for Substitution {
    open spec fn obeys_eq_spec() -> bool {
        true
    }

    open spec fn eq_spec(&self, other: &Substitution) -> bool {
        self@ == other@
    }
}

impl SymbolCipher for Substitution {
    open spec fn ready(&self) -> bool {
        &&& symbols_wf(self@)
        &&& symbols_wf(self.decrypt_table())
        &&& forall|x: int| 0 <= x < 26 ==> self.decrypt_table()[#[trigger] self@[x] as int] == x
    }

    open spec fn forward(&self, k: int, x: u8) -> u8 {
        self@[x as int]
    }

    open spec fn backward(&self, k: int, x: u8) -> u8 {
        self.decrypt_table()[x as int]
    }

    fn encrypt_symbol(&self, k: usize, x: Char) -> (y: Char) {
        let y = self.key[x.index()];
        assert(y@ == self@[x@ as int]);
        y
    }

    fn decrypt_symbol(&self, k: usize, x: Char) -> (y: Char) {
        let y = self.inverse[x.index()];
        assert(y@ == self.decrypt_table()[x@ as int]);
        y
    }

    proof fn lemma_inverse(&self, k: int, x: u8) {
        assert(self.decrypt_table()[self@[x as int] as int] == x);
    }
}

impl Encrypt for Substitution {
    open spec fn can_encrypt(&self) -> bool {
        self.ready()
    }

    open spec fn encrypted(&self, s: Seq<u8>) -> Seq<u8> {
        transformed(self, s, 0, 1, true)
    }

    fn encrypt(&self, buf: Buffer) -> (r: Result<Buffer, CipherError>) {
        Ok(transform(self, PartialBuffer::from(buf), true).into_buffer())
    }
}

impl Decrypt for Substitution {
    open spec fn can_decrypt(&self) -> bool {
        self.ready()
    }

    open spec fn decrypted(&self, s: Seq<u8>) -> Seq<u8> {
        transformed(self, s, 0, 1, false)
    }

    fn decrypt(&self, buf: Buffer) -> (r: Result<Buffer, CipherError>) {
        Ok(transform(self, PartialBuffer::from(buf), false).into_buffer())
    }
}

impl PartialEncrypt for Substitution {
    open spec fn encrypted_view(&self, s: Seq<u8>, offset: int, stride: int) -> Seq<u8> {
        transformed(self, s, offset, stride, true)
    }

    fn encrypt_partial(&self, buf: PartialBuffer) -> (r: Result<PartialBuffer, CipherError>) {
        Ok(transform(self, buf, true))
    }
}

impl PartialDecrypt for Substitution {
    open spec fn decrypted_view(&self, s: Seq<u8>, offset: int, stride: int) -> Seq<u8> {
        transformed(self, s, offset, stride, false)
    }

    fn decrypt_partial(&self, buf: PartialBuffer) -> (r: Result<PartialBuffer, CipherError>) {
        Ok(transform(self, buf, false))
    }
}

impl HeuristicTarget for Substitution {
    type KeyParam = NoParam;

    open spec fn key_id(&self) -> Seq<u8> {
        self@
    }

    /// The 26! tables are never listed one after another: an exhaustive
    /// search over them would not end in any useful time, so none can be
    /// started, and `next_key` is never to be called.
    open spec fn enumerable(param: NoParam) -> bool {
        false
    }

    open spec fn key_space(param: NoParam) -> Seq<Substitution> {
        Seq::empty()
    }

    open spec fn rank(&self, param: NoParam) -> int {
        0
    }

    /// A drawn key decrypts by a rearrangement of the alphabet.
    open spec fn of_shape(&self, param: NoParam) -> bool {
        &&& self.decrypt_table().to_multiset() == alphabet().to_multiset()
        &&& self@ == inverse_of(self.decrypt_table())
    }

    /// A neighbour has two entries of the table exchanged.
    open spec fn neighbour(&self, other: &Self, param: NoParam) -> bool {
        exists|c1: int, c2: int|
            0 <= c1 < 26 && 0 <= c2 < 26 && #[trigger] swapped(self@, c1, c2) == other@
    }

    fn rand_key(param: NoParam, rng: &mut StdRng) -> (key: Self) {
        let mut buffer: Vec<u8> = Vec::new();
        let mut v: u8 = 0;
        while v < 26
            invariant
                v <= 26,
                buffer@.len() == v,
                forall|j: int| 0 <= j < v ==> buffer@[j] == j,
            decreases 26 - v,
        {
            buffer.push(v);
            v += 1;
        }
        let ghost ordered = buffer@;
        assert(ordered =~= alphabet());
        shuffle(&mut buffer, rng);
        proof {
            ordered.to_multiset_ensures();
            buffer@.to_multiset_ensures();
            assert(buffer@.len() == 26);
            assert forall|j: int| 0 <= j < buffer@.len() implies #[trigger] buffer@[j] < 26 by {
                let e = buffer@[j];
                assert(buffer@.contains(e));
                assert(buffer@.to_multiset().count(e) > 0);
                assert(ordered.to_multiset().count(e) > 0);
                assert(ordered.contains(e));
            }
            assert forall|x: u8| x < 26 implies buffer@.contains(x) by {
                assert(ordered[x as int] == x);
                assert(ordered.contains(x));
                assert(ordered.to_multiset().count(x) > 0);
                assert(buffer@.to_multiset().count(x) > 0);
            }
        }
        let inverse = table_from(&buffer);
        let key = Self::compute_inverse(inverse);
        let r = Self { key, inverse };
        proof {
            assert forall|x: int| 0 <= x < 26 implies r.decrypt_table()[#[trigger] r@[x] as int]
                == x by {
                assert(buffer@.contains(x as u8));
                let at = choose|at: int| 0 <= at < buffer@.len() && buffer@[at] == x as u8;
                lemma_last_index_hits(buffer@, x as u8, at, 26);
            }
        }
        r
    }

    fn tweak_key(&self, param: NoParam, rng: &mut StdRng) -> (key: Self) {
        let c1 = below(rng, 26);
        let c2 = below(rng, 26);
        let key = self.swap_entries(c1, c2);
        assert(swapped(self@, c1 as int, c2 as int) == key@);
        key
    }

    /// Never to be called: the keys of a substitution are not `enumerable`.
    fn next_key(key: Option<Self>, param: NoParam) -> (r: Option<Self>) {
        None
    }

    fn same_key(&self, other: &Self) -> (b: bool) {
        let mut i: usize = 0;
        while i < 26
            invariant
                i <= 26,
                forall|j: int| 0 <= j < i ==> self@[j] == other@[j],
            decreases 26 - i,
        {
            if self.key[i].index() != other.key[i].index() {
                assert(self@[i as int] != other@[i as int]);
                return false;
            }
            i += 1;
        }
        assert(self@ =~= other@);
        true
    }

    fn copy_key(&self) -> (key: Self) {
        Self { key: self.key, inverse: self.inverse }
    }

    proof fn lemma_key_space(param: NoParam, i: int, j: int) {
    }
}

} // verus!
