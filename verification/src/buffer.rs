//! Alphabet-mapped text: the symbols of a source text, the text itself for
//! display, and strided views over the symbols.

use crate::symbol::{is_ascii_letter, is_ascii_upper, letter_index, lower_letter, upper_letter, Char};
use crate::text::chars_of;
use std::sync::Arc;
use vstd::prelude::*;
use vstd::std_specs::cmp::PartialEqSpecImpl;

verus! {

/// What `char::is_alphabetic` answers for `c`: whether the character has the
/// Unicode property Alphabetic. The library asks it of characters outside
/// ASCII only.
pub uninterp spec fn unicode_alphabetic(c: char) -> bool;

/// What `char::is_uppercase` answers for `c`: whether the character has the
/// Unicode property Uppercase. The library asks it of characters outside
/// ASCII only.
pub uninterp spec fn unicode_uppercase(c: char) -> bool;

/// Whether `c` lies in the ASCII range.
pub open spec fn is_ascii_char(c: char) -> bool {
    c <= '\x7f'
}

/// Whether `c` counts as a letter of the text: an ASCII letter, or a character
/// beyond ASCII that Unicode classes as alphabetic.
pub open spec fn is_letter(c: char) -> bool {
    if is_ascii_char(c) {
        is_ascii_letter(c)
    } else {
        unicode_alphabetic(c)
    }
}

/// Whether `c` is written in upper case.
pub open spec fn is_upper(c: char) -> bool {
    if is_ascii_char(c) {
        is_ascii_upper(c)
    } else {
        unicode_uppercase(c)
    }
}

/// Whether every letter of `text` is an ASCII letter.
pub open spec fn letters_are_ascii(text: Seq<char>) -> bool {
    forall|i: int| 0 <= i < text.len() && is_letter(#[trigger] text[i]) ==> is_ascii_char(text[i])
}

/// The symbols of `text`: its letters, in order, each as its position in the
/// alphabet; every other character is left out.
pub open spec fn symbols_of(text: Seq<char>) -> Seq<u8>
    decreases text.len(),
{
    if text.len() == 0 {
        Seq::empty()
    } else if is_letter(text[0]) {
        seq![letter_index(text[0]) as u8] + symbols_of(text.drop_first())
    } else {
        symbols_of(text.drop_first())
    }
}

/// The letter for `symbol` in the case of the character `like`.
pub open spec fn cased(like: char, symbol: u8) -> char {
    if is_upper(like) {
        upper_letter(symbol as int)
    } else {
        lower_letter(symbol as int)
    }
}

/// How many letters `text` holds.
pub open spec fn letter_count(text: Seq<char>) -> nat
    decreases text.len(),
{
    if text.len() == 0 {
        0
    } else if is_letter(text[0]) {
        1 + letter_count(text.drop_first())
    } else {
        letter_count(text.drop_first())
    }
}

/// `original` with its letters replaced, one by one and in order, by the
/// letters for `symbols`, each in the case of the letter it replaces; there
/// are as many symbols as letters.
pub open spec fn render_text(original: Seq<char>, symbols: Seq<u8>) -> Seq<char>
    decreases original.len(),
{
    if original.len() == 0 {
        Seq::empty()
    } else if is_letter(original[0]) {
        seq![cased(original[0], symbols[0])] + render_text(
            original.drop_first(),
            symbols.drop_first(),
        )
    } else {
        seq![original[0]] + render_text(original.drop_first(), symbols)
    }
}

/// Number of symbols that a view with this offset and stride selects out of `n`.
pub open spec fn strided_len(n: int, offset: int, stride: int) -> int {
    if offset >= n {
        0
    } else {
        (n - offset + stride - 1) / stride
    }
}

/// Whether position `p` of the buffer belongs to the view.
pub open spec fn selected(p: int, offset: int, stride: int) -> bool {
    p >= offset && (p - offset) % stride == 0
}

/// All symbols of a sequence name letters.
pub open spec fn symbols_wf(s: Seq<u8>) -> bool {
    forall|i: int| 0 <= i < s.len() ==> #[trigger] s[i] < 26
}

/// Calls `char::is_alphabetic`. The contract only names the answer.
#[verifier::external_body]
fn has_alphabetic_property(c: char) -> (b: bool)
    ensures
        b == unicode_alphabetic(c),
{
    c.is_alphabetic()
}

/// Calls `char::is_uppercase`. The contract only names the answer.
#[verifier::external_body]
fn has_uppercase_property(c: char) -> (b: bool)
    ensures
        b == unicode_uppercase(c),
{
    c.is_uppercase()
}

/// Calls `String::push`, which appends one character to a string: afterwards
/// the string is the old one with `c` at its end.
#[verifier::external_body]
pub(crate) fn push_char(s: &mut String, c: char)
    ensures
        final(s)@ == old(s)@.push(c),
{
    s.push(c)
}

/// Calls `Arc::clone`, which hands out another handle to the same shared
/// text: the new handle leads to the same string.
#[verifier::external_body]
fn share_text(text: &Arc<String>) -> (r: Arc<String>)
    ensures
        r == *text,
{
    Arc::clone(text)
}

/// Whether a character is a letter of the text.
pub fn letter(c: char) -> (b: bool)
    ensures
        b == is_letter(c),
{
    if c <= '\x7f' {
        ('A' <= c && c <= 'Z') || ('a' <= c && c <= 'z')
    } else {
        has_alphabetic_property(c)
    }
}

/// Whether a character is written in upper case.
pub fn upper(c: char) -> (b: bool)
    ensures
        b == is_upper(c),
{
    if c <= '\x7f' {
        'A' <= c && c <= 'Z'
    } else {
        has_uppercase_property(c)
    }
}

/// Why a text cannot become a buffer.
#[derive(Copy, Clone, Debug, PartialEq, Eq, Structural)]
pub enum TextError {
    /// The text holds a letter outside ASCII.
    NonAsciiLetter,
}

impl TextError {
    pub fn message(&self) -> (r: String)
        ensures
            r@ == "string contains non-ascii characters"@,
    {
        "string contains non-ascii characters".to_owned()
    }
}

/// The symbols of a text together with the text they came from.
#[derive(Debug)]
pub struct Buffer {
    data: Vec<Char>,
    original: Arc<String>,
}

/// A view of every `stride`-th symbol of a buffer, from `offset` on.
#[derive(Debug)]
pub struct PartialBuffer {
    buf: Buffer,
    offset: usize,
    stride: usize,
}

impl View for Buffer {
    type V = Seq<u8>;

    closed spec fn view(&self) -> Seq<u8> {
        Seq::new(self.data@.len(), |i: int| self.data@[i]@)
    }
}

impl Buffer {
    /// The text that the buffer was made from.
    pub closed spec fn text(&self) -> Seq<char> {
        (*self.original)@
    }

    /// Every symbol of the buffer names a letter.
    pub open spec fn wf(&self) -> bool {
        symbols_wf(self@)
    }

    pub fn new(data: Vec<Char>, original: Arc<String>) -> (r: Self)
        ensures
            r@ == Seq::new(data@.len(), |i: int| data@[i]@),
            r.text() == (*original)@,
    {
        Self { data, original }
    }

    pub fn len(&self) -> (n: usize)
        ensures
            n == self@.len(),
    {
        self.data.len()
    }

    /// The symbol at position `i`.
    pub fn get(&self, i: usize) -> (c: Char)
        requires
            i < self@.len(),
        ensures
            c@ == self@[i as int],
    {
        self.data[i]
    }

    /// Puts `c` at position `i`.
    pub fn set(&mut self, i: usize, c: Char)
        requires
            i < old(self)@.len(),
        ensures
            final(self)@ == old(self)@.update(i as int, c@),
            final(self).text() == old(self).text(),
    {
        self.data.set(i, c);
        assert(self@ =~= old(self)@.update(i as int, c@));
    }

    pub fn partial(self, offset: usize, stride: usize) -> (r: PartialBuffer)
        requires
            stride > 0,
        ensures
            r.buffer() == self,
            r.offset() == offset,
            r.stride() == stride,
            r.wf(),
    {
        PartialBuffer { buf: self, offset, stride }
    }

    pub fn original(&self) -> (r: &str)
        ensures
            r@ == self.text(),
    {
        self.original.as_str()
    }

    /// Reads a text: its letters become the symbols, everything else is kept
    /// for display only. A letter outside ASCII is refused.
    pub fn from_str(data: &str) -> (r: Result<Buffer, TextError>)
        ensures
            r is Ok <==> letters_are_ascii(data@),
            r matches Ok(b) ==> b@ == symbols_of(data@) && b.text() == data@ && b.wf() && b@.len()
                == letter_count(data@),
            r matches Err(e) ==> e == TextError::NonAsciiLetter,
    {
        let chars = chars_of(data);
        let mut symbols: Vec<Char> = Vec::new();
        let mut i: usize = 0;
        proof {
            assert(chars@.skip(0) =~= chars@);
            assert(Seq::new(symbols@.len(), |k: int| symbols@[k]@) + symbols_of(chars@)
                =~= symbols_of(chars@));
        }
        while i < chars.len()
            invariant
                i <= chars.len(),
                chars@ == data@,
                forall|j: int| 0 <= j < i && is_letter(#[trigger] chars@[j]) ==> is_ascii_char(chars@[j]),
                Seq::new(symbols@.len(), |k: int| symbols@[k]@) + symbols_of(chars@.skip(i as int))
                    == symbols_of(chars@),
                symbols_wf(Seq::new(symbols@.len(), |k: int| symbols@[k]@)),
            decreases chars.len() - i,
        {
            let c = chars[i];
            let ghost before = Seq::new(symbols@.len(), |k: int| symbols@[k]@);
            assert(chars@.skip(i as int).drop_first() == chars@.skip(i + 1));
            assert(chars@.skip(i as int)[0] == c);
            if letter(c) {
                if !(c <= '\x7f') {
                    return Err(TextError::NonAsciiLetter);
                }
                let symbol = Char::from(c);
                symbols.push(symbol);
                proof {
                    Char::lemma_of_view(letter_index(c) as u8);
                    let after = Seq::new(symbols@.len(), |k: int| symbols@[k]@);
                    assert(after =~= before + seq![letter_index(c) as u8]);
                    assert(after + symbols_of(chars@.skip(i + 1)) =~= before + (seq![
                        letter_index(c) as u8,
                    ] + symbols_of(chars@.skip(i + 1))));
                }
            }
            i += 1;
        }
        let original = Arc::new(data.to_owned());
        let buf = Buffer { data: symbols, original };
        proof {
            assert(chars@.skip(i as int) =~= Seq::empty());
            assert(buf@ =~= symbols_of(data@));
            lemma_symbols_count(data@);
        }
        Ok(buf)
    }

    /// The source text with each letter replaced by the letter of the symbol
    /// that now stands in its place, in the case of the letter it replaces.
    pub fn collect_original(&self) -> (r: String)
        requires
            self.wf(),
            self@.len() == letter_count(self.text()),
        ensures
            r@ == render_text(self.text(), self@),
    {
        proof {
            assert forall|i: int| 0 <= i < self.data@.len() implies (#[trigger] self.data@[i]).wf() by {
                assert(self@[i] == self.data@[i]@);
            }
            lemma_full_view(self@);
        }
        render(self.original.as_str(), &self.data, 0, 1)
    }

    /// The rendered text, as `collect_original` gives it.
    pub fn to_string(&self) -> (r: String)
        requires
            self.wf(),
            self@.len() == letter_count(self.text()),
        ensures
            r@ == render_text(self.text(), self@),
    {
        self.collect_original()
    }

    /// Whether the buffer has as many symbols as its source text has letters,
    /// so that it can be rendered.
    pub fn fits_text(&self) -> (ok: bool)
        ensures
            ok == (self@.len() == letter_count(self.text())),
    {
        count_letters_in(self.original.as_str()) == self.data.len()
    }
}

/// How many letters `text` holds.
pub fn count_letters_in(text: &str) -> (n: usize)
    ensures
        n == letter_count(text@),
{
    let chars = chars_of(text);
    let mut n: usize = 0;
    let mut i: usize = chars.len();
    assert(chars@.skip(i as int) =~= Seq::empty());
    while i > 0
        invariant
            i <= chars.len(),
            chars@ == text@,
            n == letter_count(chars@.skip(i as int)),
            n <= chars.len() - i,
        decreases i,
    {
        i -= 1;
        assert(chars@.skip(i as int).drop_first() =~= chars@.skip(i + 1));
        assert(chars@.skip(i as int)[0] == chars@[i as int]);
        if letter(chars[i]) {
            n += 1;
        }
    }
    assert(chars@.skip(0) =~= chars@);
    n
}

/// The symbols of `data` at `offset`, `offset + stride`, and so on.
pub open spec fn strided(data: Seq<u8>, offset: int, stride: int) -> Seq<u8>
    decreases
        (if offset < data.len() {
            data.len() - offset
        } else {
            0
        }),
{
    if offset >= data.len() || stride <= 0 || offset < 0 {
        Seq::empty()
    } else {
        seq![data[offset]] + strided(data, offset + stride, stride)
    }
}

/// Renders `original` with the symbols of `data` selected by `offset` and `stride`.
fn render(original: &str, data: &Vec<Char>, offset: usize, stride: usize) -> (r: String)
    requires
        stride > 0,
        forall|i: int| 0 <= i < data@.len() ==> (#[trigger] data@[i]).wf(),
        strided(Seq::new(data@.len(), |i: int| data@[i]@), offset as int, stride as int).len()
            == letter_count(original@),
    ensures
        r@ == render_text(
            original@,
            strided(Seq::new(data@.len(), |i: int| data@[i]@), offset as int, stride as int),
        ),
{
    let chars = chars_of(original);
    let ghost symbols = Seq::new(data@.len(), |i: int| data@[i]@);
    let mut out = String::new();
    let mut i: usize = 0;
    let mut next: usize = if offset < data.len() { offset } else { data.len() };
    proof {
        assert(strided(symbols, offset as int, stride as int) == strided(
            symbols,
            next as int,
            stride as int,
        ));
        assert(chars@.skip(0) =~= chars@);
        assert(out@ + render_text(chars@, strided(symbols, next as int, stride as int))
            =~= render_text(chars@, strided(symbols, next as int, stride as int)));
    }
    while i < chars.len()
        invariant
            i <= chars.len(),
            stride > 0,
            next <= data@.len(),
            chars@ == original@,
            symbols == Seq::new(data@.len(), |i: int| data@[i]@),
            forall|i: int| 0 <= i < data@.len() ==> (#[trigger] data@[i]).wf(),
            strided(symbols, next as int, stride as int).len() == letter_count(
                chars@.skip(i as int),
            ),
            out@ + render_text(chars@.skip(i as int), strided(symbols, next as int, stride as int))
                == render_text(original@, strided(symbols, offset as int, stride as int)),
        decreases chars.len() - i,
    {
        let c = chars[i];
        let ghost rest = strided(symbols, next as int, stride as int);
        let ghost tail = chars@.skip(i as int);
        assert(tail.drop_first() == chars@.skip(i + 1));
        assert(tail[0] == c);
        let ghost before = out@;
        if letter(c) {
            assert(rest.len() > 0);
            let symbol = data[next];
            let shown = if upper(c) {
                symbol.to_upper()
            } else {
                symbol.to_lower()
            };
            push_char(&mut out, shown);
            let following: usize = if data.len() - next > stride {
                next + stride
            } else {
                data.len()
            };
            proof {
                assert(rest =~= seq![symbols[next as int]] + strided(
                    symbols,
                    next + stride,
                    stride as int,
                ));
                assert(rest.drop_first() =~= strided(symbols, next + stride, stride as int));
                assert(strided(symbols, next + stride, stride as int) == strided(
                    symbols,
                    following as int,
                    stride as int,
                ));
                assert(shown == cased(c, symbols[next as int]));
                assert(out@ + render_text(chars@.skip(i + 1), rest.drop_first()) =~= before
                    + render_text(tail, rest));
            }
            next = following;
        } else {
            push_char(&mut out, c);
            proof {
                assert(out@ + render_text(chars@.skip(i + 1), rest) =~= before + render_text(
                    tail,
                    rest,
                ));
            }
        }
        i += 1;
    }
    proof {
        assert(chars@.skip(i as int) =~= Seq::empty());
        assert(out@ + Seq::<char>::empty() =~= out@);
    }
    out
}

impl Clone for Buffer {
    fn clone(&self) -> (r: Self)
        ensures
            r@ == self@,
            r.text() == self.text(),
    {
        let r = Buffer { data: self.data.clone(), original: share_text(&self.original) };
        assert(r@ =~= self@);
        r
    }
}

impl PartialEq for Buffer {
    fn eq(&self, other: &Buffer) -> (r: bool) {
        if self.data.len() != other.data.len() {
            assert(self@.len() != other@.len());
            return false;
        }
        let mut i: usize = 0;
        while i < self.data.len()
            invariant
                i <= self.data@.len(),
                self.data@.len() == other.data@.len(),
                forall|j: int| 0 <= j < i ==> self@[j] == other@[j],
            decreases self.data.len() - i,
        {
            if self.data[i].index() != other.data[i].index() {
                assert(self@[i as int] != other@[i as int]);
                return false;
            }
            i += 1;
        }
        assert(self@ =~= other@);
        true
    }
}

impl PartialEqSpecImpl for Buffer {
    open spec fn obeys_eq_spec() -> bool {
        true
    }

    open spec fn eq_spec(&self, other: &Buffer) -> bool {
        self@ == other@
    }
}

impl View for PartialBuffer {
    type V = Seq<u8>;

    open spec fn view(&self) -> Seq<u8> {
        strided(self.buffer()@, self.offset() as int, self.stride() as int)
    }
}

impl PartialBuffer {
    /// The buffer under the view.
    pub closed spec fn buffer(&self) -> Buffer {
        self.buf
    }

    pub closed spec fn offset(&self) -> usize {
        self.offset
    }

    pub closed spec fn stride(&self) -> usize {
        self.stride
    }

    /// A view has a stride of at least one.
    pub open spec fn wf(&self) -> bool {
        self.stride() > 0
    }

    /// The view of a whole buffer: offset zero, stride one.
    pub fn from(buf: Buffer) -> (r: PartialBuffer)
        ensures
            r.buffer() == buf,
            r.offset() == 0,
            r.stride() == 1,
            r.wf(),
            r@ == buf@,
    {
        proof {
            lemma_full_view(buf@);
        }
        PartialBuffer { buf, offset: 0, stride: 1 }
    }

    /// Gives the buffer under the view back.
    pub fn into_buffer(self) -> (r: Buffer)
        ensures
            r == self.buffer(),
    {
        self.buf
    }

    pub fn original(&self) -> (r: &str)
        ensures
            r@ == self.buffer().text(),
    {
        self.buf.original()
    }

    /// The source text with every letter replaced by the symbol of the buffer
    /// under the view that now stands in its place.
    pub fn buffer_text(&self) -> (r: String)
        requires
            self.buffer().wf(),
            self.buffer()@.len() == letter_count(self.buffer().text()),
        ensures
            r@ == render_text(self.buffer().text(), self.buffer()@),
    {
        self.buf.collect_original()
    }

    /// First position of the view in the buffer.
    pub fn start(&self) -> (r: usize)
        ensures
            r == self.offset(),
    {
        self.offset
    }

    /// Distance between two neighbours of the view in the buffer.
    pub fn step(&self) -> (r: usize)
        ensures
            r == self.stride(),
    {
        self.stride
    }

    /// Length of the buffer under the view.
    pub fn buffer_len(&self) -> (r: usize)
        ensures
            r == self.buffer()@.len(),
    {
        self.buf.len()
    }

    /// The symbol at position `p` of the buffer under the view.
    pub fn get_at(&self, p: usize) -> (c: Char)
        requires
            p < self.buffer()@.len(),
        ensures
            c@ == self.buffer()@[p as int],
    {
        self.buf.get(p)
    }

    /// Puts `c` at position `p` of the buffer under the view.
    pub fn set_at(&mut self, p: usize, c: Char)
        requires
            p < old(self).buffer()@.len(),
        ensures
            final(self).buffer()@ == old(self).buffer()@.update(p as int, c@),
            final(self).buffer().text() == old(self).buffer().text(),
            final(self).offset() == old(self).offset(),
            final(self).stride() == old(self).stride(),
    {
        self.buf.set(p, c);
    }

    /// The `k`-th symbol of the view.
    pub fn get(&self, k: usize) -> (c: Char)
        requires
            self.wf(),
            k < self@.len(),
        ensures
            c@ == self@[k as int],
    {
        proof {
            lemma_strided_index(self.buf@, self.offset as int, self.stride as int, k as int);
        }
        let n = self.buf.len();
        assert(self.offset + k * self.stride < n);
        self.buf.get(self.offset + k * self.stride)
    }

    /// Puts `c` in the place of the `k`-th symbol of the view.
    pub fn set(&mut self, k: usize, c: Char)
        requires
            old(self).wf(),
            k < old(self)@.len(),
        ensures
            final(self)@ == old(self)@.update(k as int, c@),
            final(self).buffer()@ == old(self).buffer()@.update(
                old(self).offset() + k * old(self).stride(),
                c@,
            ),
            final(self).buffer().text() == old(self).buffer().text(),
            final(self).offset() == old(self).offset(),
            final(self).stride() == old(self).stride(),
    {
        proof {
            lemma_strided_index(self.buf@, self.offset as int, self.stride as int, k as int);
            lemma_strided_update(self.buf@, self.offset as int, self.stride as int, k as int, c@);
        }
        let n = self.buf.len();
        assert(self.offset + k * self.stride < n);
        self.buf.set(self.offset + k * self.stride, c);
    }

    /// Number of symbols that the view selects.
    pub fn len(&self) -> (n: usize)
        requires
            self.wf(),
        ensures
            n == strided_len(self.buffer()@.len() as int, self.offset() as int, self.stride() as int),
            n == self@.len(),
    {
        let total = self.buf.len();
        proof {
            lemma_strided_len(self.buf@, self.offset as int, self.stride as int);
        }
        if self.offset >= total {
            0
        } else {
            let span: usize = total - self.offset;
            let whole: usize = (span - 1) / self.stride;
            assert((span - 1) / (self.stride as int) + 1 == (span + self.stride - 1) / (
            self.stride as int)) by (nonlinear_arith)
                requires
                    self.stride > 0,
                    span > 0,
            ;
            assert(whole < span) by (nonlinear_arith)
                requires
                    whole == (span - 1) / (self.stride as int),
                    self.stride > 0,
                    span > 0,
            ;
            whole + 1
        }
    }

    /// The selected symbols, in the order of their positions.
    pub fn symbols(&self) -> (r: Vec<Char>)
        requires
            self.wf(),
        ensures
            Seq::new(r@.len(), |i: int| r@[i]@) == self@,
    {
        let total = self.buf.len();
        let mut out: Vec<Char> = Vec::new();
        let mut pos: usize = if self.offset < total { self.offset } else { total };
        while pos < total
            invariant
                self.wf(),
                total == self.buf@.len(),
                pos <= total,
                Seq::new(out@.len(), |i: int| out@[i]@) + strided(
                    self.buf@,
                    pos as int,
                    self.stride as int,
                ) == self@,
            decreases total - pos,
        {
            let ghost before = Seq::new(out@.len(), |i: int| out@[i]@);
            let c = self.buf.get(pos);
            out.push(c);
            let following: usize = if total - pos > self.stride {
                pos + self.stride
            } else {
                total
            };
            proof {
                let after = Seq::new(out@.len(), |i: int| out@[i]@);
                assert(after =~= before + seq![self.buf@[pos as int]]);
                assert(strided(self.buf@, pos + self.stride, self.stride as int) == strided(
                    self.buf@,
                    following as int,
                    self.stride as int,
                ));
                assert(after + strided(self.buf@, following as int, self.stride as int) =~= before
                    + strided(self.buf@, pos as int, self.stride as int));
            }
            pos = following;
        }
        proof {
            assert(Seq::new(out@.len(), |i: int| out@[i]@) + Seq::<u8>::empty() =~= Seq::new(
                out@.len(),
                |i: int| out@[i]@,
            ));
        }
        out
    }

    /// The source text with its letters replaced by the selected symbols, of
    /// which there are as many as letters.
    pub fn collect_original(&self) -> (r: String)
        requires
            self.wf(),
            self.buffer().wf(),
            self@.len() == letter_count(self.buffer().text()),
        ensures
            r@ == render_text(self.buffer().text(), self@),
    {
        proof {
            assert forall|i: int| 0 <= i < self.buf.data@.len() implies (
            #[trigger] self.buf.data@[i]).wf() by {
                assert(self.buf@[i] == self.buf.data@[i]@);
            }
        }
        render(self.buf.original.as_str(), &self.buf.data, self.offset, self.stride)
    }

    /// The rendered text, as `collect_original` gives it.
    pub fn to_string(&self) -> (r: String)
        requires
            self.wf(),
            self.buffer().wf(),
            self@.len() == letter_count(self.buffer().text()),
        ensures
            r@ == render_text(self.buffer().text(), self@),
    {
        self.collect_original()
    }
}

/// A stream of symbols over a source text: a buffer, or a view of one.
pub trait CharStream {
    /// The symbols of the stream, in order.
    spec fn stream(&self) -> Seq<u8>;

    /// The source text behind the stream.
    spec fn source(&self) -> Seq<char>;

    /// What the stream's operations ask of it.
    spec fn stream_wf(&self) -> bool;

    fn original(&self) -> (r: &str)
        ensures
            r@ == self.source(),
    ;

    fn len(&self) -> (n: usize)
        requires
            self.stream_wf(),
        ensures
            n == self.stream().len(),
    ;

    /// The symbols of the stream, in order.
    fn symbols(&self) -> (r: Vec<Char>)
        requires
            self.stream_wf(),
        ensures
            Seq::new(r@.len(), |i: int| r@[i]@) == self.stream(),
    ;

    /// The source text with its letters replaced by the stream's symbols,
    /// of which there are as many as letters.
    fn collect_original(&self) -> (r: String)
        requires
            self.stream_wf(),
            self.stream().len() == letter_count(self.source()),
        ensures
            r@ == render_text(self.source(), self.stream()),
    ;
}

impl CharStream for Buffer {
    open spec fn stream(&self) -> Seq<u8> {
        self@
    }

    open spec fn source(&self) -> Seq<char> {
        self.text()
    }

    open spec fn stream_wf(&self) -> bool {
        self.wf()
    }

    fn original(&self) -> (r: &str) {
        self.original.as_str()
    }

    fn len(&self) -> (n: usize) {
        self.data.len()
    }

    fn symbols(&self) -> (r: Vec<Char>) {
        let r = self.data.clone();
        assert(Seq::new(r@.len(), |i: int| r@[i]@) =~= self@);
        r
    }

    fn collect_original(&self) -> (r: String) {
        Buffer::collect_original(self)
    }
}

impl CharStream for PartialBuffer {
    open spec fn stream(&self) -> Seq<u8> {
        self@
    }

    open spec fn source(&self) -> Seq<char> {
        self.buffer().text()
    }

    open spec fn stream_wf(&self) -> bool {
        self.wf() && self.buffer().wf()
    }

    fn original(&self) -> (r: &str) {
        self.buf.original()
    }

    fn len(&self) -> (n: usize) {
        PartialBuffer::len(self)
    }

    fn symbols(&self) -> (r: Vec<Char>) {
        PartialBuffer::symbols(self)
    }

    fn collect_original(&self) -> (r: String) {
        PartialBuffer::collect_original(self)
    }
}

/// A text has as many symbols as letters.
pub proof fn lemma_symbols_count(text: Seq<char>)
    ensures
        symbols_of(text).len() == letter_count(text),
    decreases text.len(),
{
    if text.len() > 0 {
        lemma_symbols_count(text.drop_first());
    }
}

/// Rendering the symbols read from an ASCII text gives that text back: every
/// character that is no letter is kept, and every letter comes back in its case.
pub proof fn lemma_render_round_trip(text: Seq<char>)
    requires
        forall|i: int| 0 <= i < text.len() ==> is_ascii_char(#[trigger] text[i]),
    ensures
        letters_are_ascii(text),
        render_text(text, symbols_of(text)) == text,
    decreases text.len(),
{
    if text.len() > 0 {
        let rest = text.drop_first();
        assert forall|i: int| 0 <= i < rest.len() implies is_ascii_char(#[trigger] rest[i]) by {
            assert(rest[i] == text[i + 1]);
        }
        lemma_render_round_trip(rest);
        let c = text[0];
        assert(is_ascii_char(c));
        if is_letter(c) {
            let symbols = symbols_of(text);
            assert(symbols.drop_first() =~= symbols_of(rest));
            assert(cased(c, symbols[0]) == c);
        }
        assert(seq![c] + rest =~= text);
    }
}

/// Whatever symbols stand in a buffer over `original`, rendering keeps the
/// length of the text and every character that is no letter.
pub proof fn lemma_render_keeps_layout(original: Seq<char>, symbols: Seq<u8>)
    ensures
        render_text(original, symbols).len() == original.len(),
        forall|i: int|
            0 <= i < original.len() && !is_letter(#[trigger] original[i]) ==> render_text(
                original,
                symbols,
            )[i] == original[i],
    decreases original.len(),
{
    if original.len() > 0 {
        let rest = original.drop_first();
        let used = if is_letter(original[0]) {
            symbols.drop_first()
        } else {
            symbols
        };
        lemma_render_keeps_layout(rest, used);
        let whole = render_text(original, symbols);
        assert forall|i: int|
            0 <= i < original.len() && !is_letter(#[trigger] original[i]) implies whole[i]
            == original[i] by {
            if i > 0 {
                assert(rest[i - 1] == original[i]);
                assert(whole[i] == render_text(rest, used)[i - 1]);
            }
        }
    }
}

/// A view selects as many symbols as the ceiling of `(n - offset) / stride`.
pub proof fn lemma_strided_len(data: Seq<u8>, offset: int, stride: int)
    requires
        stride > 0,
        offset >= 0,
    ensures
        strided(data, offset, stride).len() == strided_len(data.len() as int, offset, stride),
    decreases
        (if offset < data.len() {
            data.len() - offset
        } else {
            0
        }),
{
    if offset < data.len() {
        lemma_strided_len(data, offset + stride, stride);
        let n = data.len() as int;
        if offset + stride >= n {
            assert((n - offset + stride - 1) / stride == 1) by (nonlinear_arith)
                requires
                    offset < n,
                    offset + stride >= n,
                    stride > 0,
            ;
        } else {
            assert((n - offset + stride - 1) / stride == (n - (offset + stride) + stride - 1)
                / stride + 1) by (nonlinear_arith)
                requires
                    stride > 0,
            ;
        }
    }
}

/// The `k`-th symbol of a view stands at position `offset + k * stride`.
pub proof fn lemma_strided_index(data: Seq<u8>, offset: int, stride: int, k: int)
    requires
        stride > 0,
        offset >= 0,
        0 <= k < strided(data, offset, stride).len(),
    ensures
        0 <= k * stride,
        offset + k * stride < data.len(),
        strided(data, offset, stride)[k] == data[offset + k * stride],
    decreases k,
{
    if k > 0 {
        lemma_strided_index(data, offset + stride, stride, k - 1);
        assert(stride + (k - 1) * stride == k * stride) by (nonlinear_arith);
    } else {
        assert(0 * stride == 0);
    }
}

/// A change before a view's offset is not seen through the view.
pub proof fn lemma_strided_untouched(data: Seq<u8>, offset: int, stride: int, p: int, v: u8)
    requires
        stride > 0,
        0 <= p < offset,
        p < data.len(),
    ensures
        strided(data.update(p, v), offset, stride) == strided(data, offset, stride),
    decreases
        (if offset < data.len() {
            data.len() - offset
        } else {
            0
        }),
{
    if offset < data.len() {
        lemma_strided_untouched(data, offset + stride, stride, p, v);
    }
}

/// A change at the position of the `k`-th symbol of a view changes that
/// symbol of the view and no other.
pub proof fn lemma_strided_update(data: Seq<u8>, offset: int, stride: int, k: int, v: u8)
    requires
        stride > 0,
        offset >= 0,
        0 <= k < strided(data, offset, stride).len(),
    ensures
        strided(data.update(offset + k * stride, v), offset, stride) == strided(
            data,
            offset,
            stride,
        ).update(k, v),
    decreases k,
{
    lemma_strided_index(data, offset, stride, k);
    let p = offset + k * stride;
    let changed = data.update(p, v);
    if k > 0 {
        lemma_strided_update(data, offset + stride, stride, k - 1, v);
        assert(stride + (k - 1) * stride == k * stride) by (nonlinear_arith);
        assert(k * stride > 0) by (nonlinear_arith)
            requires
                k > 0,
                stride > 0,
        ;
        assert(strided(changed, offset, stride) =~= strided(data, offset, stride).update(k, v));
    } else {
        assert(0 * stride == 0);
        lemma_strided_untouched(data, offset + stride, stride, offset, v);
        assert(strided(changed, offset, stride) =~= strided(data, offset, stride).update(0, v));
    }
}

/// A view with offset zero and stride one selects every symbol, in order.
pub proof fn lemma_full_view(data: Seq<u8>)
    ensures
        strided(data, 0, 1) == data,
{
    lemma_strided_suffix(data, 0);
    assert(data.skip(0) =~= data);
}

/// With stride one a view from `offset` on is the rest of the buffer.
pub proof fn lemma_strided_suffix(data: Seq<u8>, offset: int)
    requires
        0 <= offset <= data.len(),
    ensures
        strided(data, offset, 1) == data.skip(offset),
    decreases data.len() - offset,
{
    if offset < data.len() {
        lemma_strided_suffix(data, offset + 1);
        assert(data.skip(offset) =~= seq![data[offset]] + data.skip(offset + 1));
    } else {
        assert(data.skip(offset) =~= Seq::empty());
    }
}

} // verus!
