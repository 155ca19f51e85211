//! Letter statistics of a stream of symbols, in exact integer arithmetic.
//! Values that are fractions by nature are given in millionths, rounded down.

use crate::buffer::{symbols_wf, Buffer, CharStream};
use crate::symbol::Char;
use vstd::prelude::*;

verus! {

/// Number of entries of a quadgram table: one for each sequence of four symbols.
pub const QUADGRAM_ENTRIES: usize = 456976;

/// How often `x` occurs in `s`.
pub open spec fn occurrences(s: Seq<u8>, x: u8) -> nat
    decreases s.len(),
{
    if s.len() == 0 {
        0
    } else {
        occurrences(s.drop_last(), x) + if s.last() == x {
            1nat
        } else {
            0nat
        }
    }
}

/// The count of each of the 26 letters in `s`.
pub open spec fn frequencies(s: Seq<u8>) -> Seq<u32> {
    Seq::new(26, |x: int| occurrences(s, x as u8) as u32)
}

/// Relative frequency of each letter in English text, in hundred-thousandths.
pub open spec fn english_frequencies() -> Seq<u32> {
    seq![
        8167u32, 1492u32, 2782u32, 4253u32, 12702u32, 2228u32, 2015u32, 6094u32, 6966u32, 153u32,
        772u32, 4025u32, 2406u32, 6749u32, 7507u32, 1929u32, 95u32, 5987u32, 6327u32, 9056u32,
        2758u32, 978u32, 2360u32, 150u32, 1974u32, 74u32,
    ]
}

/// Sum over the first `upto` letters of `f * (f - 1)`, where `f` is the count of the letter.
pub open spec fn coincidences(freqs: Seq<u32>, upto: int) -> int
    decreases upto,
{
    if upto <= 0 {
        0
    } else {
        coincidences(freqs, upto - 1) + freqs[upto - 1] * (freqs[upto - 1] - 1)
    }
}

/// Index of coincidence of a text of `n > 1` symbols with these letter counts,
/// in millionths: `26 * sum f(f-1) / (n(n-1))`.
pub open spec fn ioc_millionths(freqs: Seq<u32>, n: int) -> int {
    (26000000 * coincidences(freqs, 26)) / (n * (n - 1))
}

/// One letter's share of the chi-squared statistic, in millionths: the squared
/// difference of the count `f` and the expected count, over the expected
/// count, where `k` hundred-thousandths of `n` symbols are expected.
pub open spec fn chi_term(f: int, n: int, k: int) -> int {
    let d = 100000 * f - n * k;
    (d * d * 10) / (n * k)
}

/// Chi-squared statistic over the first `upto` letters, in millionths.
pub open spec fn chi_sum(freqs: Seq<u32>, n: int, upto: int) -> int
    decreases upto,
{
    if upto <= 0 {
        0
    } else {
        chi_sum(freqs, n, upto - 1) + chi_term(
            freqs[upto - 1] as int,
            n,
            english_frequencies()[upto - 1] as int,
        )
    }
}

/// Place in a quadgram table of the four symbols at `i..i + 4`, read as a
/// number in base 26.
pub open spec fn quadgram_index(s: Seq<u8>, i: int) -> int {
    ((s[i] * 26 + s[i + 1]) * 26 + s[i + 2]) * 26 + s[i + 3]
}

/// Sum of the table's entries for the first `windows` quadgrams of `s`.
pub open spec fn quadgram_sum(table: Seq<i32>, s: Seq<u8>, windows: int) -> int
    decreases windows,
{
    if windows <= 0 {
        0
    } else {
        quadgram_sum(table, s, windows - 1) + table[quadgram_index(s, windows - 1)]
    }
}

/// Number of quadgrams in a text of `n` symbols.
pub open spec fn quadgram_windows(n: int) -> int {
    if n < 4 {
        0
    } else {
        n - 3
    }
}

/// `a / b` rounded towards zero, for `b > 0`.
pub open spec fn div_towards_zero(a: int, b: int) -> int {
    if a >= 0 {
        a / b
    } else {
        -((-a) / b)
    }
}

/// Log-likelihood of each sequence of four symbols, as integers in a unit of
/// the caller's choice: entry `((a * 26 + b) * 26 + c) * 26 + d` is that of
/// the symbols `a b c d`.
pub struct QuadgramTable {
    entries: Vec<i32>,
}

impl View for QuadgramTable {
    type V = Seq<i32>;

    closed spec fn view(&self) -> Seq<i32> {
        self.entries@
    }
}

impl QuadgramTable {
    /// A table has one entry for each quadgram.
    pub open spec fn wf(&self) -> bool {
        self@.len() == QUADGRAM_ENTRIES
    }

    /// Takes a list of entries as a table, if it has the right length.
    pub fn new(entries: Vec<i32>) -> (r: Option<QuadgramTable>)
        ensures
            r is Some <==> entries@.len() == QUADGRAM_ENTRIES,
            r matches Some(t) ==> t@ == entries@ && t.wf(),
    {
        if entries.len() == QUADGRAM_ENTRIES {
            Some(QuadgramTable { entries })
        } else {
            None
        }
    }

    /// Entry `i` of the table.
    pub fn entry(&self, i: usize) -> (r: i32)
        requires
            i < self@.len(),
        ensures
            r == self@[i as int],
    {
        self.entries[i]
    }
}

/// The English letter frequencies, in hundred-thousandths.
pub fn english_table() -> (r: [u32; 26])
    ensures
        r@ == english_frequencies(),
{
    let r: [u32; 26] = [
        8167u32, 1492u32, 2782u32, 4253u32, 12702u32, 2228u32, 2015u32, 6094u32, 6966u32, 153u32,
        772u32, 4025u32, 2406u32, 6749u32, 7507u32, 1929u32, 95u32, 5987u32, 6327u32, 9056u32,
        2758u32, 978u32, 2360u32, 150u32, 1974u32, 74u32,
    ];
    assert(r@ =~= english_frequencies());
    r
}

/// How often each letter occurs in the stream.
pub fn letter_frequencies<T: CharStream>(buf: &T) -> (out: [u32; 26])
    requires
        buf.stream_wf(),
        symbols_wf(buf.stream()),
        buf.stream().len() <= u32::MAX,
    ensures
        out@ == frequencies(buf.stream()),
{
    let symbols = buf.symbols();
    count_letters(&symbols)
}

/// How often each letter occurs among `symbols`.
pub fn count_letters(symbols: &Vec<Char>) -> (out: [u32; 26])
    requires
        symbols_wf(Seq::new(symbols@.len(), |i: int| symbols@[i]@)),
        symbols@.len() <= u32::MAX,
    ensures
        out@ == frequencies(Seq::new(symbols@.len(), |i: int| symbols@[i]@)),
{
    let ghost s = Seq::new(symbols@.len(), |i: int| symbols@[i]@);
    let mut out: [u32; 26] = [0u32; 26];
    let mut i: usize = 0;
    assert(s.take(0) =~= Seq::empty());
    while i < symbols.len()
        invariant
            i <= symbols@.len(),
            symbols@.len() <= u32::MAX,
            s == Seq::new(symbols@.len(), |i: int| symbols@[i]@),
            symbols_wf(s),
            forall|x: u8|
                0 <= x < 26 ==> out@[x as int] == occurrences(s.take(i as int), x) && out@[x as int]
                    <= i,
        decreases symbols.len() - i,
    {
        let c = symbols[i].index();
        assert(c == s[i as int]);
        assert(s.take(i + 1).drop_last() =~= s.take(i as int));
        assert(s.take(i + 1).last() == s[i as int]);
        let ghost counted = out@;
        let bumped: u32 = out[c] + 1;
        out[c] = bumped;
        assert forall|x: u8| 0 <= x < 26 implies out@[x as int] == occurrences(s.take(i + 1), x)
            && out@[x as int] <= i + 1 by {
            assert(counted[x as int] == occurrences(s.take(i as int), x));
            assert(counted[x as int] <= i);
        }
        i += 1;
    }
    assert(s.take(i as int) =~= s);
    assert forall|x: int| 0 <= x < 26 implies out@[x] == frequencies(s)[x] by {
        assert(out@[(x as u8) as int] == occurrences(s, x as u8));
    }
    assert(out@ =~= frequencies(s));
    out
}

/// Sum over all letters of `f * (f - 1)`, where `f` is the count of the letter.
pub fn coincidence_count(freqs: &[u32; 26]) -> (total: u128)
    ensures
        total == coincidences(freqs@, 26),
{
    let mut total: u128 = 0;
    let mut i: usize = 0;
    while i < 26
        invariant
            i <= 26,
            total == coincidences(freqs@, i as int),
            total <= i * 0x1_0000_0000_0000_0000,
        decreases 26 - i,
    {
        let f: u128 = freqs[i] as u128;
        if f > 0 {
            assert(f * (f - 1) <= 0x1_0000_0000_0000_0000) by (nonlinear_arith)
                requires
                    1 <= f <= 0xffff_ffff,
            ;
            total = total + f * (f - 1);
        } else {
            assert(f * (f - 1) == 0) by (nonlinear_arith)
                requires
                    f == 0,
            ;
        }
        i += 1;
    }
    total
}

/// Index of coincidence of the stream in millionths, rounded down; `None` for
/// a stream of fewer than two symbols, where it is not defined.
pub fn index_of_coincidence<T: CharStream>(buf: &T) -> (r: Option<u128>)
    requires
        buf.stream_wf(),
        symbols_wf(buf.stream()),
        buf.stream().len() <= u32::MAX,
    ensures
        r is Some <==> buf.stream().len() > 1,
        r matches Some(v) ==> v == ioc_millionths(
            frequencies(buf.stream()),
            buf.stream().len() as int,
        ),
{
    let freqs = letter_frequencies(buf);
    let n = buf.len();
    coincidence_ratio(&freqs, n)
}

/// Index of coincidence in millionths of a text of `n` symbols with the given
/// letter counts; `None` for `n < 2`.
pub fn coincidence_ratio(freqs: &[u32; 26], n: usize) -> (r: Option<u128>)
    requires
        n <= u32::MAX,
    ensures
        r is Some <==> n > 1,
        r matches Some(v) ==> v == ioc_millionths(freqs@, n as int),
{
    if n <= 1 {
        return None;
    }
    let total = coincidence_count(freqs);
    let len: u128 = n as u128;
    assert(total <= 26 * 0x1_0000_0000_0000_0000) by {
        assert(coincidences(freqs@, 26) <= 26 * 0x1_0000_0000_0000_0000) by {
            lemma_coincidences_bound(freqs@, 26);
        }
    }
    assert(0 < len * (len - 1) <= 0x1_0000_0000_0000_0000) by (nonlinear_arith)
        requires
            2 <= len <= 0xffff_ffff,
    ;
    let pairs: u128 = len * (len - 1);
    Some((26000000u128 * total) / pairs)
}

/// The sum of `f (f - 1)` over `upto` letters is at most `upto * 2^64`.
pub proof fn lemma_coincidences_bound(freqs: Seq<u32>, upto: int)
    requires
        0 <= upto <= freqs.len(),
    ensures
        0 <= coincidences(freqs, upto) <= upto * 0x1_0000_0000_0000_0000,
    decreases upto,
{
    if upto > 0 {
        lemma_coincidences_bound(freqs, upto - 1);
        let f = freqs[upto - 1] as int;
        assert(0 <= f * (f - 1) <= 0x1_0000_0000_0000_0000) by (nonlinear_arith)
            requires
                0 <= f <= 0xffff_ffff,
        ;
    }
}

/// The chi-squared statistic in millionths is never negative and stays below `2^107`.
pub proof fn lemma_chi_sum_bound(freqs: Seq<u32>, n: int, upto: int)
    requires
        0 <= upto <= 26,
        freqs.len() == 26,
        0 < n <= u32::MAX,
    ensures
        0 <= chi_sum(freqs, n, upto) <= upto * 0x40_0000_0000_0000_0000_0000_0000,
    decreases upto,
{
    if upto > 0 {
        lemma_chi_sum_bound(freqs, n, upto - 1);
        let f = freqs[upto - 1] as int;
        let k = english_frequencies()[upto - 1] as int;
        assert(0 < k <= 12702);
        let d = 100000 * f - n * k;
        assert(0 < n * k <= 0xffff_ffff * 12702) by (nonlinear_arith)
            requires
                0 < n <= 0xffff_ffff,
                0 < k <= 12702,
        ;
        assert(0 <= d * d <= 0x4_0000_0000_0000_0000_0000_0000) by (nonlinear_arith)
            requires
                -100000 * 0xffff_ffff <= d <= 100000 * 0xffff_ffff,
        ;
        let nk = n * k;
        let dd = d * d * 10;
        assert(0 <= dd / nk <= dd) by (nonlinear_arith)
            requires
                nk > 0,
                dd >= 0,
        ;
    }
}

/// The index of coincidence in millionths is never negative and stays below `2^100`.
pub proof fn lemma_ioc_bound(freqs: Seq<u32>, n: int)
    requires
        freqs.len() == 26,
        1 < n <= u32::MAX,
    ensures
        0 <= ioc_millionths(freqs, n) <= 26000000 * 26 * 0x1_0000_0000_0000_0000,
{
    lemma_coincidences_bound(freqs, 26);
    let t = 26000000 * coincidences(freqs, 26);
    let pairs = n * (n - 1);
    assert(pairs > 0) by (nonlinear_arith)
        requires
            pairs == n * (n - 1),
            n > 1,
    ;
    assert(0 <= t / pairs <= t) by (nonlinear_arith)
        requires
            pairs > 0,
            t >= 0,
    ;
}

/// Chi-squared statistic of the stream against English letter frequencies, in
/// millionths, each letter's share rounded down; `None` for an empty stream,
/// where it is not defined.
pub fn chi_squared<T: CharStream>(buf: &T) -> (r: Option<u128>)
    requires
        buf.stream_wf(),
        symbols_wf(buf.stream()),
        buf.stream().len() <= u32::MAX,
    ensures
        r is Some <==> buf.stream().len() > 0,
        r matches Some(v) ==> v == chi_sum(frequencies(buf.stream()), buf.stream().len() as int, 26),
{
    let freqs = letter_frequencies(buf);
    let n = buf.len();
    chi_squared_of(&freqs, n)
}

/// Chi-squared statistic in millionths of a text of `n` symbols with the given
/// letter counts; `None` for `n == 0`.
pub fn chi_squared_of(freqs: &[u32; 26], n: usize) -> (r: Option<u128>)
    requires
        n <= u32::MAX,
    ensures
        r is Some <==> n > 0,
        r matches Some(v) ==> v == chi_sum(freqs@, n as int, 26),
{
    if n == 0 {
        return None;
    }
    let english = english_table();
    let len: u128 = n as u128;
    let mut total: u128 = 0;
    let mut i: usize = 0;
    while i < 26
        invariant
            i <= 26,
            0 < len <= 0xffff_ffff,
            len == n,
            english@ == english_frequencies(),
            total == chi_sum(freqs@, n as int, i as int),
            total <= i * 0x40_0000_0000_0000_0000_0000_0000,
        decreases 26 - i,
    {
        let f: u128 = freqs[i] as u128;
        let k: u128 = english[i] as u128;
        assert(0 < k <= 12702);
        let seen: u128 = 100000u128 * f;
        assert(0 < len * k <= 0xffff_ffff * 12702) by (nonlinear_arith)
            requires
                0 < len <= 0xffff_ffff,
                0 < k <= 12702,
        ;
        let expected: u128 = len * k;
        let d: u128 = if seen >= expected {
            seen - expected
        } else {
            expected - seen
        };
        assert(d * d <= 0x4_0000_0000_0000_0000_0000_0000) by (nonlinear_arith)
            requires
                0 <= d <= 100000 * 0xffff_ffff,
        ;
        let ghost signed: int = 100000 * (f as int) - (len as int) * (k as int);
        assert(d * d == signed * signed) by (nonlinear_arith)
            requires
                d == signed || d == -signed,
        ;
        assert((d * d) * 10 == signed * signed * 10);
        let term: u128 = (d * d * 10u128) / expected;
        assert(term <= d * d * 10) by (nonlinear_arith)
            requires
                term == (d * d * 10) / (expected as int),
                expected > 0,
                d * d * 10 >= 0,
        ;
        assert(term == chi_term(f as int, n as int, k as int));
        total = total + term;
        i += 1;
    }
    Some(total)
}

/// Place in a quadgram table of four symbols.
pub fn window_index(a: Char, b: Char, c: Char, d: Char) -> (r: usize)
    requires
        a.wf(),
        b.wf(),
        c.wf(),
        d.wf(),
    ensures
        r == ((a@ * 26 + b@) * 26 + c@) * 26 + d@,
        r < QUADGRAM_ENTRIES,
{
    ((a.index() * 26 + b.index()) * 26 + c.index()) * 26 + d.index()
}

/// Sum of the table's entries over all quadgrams of the buffer.
pub fn quadgram_total(buf: &Buffer, table: &QuadgramTable) -> (total: i64)
    requires
        buf.wf(),
        table.wf(),
        buf@.len() <= u32::MAX,
    ensures
        total == quadgram_sum(table@, buf@, quadgram_windows(buf@.len() as int)),
        -0x8000_0000 * buf@.len() <= total <= 0x8000_0000 * buf@.len(),
{
    let n = buf.len();
    let mut total: i64 = 0;
    if n < 4 {
        return total;
    }
    let mut i: usize = 0;
    while i < n - 3
        invariant
            4 <= n <= u32::MAX,
            n == buf@.len(),
            i <= n - 3,
            buf.wf(),
            table.wf(),
            total == quadgram_sum(table@, buf@, i as int),
            -0x8000_0000 * i <= total <= 0x8000_0000 * i,
        decreases n - 3 - i,
    {
        let at = window_index(buf.get(i), buf.get(i + 1), buf.get(i + 2), buf.get(i + 3));
        total = total + table.entry(at) as i64;
        i += 1;
    }
    total
}

/// Quadgram log-likelihood of the buffer per symbol, rounded towards zero;
/// `None` for an empty buffer, where it is not defined.
pub fn quadgram_score(buf: &Buffer, table: &QuadgramTable) -> (r: Option<i64>)
    requires
        buf.wf(),
        table.wf(),
        buf@.len() <= u32::MAX,
    ensures
        r is Some <==> buf@.len() > 0,
        r matches Some(v) ==> v == div_towards_zero(
            quadgram_sum(table@, buf@, quadgram_windows(buf@.len() as int)),
            buf@.len() as int,
        ),
{
    let n = buf.len();
    if n == 0 {
        return None;
    }
    let total = quadgram_total(buf, table);
    Some(normalise(total, n))
}

/// `total / n`, rounded towards zero.
pub fn normalise(total: i64, n: usize) -> (r: i64)
    requires
        0 < n <= u32::MAX,
        total > i64::MIN,
    ensures
        r == div_towards_zero(total as int, n as int),
{
    if total >= 0 {
        let whole: u64 = (total as u64) / (n as u64);
        assert(whole <= total) by (nonlinear_arith)
            requires
                whole == (total as int) / (n as int),
                n > 0,
                total >= 0,
        ;
        whole as i64
    } else {
        let size: u64 = (-total) as u64;
        let whole: u64 = size / (n as u64);
        assert(whole <= size) by (nonlinear_arith)
            requires
                whole == (size as int) / (n as int),
                n > 0,
                size >= 0,
        ;
        -(whole as i64)
    }
}

} // verus!
