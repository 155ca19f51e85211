//! The transposition cipher: the text is cut into groups as long as the key,
//! and within each group the symbols are put in the order of their key entries.

use crate::buffer::{symbols_wf, Buffer};
use crate::ciphers::{CipherError, Decrypt, Encrypt};
use crate::keyvec::{key_at, key_from, key_items, key_len, KeyVec};
use crate::text::chars_of;
use vstd::arithmetic::div_mod::lemma_fundamental_div_mod_converse;
use vstd::prelude::*;

verus! {

/// Whether `c` is a decimal digit.
pub open spec fn is_digit(c: char) -> bool {
    '0' <= c && c <= '9'
}

/// What has been read of a key text: the numbers that are complete, the
/// value of the number that is being read, if it has a digit yet, and
/// whether that number has so far only its `+` sign. `None` once the text
/// cannot be a key.
pub open spec fn read_prefix(text: Seq<char>) -> Option<(Seq<u8>, Option<int>, bool)>
    decreases text.len(),
{
    if text.len() == 0 {
        Some((Seq::empty(), None, false))
    } else {
        match read_prefix(text.drop_last()) {
            None => None,
            Some((done, current, signed)) => {
                let c = text.last();
                if c == ',' {
                    match current {
                        Some(v) => Some((done.push(v as u8), None, false)),
                        None => None,
                    }
                } else if c == '+' {
                    if current is None && !signed {
                        Some((done, None, true))
                    } else {
                        None
                    }
                } else if is_digit(c) {
                    let before = match current {
                        Some(v) => v,
                        None => 0,
                    };
                    let v = before * 10 + (c as int - '0' as int);
                    if v > 255 {
                        None
                    } else {
                        Some((done, Some(v), false))
                    }
                } else {
                    None
                }
            },
        }
    }
}

/// The numbers of a key text: decimal numbers up to 255, each with or
/// without a `+` before it, with a comma between each two. `None` where the
/// text is not of that form.
pub open spec fn columns_of(text: Seq<char>) -> Option<Seq<u8>> {
    match read_prefix(text) {
        Some((done, Some(v), _)) => Some(done.push(v as u8)),
        _ => None,
    }
}

/// How many of the first `upto` entries of `key` are less than `v`.
pub open spec fn smaller(key: Seq<u8>, v: u8, upto: int) -> int
    decreases upto,
{
    if upto <= 0 {
        0
    } else {
        smaller(key, v, upto - 1) + if key[upto - 1] < v {
            1int
        } else {
            0int
        }
    }
}

/// The place of entry `i` among the first `m` entries of `key` in rising order.
pub open spec fn rank(key: Seq<u8>, m: int, i: int) -> int {
    smaller(key, key[i], m)
}

/// The entry before `upto` whose place among the first `m` is `r`; `r` itself
/// if there is none.
pub open spec fn source(key: Seq<u8>, m: int, r: int, upto: int) -> int
    decreases upto,
{
    if upto <= 0 {
        r
    } else if rank(key, m, upto - 1) == r {
        upto - 1
    } else {
        source(key, m, r, upto - 1)
    }
}

/// Where the group of position `p` starts, the groups being `width` long.
pub open spec fn chunk_start(p: int, width: int) -> int {
    p - p % width
}

/// How long the group of position `p` is in a text of `n` symbols: `width`,
/// but for a shorter last group.
pub open spec fn chunk_len(n: int, p: int, width: int) -> int {
    if n - chunk_start(p, width) < width {
        n - chunk_start(p, width)
    } else {
        width
    }
}

/// The symbols `s` with each group put in the order of the key: the symbol
/// whose key entry is the `r`-th smallest of its group comes to place `r` of
/// the group.
pub open spec fn scattered(key: Seq<u8>, s: Seq<u8>) -> Seq<u8> {
    Seq::new(
        s.len(),
        |p: int|
            {
                let b = chunk_start(p, key.len() as int);
                let m = chunk_len(s.len() as int, p, key.len() as int);
                s[b + source(key, m, p - b, m)]
            },
    )
}

/// The symbols `s` with each group put back: place `i` of a group gets the
/// symbol that stands where the key entry `i` ranks in the group.
pub open spec fn gathered(key: Seq<u8>, s: Seq<u8>) -> Seq<u8> {
    Seq::new(
        s.len(),
        |p: int|
            {
                let b = chunk_start(p, key.len() as int);
                let m = chunk_len(s.len() as int, p, key.len() as int);
                s[b + rank(key, m, p - b)]
            },
    )
}

/// No two entries of the key are equal.
pub open spec fn distinct_entries(key: Seq<u8>) -> bool {
    forall|i: int, j: int| 0 <= i < key.len() && 0 <= j < key.len() && i != j ==> key[i] != key[j]
}

/// Fewer than `upto` entries are less than `v` where one of them is not.
pub proof fn lemma_smaller_bound(key: Seq<u8>, v: u8, upto: int, w: int)
    requires
        0 <= w < upto,
        key[w] >= v,
    ensures
        0 <= smaller(key, v, upto) < upto,
    decreases upto,
{
    lemma_smaller_range(key, v, upto - 1);
    if w < upto - 1 {
        lemma_smaller_bound(key, v, upto - 1, w);
    }
}

/// At most `upto` of the first `upto` entries are less than `v`.
pub proof fn lemma_smaller_range(key: Seq<u8>, v: u8, upto: int)
    requires
        0 <= upto,
    ensures
        0 <= smaller(key, v, upto) <= upto,
    decreases upto,
{
    if upto > 0 {
        lemma_smaller_range(key, v, upto - 1);
    }
}

/// A greater bound has at least as many entries under it.
pub proof fn lemma_smaller_monotone(key: Seq<u8>, a: u8, b: u8, upto: int)
    requires
        a <= b,
        0 <= upto,
    ensures
        smaller(key, a, upto) <= smaller(key, b, upto),
    decreases upto,
{
    if upto > 0 {
        lemma_smaller_monotone(key, a, b, upto - 1);
    }
}

/// A greater bound has more entries under it where an entry lies between the two.
pub proof fn lemma_smaller_strict(key: Seq<u8>, a: u8, b: u8, upto: int, w: int)
    requires
        0 <= w < upto,
        a <= key[w] < b,
    ensures
        smaller(key, a, upto) < smaller(key, b, upto),
    decreases upto,
{
    if w < upto - 1 {
        lemma_smaller_strict(key, a, b, upto - 1, w);
    } else {
        lemma_smaller_monotone(key, a, b, upto - 1);
    }
}

/// Among distinct entries, the entry with a given rank is found again by it.
pub proof fn lemma_source_of_rank(key: Seq<u8>, m: int, i: int, upto: int)
    requires
        distinct_entries(key),
        0 <= i < upto <= m <= key.len(),
    ensures
        source(key, m, rank(key, m, i), upto) == i,
    decreases upto,
{
    let j = upto - 1;
    if j != i {
        if key[i] < key[j] {
            lemma_smaller_strict(key, key[i], key[j], m, i);
        } else {
            lemma_smaller_strict(key, key[j], key[i], m, j);
        }
        lemma_source_of_rank(key, m, i, upto - 1);
    }
}

/// A position `i` places into the group that starts at `q * width` lies in
/// that group.
pub proof fn lemma_chunk(n: int, q: int, width: int, i: int)
    requires
        0 <= q,
        0 <= i < width,
        q * width + i < n,
    ensures
        chunk_start(q * width + i, width) == q * width,
        chunk_len(n, q * width + i, width) == if n - q * width < width {
            n - q * width
        } else {
            width
        },
{
    lemma_fundamental_div_mod_converse(q * width + i, width, q, i);
}

/// For a key of distinct entries, putting the groups back undoes putting them
/// in order.
pub proof fn lemma_gather_scatter(key: Seq<u8>, s: Seq<u8>)
    requires
        key.len() > 0,
        distinct_entries(key),
    ensures
        gathered(key, scattered(key, s)) == s,
{
    let width = key.len() as int;
    let n = s.len() as int;
    let e = scattered(key, s);
    let d = gathered(key, e);
    assert forall|p: int| 0 <= p < n implies d[p] == s[p] by {
        let q = p / width;
        let i = p % width;
        assert(p == q * width + i && 0 <= i < width && 0 <= q) by (nonlinear_arith)
            requires
                q == p / width,
                i == p % width,
                width > 0,
                p >= 0,
        ;
        lemma_chunk(n, q, width, i);
        let b = q * width;
        let m = chunk_len(n, p, width);
        assert(i < m);
        lemma_smaller_bound(key, key[i], m, i);
        let r = rank(key, m, i);
        lemma_chunk(n, q, width, r);
        lemma_source_of_rank(key, m, i, m);
        assert(e[b + r] == s[b + source(key, m, r, m)]);
    }
    assert(d =~= s);
}

/// Reads the numbers of a key text.
pub fn parse_columns(text: &str) -> (r: Option<Vec<u8>>)
    ensures
        match r {
            Some(v) => columns_of(text@) == Some(v@),
            None => columns_of(text@) is None,
        },
{
    let chars = chars_of(text);
    let mut done: Vec<u8> = Vec::new();
    let mut current: Option<u8> = None;
    let mut signed = false;
    let mut i: usize = 0;
    assert(chars@.take(0) =~= Seq::empty());
    while i < chars.len()
        invariant
            i <= chars.len(),
            chars@ == text@,
            read_prefix(chars@.take(i as int)) == Some(
                (
                    done@,
                    match current {
                        Some(v) => Some(v as int),
                        None => None,
                    },
                    signed,
                ),
            ),
        decreases chars.len() - i,
    {
        let c = chars[i];
        assert(chars@.take(i + 1).drop_last() =~= chars@.take(i as int));
        assert(chars@.take(i + 1).last() == c);
        let ghost rest = chars@.take(i + 1);
        if c == ',' {
            match current {
                Some(v) => {
                    done.push(v);
                    current = None;
                },
                None => {
                    proof {
                        lemma_read_fails_on(chars@, i + 1);
                    }
                    return None;
                },
            }
        } else if c == '+' {
            if current.is_some() || signed {
                proof {
                    lemma_read_fails_on(chars@, i + 1);
                }
                return None;
            }
            signed = true;
        } else if '0' <= c && c <= '9' {
            let digit: u32 = (c as u32) - 48;
            let before: u32 = match current {
                Some(v) => v as u32,
                None => 0,
            };
            let v: u32 = before * 10 + digit;
            if v > 255 {
                proof {
                    lemma_read_fails_on(chars@, i + 1);
                }
                return None;
            }
            current = Some(v as u8);
            signed = false;
        } else {
            proof {
                lemma_read_fails_on(chars@, i + 1);
            }
            return None;
        }
        i += 1;
    }
    assert(chars@.take(i as int) =~= chars@);
    match current {
        Some(v) => {
            done.push(v);
            Some(done)
        },
        None => None,
    }
}

/// A key text that can be read holds at least one number.
pub proof fn lemma_columns_not_empty(text: Seq<char>)
    ensures
        columns_of(text) matches Some(columns) ==> columns.len() > 0,
{
}

/// Once a part of the text cannot be read, the whole cannot.
pub proof fn lemma_read_fails_on(text: Seq<char>, upto: int)
    requires
        0 <= upto <= text.len(),
        read_prefix(text.take(upto)) is None,
    ensures
        read_prefix(text) is None,
        columns_of(text) is None,
    decreases text.len() - upto,
{
    if upto < text.len() {
        assert(text.take(upto + 1).drop_last() =~= text.take(upto));
        lemma_read_fails_on(text, upto + 1);
    } else {
        assert(text.take(upto) =~= text);
    }
}

pub struct Transposition {
    key: KeyVec,
}

impl View for Transposition {
    type V = Seq<u8>;

    closed spec fn view(&self) -> Seq<u8> {
        key_items(self.key)
    }
}

impl Transposition {
    /// The key that `key` writes out: numbers with commas between them.
    pub fn new(key: &str) -> (r: Self)
        requires
            columns_of(key@) is Some,
        ensures
            Some(r@) == columns_of(key@),
    {
        match parse_columns(key) {
            Some(columns) => Self { key: key_from(&columns) },
            None => Self { key: key_from(&Vec::new()) },
        }
    }

    /// The key that `key` writes out, or an error where `key` is not a list
    /// of numbers with commas between them, or holds a number twice.
    pub fn try_new(key: &str) -> (r: Result<Self, CipherError>)
        ensures
            r is Ok <==> (columns_of(key@) matches Some(columns) && distinct_entries(columns)),
            r matches Ok(cipher) ==> Some(cipher@) == columns_of(key@) && cipher.can_encrypt(),
            r matches Err(e) ==> e == CipherError::MalformedKey,
    {
        match parse_columns(key) {
            Some(columns) => {
                proof {
                    lemma_columns_not_empty(key@);
                }
                let cipher = Self { key: key_from(&columns) };
                if cipher.is_valid() {
                    Ok(cipher)
                } else {
                    Err(CipherError::MalformedKey)
                }
            },
            None => Err(CipherError::MalformedKey),
        }
    }

    /// Whether the key can be used: it has an entry, and no entry twice.
    pub fn is_valid(&self) -> (ok: bool)
        ensures
            ok == self.can_encrypt(),
    {
        let n = key_len(&self.key);
        if n == 0 {
            return false;
        }
        let mut i: usize = 0;
        while i < n
            invariant
                i <= n,
                n == self@.len(),
                forall|a: int, b: int| 0 <= a < i && 0 <= b < n && a != b ==> self@[a] != self@[b],
            decreases n - i,
        {
            let v = key_at(&self.key, i);
            let mut j: usize = 0;
            while j < n
                invariant
                    j <= n,
                    i < n,
                    n == self@.len(),
                    v == self@[i as int],
                    forall|b: int| 0 <= b < j && b != i ==> self@[b] != v,
                decreases n - j,
            {
                if j != i && key_at(&self.key, j) == v {
                    return false;
                }
                j += 1;
            }
            i += 1;
        }
        true
    }

    /// Decrypting an encrypted text gives the text back.
    pub proof fn lemma_decrypt_encrypt(&self, s: Seq<u8>)
        requires
            self.can_encrypt(),
        ensures
            self.decrypted(self.encrypted(s)) == s,
    {
        lemma_gather_scatter(self@, s);
    }
}

/// For each place of a group of `m` symbols, the place that its symbol comes
/// from: under encryption the entry of that rank, under decryption the rank
/// of the entry.
fn places(key: &KeyVec, m: usize, encrypting: bool) -> (table: Vec<usize>)
    requires
        0 < m <= key_items(*key).len(),
    ensures
        table@.len() == m,
        forall|i: int|
            0 <= i < m ==> 0 <= #[trigger] table@[i] < m && table@[i] == if encrypting {
                source(key_items(*key), m as int, i, m as int)
            } else {
                rank(key_items(*key), m as int, i)
            },
{
    let ghost k = key_items(*key);
    let mut ranks: Vec<usize> = Vec::new();
    let mut i: usize = 0;
    while i < m
        invariant
            i <= m,
            0 < m <= k.len(),
            k == key_items(*key),
            ranks@.len() == i,
            forall|j: int| 0 <= j < i ==> 0 <= #[trigger] ranks@[j] < m && ranks@[j] == rank(k, m as int, j),
        decreases m - i,
    {
        let v = key_at(key, i);
        let mut count: usize = 0;
        let mut j: usize = 0;
        while j < m
            invariant
                j <= m,
                0 < m <= k.len(),
                k == key_items(*key),
                v == k[i as int],
                count == smaller(k, v, j as int),
                count <= j,
            decreases m - j,
        {
            if key_at(key, j) < v {
                count += 1;
            }
            j += 1;
        }
        proof {
            lemma_smaller_bound(k, v, m as int, i as int);
        }
        ranks.push(count);
        i += 1;
    }
    if !encrypting {
        return ranks;
    }
    let mut sources: Vec<usize> = Vec::new();
    let mut r: usize = 0;
    while r < m
        invariant
            r <= m,
            0 < m <= k.len(),
            ranks@.len() == m,
            forall|j: int| 0 <= j < m ==> #[trigger] ranks@[j] == rank(k, m as int, j),
            sources@.len() == r,
            forall|j: int|
                0 <= j < r ==> 0 <= #[trigger] sources@[j] < m && sources@[j] == source(
                    k,
                    m as int,
                    j,
                    m as int,
                ),
        decreases m - r,
    {
        let mut found: usize = r;
        let mut j: usize = 0;
        while j < m
            invariant
                j <= m,
                r < m,
                ranks@.len() == m,
                forall|j: int| 0 <= j < m ==> #[trigger] ranks@[j] == rank(k, m as int, j),
                found == source(k, m as int, r as int, j as int),
                found < m,
            decreases m - j,
        {
            if ranks[j] == r {
                found = j;
            }
            j += 1;
        }
        sources.push(found);
        r += 1;
    }
    sources
}

/// Puts the groups of the buffer in the order of the key, or back.
fn permute(key: &KeyVec, buf: Buffer, encrypting: bool) -> (out: Buffer)
    requires
        key_items(*key).len() > 0,
        buf.wf(),
    ensures
        out@ == if encrypting {
            scattered(key_items(*key), buf@)
        } else {
            gathered(key_items(*key), buf@)
        },
        out@.len() == buf@.len(),
        out.text() == buf.text(),
        out.wf(),
{
    let ghost k = key_items(*key);
    let ghost s = buf@;
    let ghost goal = if encrypting {
        scattered(k, s)
    } else {
        gathered(k, s)
    };
    let n = buf.len();
    let width = key_len(key);
    let mut out = buf.clone();
    let full = places(key, width, encrypting);
    let mut base: usize = 0;
    let ghost mut q: int = 0;
    assert(0 * (width as int) == 0);
    while n - base >= width
        invariant
            base <= n,
            0 <= q,
            base == q * width,
            width == k.len(),
            width > 0,
            k == key_items(*key),
            n == s.len(),
            s == buf@,
            symbols_wf(s),
            out@.len() == n,
            out.text() == buf.text(),
            symbols_wf(out@),
            goal == if encrypting {
                scattered(k, s)
            } else {
                gathered(k, s)
            },
            full@.len() == width,
            forall|i: int|
                0 <= i < width ==> 0 <= #[trigger] full@[i] < width && full@[i] == if encrypting {
                    source(k, width as int, i, width as int)
                } else {
                    rank(k, width as int, i)
                },
            forall|p: int| 0 <= p < base ==> out@[p] == goal[p],
        decreases n - base,
    {
        let mut i: usize = 0;
        while i < width
            invariant
                i <= width,
                n - base >= width,
                0 <= q,
                base == q * width,
                width == k.len(),
                width > 0,
                n == s.len(),
                s == buf@,
                symbols_wf(s),
                out@.len() == n,
                out.text() == buf.text(),
                symbols_wf(out@),
                goal == if encrypting {
                    scattered(k, s)
                } else {
                    gathered(k, s)
                },
                full@.len() == width,
                forall|i: int|
                    0 <= i < width ==> 0 <= #[trigger] full@[i] < width && full@[i]
                        == if encrypting {
                        source(k, width as int, i, width as int)
                    } else {
                        rank(k, width as int, i)
                    },
                forall|p: int| 0 <= p < base + i ==> out@[p] == goal[p],
            decreases width - i,
        {
            let from = base + full[i];
            let c = buf.get(from);
            proof {
                lemma_chunk(n as int, q, width as int, i as int);
            }
            out.set(base + i, c);
            i += 1;
        }
        proof {
            assert((q + 1) * width == q * width + width) by (nonlinear_arith);
            q = q + 1;
        }
        base += width;
    }
    if base < n {
        let m = n - base;
        let last = places(key, m, encrypting);
        let mut i: usize = 0;
        while i < m
            invariant
                i <= m,
                m == n - base,
                0 < m < width,
                0 <= q,
                base == q * width,
                width == k.len(),
                n == s.len(),
                s == buf@,
                symbols_wf(s),
                out@.len() == n,
                out.text() == buf.text(),
                symbols_wf(out@),
                goal == if encrypting {
                    scattered(k, s)
                } else {
                    gathered(k, s)
                },
                last@.len() == m,
                forall|i: int|
                    0 <= i < m ==> 0 <= #[trigger] last@[i] < m && last@[i] == if encrypting {
                        source(k, m as int, i, m as int)
                    } else {
                        rank(k, m as int, i)
                    },
                forall|p: int| 0 <= p < base + i ==> out@[p] == goal[p],
            decreases m - i,
        {
            let from = base + last[i];
            let c = buf.get(from);
            proof {
                lemma_chunk(n as int, q, width as int, i as int);
            }
            out.set(base + i, c);
            i += 1;
        }
    }
    assert(out@ =~= goal);
    out
}

impl Encrypt for Transposition {
    open spec fn can_encrypt(&self) -> bool {
        self@.len() > 0 && distinct_entries(self@)
    }

    open spec fn encrypted(&self, s: Seq<u8>) -> Seq<u8> {
        scattered(self@, s)
    }

    fn encrypt(&self, buf: Buffer) -> (r: Result<Buffer, CipherError>) {
        Ok(permute(&self.key, buf, true))
    }
}

impl Decrypt for Transposition {
    open spec fn can_decrypt(&self) -> bool {
        self@.len() > 0 && distinct_entries(self@)
    }

    open spec fn decrypted(&self, s: Seq<u8>) -> Seq<u8> {
        gathered(self@, s)
    }

    fn decrypt(&self, buf: Buffer) -> (r: Result<Buffer, CipherError>) {
        Ok(permute(&self.key, buf, false))
    }
}

} // verus!
