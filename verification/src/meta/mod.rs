//! Searching a key space: what a cipher offers to a search, and the bounded
//! list of the best candidates that a search keeps.

use crate::buffer::Buffer;
use crate::ciphers::{CipherError, Decrypt};
use crate::score::{min_score, score_of, Score, ScoreMethod, MIN_SCORE};
use crate::stats::QuadgramTable;
use rand::rngs::StdRng;
use vstd::prelude::*;

pub mod brute;
pub mod hillclimb;

verus! {

/// The shape of the keys of a cipher whose keys all have one shape.
#[derive(Clone, Copy, Debug, PartialEq, Eq, Structural)]
pub struct NoParam;

/// A cipher whose key space can be searched.
pub trait HeuristicTarget: Decrypt + Sized {
    /// The shape of the keys to search among: a key length, say.
    type KeyParam: Copy;

    /// What tells one key from another: two keys are equal when this is.
    spec fn key_id(&self) -> Seq<u8>;

    /// Whether the keys of this shape can be listed one after another.
    spec fn enumerable(param: Self::KeyParam) -> bool;

    /// Every key of this shape, in the order in which `next_key` gives them.
    spec fn key_space(param: Self::KeyParam) -> Seq<Self>;

    /// The place of the key in `key_space`.
    spec fn rank(&self, param: Self::KeyParam) -> int;

    /// What holds of every key that `rand_key` draws for this shape.
    spec fn of_shape(&self, param: Self::KeyParam) -> bool;

    /// Whether `other` is one small change away from this key: what
    /// `tweak_key` may give for it.
    spec fn neighbour(&self, other: &Self, param: Self::KeyParam) -> bool;

    /// A key of this shape drawn at random.
    fn rand_key(param: Self::KeyParam, rng: &mut StdRng) -> (key: Self)
        ensures
            key.can_decrypt(),
            key.of_shape(param),
    ;

    /// A neighbour of this key, drawn at random.
    fn tweak_key(&self, param: Self::KeyParam, rng: &mut StdRng) -> (key: Self)
        requires
            self.can_decrypt(),
        ensures
            key.can_decrypt(),
            self.neighbour(&key, param),
    ;

    /// The first key of the space for `None`; else the key after `key`, or
    /// `None` after the last.
    fn next_key(key: Option<Self>, param: Self::KeyParam) -> (r: Option<Self>)
        requires
            Self::enumerable(param),
            key matches Some(k) ==> 0 <= k.rank(param) < Self::key_space(param).len()
                && Self::key_space(param)[k.rank(param)] == k,
        ensures
            r == next_in_space(
                Self::key_space(param),
                match key {
                    Some(k) => k.rank(param) + 1,
                    None => 0,
                },
            ),
    ;

    /// Whether two keys are equal.
    fn same_key(&self, other: &Self) -> (b: bool)
        ensures
            b == (self.key_id() == other.key_id()),
    ;

    /// A copy of the key.
    fn copy_key(&self) -> (key: Self)
        ensures
            key == *self,
    ;

    /// Each key of the space can decrypt, knows its place, and differs from
    /// every other key of the space.
    proof fn lemma_key_space(param: Self::KeyParam, i: int, j: int)
        requires
            Self::enumerable(param),
            0 <= i < Self::key_space(param).len(),
            0 <= j < Self::key_space(param).len(),
        ensures
            Self::key_space(param)[i].can_decrypt(),
            Self::key_space(param)[i].rank(param) == i,
            i != j ==> Self::key_space(param)[i].key_id() != Self::key_space(param)[j].key_id(),
    ;
}

/// The key at place `n` of the space, if there is one.
pub open spec fn next_in_space<T>(space: Seq<T>, n: int) -> Option<T> {
    if 0 <= n < space.len() {
        Some(space[n])
    } else {
        None
    }
}

/// A candidate: a key, what the text decrypts to under it, and its score.
pub struct CrackResult<K: HeuristicTarget> {
    pub score: Score,
    pub buf: Buffer,
    pub key: K,
}

/// A candidate as the contracts see it.
pub struct Ranked<K> {
    pub score: int,
    pub plain: Seq<u8>,
    pub key: K,
}

/// The best candidates seen so far: at most a fixed number of them, the best
/// first, no two with equal keys.
pub struct CrackResults<K: HeuristicTarget> {
    data: Vec<CrackResult<K>>,
    results: usize,
}

/// Best first: no candidate has a lower score than one after it.
pub open spec fn sorted<K>(entries: Seq<Ranked<K>>) -> bool {
    forall|i: int, j: int| 0 <= i < j < entries.len() ==> entries[i].score >= entries[j].score
}

/// No two candidates have equal keys.
pub open spec fn distinct<K: HeuristicTarget>(entries: Seq<Ranked<K>>) -> bool {
    forall|i: int, j: int|
        0 <= i < entries.len() && 0 <= j < entries.len() && i != j ==> entries[i].key.key_id()
            != entries[j].key.key_id()
}

/// Whether a candidate with this key is among `entries`.
pub open spec fn holds_key<K: HeuristicTarget>(entries: Seq<Ranked<K>>, id: Seq<u8>) -> bool {
    exists|i: int| 0 <= i < entries.len() && entries[i].key.key_id() == id
}

/// The place that a new candidate with this score takes: behind every
/// candidate that is at least as good.
pub open spec fn slot<K>(entries: Seq<Ranked<K>>, score: int) -> int
    decreases entries.len(),
{
    if entries.len() == 0 || entries[0].score < score {
        0
    } else {
        1 + slot(entries.drop_first(), score)
    }
}

/// Whether a new candidate is taken: it can be scored, its key is new, and
/// there is room for it or it beats the worst candidate kept.
pub open spec fn admits<K: HeuristicTarget>(
    entries: Seq<Ranked<K>>,
    capacity: int,
    candidate: Ranked<K>,
) -> bool {
    &&& candidate.score > min_score()
    &&& entries.len() < capacity || candidate.score > entries.last().score
    &&& !holds_key(entries, candidate.key.key_id())
}

/// The candidates after `candidate` was offered: unchanged if it is not taken;
/// else with it in its place, and without the worst if that made one too many.
pub open spec fn inserted<K: HeuristicTarget>(
    entries: Seq<Ranked<K>>,
    capacity: int,
    candidate: Ranked<K>,
) -> Seq<Ranked<K>> {
    if admits(entries, capacity, candidate) {
        let grown = entries.insert(slot(entries, candidate.score), candidate);
        if grown.len() > capacity {
            grown.drop_last()
        } else {
            grown
        }
    } else {
        entries
    }
}

/// In a list that is sorted best first, the place of a new candidate is the
/// first place whose candidate is worse.
pub proof fn lemma_slot<K>(entries: Seq<Ranked<K>>, score: int, pos: int)
    requires
        sorted(entries),
        0 <= pos <= entries.len(),
        forall|i: int| 0 <= i < pos ==> entries[i].score >= score,
        pos < entries.len() ==> entries[pos].score < score,
    ensures
        slot(entries, score) == pos,
    decreases entries.len(),
{
    if pos > 0 {
        let rest = entries.drop_first();
        assert forall|i: int, j: int| 0 <= i < j < rest.len() implies rest[i].score
            >= rest[j].score by {
            assert(rest[i] == entries[i + 1] && rest[j] == entries[j + 1]);
        }
        assert forall|i: int| 0 <= i < pos - 1 implies rest[i].score >= score by {
            assert(rest[i] == entries[i + 1]);
        }
        if pos - 1 < rest.len() {
            assert(rest[pos - 1] == entries[pos]);
        }
        lemma_slot(rest, score, pos - 1);
    }
}

/// The place of a new candidate lies within the list, behind every candidate
/// at least as good and before every worse one.
pub proof fn lemma_slot_bounds<K>(entries: Seq<Ranked<K>>, score: int)
    requires
        sorted(entries),
    ensures
        0 <= slot(entries, score) <= entries.len(),
        forall|i: int| 0 <= i < slot(entries, score) ==> entries[i].score >= score,
        forall|i: int| slot(entries, score) <= i < entries.len() ==> entries[i].score < score,
    decreases entries.len(),
{
    if entries.len() > 0 && entries[0].score >= score {
        let rest = entries.drop_first();
        assert forall|i: int, j: int| 0 <= i < j < rest.len() implies rest[i].score
            >= rest[j].score by {
            assert(rest[i] == entries[i + 1] && rest[j] == entries[j + 1]);
        }
        lemma_slot_bounds(rest, score);
        assert forall|i: int| 0 <= i < slot(entries, score) implies entries[i].score >= score by {
            if i > 0 {
                assert(rest[i - 1] == entries[i]);
            }
        }
        assert forall|i: int| slot(entries, score) <= i < entries.len() implies entries[i].score
            < score by {
            assert(rest[i - 1] == entries[i]);
        }
    } else if entries.len() > 0 {
        assert forall|i: int| 0 <= i < entries.len() implies entries[i].score < score by {
            if i > 0 {
                assert(entries[0].score >= entries[i].score);
            }
        }
    }
}

/// Offering a candidate keeps the list sorted, free of equal keys and within
/// its capacity; and whatever is in the list afterwards was in it before or
/// is the candidate.
pub proof fn lemma_inserted<K: HeuristicTarget>(
    entries: Seq<Ranked<K>>,
    capacity: int,
    candidate: Ranked<K>,
)
    requires
        sorted(entries),
        distinct(entries),
        entries.len() <= capacity,
        capacity > 0,
    ensures
        sorted(inserted(entries, capacity, candidate)),
        distinct(inserted(entries, capacity, candidate)),
        inserted(entries, capacity, candidate).len() <= capacity,
        forall|i: int|
            0 <= i < inserted(entries, capacity, candidate).len() ==> {
                let e = #[trigger] inserted(entries, capacity, candidate)[i];
                e == candidate || entries.contains(e)
            },
{
    if admits(entries, capacity, candidate) {
        lemma_slot_bounds(entries, candidate.score);
        let pos = slot(entries, candidate.score);
        let grown = entries.insert(pos, candidate);
        assert forall|i: int| 0 <= i < grown.len() implies (#[trigger] grown[i] == candidate
            || entries.contains(grown[i])) by {
            if i < pos {
                assert(grown[i] == entries[i]);
            } else if i > pos {
                assert(grown[i] == entries[i - 1]);
            }
        }
        assert forall|i: int, j: int| 0 <= i < j < grown.len() implies grown[i].score
            >= grown[j].score by {}
        assert forall|i: int, j: int|
            0 <= i < grown.len() && 0 <= j < grown.len() && i != j implies grown[i].key.key_id()
            != grown[j].key.key_id() by {
            let a = if i < pos {
                i
            } else {
                i - 1
            };
            let b = if j < pos {
                j
            } else {
                j - 1
            };
            if i != pos && j != pos {
                assert(grown[i] == entries[a] && grown[j] == entries[b]);
            } else if i == pos {
                assert(grown[j] == entries[b]);
            } else {
                assert(grown[i] == entries[a]);
            }
        }
        let kept = inserted(entries, capacity, candidate);
        assert forall|i: int| 0 <= i < kept.len() implies kept[i] == grown[i] by {}
    }
}

/// The candidate that `key` makes of the symbols `text`.
pub open spec fn candidate<K: HeuristicTarget>(
    key: K,
    text: Seq<u8>,
    method: ScoreMethod,
    table: Seq<i32>,
) -> Ranked<K> {
    Ranked {
        score: score_of(key.decrypted(text), method, table),
        plain: key.decrypted(text),
        key: key,
    }
}

/// Every candidate of the list is what its key makes of the symbols `text`.
pub open spec fn genuine<K: HeuristicTarget>(
    entries: Seq<Ranked<K>>,
    text: Seq<u8>,
    method: ScoreMethod,
    table: Seq<i32>,
) -> bool {
    forall|i: int|
        0 <= i < entries.len() ==> #[trigger] entries[i] == candidate(
            entries[i].key,
            text,
            method,
            table,
        )
}

/// A way to search the key space of a cipher for the keys under which a text
/// reads most like English.
pub trait Metaheuristic {
    /// Whether the search needs a key space whose keys can be listed.
    spec fn needs_enumeration(&self) -> bool;

    /// Searches the keys of shape `param` and gives the best `num_results`
    /// candidates back, each with the text as its key decrypts it.
    fn crack_ciphertext<T: HeuristicTarget>(
        &mut self,
        text: Buffer,
        param: T::KeyParam,
        score_method: ScoreMethod,
        num_results: usize,
        table: &QuadgramTable,
    ) -> (r: Result<CrackResults<T>, CipherError>)
        requires
            old(self).needs_enumeration() ==> T::enumerable(param),
            num_results > 0,
            text.wf(),
            text@.len() <= u32::MAX,
            table.wf(),
        ensures
            r matches Ok(res) && res.wf() && res.capacity() == num_results && genuine(
                res@,
                text@,
                score_method,
                table@,
            ) && forall|i: int| 0 <= i < res.texts().len() ==> #[trigger] res.texts()[i] == text.text(),
    ;
}

impl<K: HeuristicTarget> View for CrackResults<K> {
    type V = Seq<Ranked<K>>;

    closed spec fn view(&self) -> Seq<Ranked<K>> {
        Seq::new(
            self.data@.len(),
            |i: int|
                Ranked { score: self.data@[i].score as int, plain: self.data@[i].buf@, key: self.data@[i].key },
        )
    }
}

impl<K: HeuristicTarget> CrackResults<K> {
    /// How many candidates the list may hold.
    pub closed spec fn capacity(&self) -> int {
        self.results as int
    }

    /// The source text of the buffer of each candidate.
    pub closed spec fn texts(&self) -> Seq<Seq<char>> {
        Seq::new(self.data@.len(), |i: int| self.data@[i].buf.text())
    }

    /// The list is within its capacity, sorted best first, without equal
    /// keys, and every buffer in it is well formed.
    pub open spec fn wf(&self) -> bool {
        &&& self.capacity() > 0
        &&& self@.len() <= self.capacity()
        &&& sorted(self@)
        &&& distinct(self@)
        &&& forall|i: int| 0 <= i < self@.len() ==> crate::buffer::symbols_wf(#[trigger] self@[i].plain)
    }

    /// An empty list for up to `num_results` candidates.
    pub fn new(num_results: usize) -> (r: Self)
        requires
            num_results > 0,
        ensures
            r@ == Seq::<Ranked<K>>::empty(),
            r.capacity() == num_results,
            r.wf(),
    {
        let r = CrackResults { data: Vec::new(), results: num_results };
        assert(r@ =~= Seq::<Ranked<K>>::empty());
        r
    }

    /// The list has as many source texts as candidates.
    pub proof fn lemma_texts_len(&self)
        ensures
            self.texts().len() == self@.len(),
    {
    }

    /// The number of candidates in the list.
    pub fn len(&self) -> (n: usize)
        ensures
            n == self@.len(),
    {
        self.data.len()
    }

    /// The candidate at place `idx`, the best being at place 0.
    pub fn get(&self, idx: usize) -> (r: &CrackResult<K>)
        requires
            idx < self@.len(),
        ensures
            r.score == self@[idx as int].score,
            r.buf@ == self@[idx as int].plain,
            r.key == self@[idx as int].key,
            r.buf.text() == self.texts()[idx as int],
    {
        &self.data[idx]
    }

    /// The candidates, best first.
    pub fn entries(&self) -> (r: &Vec<CrackResult<K>>)
        ensures
            r@.len() == self@.len(),
            forall|i: int|
                0 <= i < r@.len() ==> (#[trigger] r@[i]).score == self@[i].score && r@[i].buf@
                    == self@[i].plain && r@[i].key == self@[i].key,
    {
        &self.data
    }

    /// Offers a candidate to the list.
    pub fn insert(&mut self, buf: Buffer, key: K, score: Score)
        requires
            old(self).wf(),
            buf.wf(),
        ensures
            final(self).wf(),
            final(self).capacity() == old(self).capacity(),
            final(self)@ == inserted(
                old(self)@,
                old(self).capacity(),
                (Ranked { score: score as int, plain: buf@, key: key }),
            ),
            forall|i: int|
                0 <= i < final(self).texts().len() ==> (#[trigger] final(self).texts()[i]) == buf.text()
                    || old(self).texts().contains(final(self).texts()[i]),
    {
        let ghost before = self@;
        let ghost texts_before = self.texts();
        let ghost candidate = Ranked { score: score as int, plain: buf@, key: key };
        proof {
            lemma_inserted(before, self.capacity(), candidate);
        }
        let n = self.data.len();
        assert forall|i: int| 0 <= i < texts_before.len() implies old(self).texts().contains(
            #[trigger] texts_before[i],
        ) by {}
        if score <= MIN_SCORE {
            return ;
        }
        if n == self.results {
            assert(before.last() == before[n - 1]);
            if score <= self.data[n - 1].score {
                return ;
            }
        }
        let mut i: usize = 0;
        while i < n
            invariant
                i <= n,
                n == self.data@.len(),
                self@ == before,
                *self == *old(self),
                self.wf(),
                !admits(before, self.capacity(), candidate) ==> inserted(
                    before,
                    self.capacity(),
                    candidate,
                ) == before,
                forall|j: int| 0 <= j < i ==> before[j].key.key_id() != key.key_id(),
            decreases n - i,
        {
            if self.data[i].key.same_key(&key) {
                assert(before[i as int].key.key_id() == key.key_id());
                return ;
            }
            i += 1;
        }
        assert(admits(before, self.capacity(), candidate));
        let mut low: usize = 0;
        let mut high: usize = n;
        while low < high
            invariant
                low <= high <= n,
                n == self.data@.len(),
                self@ == before,
                *self == *old(self),
                self.wf(),
                !admits(before, self.capacity(), candidate) ==> inserted(
                    before,
                    self.capacity(),
                    candidate,
                ) == before,
                sorted(before),
                forall|j: int| 0 <= j < low ==> before[j].score >= score,
                forall|j: int| high <= j < n ==> before[j].score < score,
            decreases high - low,
        {
            let mid: usize = low + (high - low) / 2;
            if self.data[mid].score >= score {
                assert forall|j: int| 0 <= j < mid + 1 implies before[j].score >= score by {
                    if j < mid {
                        assert(before[j].score >= before[mid as int].score);
                    }
                }
                low = mid + 1;
            } else {
                assert forall|j: int| mid <= j < n implies before[j].score < score by {
                    if j > mid {
                        assert(before[mid as int].score >= before[j].score);
                    }
                }
                high = mid;
            }
        }
        proof {
            lemma_slot(before, score as int, low as int);
        }
        self.data.insert(low, CrackResult { score, buf, key });
        let ghost grown = self@;
        let ghost grown_texts = self.texts();
        assert(grown =~= before.insert(low as int, candidate));
        assert(grown_texts =~= texts_before.insert(low as int, buf.text()));
        if self.data.len() > self.results {
            self.data.pop();
            assert(self@ =~= grown.drop_last());
            assert(self.texts() =~= grown_texts.drop_last());
        }
        assert forall|i: int| 0 <= i < self.texts().len() implies (#[trigger] self.texts()[i])
            == buf.text() || old(self).texts().contains(self.texts()[i]) by {
            assert(self.texts()[i] == grown_texts[i]);
            if i < low {
                assert(grown_texts[i] == texts_before[i]);
            } else if i > low {
                assert(grown_texts[i] == texts_before[i - 1]);
            }
        }
        assert forall|i: int| 0 <= i < self@.len() implies crate::buffer::symbols_wf(
            #[trigger] self@[i].plain,
        ) by {
            assert(self@[i] == grown[i]);
            if i < low {
                assert(grown[i] == before[i]);
            } else if i > low {
                assert(grown[i] == before[i - 1]);
            }
        }
    }

    /// Scores a candidate and offers it to the list; gives its score back.
    pub fn process_result(
        &mut self,
        buf: Buffer,
        key: K,
        method: ScoreMethod,
        table: &QuadgramTable,
    ) -> (score: Score)
        requires
            old(self).wf(),
            buf.wf(),
            buf@.len() <= u32::MAX,
            table.wf(),
        ensures
            score == score_of(buf@, method, table@),
            final(self).wf(),
            final(self).capacity() == old(self).capacity(),
            final(self)@ == inserted(
                old(self)@,
                old(self).capacity(),
                (Ranked { score: score as int, plain: buf@, key: key }),
            ),
            forall|i: int|
                0 <= i < final(self).texts().len() ==> (#[trigger] final(self).texts()[i]) == buf.text()
                    || old(self).texts().contains(final(self).texts()[i]),
    {
        let score = buf.score(method, table);
        self.insert(buf, key, score);
        score
    }
}

} // verus!
