//! Stochastic hill climbing: from a random key, step to a random neighbour
//! whenever it scores better, until no neighbour has done so for a while.

use crate::buffer::Buffer;
use crate::ciphers::{CipherError, Decrypt};
use crate::meta::brute::{lemma_swept_prefix, swept};
use crate::meta::{candidate, genuine, lemma_inserted, CrackResults, HeuristicTarget, Metaheuristic};
use crate::random::seeded;
use crate::score::{Score, ScoreMethod};
use crate::stats::QuadgramTable;
use rand::rngs::StdRng;
use vstd::prelude::*;

verus! {

pub struct HillClimb {
    stop_after: usize,
    restarts: usize,
    rng: StdRng,
}

/// Whether a neighbour takes the place of the parent: only if it scores better.
pub open spec fn improves(score: int, parent_score: int) -> bool {
    score > parent_score
}

/// How many neighbours in a row have failed to improve on the parent, after
/// one more neighbour with `score` was tried.
pub open spec fn stagnation_after(stagnant: int, score: int, parent_score: int) -> int {
    if improves(score, parent_score) {
        0
    } else {
        stagnant + 1
    }
}

/// One step of a climb: the score of the parent and the count of failures in a
/// row after a neighbour with `score` was tried.
pub fn climb_step(stagnant: usize, score: Score, parent_score: Score) -> (r: (bool, Score, usize))
    requires
        stagnant < usize::MAX,
    ensures
        r.0 == improves(score as int, parent_score as int),
        r.1 == if r.0 {
            score
        } else {
            parent_score
        },
        r.2 == stagnation_after(stagnant as int, score as int, parent_score as int),
{
    if score > parent_score {
        (true, score, 0)
    } else {
        (false, parent_score, stagnant + 1)
    }
}

/// One climb: the key it starts from and the neighbours tried, in order.
pub struct Climb<T> {
    pub start: T,
    pub neighbours: Seq<T>,
}

/// The parent of a climb after its first `n` neighbours were tried: the start,
/// or the last neighbour so far that scored better than the parent it met.
pub open spec fn parent_at<T: HeuristicTarget>(
    c: Climb<T>,
    n: int,
    text: Seq<u8>,
    method: ScoreMethod,
    table: Seq<i32>,
) -> T
    decreases n,
{
    if n <= 0 {
        c.start
    } else {
        let parent = parent_at(c, n - 1, text, method, table);
        if improves(
            candidate(c.neighbours[n - 1], text, method, table).score,
            candidate(parent, text, method, table).score,
        ) {
            c.neighbours[n - 1]
        } else {
            parent
        }
    }
}

/// How many neighbours in a row have failed to beat the parent after the
/// first `n` neighbours of a climb were tried.
pub open spec fn stagnation_at<T: HeuristicTarget>(
    c: Climb<T>,
    n: int,
    text: Seq<u8>,
    method: ScoreMethod,
    table: Seq<i32>,
) -> int
    decreases n,
{
    if n <= 0 {
        0
    } else {
        stagnation_after(
            stagnation_at(c, n - 1, text, method, table),
            candidate(c.neighbours[n - 1], text, method, table).score,
            candidate(parent_at(c, n - 1, text, method, table), text, method, table).score,
        )
    }
}

/// Whether a climb went as it should: it starts from a key drawn for the
/// shape, each neighbour is a neighbour of the parent that it met, and the
/// climb ends with the first neighbour that is the `stop_after`-th in a row
/// not to beat the parent.
pub open spec fn climbed<T: HeuristicTarget>(
    c: Climb<T>,
    param: T::KeyParam,
    stop_after: int,
    text: Seq<u8>,
    method: ScoreMethod,
    table: Seq<i32>,
) -> bool {
    &&& c.start.of_shape(param)
    &&& forall|i: int|
        0 <= i < c.neighbours.len() ==> parent_at(c, i, text, method, table).neighbour(
            &#[trigger] c.neighbours[i],
            param,
        ) && stagnation_at(c, i, text, method, table) < stop_after
    &&& stagnation_at(c, c.neighbours.len() as int, text, method, table) == stop_after
}

/// The keys that a climb tries, in order: its start, then its neighbours.
pub open spec fn keys_of<T>(c: Climb<T>) -> Seq<T> {
    seq![c.start] + c.neighbours
}

/// The keys that the first `upto` climbs try, in order.
pub open spec fn keys_tried<T>(climbs: Seq<Climb<T>>, upto: int) -> Seq<T>
    decreases upto,
{
    if upto <= 0 {
        Seq::empty()
    } else {
        keys_tried(climbs, upto - 1) + keys_of(climbs[upto - 1])
    }
}

/// After `n` neighbours at most `n` have failed in a row: a climb that went
/// as it should has tried at least `stop_after` neighbours.
pub proof fn lemma_stagnation_bound<T: HeuristicTarget>(
    c: Climb<T>,
    n: int,
    text: Seq<u8>,
    method: ScoreMethod,
    table: Seq<i32>,
)
    requires
        0 <= n,
    ensures
        0 <= stagnation_at(c, n, text, method, table) <= n,
    decreases n,
{
    if n > 0 {
        lemma_stagnation_bound(c, n - 1, text, method, table);
    }
}

/// One more neighbour does not change what went before it in the climb.
pub proof fn lemma_climb_prefix<T: HeuristicTarget>(
    c: Climb<T>,
    key: T,
    n: int,
    text: Seq<u8>,
    method: ScoreMethod,
    table: Seq<i32>,
)
    requires
        0 <= n <= c.neighbours.len(),
    ensures
        parent_at(
            (Climb { start: c.start, neighbours: c.neighbours.push(key) }),
            n,
            text,
            method,
            table,
        ) == parent_at(c, n, text, method, table),
        stagnation_at(
            (Climb { start: c.start, neighbours: c.neighbours.push(key) }),
            n,
            text,
            method,
            table,
        ) == stagnation_at(c, n, text, method, table),
    decreases n,
{
    if n > 0 {
        lemma_climb_prefix(c, key, n - 1, text, method, table);
        assert(c.neighbours.push(key)[n - 1] == c.neighbours[n - 1]);
    }
}

/// One more climb does not change the keys that the climbs before it tried.
pub proof fn lemma_keys_tried_prefix<T>(climbs: Seq<Climb<T>>, c: Climb<T>, upto: int)
    requires
        0 <= upto <= climbs.len(),
    ensures
        keys_tried(climbs.push(c), upto) == keys_tried(climbs, upto),
    decreases upto,
{
    if upto > 0 {
        lemma_keys_tried_prefix(climbs, c, upto - 1);
        assert(climbs.push(c)[upto - 1] == climbs[upto - 1]);
    }
}

impl HillClimb {
    /// How many neighbours in a row may fail before a climb ends.
    pub closed spec fn stop_after(&self) -> usize {
        self.stop_after
    }

    /// How many climbs are made, each from a fresh random key.
    pub closed spec fn restarts(&self) -> usize {
        self.restarts
    }

    /// The random source that the search draws from.
    pub closed spec fn generator(&self) -> StdRng {
        self.rng
    }

    /// A search that draws from `rng`.
    pub fn new(stop_after: usize, restarts: usize, rng: StdRng) -> (r: Self)
        requires
            stop_after > 0,
        ensures
            r.stop_after() == stop_after,
            r.restarts() == restarts,
            r.generator() == rng,
    {
        Self { stop_after, restarts, rng }
    }

    /// A search whose random source is made from `seed`.
    pub fn with_seed(stop_after: usize, restarts: usize, seed: u64) -> (r: Self)
        requires
            stop_after > 0,
        ensures
            r.stop_after() == stop_after,
            r.restarts() == restarts,
    {
        Self { stop_after, restarts, rng: seeded(seed) }
    }
}

impl Metaheuristic for HillClimb {
    open spec fn needs_enumeration(&self) -> bool {
        false
    }

    fn crack_ciphertext<T: HeuristicTarget>(
        &mut self,
        text: Buffer,
        param: T::KeyParam,
        score_method: ScoreMethod,
        num_results: usize,
        table: &QuadgramTable,
    ) -> (r: Result<CrackResults<T>, CipherError>)
        ensures
            final(self).stop_after() == old(self).stop_after(),
            final(self).restarts() == old(self).restarts(),
            r matches Ok(res) && exists|climbs: Seq<Climb<T>>|
                {
                    &&& climbs.len() == old(self).restarts()
                    &&& forall|k: int|
                        0 <= k < climbs.len() ==> climbed(
                            #[trigger] climbs[k],
                            param,
                            old(self).stop_after() as int,
                            text@,
                            score_method,
                            table@,
                        )
                    &&& res@ == swept(
                        #[trigger] keys_tried(climbs, climbs.len() as int),
                        keys_tried(climbs, climbs.len() as int).len() as int,
                        text@,
                        score_method,
                        table@,
                        num_results as int,
                    )
                },
    {
        let mut results: CrackResults<T> = CrackResults::new(num_results);
        let stop_after = self.stop_after;
        let restarts = self.restarts;
        let mut round: usize = 0;
        let ghost mut tried: Seq<T> = Seq::empty();
        let ghost mut climbs: Seq<Climb<T>> = Seq::empty();
        proof {
            results.lemma_texts_len();
        }
        while round < restarts
            invariant
                round <= restarts,
                climbs.len() == round,
                forall|k: int|
                    0 <= k < climbs.len() ==> climbed(
                        #[trigger] climbs[k],
                        param,
                        stop_after as int,
                        text@,
                        score_method,
                        table@,
                    ),
                tried == keys_tried(climbs, round as int),
                results@ == swept(
                    tried,
                    tried.len() as int,
                    text@,
                    score_method,
                    table@,
                    num_results as int,
                ),
                self.stop_after == stop_after,
                self.restarts == restarts,
                stop_after == old(self).stop_after,
                restarts == old(self).restarts,
                text.wf(),
                text@.len() <= u32::MAX,
                table.wf(),
                results.wf(),
                results.capacity() == num_results,
                genuine(results@, text@, score_method, table@),
                forall|i: int|
                    0 <= i < results.texts().len() ==> #[trigger] results.texts()[i] == text.text(),
            decreases restarts - round,
        {
            let ghost before_climb = tried;
            let start = T::rand_key(param, &mut self.rng);
            let ghost mut cur: Climb<T> = Climb { start: start, neighbours: Seq::empty() };
            let mut parent_score: Score = match start.decrypt(text.clone()) {
                Ok(buf) => {
                    let ghost before = results@;
                    let twin = start.copy_key();
                    let score = results.process_result(buf, twin, score_method, table);
                    proof {
                        lemma_inserted(
                            before,
                            num_results as int,
                            candidate(start, text@, score_method, table@),
                        );
                        lemma_swept_prefix(
                            tried,
                            start,
                            tried.len() as int,
                            text@,
                            score_method,
                            table@,
                            num_results as int,
                        );
                        tried = tried.push(start);
                        assert(tried =~= before_climb + keys_of(cur));
                    }
                    score
                },
                Err(e) => {
                    return Err(e);
                },
            };
            let mut parent = start;
            let mut stagnant: usize = 0;
            while stagnant < stop_after
                invariant
                    stagnant <= stop_after,
                    round < restarts,
                    cur.start.of_shape(param),
                    forall|i: int|
                        0 <= i < cur.neighbours.len() ==> parent_at(
                            cur,
                            i,
                            text@,
                            score_method,
                            table@,
                        ).neighbour(&#[trigger] cur.neighbours[i], param) && stagnation_at(
                            cur,
                            i,
                            text@,
                            score_method,
                            table@,
                        ) < stop_after,
                    parent == parent_at(
                        cur,
                        cur.neighbours.len() as int,
                        text@,
                        score_method,
                        table@,
                    ),
                    stagnant == stagnation_at(
                        cur,
                        cur.neighbours.len() as int,
                        text@,
                        score_method,
                        table@,
                    ),
                    parent_score == candidate(parent, text@, score_method, table@).score,
                    tried == before_climb + keys_of(cur),
                    results@ == swept(
                        tried,
                        tried.len() as int,
                        text@,
                        score_method,
                        table@,
                        num_results as int,
                    ),
                    self.stop_after == stop_after,
                    self.restarts == restarts,
                    parent.can_decrypt(),
                    text.wf(),
                    text@.len() <= u32::MAX,
                    table.wf(),
                    results.wf(),
                    results.capacity() == num_results,
                    genuine(results@, text@, score_method, table@),
                    forall|i: int|
                        0 <= i < results.texts().len() ==> #[trigger] results.texts()[i]
                            == text.text(),
                decreases i128::MAX - parent_score, stop_after - stagnant,
            {
                let key = parent.tweak_key(param, &mut self.rng);
                match key.decrypt(text.clone()) {
                    Ok(buf) => {
                        let ghost before = results@;
                        let twin = key.copy_key();
                        let score = results.process_result(buf, twin, score_method, table);
                        let step = climb_step(stagnant, score, parent_score);
                        proof {
                            lemma_inserted(
                                before,
                                num_results as int,
                                candidate(key, text@, score_method, table@),
                            );
                            lemma_swept_prefix(
                                tried,
                                key,
                                tried.len() as int,
                                text@,
                                score_method,
                                table@,
                                num_results as int,
                            );
                            let longer = Climb { start: cur.start, neighbours: cur.neighbours.push(key) };
                            let n = cur.neighbours.len() as int;
                            assert forall|i: int| 0 <= i < longer.neighbours.len() implies parent_at(
                                longer,
                                i,
                                text@,
                                score_method,
                                table@,
                            ).neighbour(&#[trigger] longer.neighbours[i], param) && stagnation_at(
                                longer,
                                i,
                                text@,
                                score_method,
                                table@,
                            ) < stop_after by {
                                lemma_climb_prefix(cur, key, i, text@, score_method, table@);
                                if i < n {
                                    assert(longer.neighbours[i] == cur.neighbours[i]);
                                }
                            }
                            lemma_climb_prefix(cur, key, n, text@, score_method, table@);
                            assert(longer.neighbours[n] == key);
                            tried = tried.push(key);
                            assert(tried =~= before_climb + keys_of(longer));
                            cur = longer;
                        }
                        if step.0 {
                            parent = key;
                        }
                        parent_score = step.1;
                        stagnant = step.2;
                    },
                    Err(e) => {
                        return Err(e);
                    },
                }
            }
            proof {
                lemma_keys_tried_prefix(climbs, cur, round as int);
                let more = climbs.push(cur);
                assert forall|k: int| 0 <= k < more.len() implies climbed(
                    #[trigger] more[k],
                    param,
                    stop_after as int,
                    text@,
                    score_method,
                    table@,
                ) by {
                    if k < climbs.len() {
                        assert(more[k] == climbs[k]);
                    }
                }
                assert(more[round as int] == cur);
                climbs = more;
            }
            round += 1;
        }
        Ok(results)
    }
}

} // verus!
