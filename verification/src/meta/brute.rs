//! Exhaustive search: every key of the space is tried, in order.

use crate::buffer::Buffer;
use crate::ciphers::{CipherError, Decrypt};
use crate::meta::{
    admits, candidate, distinct, genuine, holds_key, inserted, lemma_inserted, lemma_slot_bounds,
    next_in_space, slot, sorted, CrackResults, HeuristicTarget, Metaheuristic, Ranked,
};
use crate::score::{min_score, ScoreMethod};
use crate::stats::QuadgramTable;
use vstd::prelude::*;

verus! {

/// The list of candidates after the first `upto` keys of `keys` were tried
/// on the symbols `text`, each offered to the list in turn.
pub open spec fn swept<T: HeuristicTarget>(
    keys: Seq<T>,
    upto: int,
    text: Seq<u8>,
    method: ScoreMethod,
    table: Seq<i32>,
    capacity: int,
) -> Seq<Ranked<T>>
    decreases upto,
{
    if upto <= 0 {
        Seq::empty()
    } else {
        inserted(
            swept(keys, upto - 1, text, method, table, capacity),
            capacity,
            candidate(keys[upto - 1], text, method, table),
        )
    }
}

/// What the first `upto` keys leave does not depend on the keys after them.
pub proof fn lemma_swept_prefix<T: HeuristicTarget>(
    keys: Seq<T>,
    key: T,
    upto: int,
    text: Seq<u8>,
    method: ScoreMethod,
    table: Seq<i32>,
    capacity: int,
)
    requires
        0 <= upto <= keys.len(),
    ensures
        swept(keys.push(key), upto, text, method, table, capacity) == swept(
            keys,
            upto,
            text,
            method,
            table,
            capacity,
        ),
    decreases upto,
{
    if upto > 0 {
        lemma_swept_prefix(keys, key, upto - 1, text, method, table, capacity);
        assert(keys.push(key)[upto - 1] == keys[upto - 1]);
    }
}

/// Whether the candidate that heads `entries` scores at least as high as
/// every one of the first `upto` keys whose decryption can be scored, and
/// `entries` is empty only if none of them can.
pub open spec fn best_first<T: HeuristicTarget>(
    entries: Seq<Ranked<T>>,
    keys: Seq<T>,
    upto: int,
    text: Seq<u8>,
    method: ScoreMethod,
    table: Seq<i32>,
) -> bool {
    forall|j: int|
        0 <= j < upto && (#[trigger] candidate(keys[j], text, method, table)).score > min_score()
            ==> entries.len() > 0 && entries[0].score >= candidate(
            keys[j],
            text,
            method,
            table,
        ).score
}

/// Whether every candidate of `entries` is what one of the first `upto` keys
/// makes of the text.
pub open spec fn drawn_from<T: HeuristicTarget>(
    entries: Seq<Ranked<T>>,
    keys: Seq<T>,
    upto: int,
    text: Seq<u8>,
    method: ScoreMethod,
    table: Seq<i32>,
) -> bool {
    forall|i: int|
        0 <= i < entries.len() ==> exists|j: int|
            0 <= j < upto && #[trigger] entries[i] == candidate(keys[j], text, method, table)
}

/// No two keys of the sequence are equal.
pub open spec fn distinct_keys<T: HeuristicTarget>(keys: Seq<T>) -> bool {
    forall|i: int, j: int|
        0 <= i < keys.len() && 0 <= j < keys.len() && i != j ==> keys[i].key_id() != keys[j].key_id()
}

/// An exhaustive search over keys that all differ tries each key once: the
/// list it leaves is sorted, holds no key twice, holds only what the keys
/// make of the text, and is headed by a candidate that no key's decryption
/// outscores.
pub proof fn lemma_sweep_best<T: HeuristicTarget>(
    keys: Seq<T>,
    upto: int,
    text: Seq<u8>,
    method: ScoreMethod,
    table: Seq<i32>,
    capacity: int,
)
    requires
        capacity > 0,
        0 <= upto <= keys.len(),
        distinct_keys(keys),
    ensures
        sorted(swept(keys, upto, text, method, table, capacity)),
        distinct(swept(keys, upto, text, method, table, capacity)),
        swept(keys, upto, text, method, table, capacity).len() <= capacity,
        swept(keys, upto, text, method, table, capacity).len() <= upto,
        drawn_from(swept(keys, upto, text, method, table, capacity), keys, upto, text, method, table),
        best_first(swept(keys, upto, text, method, table, capacity), keys, upto, text, method, table),
    decreases upto,
{
    if upto > 0 {
        lemma_sweep_best(keys, upto - 1, text, method, table, capacity);
        let prev = swept(keys, upto - 1, text, method, table, capacity);
        let c = candidate(keys[upto - 1], text, method, table);
        let f = inserted(prev, capacity, c);
        assert(f == swept(keys, upto, text, method, table, capacity));
        lemma_inserted(prev, capacity, c);
        lemma_slot_bounds(prev, c.score);
        assert forall|i: int| 0 <= i < f.len() implies exists|j: int|
            0 <= j < upto && #[trigger] f[i] == candidate(keys[j], text, method, table) by {
            if f[i] == c {
                assert(f[i] == candidate(keys[upto - 1], text, method, table));
            } else {
                assert(prev.contains(f[i]));
                let at = choose|at: int| 0 <= at < prev.len() && prev[at] == f[i];
                let j = choose|j: int|
                    0 <= j < upto - 1 && #[trigger] prev[at] == candidate(
                        keys[j],
                        text,
                        method,
                        table,
                    );
                assert(f[i] == candidate(keys[j], text, method, table));
            }
        }
        assert(!holds_key(prev, c.key.key_id())) by {
            if holds_key(prev, c.key.key_id()) {
                let at = choose|at: int| 0 <= at < prev.len() && prev[at].key.key_id() == c.key.key_id();
                let j = choose|j: int|
                    0 <= j < upto - 1 && #[trigger] prev[at] == candidate(
                        keys[j],
                        text,
                        method,
                        table,
                    );
                assert(keys[j].key_id() != keys[upto - 1].key_id());
            }
        }
        let took = admits(prev, capacity, c);
        let pos = slot(prev, c.score);
        let grown = prev.insert(pos, c);
        if took {
            assert(f.len() > 0);
            assert(f[0] == grown[0]);
            if pos > 0 {
                assert(grown[0] == prev[0]);
            }
        }
        assert forall|j: int|
            0 <= j < upto && (#[trigger] candidate(keys[j], text, method, table)).score
                > min_score() implies f.len() > 0 && f[0].score >= candidate(
            keys[j],
            text,
            method,
            table,
        ).score by {
            let sj = candidate(keys[j], text, method, table).score;
            if j < upto - 1 {
                assert(prev.len() > 0 && prev[0].score >= sj);
                if took && pos == 0 {
                    assert(prev[0].score < c.score);
                }
            } else {
                if !took {
                    assert(prev.len() >= capacity && c.score <= prev.last().score);
                    assert(prev[0].score >= prev[prev.len() - 1].score);
                }
            }
        }
        assert(f.len() <= upto) by {
            assert(grown.len() == prev.len() + 1);
        }
    }
}

/// Whether each of the first `upto` keys has its candidate in `entries`.
pub open spec fn holds_all<T: HeuristicTarget>(
    entries: Seq<Ranked<T>>,
    keys: Seq<T>,
    upto: int,
    text: Seq<u8>,
    method: ScoreMethod,
    table: Seq<i32>,
) -> bool {
    forall|j: int|
        0 <= j < upto ==> entries.contains(#[trigger] candidate(keys[j], text, method, table))
}

/// With room for all of them, an exhaustive search over keys that all differ
/// and whose decryptions can all be scored keeps every one: the list holds
/// as many candidates as there are keys, one for each key.
pub proof fn lemma_sweep_keeps_all<T: HeuristicTarget>(
    keys: Seq<T>,
    upto: int,
    text: Seq<u8>,
    method: ScoreMethod,
    table: Seq<i32>,
    capacity: int,
)
    requires
        0 <= upto <= keys.len(),
        upto <= capacity,
        capacity > 0,
        distinct_keys(keys),
        forall|j: int|
            0 <= j < upto ==> (#[trigger] candidate(keys[j], text, method, table)).score
                > min_score(),
    ensures
        swept(keys, upto, text, method, table, capacity).len() == upto,
        holds_all(swept(keys, upto, text, method, table, capacity), keys, upto, text, method, table),
    decreases upto,
{
    if upto > 0 {
        lemma_sweep_keeps_all(keys, upto - 1, text, method, table, capacity);
        lemma_sweep_best(keys, upto - 1, text, method, table, capacity);
        let prev = swept(keys, upto - 1, text, method, table, capacity);
        let c = candidate(keys[upto - 1], text, method, table);
        let f = inserted(prev, capacity, c);
        assert(f == swept(keys, upto, text, method, table, capacity));
        lemma_slot_bounds(prev, c.score);
        assert(!holds_key(prev, c.key.key_id())) by {
            if holds_key(prev, c.key.key_id()) {
                let at = choose|at: int| 0 <= at < prev.len() && prev[at].key.key_id() == c.key.key_id();
                let j = choose|j: int|
                    0 <= j < upto - 1 && #[trigger] prev[at] == candidate(
                        keys[j],
                        text,
                        method,
                        table,
                    );
                assert(keys[j].key_id() != keys[upto - 1].key_id());
            }
        }
        assert(admits(prev, capacity, c));
        let pos = slot(prev, c.score);
        let grown = prev.insert(pos, c);
        assert(f == grown);
        assert forall|j: int| 0 <= j < upto implies f.contains(
            #[trigger] candidate(keys[j], text, method, table),
        ) by {
            if j < upto - 1 {
                let e = candidate(keys[j], text, method, table);
                assert(prev.contains(e));
                let at = choose|at: int| 0 <= at < prev.len() && prev[at] == e;
                if at < pos {
                    assert(grown[at] == e);
                } else {
                    assert(grown[at + 1] == e);
                }
            } else {
                assert(grown[pos] == c);
            }
        }
    }
}

pub struct BruteForce;

impl BruteForce {
    pub fn new() -> (r: Self) {
        Self
    }
}

impl Metaheuristic for BruteForce {
    open spec fn needs_enumeration(&self) -> bool {
        true
    }

    fn crack_ciphertext<T: HeuristicTarget>(
        &mut self,
        text: Buffer,
        param: T::KeyParam,
        score_method: ScoreMethod,
        num_results: usize,
        table: &QuadgramTable,
    ) -> (r: Result<CrackResults<T>, CipherError>)
        ensures
            r matches Ok(res) && res@ == swept(
                T::key_space(param),
                T::key_space(param).len() as int,
                text@,
                score_method,
                table@,
                num_results as int,
            ) && drawn_from(
                res@,
                T::key_space(param),
                T::key_space(param).len() as int,
                text@,
                score_method,
                table@,
            ) && best_first(
                res@,
                T::key_space(param),
                T::key_space(param).len() as int,
                text@,
                score_method,
                table@,
            ),
    {
        let mut cur_key: Option<T> = None;
        let mut results: CrackResults<T> = CrackResults::new(num_results);
        let ghost space = T::key_space(param);
        let ghost mut n: int = 0;
        proof {
            results.lemma_texts_len();
        }
        loop
            invariant
                T::enumerable(param),
                space == T::key_space(param),
                0 <= n <= space.len(),
                cur_key == next_in_space(space, n - 1),
                text.wf(),
                text@.len() <= u32::MAX,
                table.wf(),
                results.wf(),
                results.capacity() == num_results,
                results@ == swept(space, n, text@, score_method, table@, num_results as int),
                genuine(results@, text@, score_method, table@),
                forall|i: int|
                    0 <= i < results.texts().len() ==> #[trigger] results.texts()[i] == text.text(),
            decreases space.len() - n,
        {
            proof {
                if n > 0 {
                    T::lemma_key_space(param, n - 1, n - 1);
                }
            }
            let next = T::next_key(cur_key, param);
            match next {
                None => {
                    proof {
                        assert forall|i: int, j: int|
                            0 <= i < space.len() && 0 <= j < space.len() && i != j implies space[i].key_id()
                            != space[j].key_id() by {
                            T::lemma_key_space(param, i, j);
                        }
                        lemma_sweep_best(
                            space,
                            space.len() as int,
                            text@,
                            score_method,
                            table@,
                            num_results as int,
                        );
                    }
                    return Ok(results);
                },
                Some(key) => {
                    proof {
                        T::lemma_key_space(param, n, n);
                    }
                    let copy = text.clone();
                    match key.decrypt(copy) {
                        Ok(buf) => {
                            let ghost before = results@;
                            let ghost texts_before = results.texts();
                            let twin = key.copy_key();
                            results.process_result(buf, twin, score_method, table);
                            proof {
                                lemma_inserted(
                                    before,
                                    num_results as int,
                                    candidate(key, text@, score_method, table@),
                                );
                            }
                        },
                        Err(e) => {
                            return Err(e);
                        },
                    }
                    cur_key = Some(key);
                    proof {
                        n = n + 1;
                    }
                },
            }
        }
    }
}

} // verus!
