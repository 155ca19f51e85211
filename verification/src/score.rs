//! One totally ordered score for every scoring method: greater is better.

use crate::buffer::Buffer;
use crate::stats::{
    chi_squared, chi_sum, div_towards_zero, frequencies, index_of_coincidence, ioc_millionths,
    quadgram_score, quadgram_sum, quadgram_windows, QuadgramTable,
};
use vstd::prelude::*;

verus! {

/// The statistic by which a text is judged.
#[derive(Debug, Copy, Clone, PartialEq, Eq, Structural)]
pub enum ScoreMethod {
    ChiSquared,
    IOC,
    Quadgrams,
}

/// The two statistics that need no table.
#[derive(Debug, Copy, Clone, PartialEq, Eq, Structural)]
pub enum Heuristic {
    ChiSquared,
    IOC,
}

/// How well a text fits English: of two scores the greater is the better.
pub type Score = i128;

/// A score above every score of a text.
pub const MAX_SCORE: Score = 170141183460469231731687303715884105727i128;

/// The score of a text that cannot be scored, below every other score.
pub const MIN_SCORE: Score = -170141183460469231731687303715884105728i128;

/// The index of coincidence expected of English text, in millionths.
pub open spec fn english_ioc() -> int {
    1730000
}

/// The least score as an integer.
pub open spec fn min_score() -> int {
    i128::MIN as int
}

/// The score of the symbols `s` under `method`, as an integer; the least
/// score where the statistic is not defined.
pub open spec fn score_of(s: Seq<u8>, method: ScoreMethod, table: Seq<i32>) -> int {
    let n = s.len() as int;
    match method {
        ScoreMethod::ChiSquared => if n == 0 {
            min_score()
        } else {
            -chi_sum(frequencies(s), n, 26)
        },
        ScoreMethod::IOC => if n <= 1 {
            min_score()
        } else {
            let d = english_ioc() - ioc_millionths(frequencies(s), n);
            if d >= 0 {
                -d
            } else {
                d
            }
        },
        ScoreMethod::Quadgrams => if n == 0 {
            min_score()
        } else {
            div_towards_zero(quadgram_sum(table, s, quadgram_windows(n)), n)
        },
    }
}

impl Heuristic {
    /// The scoring method of the same name.
    pub fn method(self) -> (m: ScoreMethod)
        ensures
            m == match self {
                Heuristic::ChiSquared => ScoreMethod::ChiSquared,
                Heuristic::IOC => ScoreMethod::IOC,
            },
    {
        match self {
            Heuristic::ChiSquared => ScoreMethod::ChiSquared,
            Heuristic::IOC => ScoreMethod::IOC,
        }
    }
}

/// Scores a buffer under `method`. The table is read by `Quadgrams` only.
pub fn score(buf: &Buffer, method: ScoreMethod, table: &QuadgramTable) -> (r: Score)
    requires
        buf.wf(),
        table.wf(),
        buf@.len() <= u32::MAX,
    ensures
        r == score_of(buf@, method, table@),
{
    match method {
        ScoreMethod::ChiSquared => match chi_squared(buf) {
            Some(v) => {
                proof {
                    crate::stats::lemma_chi_sum_bound(frequencies(buf@), buf@.len() as int, 26);
                }
                -(v as i128)
            },
            None => MIN_SCORE,
        },
        ScoreMethod::IOC => match index_of_coincidence(buf) {
            Some(v) => {
                proof {
                    crate::stats::lemma_ioc_bound(frequencies(buf@), buf@.len() as int);
                }
                let found: i128 = v as i128;
                if found <= 1730000 {
                    found - 1730000
                } else {
                    1730000 - found
                }
            },
            None => MIN_SCORE,
        },
        ScoreMethod::Quadgrams => match quadgram_score(buf, table) {
            Some(v) => v as i128,
            None => MIN_SCORE,
        },
    }
}

impl Buffer {
    /// Scores the buffer under `method`. The table is read by `Quadgrams` only.
    pub fn score(&self, method: ScoreMethod, table: &QuadgramTable) -> (r: Score)
        requires
            self.wf(),
            table.wf(),
            self@.len() <= u32::MAX,
        ensures
            r == score_of(self@, method, table@),
    {
        score(self, method, table)
    }
}

} // verus!
