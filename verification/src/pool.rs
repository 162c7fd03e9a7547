//! How the lines of a pool and of its targets become an environment.

use crate::dataset::EnvModel;
use crate::narrowing::{lemma_narrowed_within, narrowed};
use crate::solvers::strategy_of;
use crate::wordle::Error;
use crate::words::{pattern, word_key, word_of, words_rise, Word, WordModel};
use vstd::prelude::*;

verus! {

/// The texts of a list of lines.
pub open spec fn lines_of(list: Seq<String>) -> Seq<Seq<char>> {
    Seq::new(list.len(), |i: int| list[i]@)
}

/// The words that the lines spell, if every line is a word.
pub open spec fn words_of(lines: Seq<Seq<char>>) -> Option<Seq<Seq<u8>>> {
    if forall|i: int| 0 <= i < lines.len() ==> word_of(#[trigger] lines[i]) is Some {
        Some(Seq::new(lines.len(), |i: int| word_of(lines[i]).unwrap()))
    } else {
        None
    }
}

/// Whether `pool` is the pool of `words`: the same words, each once, in
/// rising order.
pub open spec fn is_pool(pool: Seq<Seq<u8>>, words: Seq<Seq<u8>>) -> bool {
    &&& words_rise(pool)
    &&& forall|i: int| 0 <= i < pool.len() ==> words.contains(#[trigger] pool[i])
    &&& forall|i: int| 0 <= i < words.len() ==> pool.contains(#[trigger] words[i])
}

/// A list of words has one pool only: the identifiers depend on the words
/// that the list holds, not on their order, their case or their number.
pub proof fn lemma_pool_is_one(first: Seq<Seq<u8>>, second: Seq<Seq<u8>>, words: Seq<Seq<u8>>)
    requires
        is_pool(first, words),
        is_pool(second, words),
    ensures
        first == second,
    decreases first.len(),
{
    if first.len() == 0 {
        if second.len() > 0 {
            assert(words.contains(second[0]));
            let i = choose|i: int| 0 <= i < words.len() && words[i] == second[0];
            assert(first.contains(words[i]));
        }
        assert(first =~= second);
    } else {
        let x = first[0];
        assert(words.contains(x));
        let at = choose|i: int| 0 <= i < words.len() && words[i] == x;
        assert(second.contains(words[at]));
        let j = choose|j: int| 0 <= j < second.len() && second[j] == x;
        let y = second[0];
        assert(words.contains(y));
        let back = choose|i: int| 0 <= i < words.len() && words[i] == y;
        assert(first.contains(words[back]));
        let i = choose|i: int| 0 <= i < first.len() && first[i] == y;
        assert(i == 0 && j == 0);
        let rest = first.drop_first();
        let other = second.drop_first();
        assert forall|a: int, b: int| 0 <= a < b < rest.len() implies word_key(rest[a]) < word_key(
            rest[b],
        ) by {
            assert(rest[a] == first[a + 1] && rest[b] == first[b + 1]);
        }
        assert forall|a: int, b: int| 0 <= a < b < other.len() implies word_key(other[a])
            < word_key(other[b]) by {
            assert(other[a] == second[a + 1] && other[b] == second[b + 1]);
        }
        assert forall|a: int| 0 <= a < other.len() implies rest.contains(#[trigger] other[a]) by {
            let w = second[a + 1];
            assert(other[a] == w);
            assert(words.contains(w));
            let n = choose|n: int| 0 <= n < words.len() && words[n] == w;
            assert(first.contains(words[n]));
            let m = choose|m: int| 0 <= m < first.len() && first[m] == w;
            assert(word_key(second[0]) < word_key(second[a + 1]));
            assert(m > 0);
            assert(rest[m - 1] == w);
        }
        assert forall|a: int| 0 <= a < rest.len() implies other.contains(#[trigger] rest[a]) by {
            let w = first[a + 1];
            assert(rest[a] == w);
            assert(words.contains(w));
            let n = choose|n: int| 0 <= n < words.len() && words[n] == w;
            assert(second.contains(words[n]));
            let m = choose|m: int| 0 <= m < second.len() && second[m] == w;
            assert(word_key(first[0]) < word_key(first[a + 1]));
            assert(m > 0);
            assert(other[m - 1] == w);
        }
        assert forall|a: int| 0 <= a < rest.len() implies rest.contains(#[trigger] rest[a]) by {}
        lemma_pool_is_one(rest, other, rest);
        assert(first =~= seq![x] + rest);
        assert(second =~= seq![y] + other);
    }
}

/// How many of the first `n` words of `pool` are among `wanted`.
pub open spec fn targets_before(pool: Seq<Seq<u8>>, wanted: Seq<Seq<u8>>, n: int) -> int
    decreases n,
{
    if n <= 0 {
        0
    } else {
        targets_before(pool, wanted, n - 1) + if wanted.contains(pool[n - 1]) {
            1int
        } else {
            0int
        }
    }
}

/// The entry of a table of `k` columns in row `guess` and column `rank`.
pub open spec fn cell(patterns: Seq<u8>, k: int, guess: int, rank: int) -> u8 {
    patterns[guess * k + rank]
}

/// Whether `env` is the environment of the pool `pool` with the targets
/// `wanted` before a first guess is chosen. Each word of the pool that is
/// among `wanted` is a target, and its rank is the number of targets before
/// it in the pool; words of `wanted` that the pool lacks are left out. The
/// table holds the pattern of every word against every target.
pub open spec fn assembles(
    env: EnvModel,
    pool: Seq<Seq<u8>>,
    wanted: Seq<Seq<u8>>,
    solver: u8,
) -> bool {
    &&& env.words.len() == pool.len()
    &&& forall|i: int|
        0 <= i < pool.len() ==> #[trigger] env.words[i] == (WordModel {
            letters: pool[i],
            rank: if wanted.contains(pool[i]) {
                Some(targets_before(pool, wanted, i))
            } else {
                None
            },
        })
    &&& env.targets.len() == targets_before(pool, wanted, pool.len() as int)
    &&& forall|k: int|
        0 <= k < env.targets.len() ==> (#[trigger] env.targets[k]) < pool.len() && wanted.contains(
            pool[env.targets[k] as int],
        ) && targets_before(pool, wanted, env.targets[k] as int) == k
    &&& env.patterns.len() == pool.len() * env.targets.len()
    &&& forall|i: int, k: int|
        0 <= i < pool.len() && 0 <= k < env.targets.len() ==> #[trigger] cell(
            env.patterns,
            env.targets.len() as int,
            i,
            k,
        ) == pattern(pool[i], pool[env.targets[k] as int])
    &&& env.solver == solver
    &&& env.starting_guess == 0
}

/// Why no environment can be built from the lines of a pool and the lines
/// of its targets, where `pool` is the pool of the words that the lines
/// spell. A pool without a word has no word to start with.
pub open spec fn build_error(
    lines: Seq<Seq<char>>,
    targets: Seq<Seq<char>>,
    solver: u8,
    pool: Seq<Seq<u8>>,
) -> Option<Error> {
    if words_of(targets) is None {
        Some(Error::TargetsFormat)
    } else if words_of(lines) is None {
        Some(Error::PoolFormat)
    } else if pool.len() > 0xffff {
        Some(Error::PoolLength)
    } else if strategy_of(solver) is None {
        Some(Error::SolverID)
    } else if pool.len() == 0 {
        Some(Error::PoolFormat)
    } else {
        None
    }
}

/// Whether `pool` is the pool that the lines spell. Where a line of the pool
/// or of the targets is no word, there is no pool to speak of.
pub open spec fn pool_of_lines(
    pool: Seq<Seq<u8>>,
    lines: Seq<Seq<char>>,
    targets: Seq<Seq<char>>,
) -> bool {
    words_of(targets) is Some && words_of(lines) is Some ==> is_pool(
        pool,
        words_of(lines).unwrap(),
    )
}

/// The letters of a list of words.
pub open spec fn letters_of(words: Seq<Word>) -> Seq<Seq<u8>> {
    Seq::new(words.len(), |i: int| words[i]@)
}

/// No more targets stand before a word than words do.
pub proof fn lemma_targets_before_bound(pool: Seq<Seq<u8>>, wanted: Seq<Seq<u8>>, n: int)
    requires
        0 <= n,
    ensures
        0 <= targets_before(pool, wanted, n) <= n,
    decreases n,
{
    if n > 0 {
        lemma_targets_before_bound(pool, wanted, n - 1);
    }
}

/// The cells of the rows before row `rows` lie before the end of that many rows.
pub proof fn lemma_cell_within(k: int, rows: int, i: int, j: int)
    requires
        0 <= i < rows,
        0 <= j < k,
    ensures
        0 <= i * k + j < rows * k,
{
    assert(i * k + j < (i + 1) * k) by (nonlinear_arith)
        requires
            0 <= j < k,
    ;
    assert((i + 1) * k <= rows * k) by (nonlinear_arith)
        requires
            i + 1 <= rows,
            0 <= k,
    ;
    assert(0 <= i * k) by (nonlinear_arith)
        requires
            0 <= i,
            0 <= k,
    ;
}

/// The table of an assembled environment holds, for every word of the pool
/// and every target, the pattern that the word earns against the target.
pub proof fn lemma_assembled_lookup(
    env: EnvModel,
    pool: Seq<Seq<u8>>,
    wanted: Seq<Seq<u8>>,
    solver: u8,
    guess: u16,
    target: u16,
)
    requires
        assembles(env, pool, wanted, solver),
        guess < pool.len(),
        env.targets.contains(target),
    ensures
        target < pool.len(),
        env.lookup(guess as int, target as int) == Some(
            pattern(pool[guess as int], pool[target as int]) as u8,
        ),
{
    let k = choose|k: int| 0 <= k < env.targets.len() && env.targets[k] == target;
    lemma_cell_within(env.targets.len() as int, pool.len() as int, guess as int, k);
    assert(env.words[target as int].rank == Some(k));
    assert(cell(env.patterns, env.targets.len() as int, guess as int, k) == pattern(
        pool[guess as int],
        pool[env.targets[k] as int],
    ));
}

/// Narrowing by the pattern that a guess earns against the answer never
/// drops the answer.
pub proof fn lemma_answer_stays(
    env: EnvModel,
    pool: Seq<Seq<u8>>,
    wanted: Seq<Seq<u8>>,
    solver: u8,
    targets: Seq<u16>,
    guess: u16,
    answer: u16,
)
    requires
        assembles(env, pool, wanted, solver),
        guess < pool.len(),
        env.targets.contains(answer),
        targets.contains(answer),
    ensures
        narrowed(
            env,
            targets,
            guess,
            pattern(pool[guess as int], pool[answer as int]) as u8,
        ).contains(answer),
{
    lemma_assembled_lookup(env, pool, wanted, solver, guess, answer);
    let seen = pattern(pool[guess as int], pool[answer as int]) as u8;
    lemma_narrowed_within(env, targets, guess, seen);
    let i = choose|i: int| 0 <= i < targets.len() && targets[i] == answer;
    assert(narrowed(env, targets, guess, seen).contains(targets[i]));
}

} // verus!
