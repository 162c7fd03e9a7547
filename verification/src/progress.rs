//! Why a guess picked by the sizes of its groups always narrows the targets
//! of an assembled environment.

use crate::dataset::EnvModel;
use crate::narrowing::{
    lemma_narrowed_session_wf, lemma_narrowed_within, lemma_session_len, narrowed,
    narrowed_session, SessionModel,
};
use crate::pool::{assembles, lemma_answer_stays, lemma_assembled_lookup};
use crate::solvers::{
    bucket, is_best, lemma_bucket_bound, precedes, score, squares_upto, standing,
};
use crate::words::{
    lemma_full_pattern_means_equal, lemma_pattern_of_equal_words, lemma_pattern_range, pattern,
    word_key, words_rise,
};
use vstd::prelude::*;

verus! {

/// Whether the table holds a pattern for `guess` against each of `targets`.
pub open spec fn all_seen(env: EnvModel, targets: Seq<u16>, guess: u16) -> bool {
    forall|i: int|
        0 <= i < targets.len() ==> (env.lookup(guess as int, #[trigger] targets[i] as int) matches Some(
            p,
        ) && p < 243)
}

/// Whether `guess` tells two of `targets` apart: the table holds different
/// patterns for it against them.
pub open spec fn splits(env: EnvModel, targets: Seq<u16>, guess: u16) -> bool {
    exists|i: int, j: int|
        0 <= i < targets.len() && 0 <= j < targets.len() && env.lookup(
            guess as int,
            #[trigger] targets[i] as int,
        ) != env.lookup(guess as int, #[trigger] targets[j] as int)
}

/// One more target adds one to the group of its pattern and leaves the
/// other groups as they are.
proof fn lemma_bucket_push(env: EnvModel, targets: Seq<u16>, target: u16, guess: u16, p: u8)
    ensures
        bucket(env, targets.push(target), guess, p) == bucket(env, targets, guess, p) + if env.lookup(
            guess as int,
            target as int,
        ) == Some(p) {
            1int
        } else {
            0int
        },
{
    reveal(Seq::filter);
    assert(targets.push(target).drop_last() =~= targets);
}

proof fn lemma_squares_push(
    env: EnvModel,
    targets: Seq<u16>,
    target: u16,
    guess: u16,
    q: u8,
    m: int,
)
    requires
        env.lookup(guess as int, target as int) == Some(q),
        0 <= m <= 243,
    ensures
        squares_upto(env, targets.push(target), guess, m) == squares_upto(env, targets, guess, m)
            + if q < m {
            2 * bucket(env, targets, guess, q) + 1
        } else {
            0
        },
    decreases m,
{
    if m > 0 {
        lemma_squares_push(env, targets, target, guess, q, m - 1);
        let p = (m - 1) as u8;
        lemma_bucket_push(env, targets, target, guess, p);
        let old = bucket(env, targets, guess, p) as int;
        if q == p {
            assert((old + 1) * (old + 1) == old * old + 2 * old + 1) by (nonlinear_arith);
        }
    }
}

/// A group that a target stays out of is smaller than the list.
proof fn lemma_bucket_short(env: EnvModel, targets: Seq<u16>, guess: u16, q: u8, i: int)
    requires
        0 <= i < targets.len(),
        env.lookup(guess as int, targets[i] as int) != Some(q),
    ensures
        bucket(env, targets, guess, q) < targets.len(),
    decreases targets.len(),
{
    let rest = targets.drop_last();
    let last = targets.last();
    assert(targets =~= rest.push(last));
    lemma_bucket_push(env, rest, last, guess, q);
    lemma_bucket_bound(env, rest, guess, q);
    if i < rest.len() {
        assert(rest[i] == targets[i]);
        lemma_bucket_short(env, rest, guess, q, i);
    }
}

proof fn lemma_squares_range(env: EnvModel, targets: Seq<u16>, guess: u16, m: int)
    requires
        0 <= m <= 243,
    ensures
        0 <= squares_upto(env, targets, guess, m) <= m * (targets.len() * targets.len()),
    decreases m,
{
    if m > 0 {
        lemma_squares_range(env, targets, guess, m - 1);
        let p = (m - 1) as u8;
        lemma_bucket_bound(env, targets, guess, p);
        let size = bucket(env, targets, guess, p) as int;
        let n = targets.len() as int;
        assert(0 <= size * size <= n * n) by (nonlinear_arith)
            requires
                0 <= size <= n,
        ;
        assert((m - 1) * (n * n) + n * n == m * (n * n)) by (nonlinear_arith);
    } else {
        assert(0 * (targets.len() * targets.len()) == 0) by (nonlinear_arith);
    }
}

/// The score is no less than the square of any one group.
proof fn lemma_squares_floor(env: EnvModel, targets: Seq<u16>, guess: u16, p: u8, m: int)
    requires
        p < m <= 243,
    ensures
        squares_upto(env, targets, guess, m) >= bucket(env, targets, guess, p) * bucket(
            env,
            targets,
            guess,
            p,
        ),
    decreases m,
{
    let size = bucket(env, targets, guess, (m - 1) as u8) as int;
    assert(size * size >= 0) by (nonlinear_arith);
    lemma_squares_range(env, targets, guess, m - 1);
    if p < m - 1 {
        lemma_squares_floor(env, targets, guess, p, m - 1);
    }
}

/// The score of a guess is at most the square of the number of targets, and
/// less if the guess tells two targets apart.
pub proof fn lemma_score_bound(env: EnvModel, targets: Seq<u16>, guess: u16)
    requires
        all_seen(env, targets, guess),
    ensures
        score(env, targets, guess) <= targets.len() * targets.len(),
        splits(env, targets, guess) ==> score(env, targets, guess) < targets.len() * targets.len(),
    decreases targets.len(),
{
    let n = targets.len() as int;
    if n == 0 {
        lemma_squares_range(env, targets, guess, 243);
        assert(243 * (n * n) == 0) by (nonlinear_arith)
            requires
                n == 0,
        ;
        assert(n * n == 0) by (nonlinear_arith)
            requires
                n == 0,
        ;
    } else {
        let rest = targets.drop_last();
        let last = targets.last();
        assert(targets =~= rest.push(last));
        assert(targets[n - 1] == last);
        let q = env.lookup(guess as int, last as int).unwrap();
        assert forall|i: int| 0 <= i < rest.len() implies (env.lookup(
            guess as int,
            #[trigger] rest[i] as int,
        ) matches Some(p) && p < 243) by {
            assert(rest[i] == targets[i]);
        }
        lemma_score_bound(env, rest, guess);
        lemma_squares_push(env, rest, last, guess, q, 243);
        lemma_bucket_bound(env, rest, guess, q);
        let size = bucket(env, rest, guess, q) as int;
        let before = score(env, rest, guess);
        assert(score(env, targets, guess) == before + 2 * size + 1);
        assert((n - 1) * (n - 1) + 2 * (n - 1) + 1 == n * n) by (nonlinear_arith);
        if splits(env, targets, guess) {
            let (i, j) = choose|i: int, j: int|
                0 <= i < targets.len() && 0 <= j < targets.len() && env.lookup(
                    guess as int,
                    #[trigger] targets[i] as int,
                ) != env.lookup(guess as int, #[trigger] targets[j] as int);
            if i < n - 1 && j < n - 1 {
                assert(rest[i] == targets[i] && rest[j] == targets[j]);
                assert(splits(env, rest, guess));
            } else {
                let other = if i < n - 1 {
                    i
                } else {
                    j
                };
                assert(0 <= other < n - 1);
                assert(rest[other] == targets[other]);
                lemma_bucket_short(env, rest, guess, q, other);
            }
        }
    }
}

/// In an assembled environment whose pool rises, the word picked by the
/// sizes of the groups tells at least two of the targets apart: whatever the
/// answer is, narrowing by the pattern that the pick earns against it keeps
/// the answer and leaves fewer targets than before. So a game that follows
/// these picks comes down to the answer alone in fewer turns than there are
/// targets.
pub proof fn lemma_best_guess_narrows(
    session: SessionModel,
    pool: Seq<Seq<u8>>,
    wanted: Seq<Seq<u8>>,
    solver: u8,
    guess: u16,
    answer: u16,
)
    requires
        session.wf(),
        assembles(session.env, pool, wanted, solver),
        words_rise(pool),
        session.targets.len() >= 2,
        is_best(session, guess),
        session.targets.contains(answer),
    ensures
        answer < pool.len(),
        guess < pool.len(),
        narrowed(
            session.env,
            session.targets,
            guess,
            pattern(pool[guess as int], pool[answer as int]) as u8,
        ).contains(answer),
        narrowed(
            session.env,
            session.targets,
            guess,
            pattern(pool[guess as int], pool[answer as int]) as u8,
        ).len() < session.targets.len(),
{
    let env = session.env;
    let targets = session.targets;
    let n = targets.len() as int;
    lemma_session_len(session);
    let at = choose|i: int| 0 <= i < targets.len() && targets[i] == answer;
    assert(env.targets.contains(targets[at]));
    lemma_answer_stays(env, pool, wanted, solver, targets, guess, answer);
    lemma_assembled_lookup(env, pool, wanted, solver, guess, answer);
    let seen = pattern(pool[guess as int], pool[answer as int]) as u8;
    lemma_bucket_bound(env, targets, guess, seen);
    if bucket(env, targets, guess, seen) == n {
        let first = targets[0];
        let second = targets[1];
        assert(env.targets.contains(targets[0]));
        assert(env.targets.contains(targets[1]));
        assert(first < second);
        assert forall|i: int| 0 <= i < targets.len() implies (env.lookup(
            first as int,
            #[trigger] targets[i] as int,
        ) matches Some(p) && p < 243) by {
            assert(env.targets.contains(targets[i]));
            lemma_assembled_lookup(env, pool, wanted, solver, first, targets[i]);
            lemma_pattern_range(pool[first as int], pool[targets[i] as int]);
        }
        lemma_assembled_lookup(env, pool, wanted, solver, first, first);
        lemma_assembled_lookup(env, pool, wanted, solver, first, second);
        assert(env.words[first as int].letters == pool[first as int]);
        assert(env.words[second as int].letters == pool[second as int]);
        assert(env.words[first as int].wf() && env.words[second as int].wf());
        lemma_pattern_of_equal_words(pool[first as int]);
        lemma_pattern_range(pool[first as int], pool[second as int]);
        if pattern(pool[first as int], pool[second as int]) == 242 {
            lemma_full_pattern_means_equal(pool[first as int], pool[second as int]);
            assert(word_key(pool[first as int]) < word_key(pool[second as int]));
        }
        assert(env.lookup(first as int, targets[0] as int) != env.lookup(
            first as int,
            targets[1] as int,
        ));
        assert(splits(env, targets, first));
        lemma_score_bound(env, targets, first);
        lemma_squares_floor(env, targets, guess, seen, 243);
        lemma_squares_range(env, targets, guess, 243);
        lemma_squares_range(env, targets, first, 243);
        assert(n * n <= 0xffff * 0xffff) by (nonlinear_arith)
            requires
                0 <= n <= 0xffff,
        ;
        assert(243 * (n * n) <= 243 * (0xffff * 0xffff)) by (nonlinear_arith)
            requires
                n * n <= 0xffff * 0xffff,
        ;
        assert(precedes(standing(session, guess), standing(session, first)));
        assert(false);
    }
}

/// A group that every target falls into is as large as the list.
proof fn lemma_bucket_full(env: EnvModel, targets: Seq<u16>, guess: u16, q: u8)
    requires
        forall|i: int|
            0 <= i < targets.len() ==> env.lookup(guess as int, #[trigger] targets[i] as int)
                == Some(q),
    ensures
        bucket(env, targets, guess, q) == targets.len(),
    decreases targets.len(),
{
    if targets.len() == 0 {
        lemma_bucket_bound(env, targets, guess, q);
    } else {
        let rest = targets.drop_last();
        let last = targets.last();
        assert(targets =~= rest.push(last));
        assert(targets[targets.len() - 1] == last);
        assert forall|i: int| 0 <= i < rest.len() implies env.lookup(
            guess as int,
            #[trigger] rest[i] as int,
        ) == Some(q) by {
            assert(rest[i] == targets[i]);
        }
        lemma_bucket_full(env, rest, guess, q);
        lemma_bucket_push(env, rest, last, guess, q);
    }
}

/// In an assembled environment whose pool rises, the word picked by the
/// sizes of the groups tells two of the targets apart whenever two or more
/// are left, and so scores less than the square of their number.
pub proof fn lemma_best_guess_splits(
    session: SessionModel,
    pool: Seq<Seq<u8>>,
    wanted: Seq<Seq<u8>>,
    solver: u8,
    guess: u16,
)
    requires
        session.wf(),
        assembles(session.env, pool, wanted, solver),
        words_rise(pool),
        session.targets.len() >= 2,
        is_best(session, guess),
    ensures
        splits(session.env, session.targets, guess),
        score(session.env, session.targets, guess) < session.targets.len()
            * session.targets.len(),
{
    let env = session.env;
    let targets = session.targets;
    let answer = targets[0];
    assert(targets.contains(targets[0]));
    lemma_best_guess_narrows(session, pool, wanted, solver, guess, answer);
    let seen = pattern(pool[guess as int], pool[answer as int]) as u8;
    lemma_assembled_lookup(env, pool, wanted, solver, guess, answer);
    assert forall|i: int| 0 <= i < targets.len() implies (env.lookup(
        guess as int,
        #[trigger] targets[i] as int,
    ) matches Some(p) && p < 243) by {
        assert(env.targets.contains(targets[i]));
        lemma_assembled_lookup(env, pool, wanted, solver, guess, targets[i]);
        lemma_pattern_range(pool[guess as int], pool[targets[i] as int]);
    }
    if !splits(env, targets, guess) {
        assert forall|i: int| 0 <= i < targets.len() implies env.lookup(
            guess as int,
            #[trigger] targets[i] as int,
        ) == Some(seen) by {
            assert(env.lookup(guess as int, targets[i] as int) == env.lookup(
                guess as int,
                targets[0] as int,
            ));
        }
        lemma_bucket_full(env, targets, guess, seen);
    }
    lemma_score_bound(env, targets, guess);
}

/// The session after one turn against `answer`: narrowed by the pattern
/// that the table holds for `guess` against the answer, and as it was if the
/// table holds none.
pub open spec fn after_turn(session: SessionModel, guess: u16, answer: u16) -> SessionModel {
    match session.env.lookup(guess as int, answer as int) {
        Some(seen) => narrowed_session(session, guess, seen),
        None => session,
    }
}

/// Whether `guess` is what a session picks by the sizes of the groups: the
/// one target that is left, or else the best word.
pub open spec fn picked(session: SessionModel, guess: u16) -> bool {
    if session.targets.len() == 1 {
        guess == session.targets[0]
    } else {
        is_best(session, guess)
    }
}

/// Whether `picks` are the guesses of a game against `answer` that is played
/// by the sizes of the groups: each is what the session picks that the
/// turns before it leave.
pub open spec fn played(session: SessionModel, answer: u16, picks: Seq<u16>) -> bool
    decreases picks.len(),
{
    picks.len() == 0 || (picked(session, picks[0]) && played(
        after_turn(session, picks[0], answer),
        answer,
        picks.drop_first(),
    ))
}

/// The session that the turns `picks` against `answer` leave.
pub open spec fn left_after(session: SessionModel, answer: u16, picks: Seq<u16>) -> SessionModel
    decreases picks.len(),
{
    if picks.len() == 0 {
        session
    } else {
        left_after(after_turn(session, picks[0], answer), answer, picks.drop_first())
    }
}

/// A game that is played by the sizes of the groups in an assembled
/// environment whose pool rises finds every answer: after one turn fewer
/// than there are targets, and after every turn from then on, the answer is
/// the one target left.
pub proof fn lemma_game_ends(
    session: SessionModel,
    pool: Seq<Seq<u8>>,
    wanted: Seq<Seq<u8>>,
    solver: u8,
    answer: u16,
    picks: Seq<u16>,
)
    requires
        session.wf(),
        assembles(session.env, pool, wanted, solver),
        words_rise(pool),
        session.targets.contains(answer),
        played(session, answer, picks),
        picks.len() >= session.targets.len() - 1,
    ensures
        left_after(session, answer, picks).targets == seq![answer],
    decreases picks.len(),
{
    let env = session.env;
    let targets = session.targets;
    let at = choose|i: int| 0 <= i < targets.len() && targets[i] == answer;
    assert(env.targets.contains(targets[at]));
    if picks.len() == 0 {
        assert(targets =~= seq![answer]);
    } else {
        let guess = picks[0];
        lemma_session_len(session);
        if targets.len() == 1 {
            assert(guess == answer);
        }
        lemma_assembled_lookup(env, pool, wanted, solver, guess, answer);
        let seen = pattern(pool[guess as int], pool[answer as int]) as u8;
        let next = narrowed_session(session, guess, seen);
        assert(after_turn(session, guess, answer) == next);
        lemma_narrowed_session_wf(session, guess, seen);
        lemma_answer_stays(env, pool, wanted, solver, targets, guess, answer);
        lemma_narrowed_within(env, targets, guess, seen);
        if targets.len() >= 2 {
            lemma_best_guess_narrows(session, pool, wanted, solver, guess, answer);
        }
        lemma_game_ends(next, pool, wanted, solver, answer, picks.drop_first());
    }
}

} // verus!
