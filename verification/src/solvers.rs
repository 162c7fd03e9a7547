//! The strategies that pick the next guess.

use crate::dataset::EnvModel;
use crate::narrowing::{agrees, lemma_session_len, narrowed, SessionModel};
use crate::wordle::Wordle;
use rayon::iter::{IntoParallelRefIterator, ParallelIterator};
use std::cmp::Ordering;
use vstd::prelude::*;

verus! {

/// A rule for picking the next guess.
#[derive(Clone, Copy, Debug, PartialEq, Eq, Structural)]
pub enum Strategy {
    /// Pick the word that splits the possible targets into the smallest
    /// groups, measured by the sum of the squares of their sizes.
    Minimax,
    /// Pick the word whose pattern is expected to tell the most.
    Entropy,
}

/// The strategy that an identifier names.
pub open spec fn strategy_of(id: u8) -> Option<Strategy> {
    if id == 0 {
        Some(Strategy::Minimax)
    } else if id == 1 {
        Some(Strategy::Entropy)
    } else {
        None
    }
}

/// The strategy that an identifier names, if it names one.
pub fn solver(id: u8) -> (r: Option<Strategy>)
    ensures
        r == strategy_of(id),
{
    if id == 0 {
        Some(Strategy::Minimax)
    } else if id == 1 {
        Some(Strategy::Entropy)
    } else {
        None
    }
}

/// The size of the group that `guess` puts under `pattern`: how many of the
/// targets would be left if the guess earned that pattern.
pub open spec fn bucket(env: EnvModel, targets: Seq<u16>, guess: u16, pattern: u8) -> nat {
    narrowed(env, targets, guess, pattern).len()
}

/// The sum of the squares of the groups of `guess` under the patterns below `n`.
pub open spec fn squares_upto(env: EnvModel, targets: Seq<u16>, guess: u16, n: int) -> int
    decreases n,
{
    if n <= 0 {
        0
    } else {
        let size = bucket(env, targets, guess, (n - 1) as u8);
        squares_upto(env, targets, guess, n - 1) + size * size
    }
}

/// The score of `guess`: the sum of the squares of the sizes of its groups.
pub open spec fn score(env: EnvModel, targets: Seq<u16>, guess: u16) -> int {
    squares_upto(env, targets, guess, 243)
}

/// The sizes of the groups of `guess`, one for each of the 243 patterns.
pub fn pattern_counts(wordle: &Wordle, guess: u16) -> (counts: Vec<usize>)
    requires
        wordle.wf(),
    ensures
        counts@.len() == 243,
        forall|p: u8|
            p < 243 ==> counts@[p as int] == #[trigger] bucket(
                wordle@.env,
                wordle@.targets,
                guess,
                p,
            ),
{
    let ghost env = wordle@.env;
    let ghost all = wordle@.targets;
    let mut counts: Vec<usize> = Vec::new();
    let mut n: usize = 0;
    while n < 243
        invariant
            0 <= n <= 243,
            counts@.len() == n,
            forall|p: int| 0 <= p < n ==> #[trigger] counts@[p] == 0,
        decreases 243 - n,
    {
        counts.push(0);
        n += 1;
    }
    proof {
        reveal(Seq::filter);
        assert(all.take(0) =~= Seq::<u16>::empty());
    }
    let targets = wordle.targets();
    let mut k: usize = 0;
    while k < targets.len()
        invariant
            0 <= k <= all.len(),
            wordle.wf(),
            env == wordle@.env,
            all == wordle@.targets,
            targets@ == all,
            counts@.len() == 243,
            forall|p: u8|
                p < 243 ==> counts@[p as int] == #[trigger] bucket(
                    env,
                    all.take(k as int),
                    guess,
                    p,
                ),
        decreases all.len() - k,
    {
        let target = targets[k];
        proof {
            assert forall|p: u8| p < 243 implies #[trigger] bucket(
                env,
                all.take(k + 1),
                guess,
                p,
            ) == bucket(env, all.take(k as int), guess, p) + if env.lookup(
                guess as int,
                target as int,
            ) == Some(p) {
                1int
            } else {
                0int
            } by {
                reveal(Seq::filter);
                assert(all.take(k + 1).drop_last() =~= all.take(k as int));
            }
        }
        match wordle.get_pattern(guess, target) {
            Some(p) => {
                proof {
                    lemma_bucket_bound(env, all.take(k + 1), guess, p);
                    lemma_session_len(wordle@);
                }
                let count = counts[p as usize];
                counts.set(p as usize, count + 1);
            },
            None => {},
        }
        k += 1;
    }
    proof {
        assert(all.take(k as int) =~= all);
    }
    counts
}

/// The score of the word `guess` against the targets that are still possible.
pub fn score_of(wordle: &Wordle, guess: u16) -> (total: u64)
    requires
        wordle.wf(),
    ensures
        total == score(wordle@.env, wordle@.targets, guess),
{
    let ghost env = wordle@.env;
    let ghost all = wordle@.targets;
    let counts = pattern_counts(wordle, guess);
    let mut total: u64 = 0;
    let mut n: usize = 0;
    while n < 243
        invariant
            0 <= n <= 243,
            wordle.wf(),
            env == wordle@.env,
            all == wordle@.targets,
            counts@.len() == 243,
            forall|p: u8| p < 243 ==> counts@[p as int] == #[trigger] bucket(env, all, guess, p),
            total == squares_upto(env, all, guess, n as int),
            total <= n * 0xfffe_0001,
        decreases 243 - n,
    {
        let count = counts[n] as u64;
        proof {
            lemma_bucket_bound(env, all, guess, n as u8);
            lemma_session_len(wordle@);
            assert(count == bucket(env, all, guess, n as u8));
            assert(count * count <= 0xfffe_0001) by (nonlinear_arith)
                requires
                    0 <= count <= 0xffff,
            ;
        }
        total += count * count;
        n += 1;
    }
    total
}

/// A word of the pool with what the choice between words rests on.
#[derive(Clone, Copy, Debug)]
pub struct Scored {
    /// The word's identifier.
    pub id: u16,
    /// The word's score.
    pub score: u64,
    /// Whether the word is itself still a possible target.
    pub candidate: bool,
}

/// Whether `a` is to be picked before `b` or is `b` itself: the lower score
/// first; of two equal scores the word that may itself be the target; then
/// the lower identifier.
pub open spec fn precedes(a: Scored, b: Scored) -> bool {
    ||| a.score < b.score
    ||| a.score == b.score && a.candidate && !b.candidate
    ||| a.score == b.score && a.candidate == b.candidate && a.id <= b.id
}

/// The standing of the word `id` in a session.
pub open spec fn standing(session: SessionModel, id: u16) -> Scored {
    Scored {
        id,
        score: score(session.env, session.targets, id) as u64,
        candidate: session.targets.contains(id),
    }
}

/// Whether `guess` is the word of the pool that comes before all others.
pub open spec fn is_best(session: SessionModel, guess: u16) -> bool {
    &&& guess < session.words.len()
    &&& forall|other: u16|
        other < session.words.len() ==> precedes(
            standing(session, guess),
            #[trigger] standing(session, other),
        )
}

/// No two words are both the best of a session: the order has no ties.
pub proof fn lemma_best_is_one(session: SessionModel, first: u16, second: u16)
    requires
        is_best(session, first),
        is_best(session, second),
    ensures
        first == second,
{
    assert(precedes(standing(session, first), standing(session, second)));
    assert(precedes(standing(session, second), standing(session, first)));
}

/// The first guess that an environment keeps has no part in a score.
pub proof fn lemma_score_whatever_first_guess(
    env: EnvModel,
    targets: Seq<u16>,
    guess: u16,
    first: u16,
    n: int,
)
    ensures
        squares_upto(env.starting_with(first), targets, guess, n) == squares_upto(
            env,
            targets,
            guess,
            n,
        ),
    decreases n,
{
    if n > 0 {
        lemma_score_whatever_first_guess(env, targets, guess, first, n - 1);
        let p = (n - 1) as u8;
        assert(agrees(env.starting_with(first), guess, p) =~= agrees(env, guess, p));
    }
}

/// The first guess that an environment keeps has no part in picking a
/// guess: the word that is best in a session is best in the same session of
/// the environment with any other first guess. So the first guess of a built
/// dataset is the word that a fresh session picks by the sizes of the groups
/// in the environment that is read from it.
pub proof fn lemma_best_whatever_first_guess(session: SessionModel, first: u16, guess: u16)
    ensures
        is_best(session, guess) == is_best(
            SessionModel { env: session.env.starting_with(first), ..session },
            guess,
        ),
{
    let other = SessionModel { env: session.env.starting_with(first), ..session };
    assert forall|id: u16| #[trigger] standing(other, id) == standing(session, id) by {
        lemma_score_whatever_first_guess(session.env, session.targets, id, first, 243);
    }
    if is_best(session, guess) {
        assert forall|id: u16| id < other.words.len() implies precedes(
            standing(other, guess),
            #[trigger] standing(other, id),
        ) by {
            assert(precedes(standing(session, guess), standing(session, id)));
        }
    }
    if is_best(other, guess) {
        assert forall|id: u16| id < session.words.len() implies precedes(
            standing(session, guess),
            #[trigger] standing(session, id),
        ) by {
            assert(precedes(standing(other, guess), standing(other, id)));
        }
    }
}

/// Scores one word of the pool.
fn scored(wordle: &Wordle, id: u16, candidate: bool) -> (r: Scored)
    requires
        wordle.wf(),
        candidate == wordle@.targets.contains(id),
    ensures
        r == standing(wordle@, id),
{
    Scored { id, score: score_of(wordle, id), candidate }
}

/// Orders two scored words: `Less` where the first is to be picked before
/// the second, `Equal` where both are the same word with the same standing.
fn compare(a: &Scored, b: &Scored) -> (r: Ordering)
    ensures
        (r is Greater) == !precedes(*a, *b),
        (r is Equal) == (precedes(*a, *b) && precedes(*b, *a)),
{
    if a.score < b.score {
        Ordering::Less
    } else if a.score > b.score {
        Ordering::Greater
    } else if a.candidate && !b.candidate {
        Ordering::Less
    } else if b.candidate && !a.candidate {
        Ordering::Greater
    } else if a.id < b.id {
        Ordering::Less
    } else if a.id > b.id {
        Ordering::Greater
    } else {
        Ordering::Equal
    }
}

/// Scores every word of the pool on rayon's thread pool and takes the least
/// by `compare`: `par_iter` on the slice of words, `ParallelIterator::map`
/// and `ParallelIterator::min_by`. The contract claims that the result is
/// `None` for an empty pool only, and otherwise the standing of a word of the
/// pool after which `compare` puts no other word's standing. As `compare` is
/// a total order on the standings of distinct words, this holds in whatever
/// order rayon reduces.
#[verifier::external_body]
fn par_least(wordle: &Wordle, words: &[(u16, bool)]) -> (least: Option<Scored>)
    requires
        wordle.wf(),
        words@ == wordle@.words,
    ensures
        least is None <==> wordle@.words.len() == 0,
        least matches Some(found) ==> {
            &&& found.id < wordle@.words.len()
            &&& found == standing(wordle@, found.id)
            &&& forall|other: u16|
                other < wordle@.words.len() ==> precedes(
                    found,
                    #[trigger] standing(wordle@, other),
                )
        },
{
    words.par_iter().map(|&(id, candidate)| scored(wordle, id, candidate)).min_by(
        |a, b| compare(a, b),
    )
}

/// Picks the next guess by the sizes of the groups: the one target if only
/// one is possible, else the word of the whole pool with the least score; of
/// words with the same score one that may itself be the target; of those the
/// first in the pool.
pub fn basic(wordle: &Wordle) -> (guess: u16)
    requires
        wordle.wf(),
    ensures
        wordle@.targets.len() == 1 ==> guess == wordle@.targets[0],
        wordle@.targets.len() != 1 ==> is_best(wordle@, guess),
{
    if let Some(id) = wordle.only_remaining() {
        return id;
    }
    match par_least(wordle, wordle.words()) {
        Some(found) => found.id,
        None => 0,
    }
}

/// A group is no larger than the list it is taken from.
pub proof fn lemma_bucket_bound(env: EnvModel, targets: Seq<u16>, guess: u16, pattern: u8)
    ensures
        bucket(env, targets, guess, pattern) <= targets.len(),
{
    targets.lemma_filter_len(agrees(env, guess, pattern));
}

} // verus!
