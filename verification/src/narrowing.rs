//! What a session holds, and how a guess and its pattern narrow the targets.

use crate::dataset::{rising, EnvModel};
use vstd::prelude::*;

verus! {

/// What a session holds.
pub struct SessionModel {
    /// The environment that the session plays in.
    pub env: EnvModel,
    /// The identifiers of the targets that are still possible, in rising order.
    pub targets: Seq<u16>,
    /// Every word's identifier, with whether the word is still a possible target.
    pub words: Seq<(u16, bool)>,
}

impl SessionModel {
    /// The invariant of a session.
    pub open spec fn wf(self) -> bool {
        &&& self.env.wf()
        &&& rising(self.targets)
        &&& forall|i: int|
            0 <= i < self.targets.len() ==> self.env.targets.contains(#[trigger] self.targets[i])
        &&& self.words.len() == self.env.words.len()
        &&& forall|i: int|
            0 <= i < self.words.len() ==> #[trigger] self.words[i] == (
                i as u16,
                self.targets.contains(i as u16),
            )
    }
}

/// The session that opens in `env`: every target is possible.
pub open spec fn opening(env: EnvModel) -> SessionModel {
    SessionModel {
        env,
        targets: env.targets,
        words: Seq::new(env.words.len(), |i: int| (i as u16, env.targets.contains(i as u16))),
    }
}

/// The test that a target passes when the table holds `pattern` for `guess` against it.
pub open spec fn agrees(env: EnvModel, guess: u16, pattern: u8) -> spec_fn(u16) -> bool {
    |target: u16| env.lookup(guess as int, target as int) == Some(pattern)
}

/// The targets out of `targets` that agree with the pattern seen for a guess,
/// in their old order.
pub open spec fn narrowed(env: EnvModel, targets: Seq<u16>, guess: u16, pattern: u8) -> Seq<u16> {
    targets.filter(agrees(env, guess, pattern))
}

/// The session with other targets: the flags of the words follow them.
pub open spec fn session_with(session: SessionModel, targets: Seq<u16>) -> SessionModel {
    SessionModel {
        env: session.env,
        targets,
        words: Seq::new(
            session.env.words.len(),
            |i: int| (i as u16, targets.contains(i as u16)),
        ),
    }
}

/// The session after it is narrowed by a guess and its pattern.
pub open spec fn narrowed_session(session: SessionModel, guess: u16, pattern: u8) -> SessionModel {
    session_with(session, narrowed(session.env, session.targets, guess, pattern))
}

/// Narrowing keeps the order of the targets.
pub proof fn lemma_narrowed_rises(env: EnvModel, targets: Seq<u16>, guess: u16, pattern: u8)
    requires
        rising(targets),
    ensures
        rising(narrowed(env, targets, guess, pattern)),
    decreases targets.len(),
{
    reveal(Seq::filter);
    let keep = agrees(env, guess, pattern);
    if targets.len() > 0 {
        let rest = targets.drop_last();
        lemma_narrowed_rises(env, rest, guess, pattern);
        let left = rest.filter(keep);
        if keep(targets.last()) {
            assert forall|i: int, j: int| 0 <= i < j < left.len() + 1 implies left.push(
                targets.last(),
            )[i] < left.push(targets.last())[j] by {
                if j == left.len() {
                    lemma_filter_members(rest, keep, i);
                    let k = choose|k: int| 0 <= k < rest.len() && rest[k] == left[i];
                    assert(targets[k] < targets[targets.len() - 1]);
                }
            }
        }
    }
}

/// Narrowing keeps the invariant of a session.
pub proof fn lemma_narrowed_session_wf(session: SessionModel, guess: u16, pattern: u8)
    requires
        session.wf(),
    ensures
        narrowed_session(session, guess, pattern).wf(),
{
    let left = narrowed(session.env, session.targets, guess, pattern);
    lemma_narrowed_rises(session.env, session.targets, guess, pattern);
    lemma_narrowed_within(session.env, session.targets, guess, pattern);
    assert forall|i: int| 0 <= i < left.len() implies session.env.targets.contains(
        #[trigger] left[i],
    ) by {
        assert(session.targets.contains(left[i]));
        let k = choose|k: int| 0 <= k < session.targets.len() && session.targets[k] == left[i];
        assert(session.env.targets.contains(session.targets[k]));
    }
}

/// Narrowing by a guess and its pattern a second time changes nothing.
pub proof fn lemma_narrowed_twice(env: EnvModel, targets: Seq<u16>, guess: u16, pattern: u8)
    ensures
        narrowed(env, narrowed(env, targets, guess, pattern), guess, pattern) == narrowed(
            env,
            targets,
            guess,
            pattern,
        ),
{
    lemma_filter_twice(targets, agrees(env, guess, pattern));
}

/// Narrowing never adds a target: what is left was there before, in the same
/// order, and is no more than before.
pub proof fn lemma_narrowed_within(env: EnvModel, targets: Seq<u16>, guess: u16, pattern: u8)
    ensures
        narrowed(env, targets, guess, pattern).len() <= targets.len(),
        forall|i: int|
            0 <= i < narrowed(env, targets, guess, pattern).len() ==> targets.contains(
                #[trigger] narrowed(env, targets, guess, pattern)[i],
            ) && env.lookup(guess as int, narrowed(env, targets, guess, pattern)[i] as int)
                == Some(pattern),
        forall|i: int|
            0 <= i < targets.len() && env.lookup(guess as int, targets[i] as int) == Some(pattern)
                ==> narrowed(env, targets, guess, pattern).contains(#[trigger] targets[i]),
{
    let keep = agrees(env, guess, pattern);
    targets.lemma_filter_len(keep);
    let left = targets.filter(keep);
    assert forall|i: int| 0 <= i < left.len() implies targets.contains(#[trigger] left[i]) && keep(
        left[i],
    ) by {
        lemma_filter_members(targets, keep, i);
    }
    assert forall|i: int| 0 <= i < targets.len() && keep(targets[i]) implies left.contains(
        #[trigger] targets[i],
    ) by {
        targets.lemma_filter_contains(keep, i);
    }
}

proof fn lemma_filter_twice<A>(s: Seq<A>, keep: spec_fn(A) -> bool)
    ensures
        s.filter(keep).filter(keep) == s.filter(keep),
    decreases s.len(),
{
    reveal(Seq::filter);
    if s.len() > 0 {
        lemma_filter_twice(s.drop_last(), keep);
        if keep(s.last()) {
            let rest = s.drop_last().filter(keep);
            assert(rest.push(s.last()).drop_last() =~= rest);
        }
    }
}

proof fn lemma_filter_members<A>(s: Seq<A>, keep: spec_fn(A) -> bool, i: int)
    requires
        0 <= i < s.filter(keep).len(),
    ensures
        s.contains(s.filter(keep)[i]),
        keep(s.filter(keep)[i]),
    decreases s.len(),
{
    reveal(Seq::filter);
    if s.len() > 0 {
        let rest = s.drop_last().filter(keep);
        if i < rest.len() {
            lemma_filter_members(s.drop_last(), keep, i);
            let j = choose|j: int| 0 <= j < s.drop_last().len() && s.drop_last()[j] == rest[i];
            assert(s[j] == rest[i]);
        } else {
            assert(s[s.len() - 1] == s.last());
        }
    }
}

/// A session never holds more possible targets than its pool holds words.
pub proof fn lemma_session_len(session: SessionModel)
    requires
        session.wf(),
    ensures
        session.targets.len() <= session.env.words.len() <= 0xffff,
{
    let n = session.targets.len() as int;
    if n > 0 {
        lemma_rising_floor(session.targets, n - 1);
        let last = session.targets[n - 1];
        assert(session.env.targets.contains(last));
        let k = choose|k: int| 0 <= k < session.env.targets.len() && session.env.targets[k] == last;
        assert(session.env.targets[k] < session.env.words.len());
    }
}

proof fn lemma_rising_floor(ids: Seq<u16>, i: int)
    requires
        rising(ids),
        0 <= i < ids.len(),
    ensures
        ids[i] >= i,
    decreases i,
{
    if i > 0 {
        lemma_rising_floor(ids, i - 1);
    }
}

} // verus!
