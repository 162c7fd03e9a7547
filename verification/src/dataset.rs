//! What an environment holds, and the binary form in which it is kept.

use crate::words::{lemma_record_round_trip, word_of_record, WordModel};
use vstd::prelude::*;

verus! {

/// Whether the identifiers rise strictly.
pub open spec fn rising(ids: Seq<u16>) -> bool {
    forall|i: int, j: int| 0 <= i < j < ids.len() ==> ids[i] < ids[j]
}

/// The number that two bytes spell, high byte first.
pub open spec fn be16(hi: u8, lo: u8) -> int {
    hi as int * 256 + lo as int
}

/// The two bytes of a 16-bit number, high byte first.
pub open spec fn be16_bytes(x: int) -> Seq<u8> {
    seq![(x / 256) as u8, (x % 256) as u8]
}

/// What an environment holds.
pub struct EnvModel {
    /// The pool; a word's position is its identifier.
    pub words: Seq<WordModel>,
    /// The identifiers of the targets; a target's position is its rank.
    pub targets: Seq<u16>,
    /// The table of patterns, one row per word of the pool, one column per target.
    pub patterns: Seq<u8>,
    /// The identifier of the strategy.
    pub solver: u8,
    /// The identifier of the first guess.
    pub starting_guess: u16,
}

impl EnvModel {
    /// The invariant of an environment.
    pub open spec fn wf(self) -> bool {
        &&& self.words.len() <= 0xffff
        &&& forall|i: int| 0 <= i < self.words.len() ==> (#[trigger] self.words[i]).wf()
        &&& self.starting_guess < self.words.len()
        &&& self.targets.len() <= self.words.len()
        &&& forall|k: int|
            0 <= k < self.targets.len() ==> (#[trigger] self.targets[k]) < self.words.len()
                && self.words[self.targets[k] as int].rank == Some(k)
        &&& rising(self.targets)
        &&& self.patterns.len() == self.words.len() * self.targets.len()
        &&& forall|i: int| 0 <= i < self.patterns.len() ==> #[trigger] self.patterns[i] < 243
    }

    /// The counts of words and targets fit the two bytes that the dataset
    /// gives each.
    pub open spec fn sized(self) -> bool {
        self.words.len() <= 0xffff && self.targets.len() <= 0xffff
    }

    /// The same environment with another first guess.
    pub open spec fn starting_with(self, guess: u16) -> EnvModel {
        EnvModel { starting_guess: guess, ..self }
    }

    /// The pattern that the table holds for a guess against a target, both
    /// given by their identifiers: the entry in the row of the guess and the
    /// column of the target's rank.
    pub open spec fn lookup(self, guess: int, target: int) -> Option<u8> {
        if 0 <= target < self.words.len() {
            match self.words[target].rank {
                Some(rank) => {
                    let index = guess * self.targets.len() + rank;
                    if 0 <= index < self.patterns.len() {
                        Some(self.patterns[index])
                    } else {
                        None
                    }
                },
                None => None,
            }
        } else {
            None
        }
    }

    /// The seven bytes that open the dataset.
    pub open spec fn header(self) -> Seq<u8> {
        seq![self.solver] + be16_bytes(self.starting_guess as int) + be16_bytes(
            self.words.len() as int,
        ) + be16_bytes(self.targets.len() as int)
    }

    /// The records of the words, seven bytes each.
    pub open spec fn records(self) -> Seq<u8> {
        Seq::new(7 * self.words.len(), |i: int| self.words[i / 7].record()[i % 7])
    }

    /// The identifiers of the targets, two bytes each.
    pub open spec fn target_bytes(self) -> Seq<u8> {
        Seq::new(2 * self.targets.len(), |i: int| be16_bytes(self.targets[i / 2] as int)[i % 2])
    }

    /// The dataset: header, records, targets, table.
    pub open spec fn bytes(self) -> Seq<u8> {
        self.header() + self.records() + self.target_bytes() + self.patterns
    }
}

/// The number of words that the header of a dataset declares.
pub open spec fn blob_words(data: Seq<u8>) -> int {
    be16(data[3], data[4])
}

/// The number of targets that the header of a dataset declares.
pub open spec fn blob_targets(data: Seq<u8>) -> int {
    be16(data[5], data[6])
}

/// The length of a dataset of `w` words and `k` targets.
pub open spec fn blob_len(w: int, k: int) -> int {
    7 + 7 * w + 2 * k + w * k
}

/// The record of word `i` in a dataset.
pub open spec fn blob_record(data: Seq<u8>, i: int) -> Seq<u8> {
    data.subrange(7 + 7 * i, 14 + 7 * i)
}

/// The identifier of the target of rank `k` in a dataset.
pub open spec fn blob_target(data: Seq<u8>, k: int) -> int {
    let at = 7 + 7 * blob_words(data) + 2 * k;
    be16(data[at], data[at + 1])
}

/// What a dataset holds, read field by field.
pub open spec fn blob_model(data: Seq<u8>) -> EnvModel {
    EnvModel {
        words: Seq::new(
            blob_words(data) as nat,
            |i: int| word_of_record(blob_record(data, i)).unwrap(),
        ),
        targets: Seq::new(blob_targets(data) as nat, |k: int| blob_target(data, k) as u16),
        patterns: data.subrange(
            7 + 7 * blob_words(data) + 2 * blob_targets(data),
            data.len() as int,
        ),
        solver: data[0],
        starting_guess: be16(data[1], data[2]) as u16,
    }
}

/// Whether a dataset has the length that its header declares and records that
/// all hold words.
pub open spec fn blob_framed(data: Seq<u8>) -> bool {
    &&& data.len() >= 7
    &&& data.len() == blob_len(blob_words(data), blob_targets(data))
    &&& forall|i: int|
        0 <= i < blob_words(data) ==> word_of_record(#[trigger] blob_record(data, i)) is Some
}

/// The environment that a dataset holds, if the dataset is sound.
pub open spec fn load(data: Seq<u8>) -> Option<EnvModel> {
    if blob_framed(data) && blob_model(data).wf() {
        Some(blob_model(data))
    } else {
        None
    }
}

/// Reading the dataset of a well-formed environment gives the environment
/// back: the same words, targets, table, strategy and first guess.
pub proof fn lemma_load_bytes(env: EnvModel)
    requires
        env.wf(),
    ensures
        load(env.bytes()) == Some(env),
{
    let data = env.bytes();
    let w = env.words.len() as int;
    let k = env.targets.len() as int;
    assert(env.header().len() == 7);
    assert(forall|i: int| 0 <= i < 7 ==> data[i] == env.header()[i]);
    assert(blob_words(data) == w);
    assert(blob_targets(data) == k);
    assert(data.len() == blob_len(w, k));
    assert forall|i: int| 0 <= i < w implies word_of_record(#[trigger] blob_record(data, i))
        == Some(env.words[i]) by {
        lemma_record_round_trip(env.words[i]);
        assert forall|j: int| 0 <= j < 7 implies blob_record(data, i)[j] == env.words[i].record()[j] by {
            assert(data[7 + 7 * i + j] == env.records()[7 * i + j]);
            assert((7 * i + j) / 7 == i && (7 * i + j) % 7 == j);
        }
        assert(blob_record(data, i) =~= env.words[i].record());
    }
    assert forall|j: int| 0 <= j < k implies blob_target(data, j) == #[trigger] env.targets[j] by {
        let at = 7 + 7 * w + 2 * j;
        assert(data[at] == env.target_bytes()[2 * j]);
        assert(data[at + 1] == env.target_bytes()[2 * j + 1]);
        assert((2 * j) / 2 == j && (2 * j) % 2 == 0);
        assert((2 * j + 1) / 2 == j && (2 * j + 1) % 2 == 1);
    }
    let model = blob_model(data);
    assert(model.words =~= env.words);
    assert(model.targets =~= env.targets);
    assert(model.patterns =~= env.patterns);
    assert(model == env);
}

/// A well-formed environment with any of its words as first guess is read
/// back from its dataset.
pub proof fn lemma_load_starting_with(env: EnvModel, guess: u16)
    requires
        env.wf(),
        guess < env.words.len(),
    ensures
        env.starting_with(guess).wf(),
        load(env.starting_with(guess).bytes()) == Some(env.starting_with(guess)),
{
    lemma_load_bytes(env.starting_with(guess));
}

/// A dataset is turned down, whatever else it holds, if its length is not
/// the one that its header declares, if an entry of its table is no pattern,
/// or if its targets do not rise.
pub proof fn lemma_load_rejects(data: Seq<u8>)
    ensures
        data.len() < 7 ==> load(data) is None,
        data.len() >= 7 && data.len() != blob_len(blob_words(data), blob_targets(data)) ==> load(
            data,
        ) is None,
        (exists|i: int|
            7 + 7 * blob_words(data) + 2 * blob_targets(data) <= i < data.len() && #[trigger] data[i]
                >= 243)
            ==> load(data) is None,
        (exists|k: int|
            0 < k < blob_targets(data) && blob_target(data, k - 1) >= #[trigger] blob_target(data, k))
            ==> load(data) is None,
{
    let model = blob_model(data);
    let start = 7 + 7 * blob_words(data) + 2 * blob_targets(data);
    if exists|i: int| start <= i < data.len() && #[trigger] data[i] >= 243 {
        let i = choose|i: int| start <= i < data.len() && #[trigger] data[i] >= 243;
        assert(model.patterns[i - start] == data[i]);
    }
    if exists|k: int|
        0 < k < blob_targets(data) && blob_target(data, k - 1) >= #[trigger] blob_target(data, k) {
        let k = choose|k: int|
            0 < k < blob_targets(data) && blob_target(data, k - 1) >= #[trigger] blob_target(data, k);
        assert(model.targets[k] == blob_target(data, k) as u16);
        assert(model.targets[k - 1] == blob_target(data, k - 1) as u16);
    }
}

} // verus!
