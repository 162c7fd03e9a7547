//! The environment of a game (its words, its targets and the table of all
//! patterns) and a session that narrows the targets.

use crate::dataset::{
    be16_bytes, blob_len, blob_model, blob_record, blob_target, blob_targets, blob_words,
    lemma_load_starting_with, load, rising, EnvModel,
};
use crate::narrowing::{
    agrees, lemma_session_len, narrowed, narrowed_session, opening, SessionModel,
};
use crate::pool::{
    assembles, build_error, cell, is_pool, lemma_cell_within, lemma_targets_before_bound,
    letters_of, lines_of, pool_of_lines, targets_before, words_of,
};
use crate::progress::picked;
use crate::solvers::{basic, is_best, solver, strategy_of, Strategy};
pub use crate::words::get_pattern;
use crate::words::{
    calculate_pattern, pattern, pattern_of_text, word_key, word_of, word_of_record, words_rise,
    Word, WordInfo, WordModel,
};
use vstd::prelude::*;

verus! {

/// What can go wrong when an environment is built or read.
#[derive(Clone, Copy, Debug, PartialEq, Eq, Structural)]
pub enum Error {
    /// The pool of words could not be read.
    PoolRead,
    /// The list of targets could not be read.
    TargetsRead,
    /// A line of the pool is not a word, or the pool holds no word.
    PoolFormat,
    /// A line of the targets is not a word.
    TargetsFormat,
    /// The pool holds more words than a 16-bit identifier can number.
    PoolLength,
    /// The strategy identifier names no strategy.
    SolverID,
    /// The dataset could not be written.
    DataWrite,
    /// The dataset is missing or damaged.
    DataRead,
}

/// The message that tells a user of an error.
pub open spec fn message_of(error: Error) -> Seq<char> {
    match error {
        Error::PoolRead => "Failed to read words file."@,
        Error::TargetsRead => "Failed to read targets file."@,
        Error::PoolFormat => "Words file formatted incorrectly."@,
        Error::TargetsFormat => "Targets file formatted incorrectly."@,
        Error::PoolLength => "Words file too long."@,
        Error::SolverID => "Invalid solver ID."@,
        Error::DataWrite => "Failed to write data file."@,
        Error::DataRead => "Data file missing or corrupted. Please build."@,
    }
}

impl Error {
    /// The message that tells a user of the error.
    pub fn message(&self) -> (s: &'static str)
        ensures
            s@ == message_of(*self),
    {
        match self {
            Error::PoolRead => "Failed to read words file.",
            Error::TargetsRead => "Failed to read targets file.",
            Error::PoolFormat => "Words file formatted incorrectly.",
            Error::TargetsFormat => "Targets file formatted incorrectly.",
            Error::PoolLength => "Words file too long.",
            Error::SolverID => "Invalid solver ID.",
            Error::DataWrite => "Failed to write data file.",
            Error::DataRead => "Data file missing or corrupted. Please build.",
        }
    }
}

/// `<[u64]>::sort_unstable` of the standard library puts the keys in rising
/// order. The contract claims that the list holds the same keys after the
/// call, each as often as before, and that no key stands before a lesser one.
#[verifier::external_body]
fn sort_keys(keys: &mut Vec<u64>)
    ensures
        final(keys)@.to_multiset() == old(keys)@.to_multiset(),
        forall|i: int, j: int| 0 <= i < j < final(keys)@.len() ==> final(keys)@[i] <= final(keys)@[j],
{
    keys.sort_unstable();
}

/// The keys of a rising list without those that repeat the key before them.
fn distinct(keys: &Vec<u64>) -> (kept: Vec<u64>)
    requires
        forall|i: int, j: int| 0 <= i < j < keys@.len() ==> keys@[i] <= keys@[j],
    ensures
        forall|a: int, b: int| 0 <= a < b < kept@.len() ==> kept@[a] < kept@[b],
        forall|k: int| 0 <= k < kept@.len() ==> keys@.contains(#[trigger] kept@[k]),
        forall|j: int| 0 <= j < keys@.len() ==> kept@.contains(#[trigger] keys@[j]),
{
    let mut kept: Vec<u64> = Vec::new();
    let mut i: usize = 0;
    while i < keys.len()
        invariant
            0 <= i <= keys@.len(),
            forall|a: int, b: int| 0 <= a < b < keys@.len() ==> keys@[a] <= keys@[b],
            forall|a: int, b: int| 0 <= a < b < kept@.len() ==> kept@[a] < kept@[b],
            forall|k: int| 0 <= k < kept@.len() ==> keys@.contains(#[trigger] kept@[k]),
            forall|j: int| 0 <= j < i ==> kept@.contains(#[trigger] keys@[j]),
            i > 0 ==> kept@.len() > 0 && kept@[kept@.len() - 1] == keys@[i - 1],
            i == 0 ==> kept@.len() == 0,
        decreases keys@.len() - i,
    {
        let key = keys[i];
        let ghost before = kept@;
        if i == 0 || key != keys[i - 1] {
            kept.push(key);
            proof {
                assert(keys@.contains(keys@[i as int]));
                assert forall|a: int, b: int| 0 <= a < b < kept@.len() implies kept@[a]
                    < kept@[b] by {
                    if b == kept@.len() - 1 {
                        assert(before[a] <= before[before.len() - 1]);
                    }
                }
                assert forall|j: int| 0 <= j <= i implies kept@.contains(#[trigger] keys@[j]) by {
                    if j < i {
                        let k = choose|k: int| 0 <= k < before.len() && before[k] == keys@[j];
                        assert(kept@[k] == keys@[j]);
                    } else {
                        assert(kept@[kept@.len() - 1] == keys@[j]);
                    }
                }
            }
        } else {
            proof {
                assert(kept@[kept@.len() - 1] == keys@[i as int]);
            }
        }
        i += 1;
    }
    kept
}

/// The words that keys spell.
fn spell(keys: &Vec<u64>) -> (words: Vec<Word>)
    ensures
        words@.len() == keys@.len(),
        forall|k: int|
            0 <= k < keys@.len() ==> (#[trigger] words@[k])@ == crate::words::key_letters(
                keys@[k] as int,
            ),
{
    let mut words: Vec<Word> = Vec::new();
    let mut i: usize = 0;
    while i < keys.len()
        invariant
            0 <= i <= keys@.len(),
            words@.len() == i,
            forall|k: int|
                0 <= k < i ==> (#[trigger] words@[k])@ == crate::words::key_letters(
                    keys@[k] as int,
                ),
        decreases keys@.len() - i,
    {
        words.push(Word::from_key(keys[i]));
        i += 1;
    }
    words
}

/// The pool of a list of words: the same words, each once, in rising order.
fn pool_of(words: &Vec<Word>) -> (pool: Vec<Word>)
    requires
        forall|i: int| 0 <= i < words@.len() ==> (#[trigger] words@[i]).wf(),
    ensures
        is_pool(letters_of(pool@), letters_of(words@)),
        forall|i: int| 0 <= i < pool@.len() ==> (#[trigger] pool@[i]).wf(),
{
    let ghost all = letters_of(words@);
    let mut keys: Vec<u64> = Vec::new();
    let mut n: usize = 0;
    while n < words.len()
        invariant
            0 <= n <= words@.len(),
            all == letters_of(words@),
            keys@.len() == n,
            forall|m: int| 0 <= m < n ==> #[trigger] keys@[m] == word_key(all[m]),
        decreases words@.len() - n,
    {
        keys.push(words[n].key());
        n += 1;
    }
    let ghost unsorted = keys@;
    sort_keys(&mut keys);
    let kept = distinct(&keys);
    let pool = spell(&kept);
    proof {
        let rising = letters_of(pool@);
        unsorted.to_multiset_ensures();
        keys@.to_multiset_ensures();
        assert forall|k: int| 0 <= k < rising.len() implies all.contains(#[trigger] rising[k])
            && word_key(rising[k]) == kept@[k] && pool@[k].wf() by {
            assert(rising[k] == pool@[k]@);
            assert(keys@.contains(kept@[k]));
            assert(unsorted.to_multiset().count(kept@[k]) > 0);
            assert(unsorted.contains(kept@[k]));
            let m = choose|m: int| 0 <= m < unsorted.len() && unsorted[m] == kept@[k];
            assert(unsorted[m] == word_key(all[m]));
            assert(words@[m].wf());
            crate::words::lemma_key_letters(all[m]);
            assert(rising[k] == all[m]);
        }
        assert forall|k: int| 0 <= k < pool@.len() implies (#[trigger] pool@[k]).wf() by {
            assert(all.contains(rising[k]) && pool@[k].wf());
        }
        assert forall|a: int, b: int| 0 <= a < b < rising.len() implies word_key(rising[a])
            < word_key(rising[b]) by {
            assert(all.contains(rising[a]) && word_key(rising[a]) == kept@[a]);
            assert(all.contains(rising[b]) && word_key(rising[b]) == kept@[b]);
        }
        assert forall|m: int| 0 <= m < all.len() implies rising.contains(#[trigger] all[m]) by {
            assert(unsorted[m] == word_key(all[m]));
            assert(unsorted.contains(unsorted[m]));
            assert(keys@.to_multiset().count(unsorted[m]) > 0);
            assert(keys@.contains(unsorted[m]));
            let j = choose|j: int| 0 <= j < keys@.len() && keys@[j] == unsorted[m];
            assert(kept@.contains(keys@[j]));
            let k = choose|k: int| 0 <= k < kept@.len() && kept@[k] == keys@[j];
            assert(words@[m].wf());
            crate::words::lemma_key_letters(all[m]);
            assert(rising[k] == pool@[k]@);
            assert(rising[k] == all[m]);
        }
    }
    pool
}

/// Whether `word` is one of `words`.
fn contains(words: &Vec<Word>, word: &Word) -> (found: bool)
    ensures
        found == letters_of(words@).contains(word@),
{
    let ghost all = letters_of(words@);
    let mut i: usize = 0;
    while i < words.len()
        invariant
            0 <= i <= words@.len(),
            all == letters_of(words@),
            forall|k: int| 0 <= k < i ==> all[k] != word@,
        decreases words@.len() - i,
    {
        if words[i].same(word) {
            assert(all[i as int] == word@);
            return true;
        }
        i += 1;
    }
    false
}

/// Appends the two bytes of `x`, high byte first.
fn push_be16(data: &mut Vec<u8>, x: u16)
    ensures
        final(data)@ == old(data)@ + be16_bytes(x as int),
{
    data.push((x / 256) as u8);
    data.push((x % 256) as u8);
    assert(data@ =~= old(data)@ + be16_bytes(x as int));
}

/// The words, the targets and the table of patterns of a game.
pub struct Environment {
    words: Vec<WordInfo>,
    targets: Vec<u16>,
    patterns: Vec<u8>,
    solver: u8,
    starting_guess: u16,
}

impl View for Environment {
    type V = EnvModel;

    closed spec fn view(&self) -> EnvModel {
        EnvModel {
            words: Seq::new(self.words@.len(), |i: int| self.words@[i]@),
            targets: self.targets@,
            patterns: self.patterns@,
            solver: self.solver,
            starting_guess: self.starting_guess,
        }
    }
}

impl Environment {
    /// The invariant of an environment.
    pub open spec fn wf(&self) -> bool {
        self@.wf()
    }

    /// Reads an environment from a dataset and checks all of it: the length
    /// against the counts in the header, the first guess, every record, every
    /// target with its rank and the rising order of the targets, and every
    /// entry of the table.
    pub fn new(data: &[u8]) -> (r: Option<Environment>)
        ensures
            match r {
                Some(e) => e.wf() && load(data@) == Some(e@),
                None => load(data@) is None,
            },
    {
        if data.len() < 7 {
            return None;
        }
        let solver = data[0];
        let starting_guess: u16 = (data[1] as u16) * 256 + (data[2] as u16);
        let words_len: usize = (data[3] as usize) * 256 + (data[4] as usize);
        let targets_len: usize = (data[5] as usize) * 256 + (data[6] as usize);
        assert(words_len * targets_len <= 0xffff * 0xffff) by (nonlinear_arith)
            requires
                0 <= words_len <= 0xffff,
                0 <= targets_len <= 0xffff,
        ;
        let total: u64 = 7 + (words_len as u64) * 7 + (targets_len as u64) * 2 + (words_len as u64)
            * (targets_len as u64);
        if data.len() as u64 != total || starting_guess as usize >= words_len || targets_len
            > words_len {
            return None;
        }
        let ghost model = blob_model(data@);
        let mut words: Vec<WordInfo> = Vec::new();
        let mut i: usize = 0;
        while i < words_len
            invariant
                0 <= i <= words_len,
                words_len == blob_words(data@),
                targets_len == blob_targets(data@),
                data@.len() == blob_len(words_len as int, targets_len as int),
                words_len * targets_len >= 0,
                words@.len() == i,
                forall|j: int|
                    0 <= j < i ==> word_of_record(#[trigger] blob_record(data@, j)) == Some(
                        words@[j]@,
                    ),
                forall|j: int| 0 <= j < i ==> (#[trigger] words@[j]).wf(),
            decreases words_len - i,
        {
            let record = vstd::slice::slice_subrange(data, 7 + 7 * i, 14 + 7 * i);
            assert(record@ == blob_record(data@, i as int));
            match WordInfo::from_bytes(record) {
                Some(info) => {
                    words.push(info);
                },
                None => {
                    return None;
                },
            }
            i += 1;
        }
        let base = 7 + 7 * words_len;
        let mut targets: Vec<u16> = Vec::new();
        let mut k: usize = 0;
        while k < targets_len
            invariant
                0 <= k <= targets_len,
                targets_len <= words_len,
                base == 7 + 7 * words_len,
                words_len == blob_words(data@),
                targets_len == blob_targets(data@),
                data@.len() == blob_len(words_len as int, targets_len as int),
                words_len * targets_len >= 0,
                words@.len() == words_len,
                model == blob_model(data@),
                forall|j: int| 0 <= j < words_len ==> (#[trigger] words@[j])@ == model.words[j],
                targets@.len() == k,
                forall|j: int| 0 <= j < k ==> #[trigger] targets@[j] == blob_target(data@, j),
                forall|j: int|
                    0 <= j < k ==> (#[trigger] targets@[j]) < words_len
                        && model.words[targets@[j] as int].rank == Some(j),
                rising(targets@),
            decreases targets_len - k,
        {
            let id: u16 = (data[base + 2 * k] as u16) * 256 + (data[base + 2 * k + 1] as u16);
            assert(id == blob_target(data@, k as int));
            assert(model.targets[k as int] == id);
            if id as usize >= words_len {
                return None;
            }
            if words[id as usize].get_target() != Some(k) {
                assert(model.words[id as int].rank != Some(k as int));
                return None;
            }
            if k > 0 && id <= targets[k - 1] {
                assert(model.targets[k - 1] == targets@[k - 1]);
                assert(!rising(model.targets));
                return None;
            }
            targets.push(id);
            k += 1;
        }
        let start = base + 2 * targets_len;
        let mut patterns: Vec<u8> = Vec::new();
        let mut n: usize = start;
        while n < data.len()
            invariant
                start <= n <= data@.len(),
                model == blob_model(data@),
                start == 7 + 7 * blob_words(data@) + 2 * blob_targets(data@),
                patterns@ == data@.subrange(start as int, n as int),
                forall|j: int| 0 <= j < patterns@.len() ==> #[trigger] patterns@[j] < 243,
            decreases data@.len() - n,
        {
            let pattern = data[n];
            if pattern >= 243 {
                assert(model.patterns[n - start] == pattern);
                return None;
            }
            patterns.push(pattern);
            assert(patterns@ =~= data@.subrange(start as int, n + 1));
            n += 1;
        }
        let e = Environment { words, targets, patterns, solver, starting_guess };
        proof {
            assert(e@.words =~= model.words);
            assert(e@.targets =~= model.targets);
            assert(e@ == model);
        }
        Some(e)
    }

    /// Reads a list of lines as words; `None` if a line is not a word.
    pub fn parse_word_list(list: Vec<String>) -> (r: Option<Vec<Word>>)
        ensures
            match r {
                Some(words) => words_of(lines_of(list@)) == Some(letters_of(words@)) && forall|
                    i: int,
                | 0 <= i < words@.len() ==> (#[trigger] words@[i]).wf(),
                None => words_of(lines_of(list@)) is None,
            },
    {
        let ghost lines = lines_of(list@);
        let mut words: Vec<Word> = Vec::new();
        let mut i: usize = 0;
        while i < list.len()
            invariant
                0 <= i <= list@.len(),
                lines == lines_of(list@),
                words@.len() == i,
                forall|k: int| 0 <= k < i ==> word_of(#[trigger] lines[k]) == Some(words@[k]@),
                forall|k: int| 0 <= k < i ==> (#[trigger] words@[k]).wf(),
            decreases list@.len() - i,
        {
            match Word::new(list[i].as_str()) {
                Some(word) => {
                    words.push(word);
                },
                None => {
                    assert(word_of(lines[i as int]) is None);
                    return None;
                },
            }
            i += 1;
        }
        proof {
            assert(letters_of(words@) =~= Seq::new(
                lines.len(),
                |i: int| word_of(lines[i]).unwrap(),
            ));
        }
        Some(words)
    }

    /// Whether `r` is what `assemble` returns for the lines of a pool and
    /// of its targets, where `words` is the pool that the lines spell.
    pub open spec fn assembled_as(
        r: Result<Environment, Error>,
        lines: Seq<Seq<char>>,
        targets: Seq<Seq<char>>,
        solver: u8,
        words: Seq<Seq<u8>>,
    ) -> bool {
        &&& pool_of_lines(words, lines, targets)
        &&& match r {
            Ok(env) => {
                &&& build_error(lines, targets, solver, words) is None
                &&& env.wf()
                &&& assembles(env@, words, words_of(targets).unwrap(), solver)
            },
            Err(e) => build_error(lines, targets, solver, words) == Some(e),
        }
    }

    /// Builds the environment of a pool and its targets, with the first
    /// word as first guess. The lines are read as words; the pool holds each
    /// of these words once, in rising order, and a word's place in it is its
    /// identifier.
    pub fn assemble(pool: Vec<String>, targets: Vec<String>, solver: u8) -> (r: Result<
        Environment,
        Error,
    >)
        ensures
            exists|words: Seq<Seq<u8>>|
                Environment::assembled_as(r, lines_of(pool@), lines_of(targets@), solver, words),
    {
        let ghost lines = lines_of(pool@);
        let ghost target_lines = lines_of(targets@);
        let ghost none = Seq::<Seq<u8>>::empty();
        let target_words = match Environment::parse_word_list(targets) {
            Some(words) => words,
            None => {
                let r = Err(Error::TargetsFormat);
                assert(Environment::assembled_as(r, lines, target_lines, solver, none));
                return r;
            },
        };
        let parsed = match Environment::parse_word_list(pool) {
            Some(words) => words,
            None => {
                let r = Err(Error::PoolFormat);
                assert(Environment::assembled_as(r, lines, target_lines, solver, none));
                return r;
            },
        };
        let pool_words = pool_of(&parsed);
        let ghost all = letters_of(pool_words@);
        let ghost wanted = letters_of(target_words@);
        if pool_words.len() > 0xffff {
            let r = Err(Error::PoolLength);
            assert(Environment::assembled_as(r, lines, target_lines, solver, all));
            return r;
        }
        if crate::solvers::solver(solver).is_none() {
            let r = Err(Error::SolverID);
            assert(Environment::assembled_as(r, lines, target_lines, solver, all));
            return r;
        }
        if pool_words.len() == 0 {
            let r = Err(Error::PoolFormat);
            assert(Environment::assembled_as(r, lines, target_lines, solver, all));
            return r;
        }
        let mut words: Vec<WordInfo> = Vec::new();
        let mut ids: Vec<u16> = Vec::new();
        let mut id: usize = 0;
        while id < pool_words.len()
            invariant
                0 <= id <= pool_words@.len() <= 0xffff,
                all == letters_of(pool_words@),
                wanted == letters_of(target_words@),
                forall|i: int| 0 <= i < pool_words@.len() ==> (#[trigger] pool_words@[i]).wf(),
                words@.len() == id,
                ids@.len() == targets_before(all, wanted, id as int),
                ids@.len() <= id,
                forall|i: int|
                    0 <= i < id ==> (#[trigger] words@[i])@ == (WordModel {
                        letters: all[i],
                        rank: if wanted.contains(all[i]) {
                            Some(targets_before(all, wanted, i))
                        } else {
                            None
                        },
                    }),
                forall|k: int|
                    0 <= k < ids@.len() ==> (#[trigger] ids@[k]) < id && wanted.contains(
                        all[ids@[k] as int],
                    ) && targets_before(all, wanted, ids@[k] as int) == k,
                rising(ids@),
            decreases pool_words@.len() - id,
        {
            let word = pool_words[id];
            assert(all[id as int] == word@);
            let rank = if contains(&target_words, &word) {
                let rank = ids.len();
                ids.push(id as u16);
                Some(rank)
            } else {
                None
            };
            let info = WordInfo::new(word, rank);
            words.push(info);
            id += 1;
        }
        let ghost k = ids@.len() as int;
        let mut patterns: Vec<u8> = Vec::new();
        let mut guess: usize = 0;
        while guess < words.len()
            invariant
                0 <= guess <= words@.len(),
                words@.len() == all.len(),
                k == ids@.len(),
                patterns@.len() == guess * k,
                forall|i: int| 0 <= i < all.len() ==> (#[trigger] words@[i])@.letters == all[i],
                forall|j: int| 0 <= j < k ==> (#[trigger] ids@[j]) < all.len(),
                forall|i: int, j: int|
                    0 <= i < guess && 0 <= j < k ==> #[trigger] cell(patterns@, k, i, j) == pattern(
                        all[i],
                        all[ids@[j] as int],
                    ),
                forall|n: int| 0 <= n < patterns@.len() ==> #[trigger] patterns@[n] < 243,
            decreases words@.len() - guess,
        {
            let ghost row = patterns@;
            let mut rank: usize = 0;
            while rank < ids.len()
                invariant
                    0 <= rank <= k,
                    0 <= guess < words@.len(),
                    words@.len() == all.len(),
                    k == ids@.len(),
                    row.len() == guess * k,
                    patterns@.len() == guess * k + rank,
                    patterns@.take(guess * k) == row,
                    forall|i: int|
                        0 <= i < all.len() ==> (#[trigger] words@[i])@.letters == all[i],
                    forall|j: int| 0 <= j < k ==> (#[trigger] ids@[j]) < all.len(),
                    forall|j: int|
                        0 <= j < rank ==> #[trigger] cell(patterns@, k, guess as int, j) == pattern(
                            all[guess as int],
                            all[ids@[j] as int],
                        ),
                    forall|n: int| 0 <= n < patterns@.len() ==> #[trigger] patterns@[n] < 243,
                decreases k - rank,
            {
                let target = ids[rank] as usize;
                let value = calculate_pattern(words[guess].get_word(), words[target].get_word());
                let ghost before = patterns@;
                patterns.push(value);
                proof {
                    assert(patterns@.take(guess * k) =~= before.take(guess * k));
                    assert forall|j: int| 0 <= j <= rank implies #[trigger] cell(
                        patterns@,
                        k,
                        guess as int,
                        j,
                    ) == pattern(all[guess as int], all[ids@[j] as int]) by {
                        if j < rank {
                            assert(cell(before, k, guess as int, j) == pattern(
                                all[guess as int],
                                all[ids@[j] as int],
                            ));
                        }
                    }
                }
                rank += 1;
            }
            proof {
                assert((guess + 1) * k == guess * k + k) by (nonlinear_arith);
                assert forall|i: int, j: int| 0 <= i <= guess && 0 <= j < k implies #[trigger] cell(
                    patterns@,
                    k,
                    i,
                    j,
                ) == pattern(all[i], all[ids@[j] as int]) by {
                    if i < guess {
                        lemma_cell_within(k, guess as int, i, j);
                        assert(cell(row, k, i, j) == pattern(all[i], all[ids@[j] as int]));
                        assert(patterns@[i * k + j] == row[i * k + j]);
                    }
                }
            }
            guess += 1;
        }
        let env = Environment { words, targets: ids, patterns, solver, starting_guess: 0 };
        proof {
            assert forall|i: int| 0 <= i < env@.words.len() implies (#[trigger] env@.words[i]).wf() by {
                assert(env@.words[i] == words@[i]@);
                assert(pool_words@[i].wf());
                lemma_targets_before_bound(all, wanted, i);
            }
            assert forall|j: int| 0 <= j < env@.targets.len() implies (#[trigger] env@.targets[j])
                < env@.words.len() && env@.words[env@.targets[j] as int].rank == Some(j) by {
                assert(env@.words[ids@[j] as int] == words@[ids@[j] as int]@);
            }
            assert forall|i: int| 0 <= i < all.len() implies #[trigger] env@.words[i] == (WordModel {
                letters: all[i],
                rank: if wanted.contains(all[i]) {
                    Some(targets_before(all, wanted, i))
                } else {
                    None
                },
            }) by {
                assert(env@.words[i] == words@[i]@);
            }
        }
        let r = Ok(env);
        assert(Environment::assembled_as(r, lines, target_lines, solver, all));
        r
    }

    /// Whether `r` is what `build` returns for the lines of a pool and of
    /// its targets with the scorer `entropy`, where `words` is the pool that
    /// the lines spell: the dataset of the assembled environment with the
    /// guess that a fresh session picks as first guess.
    pub open spec fn built_as<F: Fn(&Wordle) -> u16>(
        r: Result<Vec<u8>, Error>,
        lines: Seq<Seq<char>>,
        targets: Seq<Seq<char>>,
        solver: u8,
        entropy: F,
        words: Seq<Seq<u8>>,
    ) -> bool {
        &&& pool_of_lines(words, lines, targets)
        &&& match r {
            Ok(data) => build_error(lines, targets, solver, words) is None && exists|
                session: Wordle,
                guess: u16,
            |
                {
                    &&& session.wf()
                    &&& session@ == opening(session@.env)
                    &&& assembles(session@.env, words, words_of(targets).unwrap(), solver)
                    &&& #[trigger] session.chooses(Some(guess), entropy)
                    &&& guess < words.len()
                    &&& data@ == session@.env.starting_with(guess).bytes()
                    &&& load(data@) == Some(session@.env.starting_with(guess))
                },
            Err(e) => build_error(lines, targets, solver, words) == Some(e),
        }
    }

    /// Builds the dataset of a pool and its targets: assembles the
    /// environment, picks the first guess as `Wordle::next_guess` does in a
    /// fresh session, and writes the environment with that guess. The
    /// dataset can be read back.
    pub fn build<F: Fn(&Wordle) -> u16>(
        pool: Vec<String>,
        targets: Vec<String>,
        solver: u8,
        entropy: F,
    ) -> (r: Result<Vec<u8>, Error>)
        requires
            forall|session: &Wordle| session.wf() ==> call_requires(entropy, (session,)),
        ensures
            exists|words: Seq<Seq<u8>>|
                Environment::built_as(
                    r,
                    lines_of(pool@),
                    lines_of(targets@),
                    solver,
                    entropy,
                    words,
                ),
    {
        let ghost lines = lines_of(pool@);
        let ghost target_lines = lines_of(targets@);
        let assembled = Environment::assemble(pool, targets, solver);
        let ghost words = choose|words: Seq<Seq<u8>>|
            Environment::assembled_as(assembled, lines, target_lines, solver, words);
        let env = match assembled {
            Ok(env) => env,
            Err(e) => {
                let r = Err(e);
                assert(Environment::built_as(r, lines, target_lines, solver, entropy, words));
                return r;
            },
        };
        let session = Wordle::new(&env);
        let guess = match session.next_guess(entropy) {
            Some(guess) => guess,
            None => 0,
        };
        let ghost model = env@;
        proof {
            lemma_load_starting_with(model, guess);
        }
        let Environment { words: pool_words, targets: ids, patterns, solver: id, starting_guess: _ } =
            env;
        let chosen = Environment {
            words: pool_words,
            targets: ids,
            patterns,
            solver: id,
            starting_guess: guess,
        };
        proof {
            assert(chosen@.words =~= model.words);
            assert(chosen@ == model.starting_with(guess));
        }
        let data = chosen.to_bytes();
        let r = Ok(data);
        assert(Environment::built_as(r, lines, target_lines, solver, entropy, words));
        r
    }

    /// Writes the environment as a dataset.
    pub fn to_bytes(&self) -> (data: Vec<u8>)
        requires
            self@.sized(),
        ensures
            data@ == self@.bytes(),
    {
        let mut data: Vec<u8> = Vec::new();
        data.push(self.solver);
        push_be16(&mut data, self.starting_guess);
        push_be16(&mut data, self.words.len() as u16);
        push_be16(&mut data, self.targets.len() as u16);
        assert(data@ =~= self@.header());
        let ghost model = self@;
        let mut i: usize = 0;
        while i < self.words.len()
            invariant
                0 <= i <= self.words@.len(),
                model == self@,
                data@ == model.header() + model.records().take(7 * i),
            decreases self.words@.len() - i,
        {
            let record = self.words[i].to_bytes();
            let ghost before = data@;
            let mut j: usize = 0;
            while j < 7
                invariant
                    0 <= j <= 7,
                    record@.len() == 7,
                    data@ == before + record@.take(j as int),
                decreases 7 - j,
            {
                data.push(record[j]);
                assert(record@.take(j + 1) =~= record@.take(j as int).push(record@[j as int]));
                j += 1;
            }
            assert(record@.take(7) =~= record@);
            assert(model.records().take(7 * (i + 1)) =~= model.records().take(7 * i) + record@);
            i += 1;
        }
        assert(model.records().take(7 * i) =~= model.records());
        let mut k: usize = 0;
        while k < self.targets.len()
            invariant
                0 <= k <= self.targets@.len(),
                model == self@,
                data@ == model.header() + model.records() + model.target_bytes().take(2 * k),
            decreases self.targets@.len() - k,
        {
            push_be16(&mut data, self.targets[k]);
            assert(model.target_bytes().take(2 * (k + 1)) =~= model.target_bytes().take(2 * k)
                + be16_bytes(self.targets@[k as int] as int));
            k += 1;
        }
        assert(model.target_bytes().take(2 * k) =~= model.target_bytes());
        let mut n: usize = 0;
        while n < self.patterns.len()
            invariant
                0 <= n <= self.patterns@.len(),
                model == self@,
                data@ == model.header() + model.records() + model.target_bytes()
                    + model.patterns.take(n as int),
            decreases self.patterns@.len() - n,
        {
            data.push(self.patterns[n]);
            assert(model.patterns.take(n + 1) =~= model.patterns.take(n as int).push(
                model.patterns[n as int],
            ));
            n += 1;
        }
        assert(model.patterns.take(self.patterns@.len() as int) =~= model.patterns);
        data
    }

    /// The identifiers of the targets, in rising order.
    pub fn targets(&self) -> (r: &[u16])
        ensures
            r@ == self@.targets,
    {
        self.targets.as_slice()
    }

    /// The word with the identifier `id`.
    pub fn get_word(&self, id: u16) -> (r: Option<Word>)
        ensures
            match r {
                Some(w) => id < self@.words.len() && w@ == self@.words[id as int].letters,
                None => id >= self@.words.len(),
            },
    {
        if (id as usize) < self.words.len() {
            Some(self.words[id as usize].get_word())
        } else {
            None
        }
    }

    /// The identifier of the strategy.
    pub fn solver(&self) -> (r: u8)
        ensures
            r == self@.solver,
    {
        self.solver
    }

    /// The pattern that the table holds for a guess against a target.
    pub fn get_pattern(&self, guess: u16, target: u16) -> (r: Option<u8>)
        requires
            self.wf(),
        ensures
            r == self@.lookup(guess as int, target as int),
    {
        if (target as usize) >= self.words.len() {
            return None;
        }
        match self.words[target as usize].get_target() {
            None => None,
            Some(rank) => {
                assert(self@.words[target as int].rank == Some(rank as int));
                proof {
                    self.words@[target as int].lemma_wf();
                    assert(guess * self.targets.len() <= 0xffff * 0xffff) by (nonlinear_arith)
                        requires
                            0 <= guess <= 0xffff,
                            0 <= self.targets.len() <= 0xffff,
                    ;
                }
                let index: u64 = (guess as u64) * (self.targets.len() as u64) + (rank as u64);
                if index < self.patterns.len() as u64 {
                    Some(self.patterns[index as usize])
                } else {
                    None
                }
            },
        }
    }
}

/// Whatever the strategy and the scorer, the guess that a session picks is a
/// word of the pool.
pub proof fn lemma_choice_is_a_word<F: Fn(&Wordle) -> u16>(session: &Wordle, guess: u16, entropy: F)
    requires
        session.wf(),
        session.chooses(Some(guess), entropy),
    ensures
        guess < session@.env.words.len(),
{
    if session@.targets.len() == 1 {
        assert(session@.env.targets.contains(session@.targets[0]));
    }
}

/// Under the strategy of group sizes the guess that a session picks is the
/// one target left or else the best word, as the games of `played` have it.
pub proof fn lemma_choice_is_picked<F: Fn(&Wordle) -> u16>(session: &Wordle, guess: u16, entropy: F)
    requires
        strategy_of(session@.env.solver) == Some(Strategy::Minimax),
        session.chooses(Some(guess), entropy),
    ensures
        picked(session@, guess),
{
}

/// What a session answers when it is told the feedback on a guess.
#[derive(Clone, Copy, Debug, PartialEq, Eq, Structural)]
pub enum Turn {
    /// The feedback is no pattern. The session is as it was.
    Retry,
    /// No target agrees with the feedback seen so far.
    Exhausted,
    /// One target is left: it is the answer.
    Solved(u16),
    /// Several targets are left, and this word is the next guess.
    Next(u16),
    /// Several targets are left, and the environment names no strategy.
    Stuck,
}

/// A session: the targets that the patterns seen so far leave possible.
pub struct Wordle<'a> {
    e: &'a Environment,
    targets: Vec<u16>,
    words: Vec<(u16, bool)>,
}

impl<'a> View for Wordle<'a> {
    type V = SessionModel;

    closed spec fn view(&self) -> SessionModel {
        SessionModel { env: self.e@, targets: self.targets@, words: self.words@ }
    }
}

/// The flags of all words for the rising list `targets`: each identifier
/// below `count`, with whether it is in the list.
fn flag_words(targets: &Vec<u16>, count: usize) -> (words: Vec<(u16, bool)>)
    requires
        count <= 0xffff,
        rising(targets@),
    ensures
        words@.len() == count,
        forall|i: int|
            0 <= i < count ==> #[trigger] words@[i] == (i as u16, targets@.contains(i as u16)),
{
    let mut words: Vec<(u16, bool)> = Vec::new();
    let mut i: usize = 0;
    let mut id: usize = 0;
    while id < count
        invariant
            0 <= id <= count <= 0xffff,
            0 <= i <= targets@.len(),
            rising(targets@),
            forall|k: int| 0 <= k < i ==> targets@[k] < id,
            forall|k: int| i <= k < targets@.len() ==> targets@[k] >= id,
            words@.len() == id,
            forall|k: int|
                0 <= k < id ==> #[trigger] words@[k] == (k as u16, targets@.contains(k as u16)),
        decreases count - id,
    {
        let is_target = i < targets.len() && targets[i] == id as u16;
        proof {
            if is_target {
                assert(targets@.contains(id as u16));
            } else {
                assert forall|k: int| 0 <= k < targets@.len() implies targets@[k] != id as u16 by {
                    if k > i {
                        assert(targets@[i as int] < targets@[k]);
                    }
                }
            }
        }
        words.push((id as u16, is_target));
        if is_target {
            i += 1;
        }
        id += 1;
    }
    words
}

impl<'a> Wordle<'a> {
    /// The invariant of a session.
    pub open spec fn wf(&self) -> bool {
        self@.wf()
    }

    /// Opens a session in which every target of the environment is possible.
    pub fn new(e: &'a Environment) -> (r: Wordle<'a>)
        requires
            e.wf(),
        ensures
            r.wf(),
            r@ == opening(e@),
    {
        let targets = e.targets.clone();
        assert(targets@ =~= e.targets@);
        let words = flag_words(&targets, e.words.len());
        let r = Wordle { e, targets, words };
        proof {
            assert forall|i: int| 0 <= i < r@.targets.len() implies r@.env.targets.contains(
                #[trigger] r@.targets[i],
            ) by {
                assert(r@.env.targets[i] == r@.targets[i]);
            }
            assert(r@.words =~= opening(e@).words);
        }
        r
    }

    /// Every word's identifier, with whether the word is still a possible target.
    pub fn words(&self) -> (r: &[(u16, bool)])
        ensures
            r@ == self@.words,
    {
        self.words.as_slice()
    }

    /// The identifiers of the targets that are still possible, in rising order.
    pub fn targets(&self) -> (r: &[u16])
        ensures
            r@ == self@.targets,
    {
        self.targets.as_slice()
    }

    /// The word with the identifier `id`.
    pub fn get_word(&self, id: u16) -> (r: Option<Word>)
        ensures
            match r {
                Some(w) => id < self@.env.words.len() && w@ == self@.env.words[id as int].letters,
                None => id >= self@.env.words.len(),
            },
    {
        self.e.get_word(id)
    }

    /// The first guess that the environment keeps.
    pub fn starting_guess(&self) -> (r: u16)
        ensures
            r == self@.env.starting_guess,
    {
        self.e.starting_guess
    }

    /// The pattern that the table holds for a guess against a target.
    pub fn get_pattern(&self, guess: u16, target: u16) -> (r: Option<u8>)
        requires
            self.wf(),
        ensures
            r == self@.env.lookup(guess as int, target as int),
    {
        self.e.get_pattern(guess, target)
    }

    /// Keeps the targets for which the table holds `pattern` against `guess`
    /// and drops the others.
    pub fn cull(&mut self, guess: u16, pattern: u8)
        requires
            old(self).wf(),
        ensures
            final(self).wf(),
            final(self)@.env == old(self)@.env,
            final(self)@.targets == narrowed(old(self)@.env, old(self)@.targets, guess, pattern),
            final(self)@ == narrowed_session(old(self)@, guess, pattern),
            final(self)@.targets.len() <= old(self)@.targets.len(),
    {
        let ghost env = self@.env;
        let ghost before = self@.targets;
        let ghost keep = agrees(env, guess, pattern);
        let mut kept: Vec<u16> = Vec::new();
        let mut k: usize = 0;
        while k < self.targets.len()
            invariant
                0 <= k <= before.len(),
                self.wf(),
                self@.env == env,
                self@.targets == before,
                keep == agrees(env, guess, pattern),
                kept@ == before.take(k as int).filter(keep),
                rising(kept@),
                forall|i: int|
                    0 <= i < kept@.len() ==> exists|j: int|
                        0 <= j < k && before[j] == #[trigger] kept@[i],
            decreases before.len() - k,
        {
            let target = self.targets[k];
            let seen = self.e.get_pattern(guess, target);
            let agree = match seen {
                Some(p) => p == pattern,
                None => false,
            };
            proof {
                reveal(Seq::filter);
                assert(before.take(k + 1).drop_last() =~= before.take(k as int));
                assert(agree == keep(target));
                if agree {
                    assert forall|i: int| 0 <= i < kept@.len() implies kept@[i] < target by {
                        let j = choose|j: int| 0 <= j < k && before[j] == kept@[i];
                        assert(before[j] < before[k as int]);
                    }
                }
            }
            if agree {
                kept.push(target);
                assert(before[k as int] == kept@[kept@.len() - 1]);
            }
            k += 1;
        }
        proof {
            assert(before.take(k as int) =~= before);
            before.lemma_filter_len(keep);
            assert forall|i: int| 0 <= i < kept@.len() implies env.targets.contains(
                #[trigger] kept@[i],
            ) by {
                let j = choose|j: int| 0 <= j < k && before[j] == kept@[i];
                assert(env.targets.contains(before[j]));
            }
        }
        let words = flag_words(&kept, self.e.words.len());
        self.targets = kept;
        self.words = words;
        assert(self@.words =~= narrowed_session(old(self)@, guess, pattern).words);
    }

    /// Picks the next guess by the strategy of the environment; `None` if
    /// its identifier names no strategy. Where one target is left, that is
    /// the guess. Otherwise the sizes of the groups decide, or, for the
    /// strategy of expected information, the scorer `entropy` that the caller
    /// brings. An answer of the scorer that is no word of the pool is set
    /// aside, and the sizes of the groups decide in its place: the guess is
    /// always a word of the pool.
    pub fn next_guess<F: Fn(&Wordle) -> u16>(&self, entropy: F) -> (r: Option<u16>)
        requires
            self.wf(),
            strategy_of(self@.env.solver) == Some(Strategy::Entropy) && self@.targets.len() != 1
                ==> call_requires(entropy, (self,)),
        ensures
            self.chooses(r, entropy),
            r matches Some(guess) ==> guess < self@.words.len(),
    {
        match solver(self.e.solver) {
            None => None,
            Some(strategy) => {
                if let Some(id) = self.only_remaining() {
                    assert(self@.env.targets.contains(self@.targets[0]));
                    return Some(id);
                }
                match strategy {
                    Strategy::Minimax => Some(basic(self)),
                    Strategy::Entropy => {
                        let answer = entropy(self);
                        if (answer as usize) < self.words.len() {
                            Some(answer)
                        } else {
                            Some(basic(self))
                        }
                    },
                }
            },
        }
    }

    /// What `next_guess` returns in this session with the scorer `entropy`.
    pub open spec fn chooses<F: Fn(&Wordle) -> u16>(&self, r: Option<u16>, entropy: F) -> bool {
        match strategy_of(self@.env.solver) {
            None => r is None,
            Some(strategy) => match r {
                None => false,
                Some(guess) => if self@.targets.len() == 1 {
                    guess == self@.targets[0]
                } else {
                    match strategy {
                        Strategy::Minimax => is_best(self@, guess),
                        Strategy::Entropy => exists|answer: u16| #[trigger]
                            call_ensures(entropy, (self,), answer) && if answer
                                < self@.words.len() {
                                guess == answer
                            } else {
                                is_best(self@, guess)
                            },
                    }
                },
            },
        }
    }

    /// Takes the feedback on a guess as text, narrows the targets by it and
    /// says how the game goes on.
    pub fn respond<F: Fn(&Wordle) -> u16>(&mut self, guess: u16, feedback: &str, entropy: F) -> (turn:
        Turn)
        requires
            old(self).wf(),
            forall|session: &Wordle| session.wf() ==> call_requires(entropy, (session,)),
        ensures
            final(self).wf(),
            final(self)@.env == old(self)@.env,
            match pattern_of_text(feedback@) {
                None => turn == Turn::Retry && final(self)@ == old(self)@,
                Some(pattern) => {
                    let left = narrowed(old(self)@.env, old(self)@.targets, guess, pattern);
                    &&& final(self)@.targets == left
                    &&& match turn {
                        Turn::Retry => false,
                        Turn::Exhausted => left.len() == 0,
                        Turn::Solved(id) => left.len() == 1 && id == left[0],
                        Turn::Next(id) => left.len() > 1 && final(self).chooses(Some(id), entropy),
                        Turn::Stuck => left.len() > 1 && final(self).chooses(None, entropy),
                    }
                },
            },
    {
        let pattern = match get_pattern(feedback) {
            Some(pattern) => pattern,
            None => {
                return Turn::Retry;
            },
        };
        self.cull(guess, pattern);
        if self.targets.len() == 0 {
            Turn::Exhausted
        } else if self.targets.len() == 1 {
            Turn::Solved(self.targets[0])
        } else {
            match self.next_guess(entropy) {
                Some(id) => Turn::Next(id),
                None => Turn::Stuck,
            }
        }
    }

    /// Plays one turn against a known answer: narrows the targets by the
    /// pattern that the table holds for `guess` against `answer`, and picks
    /// the next guess. `None`, with the session as it was, if the table holds
    /// no such pattern; `None` also if the environment names no strategy.
    pub fn advance<F: Fn(&Wordle) -> u16>(&mut self, guess: u16, answer: u16, entropy: F) -> (r:
        Option<u16>)
        requires
            old(self).wf(),
            forall|session: &Wordle| session.wf() ==> call_requires(entropy, (session,)),
        ensures
            final(self).wf(),
            final(self)@.env == old(self)@.env,
            match old(self)@.env.lookup(guess as int, answer as int) {
                None => r is None && final(self)@ == old(self)@,
                Some(pattern) => {
                    &&& final(self)@.targets == narrowed(
                        old(self)@.env,
                        old(self)@.targets,
                        guess,
                        pattern,
                    )
                    &&& final(self).chooses(r, entropy)
                },
            },
    {
        let pattern = match self.get_pattern(guess, answer) {
            Some(pattern) => pattern,
            None => {
                return None;
            },
        };
        self.cull(guess, pattern);
        self.next_guess(entropy)
    }

    /// The one target that is still possible, if there is exactly one.
    pub fn only_remaining(&self) -> (r: Option<u16>)
        ensures
            r == (if self@.targets.len() == 1 {
                Some(self@.targets[0])
            } else {
                None::<u16>
            }),
    {
        if self.targets.len() == 1 {
            return Some(self.targets[0]);
        }
        None
    }

    /// How many targets are still possible.
    pub fn options(&self) -> (r: u16)
        requires
            self.wf(),
        ensures
            r == self@.targets.len(),
    {
        proof {
            lemma_session_len(self@);
        }
        self.targets.len() as u16
    }
}

} // verus!
