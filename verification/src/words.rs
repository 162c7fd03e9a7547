//! Words of five letters and the pattern that a guess earns against a target.

use vstd::prelude::*;

verus! {

/// Whether `b` is the byte of an upper-case ASCII letter.
pub open spec fn is_upper(b: u8) -> bool {
    0x41 <= b <= 0x5a
}

/// Whether `c` is an ASCII letter of either case.
pub open spec fn is_letter(c: char) -> bool {
    ('A' <= c && c <= 'Z') || ('a' <= c && c <= 'z')
}

/// The upper-case byte of the ASCII letter `c`.
pub open spec fn upper_of(c: char) -> u8 {
    if 'a' <= c && c <= 'z' {
        (c as u32 - 0x20) as u8
    } else {
        c as u8
    }
}

/// The letters that the text `s` spells, in upper case, if it is a word:
/// five characters, each an ASCII letter.
pub open spec fn word_of(s: Seq<char>) -> Option<Seq<u8>> {
    if s.len() == 5 && forall|i: int| 0 <= i < 5 ==> is_letter(#[trigger] s[i]) {
        Some(Seq::new(5, |i: int| upper_of(s[i])))
    } else {
        None
    }
}

/// Whether `letters` are five upper-case ASCII letters.
pub open spec fn is_word(letters: Seq<u8>) -> bool {
    &&& letters.len() == 5
    &&& forall|i: int| 0 <= i < 5 ==> is_upper(#[trigger] letters[i])
}

/// The key of a word: its five letters read as one number, the first letter
/// weighing most. Words rise as their keys do, which is the order of their
/// letters from first to last.
pub open spec fn word_key(letters: Seq<u8>) -> int {
    letters[0] as int * 0x1_0000_0000 + letters[1] as int * 0x100_0000 + letters[2] as int
        * 0x1_0000 + letters[3] as int * 0x100 + letters[4] as int
}

/// The five letters that a key spells.
pub open spec fn key_letters(key: int) -> Seq<u8> {
    seq![
        (key / 0x1_0000_0000 % 0x100) as u8,
        (key / 0x100_0000 % 0x100) as u8,
        (key / 0x1_0000 % 0x100) as u8,
        (key / 0x100 % 0x100) as u8,
        (key % 0x100) as u8,
    ]
}

/// A word is read back from its key, and words with one key are one word.
pub proof fn lemma_key_letters(letters: Seq<u8>)
    requires
        letters.len() == 5,
    ensures
        0 <= word_key(letters) < 0x100_0000_0000,
        key_letters(word_key(letters)) == letters,
{
    let key = word_key(letters);
    let (a, b, c, d, e) = (
        letters[0] as int,
        letters[1] as int,
        letters[2] as int,
        letters[3] as int,
        letters[4] as int,
    );
    vstd::arithmetic::div_mod::lemma_fundamental_div_mod_converse(
        key,
        0x1_0000_0000,
        a,
        b * 0x100_0000 + c * 0x1_0000 + d * 0x100 + e,
    );
    vstd::arithmetic::div_mod::lemma_fundamental_div_mod_converse(
        key,
        0x100_0000,
        a * 0x100 + b,
        c * 0x1_0000 + d * 0x100 + e,
    );
    vstd::arithmetic::div_mod::lemma_fundamental_div_mod_converse(
        key,
        0x1_0000,
        a * 0x1_0000 + b * 0x100 + c,
        d * 0x100 + e,
    );
    vstd::arithmetic::div_mod::lemma_fundamental_div_mod_converse(
        key,
        0x100,
        a * 0x100_0000 + b * 0x1_0000 + c * 0x100 + d,
        e,
    );
    vstd::arithmetic::div_mod::lemma_fundamental_div_mod_converse(a, 0x100, 0, a);
    vstd::arithmetic::div_mod::lemma_fundamental_div_mod_converse(a * 0x100 + b, 0x100, a, b);
    vstd::arithmetic::div_mod::lemma_fundamental_div_mod_converse(
        a * 0x1_0000 + b * 0x100 + c,
        0x100,
        a * 0x100 + b,
        c,
    );
    vstd::arithmetic::div_mod::lemma_fundamental_div_mod_converse(
        a * 0x100_0000 + b * 0x1_0000 + c * 0x100 + d,
        0x100,
        a * 0x1_0000 + b * 0x100 + c,
        d,
    );
    assert(key_letters(key) =~= letters);
}

/// Whether the word `a` comes before the word `b` by its letters: at the
/// first place where they differ, `a` has the lesser letter.
pub open spec fn letters_before(a: Seq<u8>, b: Seq<u8>) -> bool {
    exists|i: int|
        0 <= i < 5 && a[i] < b[i] && forall|j: int| 0 <= j < i ==> #[trigger] a[j] == b[j]
}

/// The order of the keys is the order of the letters.
pub proof fn lemma_key_order(a: Seq<u8>, b: Seq<u8>)
    requires
        a.len() == 5,
        b.len() == 5,
    ensures
        word_key(a) < word_key(b) <==> letters_before(a, b),
{
    if letters_before(a, b) {
        let i = choose|i: int|
            0 <= i < 5 && a[i] < b[i] && forall|j: int| 0 <= j < i ==> #[trigger] a[j] == b[j];
        assert(forall|j: int| 0 <= j < i ==> a[j] == b[j]);
        assert(word_key(a) < word_key(b));
    }
    if word_key(a) < word_key(b) {
        let i: int = if a[0] != b[0] {
            0
        } else if a[1] != b[1] {
            1
        } else if a[2] != b[2] {
            2
        } else if a[3] != b[3] {
            3
        } else {
            4
        };
        assert(a[i] < b[i]);
        assert(forall|j: int| 0 <= j < i ==> #[trigger] a[j] == b[j]);
    }
}

/// Whether the words rise strictly: each has a lesser key than those after it.
pub open spec fn words_rise(words: Seq<Seq<u8>>) -> bool {
    forall|i: int, j: int| 0 <= i < j < words.len() ==> word_key(words[i]) < word_key(words[j])
}

/// The text of a sequence of ASCII bytes.
pub open spec fn text_of(bytes: Seq<u8>) -> Seq<char> {
    Seq::new(bytes.len(), |i: int| bytes[i] as char)
}

/// `String::push` of the standard library appends one character to a string.
/// The contract claims that the text after the call is the text before it
/// with `c` at its end.
pub assume_specification[ String::push ](s: &mut String, c: char)
    ensures
        final(s)@ == old(s)@.push(c),
;

/// A word of five upper-case letters.
#[derive(Clone, Copy, Debug, PartialEq, Eq)]
pub struct Word {
    letters: [u8; 5],
}

impl View for Word {
    type V = Seq<u8>;

    closed spec fn view(&self) -> Seq<u8> {
        self.letters@
    }
}

impl Word {
    /// The word is well formed: its letters are upper-case ASCII letters.
    pub open spec fn wf(&self) -> bool {
        is_word(self@)
    }

    /// A word has five letters.
    pub proof fn lemma_len(&self)
        ensures
            self@.len() == 5,
    {
    }

    /// Reads a word from text of either case.
    pub fn new(string: &str) -> (r: Option<Word>)
        ensures
            match r {
                Some(w) => w.wf() && word_of(string@) == Some(w@),
                None => word_of(string@) is None,
            },
    {
        if string.unicode_len() != 5 {
            return None;
        }
        let mut letters = [0u8;5];
        let mut i: usize = 0;
        while i < 5
            invariant
                0 <= i <= 5,
                string@.len() == 5,
                forall|k: int| 0 <= k < i ==> is_letter(#[trigger] string@[k]),
                forall|k: int| 0 <= k < i ==> letters@[k] == upper_of(string@[k]),
                forall|k: int| 0 <= k < i ==> is_upper(#[trigger] letters@[k]),
            decreases 5 - i,
        {
            match Word::letter(string.get_char(i)) {
                Some(b) => {
                    letters[i] = b;
                },
                None => {
                    return None;
                },
            }
            i += 1;
        }
        let w = Word { letters };
        assert(w@ =~= Seq::new(5, |i: int| upper_of(string@[i])));
        Some(w)
    }

    /// The key of the word.
    pub fn key(&self) -> (key: u64)
        ensures
            key == word_key(self@),
    {
        (self.letters[0] as u64) * 0x1_0000_0000 + (self.letters[1] as u64) * 0x100_0000 + (
        self.letters[2] as u64) * 0x1_0000 + (self.letters[3] as u64) * 0x100 + (
        self.letters[4] as u64)
    }

    /// The word that a key spells.
    pub fn from_key(key: u64) -> (word: Word)
        ensures
            word@ == key_letters(key as int),
    {
        let letters = [
            (key / 0x1_0000_0000 % 0x100) as u8,
            (key / 0x100_0000 % 0x100) as u8,
            (key / 0x1_0000 % 0x100) as u8,
            (key / 0x100 % 0x100) as u8,
            (key % 0x100) as u8,
        ];
        let word = Word { letters };
        assert(word@ =~= key_letters(key as int));
        word
    }

    /// The word as upper-case text.
    pub fn text(&self) -> (s: String)
        ensures
            s@ == text_of(self@),
    {
        let mut s = String::new();
        let mut i: usize = 0;
        while i < 5
            invariant
                0 <= i <= 5,
                s@ == text_of(self@.take(i as int)),
            decreases 5 - i,
        {
            s.push(self.letters[i] as char);
            assert(text_of(self@.take(i + 1)) =~= text_of(self@.take(i as int)).push(
                self@[i as int] as char,
            ));
            i += 1;
        }
        assert(self@.take(5) =~= self@);
        s
    }

    /// Whether two words have the same letters.
    pub fn same(&self, other: &Word) -> (r: bool)
        ensures
            r == (self@ == other@),
    {
        let mut i: usize = 0;
        while i < 5
            invariant
                0 <= i <= 5,
                forall|k: int| 0 <= k < i ==> self@[k] == other@[k],
            decreases 5 - i,
        {
            if self.letters[i] != other.letters[i] {
                return false;
            }
            i += 1;
        }
        assert(self@ =~= other@);
        true
    }

    /// The canonical byte of one character, if it is a letter.
    pub fn letter(c: char) -> (r: Option<u8>)
        ensures
            r == (if is_letter(c) { Some(upper_of(c)) } else { None::<u8> }),
            r matches Some(b) ==> is_upper(b),
    {
        if 'a' <= c && c <= 'z' {
            Some(((c as u32) - 0x20) as u8)
        } else if 'A' <= c && c <= 'Z' {
            Some(c as u8)
        } else {
            None
        }
    }
}

/// Whether `b` is the byte of an ASCII letter of either case.
pub open spec fn is_letter_byte(b: u8) -> bool {
    (0x41 <= b <= 0x5a) || (0x61 <= b <= 0x7a)
}

/// The upper-case byte of the ASCII letter byte `b`.
pub open spec fn upper_of_byte(b: u8) -> u8 {
    if 0x61 <= b <= 0x7a {
        (b - 0x20) as u8
    } else {
        b
    }
}

/// The letters that five bytes spell, in upper case, if each is an ASCII letter.
pub open spec fn word_of_bytes(bytes: Seq<u8>) -> Option<Seq<u8>> {
    if bytes.len() == 5 && forall|i: int| 0 <= i < 5 ==> is_letter_byte(#[trigger] bytes[i]) {
        Some(Seq::new(5, |i: int| upper_of_byte(bytes[i])))
    } else {
        None
    }
}

/// The rank code that marks a word as no target.
pub const NO_RANK: u16 = 0xffff;

/// The rank that a 16-bit code stands for.
pub open spec fn rank_of_code(code: int) -> Option<int> {
    if code == 0xffff {
        None
    } else {
        Some(code)
    }
}

/// The 16-bit code of a rank.
pub open spec fn code_of_rank(rank: Option<int>) -> int {
    match rank {
        None => 0xffff,
        Some(k) => k,
    }
}

/// What a `WordInfo` holds: the letters of its word and, where the word is a
/// target, its rank among the targets.
pub struct WordModel {
    pub letters: Seq<u8>,
    pub rank: Option<int>,
}

impl WordModel {
    /// Five upper-case letters, and a rank that a 16-bit code can hold.
    pub open spec fn wf(self) -> bool {
        &&& is_word(self.letters)
        &&& self.rank matches Some(k) ==> 0 <= k < 0xffff
    }

    /// The seven bytes of the word's record: its letters, then the code of
    /// its rank with the high byte first.
    pub open spec fn record(self) -> Seq<u8> {
        self.letters + seq![
            (code_of_rank(self.rank) / 256) as u8,
            (code_of_rank(self.rank) % 256) as u8,
        ]
    }
}

/// The word that a record of seven bytes holds, if its first five bytes are letters.
pub open spec fn word_of_record(bytes: Seq<u8>) -> Option<WordModel> {
    match word_of_bytes(bytes.take(5)) {
        Some(letters) => Some(
            WordModel { letters, rank: rank_of_code(bytes[5] as int * 256 + bytes[6] as int) },
        ),
        None => None,
    }
}

/// Reading the record of a well-formed word gives the word back.
pub proof fn lemma_record_round_trip(word: WordModel)
    requires
        word.wf(),
    ensures
        word.record().len() == 7,
        word_of_record(word.record()) == Some(word),
{
    let bytes = word.record();
    assert(bytes.take(5) =~= word.letters);
    assert(Seq::new(5, |i: int| upper_of_byte(word.letters[i])) =~= word.letters);
}

/// A word together with its rank among the targets, if it is one.
#[derive(Clone, Copy, Debug)]
pub struct WordInfo {
    word: Word,
    target: u16,
}

impl View for WordInfo {
    type V = WordModel;

    closed spec fn view(&self) -> WordModel {
        WordModel { letters: self.word@, rank: rank_of_code(self.target as int) }
    }
}

impl WordInfo {
    /// The word is well formed.
    pub open spec fn wf(&self) -> bool {
        self@.wf()
    }

    /// The rank of any `WordInfo` is one that a 16-bit code can hold; only
    /// its letters can be ill formed.
    pub proof fn lemma_wf(&self)
        ensures
            self@.letters.len() == 5,
            self@.rank matches Some(k) ==> 0 <= k < 0xffff,
            self.wf() <==> is_word(self@.letters),
    {
    }

    /// Joins a word and its rank. A rank is kept modulo 65536, and 65535
    /// stands for no rank.
    pub fn new(word: Word, target: Option<usize>) -> (r: WordInfo)
        ensures
            r@.letters == word@,
            r@.rank == match target {
                None => None,
                Some(index) => rank_of_code(index as int % 0x10000),
            },
            word.wf() ==> r.wf(),
    {
        WordInfo {
            word,
            target: match target {
                None => NO_RANK,
                Some(index) => (index % 0x10000) as u16,
            },
        }
    }

    /// Reads a record of seven bytes: five letters of either case, then the
    /// code of the rank with the high byte first.
    pub fn from_bytes(bytes: &[u8]) -> (r: Option<WordInfo>)
        requires
            bytes@.len() >= 7,
        ensures
            match r {
                Some(info) => info.wf() && word_of_record(bytes@) == Some(info@),
                None => word_of_record(bytes@) is None,
            },
    {
        let mut letters = [0u8;5];
        let mut i: usize = 0;
        while i < 5
            invariant
                0 <= i <= 5,
                bytes@.len() >= 7,
                forall|k: int| 0 <= k < i ==> is_letter_byte(#[trigger] bytes@[k]),
                forall|k: int| 0 <= k < i ==> letters@[k] == upper_of_byte(bytes@[k]),
                forall|k: int| 0 <= k < i ==> is_upper(#[trigger] letters@[k]),
            decreases 5 - i,
        {
            let b = bytes[i];
            if 0x61 <= b && b <= 0x7a {
                letters[i] = b - 0x20;
            } else if 0x41 <= b && b <= 0x5a {
                letters[i] = b;
            } else {
                assert(bytes@.take(5)[i as int] == b);
                return None;
            }
            i += 1;
        }
        let word = Word { letters };
        let target: u16 = (bytes[5] as u16) * 256 + (bytes[6] as u16);
        proof {
            assert forall|k: int| 0 <= k < 5 implies is_letter_byte(
                #[trigger] bytes@.take(5)[k],
            ) by {
                assert(bytes@.take(5)[k] == bytes@[k]);
            }
            assert(word@ =~= Seq::new(5, |i: int| upper_of_byte(bytes@.take(5)[i])));
        }
        Some(WordInfo { word, target })
    }

    /// Writes the record of seven bytes.
    pub fn to_bytes(&self) -> (r: [u8; 7])
        ensures
            r@ == self@.record(),
    {
        let l = &self.word.letters;
        let r = [l[0], l[1], l[2], l[3], l[4], (self.target / 256) as u8, (self.target % 256) as u8];
        assert(r@ =~= self@.record());
        r
    }

    /// The word.
    pub fn get_word(&self) -> (w: Word)
        ensures
            w@ == self@.letters,
            self.wf() ==> w.wf(),
    {
        self.word
    }

    /// The rank among the targets, if the word is one.
    pub fn get_target(&self) -> (r: Option<usize>)
        ensures
            match r {
                Some(k) => self@.rank == Some(k as int),
                None => self@.rank is None,
            },
    {
        if self.target == NO_RANK {
            None
        } else {
            Some(self.target as usize)
        }
    }

    /// Whether the word is a target.
    pub fn is_target(&self) -> (r: bool)
        ensures
            r == (self@.rank is Some),
    {
        self.get_target().is_some()
    }
}

/// Three to the power `n`.
pub open spec fn pow3(n: int) -> int
    decreases n,
{
    if n <= 0 {
        1
    } else {
        3 * pow3(n - 1)
    }
}

/// How many positions before `n` hold `c` in the target without being matched
/// in place by the guess. These are the letters a misplaced `c` can point at.
pub open spec fn spare(guess: Seq<u8>, target: Seq<u8>, c: u8, n: int) -> int
    decreases n,
{
    if n <= 0 {
        0
    } else {
        spare(guess, target, c, n - 1) + if guess[n - 1] != target[n - 1] && target[n - 1] == c {
            1int
        } else {
            0int
        }
    }
}

/// How many positions before `n` hold `c` in the guess without matching the
/// target in place.
pub open spec fn asked(guess: Seq<u8>, target: Seq<u8>, c: u8, n: int) -> int
    decreases n,
{
    if n <= 0 {
        0
    } else {
        asked(guess, target, c, n - 1) + if guess[n - 1] != target[n - 1] && guess[n - 1] == c {
            1int
        } else {
            0int
        }
    }
}

/// The mark at position `i`: 2 where the letter is in place, 1 where it is
/// in the target elsewhere and not yet claimed by an earlier position of the
/// guess, 0 otherwise.
pub open spec fn mark(guess: Seq<u8>, target: Seq<u8>, i: int) -> int {
    if guess[i] == target[i] {
        2
    } else if asked(guess, target, guess[i], i) < spare(guess, target, guess[i], 5) {
        1
    } else {
        0
    }
}

/// The marks of the first `n` positions, position `i` weighted by `3^i`.
pub open spec fn pattern_upto(guess: Seq<u8>, target: Seq<u8>, n: int) -> int
    decreases n,
{
    if n <= 0 {
        0
    } else {
        pattern_upto(guess, target, n - 1) + mark(guess, target, n - 1) * pow3(n - 1)
    }
}

/// The pattern of `guess` against `target` as a number below 243.
pub open spec fn pattern(guess: Seq<u8>, target: Seq<u8>) -> int {
    pattern_upto(guess, target, 5)
}

/// How many positions before `n` are taken in `used` and hold `c` in the target.
spec fn taken(used: Seq<bool>, target: Seq<u8>, c: u8, n: int) -> int
    decreases n,
{
    if n <= 0 {
        0
    } else {
        taken(used, target, c, n - 1) + if used[n - 1] && target[n - 1] == c {
            1int
        } else {
            0int
        }
    }
}

/// Position `j` of the target can still be claimed for the letter `c`.
spec fn free_slot(guess: Seq<u8>, target: Seq<u8>, used: Seq<bool>, c: u8, j: int) -> bool {
    guess[j] != target[j] && target[j] == c && !used[j]
}

/// Only positions that are not matched in place are ever taken.
spec fn taken_within(guess: Seq<u8>, target: Seq<u8>, used: Seq<bool>) -> bool {
    forall|j: int| 0 <= j < 5 && #[trigger] used[j] ==> guess[j] != target[j]
}

proof fn lemma_taken_bound(guess: Seq<u8>, target: Seq<u8>, used: Seq<bool>, c: u8, n: int)
    requires
        0 <= n <= 5,
        used.len() == 5,
        taken_within(guess, target, used),
    ensures
        taken(used, target, c, n) <= spare(guess, target, c, n),
        taken(used, target, c, n) < spare(guess, target, c, n) <==> exists|j: int|
            0 <= j < n && free_slot(guess, target, used, c, j),
    decreases n,
{
    if n > 0 {
        lemma_taken_bound(guess, target, used, c, n - 1);
        if taken(used, target, c, n - 1) < spare(guess, target, c, n - 1) {
            let j = choose|j: int| 0 <= j < n - 1 && free_slot(guess, target, used, c, j);
            assert(0 <= j < n && free_slot(guess, target, used, c, j));
        }
        if free_slot(guess, target, used, c, n - 1) {
            assert(0 <= n - 1 < n && free_slot(guess, target, used, c, n - 1));
        }
    }
}

proof fn lemma_taken_update(used: Seq<bool>, target: Seq<u8>, c: u8, j: int, n: int)
    requires
        0 <= n <= 5,
        0 <= j < 5,
        used.len() == 5,
        target.len() == 5,
        !used[j],
    ensures
        taken(used.update(j, true), target, c, n) == taken(used, target, c, n) + if j < n
            && target[j] == c {
            1int
        } else {
            0int
        },
    decreases n,
{
    if n > 0 {
        lemma_taken_update(used, target, c, j, n - 1);
    }
}

proof fn lemma_taken_none(target: Seq<u8>, c: u8, n: int)
    requires
        0 <= n <= 5,
    ensures
        taken(Seq::new(5, |i: int| false), target, c, n) == 0,
    decreases n,
{
    if n > 0 {
        lemma_taken_none(target, c, n - 1);
    }
}

/// The claims made by the first `i` positions of the guess: for every
/// letter, as many slots are taken as were asked for, up to those there are.
spec fn claims_settled(guess: Seq<u8>, target: Seq<u8>, used: Seq<bool>, i: int) -> bool {
    &&& used.len() == 5
    &&& taken_within(guess, target, used)
    &&& forall|c: u8| #[trigger]
        taken(used, target, c, 5) == if asked(guess, target, c, i) < spare(guess, target, c, 5) {
            asked(guess, target, c, i)
        } else {
            spare(guess, target, c, 5)
        }
}

/// The pattern that `guess` earns against `target`.
///
/// A letter in its place is marked 2. Each other letter of the guess, taken
/// from left to right, claims the first position of the target that holds the
/// same letter, is not matched in place and has not been claimed before; it
/// is marked 1 if there is such a position and 0 if there is none.
pub fn calculate_pattern(guess: Word, target: Word) -> (value: u8)
    ensures
        value == pattern(guess@, target@),
        value < 243,
        guess@ == target@ ==> value == 242,
{
    let mut value: u8 = 0;
    let mut multiplier: u8 = 1;
    let mut used = [false;5];
    let ghost g = guess@;
    let ghost t = target@;
    proof {
        assert(used@ =~= Seq::new(5, |i: int| false));
        assert forall|c: u8| #[trigger] taken(used@, t, c, 5) == 0 by {
            lemma_taken_none(t, c, 5);
        }
        assert forall|c: u8| spare(g, t, c, 5) >= 0 by {
            lemma_taken_bound(g, t, used@, c, 5);
        }
    }
    let mut i: usize = 0;
    while i < 5
        invariant
            0 <= i <= 5,
            g == guess@,
            t == target@,
            g.len() == 5,
            t.len() == 5,
            multiplier == pow3(i as int),
            value == pattern_upto(g, t, i as int),
            value < pow3(i as int),
            claims_settled(g, t, used@, i as int),
        decreases 5 - i,
    {
        reveal_with_fuel(pow3, 6);
        if guess.letters[i] == target.letters[i] {
            value += multiplier * 2;
        } else {
            let c = guess.letters[i];
            let ghost before = used@;
            let mut found = false;
            let mut j: usize = 0;
            while j < 5
                invariant_except_break
                    !found,
                    used@ == before,
                    forall|k: int| 0 <= k < j ==> !free_slot(g, t, before, c, k),
                invariant
                    0 <= j <= 5,
                    0 <= i < 5,
                    g == guess@,
                    t == target@,
                    g.len() == 5,
                    t.len() == 5,
                    before.len() == 5,
                    c == g[i as int],
                ensures
                    found ==> 0 <= j < 5 && free_slot(g, t, before, c, j as int) && used@
                        == before.update(j as int, true),
                    !found ==> used@ == before && forall|k: int|
                        0 <= k < 5 ==> !free_slot(g, t, before, c, k),
                decreases 5 - j,
            {
                if i != j && guess.letters[j] != target.letters[j] && guess.letters[i]
                    == target.letters[j] && !used[j] {
                    used[j] = true;
                    found = true;
                    break ;
                }
                j += 1;
            }
            proof {
                lemma_taken_bound(g, t, before, c, 5);
                if found {
                    assert forall|d: u8| #[trigger]
                        taken(used@, t, d, 5) == taken(before, t, d, 5) + if d == c {
                            1int
                        } else {
                            0int
                        } by {
                        lemma_taken_update(before, t, d, j as int, 5);
                    }
                }
            }
            assert(found <==> mark(g, t, i as int) == 1);
            if found {
                value += multiplier;
            }
        }
        assert(value == pattern_upto(g, t, i as int) + mark(g, t, i as int) * multiplier);
        assert(value == pattern_upto(g, t, i + 1));
        multiplier *= 3;
        i += 1;
    }
    proof {
        reveal_with_fuel(pow3, 6);
        if g == t {
            lemma_pattern_of_equal_words(g);
        }
    }
    value
}

/// The mark that a symbol of the feedback text stands for: `B` for 0, `Y`
/// for 1, `G` for 2, in either case.
pub open spec fn symbol_mark(c: char) -> Option<int> {
    if c == 'B' || c == 'b' {
        Some(0int)
    } else if c == 'Y' || c == 'y' {
        Some(1int)
    } else if c == 'G' || c == 'g' {
        Some(2int)
    } else {
        None
    }
}

/// The upper-case symbol of a mark.
pub open spec fn mark_symbol(m: int) -> char {
    if m == 0 {
        'B'
    } else if m == 1 {
        'Y'
    } else {
        'G'
    }
}

/// The marks that the first `n` symbols of `s` stand for, position `i`
/// weighted by `3^i`.
pub open spec fn marks_upto(s: Seq<char>, n: int) -> int
    decreases n,
{
    if n <= 0 {
        0
    } else {
        marks_upto(s, n - 1) + symbol_mark(s[n - 1]).unwrap() * pow3(n - 1)
    }
}

/// The pattern that the feedback text `s` spells, if it is five symbols.
pub open spec fn pattern_of_text(s: Seq<char>) -> Option<u8> {
    if s.len() == 5 && forall|i: int| 0 <= i < 5 ==> symbol_mark(#[trigger] s[i]) is Some {
        Some(marks_upto(s, 5) as u8)
    } else {
        None
    }
}

/// The mark at position `i` of the pattern `p`.
pub open spec fn mark_at(p: int, i: int) -> int {
    (p / pow3(i)) % 3
}

/// The feedback text of the pattern `p`.
pub open spec fn text_of_pattern(p: u8) -> Seq<char> {
    Seq::new(5, |i: int| mark_symbol(mark_at(p as int, i)))
}

/// Dividing by a power of three is dividing by three that many times.
proof fn lemma_thirds(p: int)
    requires
        0 <= p,
    ensures
        p / pow3(0) == p,
        p / pow3(1) == p / 3,
        p / pow3(2) == p / 3 / 3,
        p / pow3(3) == p / 3 / 3 / 3,
        p / pow3(4) == p / 3 / 3 / 3 / 3,
        p / pow3(5) == p / 3 / 3 / 3 / 3 / 3,
{
    reveal_with_fuel(pow3, 6);
    vstd::arithmetic::div_mod::lemma_div_denominator(p, 3, 3);
    vstd::arithmetic::div_mod::lemma_div_denominator(p, 9, 3);
    vstd::arithmetic::div_mod::lemma_div_denominator(p, 27, 3);
    vstd::arithmetic::div_mod::lemma_div_denominator(p, 81, 3);
}

/// Reads a pattern from feedback text: five symbols out of `B`, `Y` and `G`
/// in either case.
pub fn get_pattern(input: &str) -> (r: Option<u8>)
    ensures
        r == pattern_of_text(input@),
        r matches Some(p) ==> p < 243,
{
    if input.unicode_len() != 5 {
        return None;
    }
    let mut value: u8 = 0;
    let mut multiplier: u8 = 1;
    let mut i: usize = 0;
    while i < 5
        invariant
            0 <= i <= 5,
            input@.len() == 5,
            multiplier == pow3(i as int),
            value == marks_upto(input@, i as int),
            value < pow3(i as int),
            forall|k: int| 0 <= k < i ==> symbol_mark(#[trigger] input@[k]) is Some,
        decreases 5 - i,
    {
        reveal_with_fuel(pow3, 6);
        let c = input.get_char(i);
        if c == 'B' || c == 'b' {
        } else if c == 'Y' || c == 'y' {
            value += multiplier;
        } else if c == 'G' || c == 'g' {
            value += multiplier * 2;
        } else {
            return None;
        }
        assert(value == marks_upto(input@, i as int) + symbol_mark(input@[i as int]).unwrap()
            * multiplier);
        multiplier *= 3;
        i += 1;
    }
    proof {
        reveal_with_fuel(pow3, 6);
    }
    Some(value)
}

/// Writes a pattern as feedback text in upper case.
pub fn pattern_text(pattern: u8) -> (s: String)
    ensures
        s@ == text_of_pattern(pattern),
{
    let mut s = String::new();
    let mut rest: u8 = pattern;
    let mut i: usize = 0;
    while i < 5
        invariant
            0 <= i <= 5,
            rest == pattern as int / pow3(i as int),
            s@ == text_of_pattern(pattern).take(i as int),
        decreases 5 - i,
    {
        proof {
            lemma_thirds(pattern as int);
        }
        let m = rest % 3;
        let c = if m == 0 {
            'B'
        } else if m == 1 {
            'Y'
        } else {
            'G'
        };
        assert(m == mark_at(pattern as int, i as int));
        s.push(c);
        rest = rest / 3;
        assert(text_of_pattern(pattern).take(i + 1) =~= text_of_pattern(pattern).take(i as int).push(
            c,
        ));
        i += 1;
    }
    assert(text_of_pattern(pattern).take(5) =~= text_of_pattern(pattern));
    s
}

/// A guess that equals the target earns the mark 2 at every position.
pub proof fn lemma_pattern_of_equal_words(word: Seq<u8>)
    requires
        word.len() == 5,
    ensures
        pattern(word, word) == 242,
{
    reveal_with_fuel(pattern_upto, 6);
    reveal_with_fuel(pow3, 6);
}

/// Only a guess that equals the target earns the mark 2 at every position.
pub proof fn lemma_full_pattern_means_equal(guess: Seq<u8>, target: Seq<u8>)
    requires
        guess.len() == 5,
        target.len() == 5,
        pattern(guess, target) == 242,
    ensures
        guess == target,
{
    reveal_with_fuel(pattern_upto, 6);
    reveal_with_fuel(pow3, 6);
    let m0 = mark(guess, target, 0);
    let m1 = mark(guess, target, 1);
    let m2 = mark(guess, target, 2);
    let m3 = mark(guess, target, 3);
    let m4 = mark(guess, target, 4);
    assert(pattern(guess, target) == m0 + m1 * 3 + m2 * 9 + m3 * 27 + m4 * 81);
    assert(m0 == 2 && m1 == 2 && m2 == 2 && m3 == 2 && m4 == 2);
    assert(guess =~= target);
}

/// Every pattern lies below 243.
pub proof fn lemma_pattern_range(guess: Seq<u8>, target: Seq<u8>)
    ensures
        0 <= pattern(guess, target) < 243,
{
    reveal_with_fuel(pattern_upto, 6);
    reveal_with_fuel(pow3, 6);
}

/// Reading the text of a pattern gives the pattern back.
pub proof fn lemma_pattern_text_round_trip(p: u8)
    requires
        p < 243,
    ensures
        pattern_of_text(text_of_pattern(p)) == Some(p),
{
    reveal_with_fuel(marks_upto, 6);
    reveal_with_fuel(pow3, 6);
    lemma_thirds(p as int);
    let s = text_of_pattern(p);
    assert forall|i: int| 0 <= i < 5 implies symbol_mark(#[trigger] s[i]) == Some(
        mark_at(p as int, i),
    ) by {}
    let q1 = p as int / 3;
    let q2 = q1 / 3;
    let q3 = q2 / 3;
    let q4 = q3 / 3;
    assert(symbol_mark(s[0]).unwrap() == p as int % 3);
    assert(symbol_mark(s[1]).unwrap() == q1 % 3);
    assert(symbol_mark(s[2]).unwrap() == q2 % 3);
    assert(symbol_mark(s[3]).unwrap() == q3 % 3);
    assert(symbol_mark(s[4]).unwrap() == q4 % 3);
    assert(q4 / 3 == 0);
    assert(marks_upto(s, 5) == p as int % 3 + (q1 % 3) * 3 + (q2 % 3) * 9 + (q3 % 3) * 27 + (q4
        % 3) * 81);
}

} // verus!
