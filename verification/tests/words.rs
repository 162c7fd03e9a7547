use wordle_solver::words::{calculate_pattern, get_pattern, pattern_text, Word, WordInfo};

fn word(text: &str) -> Word {
    Word::new(text).unwrap()
}

fn pattern_between(guess: &str, target: &str) -> u8 {
    calculate_pattern(word(guess), word(target))
}

#[test]
fn abbey_against_abyss() {
    let pattern = pattern_between("ABBEY", "ABYSS");
    assert_eq!(pattern, 2 + 2 * 3 + 0 + 0 + 1 * 81);
    assert_eq!(pattern, 89);
    assert_eq!(pattern_text(pattern), "GGBBY");
    assert_eq!(get_pattern("GGBBY"), Some(89));
}

#[test]
fn pattern_is_the_same_on_every_call() {
    let words = ["SPEED", "ABIDE", "ERASE", "STEAL", "CREPE", "LLAMA", "ALLOY"];
    for guess in words {
        for target in words {
            let first = pattern_between(guess, target);
            let second = pattern_between(guess, target);
            assert_eq!(first, second);
            assert!(first < 243);
        }
    }
}

#[test]
fn equal_words_are_all_in_place() {
    for text in ["AAAAA", "ABBEY", "ZZZZZ", "crane", "Llama"] {
        assert_eq!(pattern_between(text, text), 242);
    }
    assert_eq!(pattern_between("crane", "CRANE"), 242);
    assert_eq!(pattern_text(242), "GGGGG");
}

#[test]
fn repeated_letters_claim_the_first_free_place() {
    assert_eq!(pattern_between("SPEED", "ABIDE"), 90);
    assert_eq!(pattern_text(90), "BBYBY");
    assert_eq!(pattern_between("SPEED", "ERASE"), 37);
    assert_eq!(pattern_text(37), "YBYYB");
    assert_eq!(pattern_between("SPEED", "STEAL"), 20);
    assert_eq!(pattern_text(20), "GBGBB");
    assert_eq!(pattern_between("SPEED", "CREPE"), 48);
    assert_eq!(pattern_text(48), "BYGYB");
    assert_eq!(pattern_between("AABBB", "BAAAA"), 16);
    assert_eq!(pattern_between("LLAMA", "ALLOY"), 16);
    assert_eq!(pattern_between("ALLOY", "LLAMA"), 16);
    assert_eq!(pattern_text(16), "YGYBB");
    assert_eq!(pattern_between("EERIE", "GEESE"), 169);
    assert_eq!(pattern_text(169), "YGBBG");
}

#[test]
fn patterns_of_words_that_share_nothing_or_all_but_one() {
    assert_eq!(pattern_between("AAAAA", "BBBBB"), 0);
    assert_eq!(pattern_between("AAAAA", "AAAAB"), 80);
    assert_eq!(pattern_between("AAAAB", "BBBBB"), 162);
    assert_eq!(pattern_between("BBBBB", "AAAAB"), 162);
    assert_eq!(pattern_between("CRANE", "SLATE"), 180);
}

#[test]
fn pattern_text_round_trip() {
    for pattern in 0u8..243 {
        let text = pattern_text(pattern);
        assert_eq!(text.chars().count(), 5);
        assert_eq!(get_pattern(&text), Some(pattern));
        assert_eq!(get_pattern(&text.to_lowercase()), Some(pattern));
    }
}

#[test]
fn pattern_text_weights_positions_by_powers_of_three() {
    assert_eq!(pattern_text(0), "BBBBB");
    assert_eq!(pattern_text(1), "YBBBB");
    assert_eq!(pattern_text(2), "GBBBB");
    assert_eq!(pattern_text(3), "BYBBB");
    assert_eq!(pattern_text(9), "BBYBB");
    assert_eq!(pattern_text(27), "BBBYB");
    assert_eq!(pattern_text(81), "BBBBY");
    assert_eq!(pattern_text(162), "BBBBG");
    assert_eq!(pattern_text(121), "YYYYY");
}

#[test]
fn pattern_text_above_the_range_keeps_five_symbols() {
    assert_eq!(pattern_text(243), "BBBBB");
    assert_eq!(pattern_text(255), "BYYBB");
}

#[test]
fn get_pattern_reads_either_case() {
    assert_eq!(get_pattern("bbbbb"), Some(0));
    assert_eq!(get_pattern("yBbBb"), Some(1));
    assert_eq!(get_pattern("bbbbG"), Some(162));
    assert_eq!(get_pattern("gGgGg"), Some(242));
    assert_eq!(get_pattern("byGyb"), Some(48));
}

#[test]
fn get_pattern_rejects_wrong_length() {
    assert_eq!(get_pattern(""), None);
    assert_eq!(get_pattern("GGGG"), None);
    assert_eq!(get_pattern("GGGGGG"), None);
    assert_eq!(get_pattern("GGGGG "), None);
}

#[test]
fn get_pattern_rejects_other_symbols() {
    assert_eq!(get_pattern("GGXGG"), None);
    assert_eq!(get_pattern("01210"), None);
    assert_eq!(get_pattern("GGGG\u{e9}"), None);
    assert_eq!(get_pattern("XGGGG"), None);
}

#[test]
fn word_reads_either_case_and_writes_upper_case() {
    assert_eq!(word("crane").text(), "CRANE");
    assert_eq!(word("CrAnE").text(), "CRANE");
    assert_eq!(word("ZZZZZ").text(), "ZZZZZ");
    assert!(word("crane") == word("CRANE"));
    assert!(word("crane").same(&word("CRANE")));
    assert!(!word("crane").same(&word("CRANK")));
    assert!(word("crane") != word("CRANK"));
}

#[test]
fn word_rejects_wrong_length() {
    assert!(Word::new("").is_none());
    assert!(Word::new("CRAN").is_none());
    assert!(Word::new("CRANES").is_none());
    assert!(Word::new("CRANE\n").is_none());
}

#[test]
fn word_rejects_what_is_no_letter() {
    assert!(Word::new("CR4NE").is_none());
    assert!(Word::new("CR NE").is_none());
    assert!(Word::new("CRAN-").is_none());
    assert!(Word::new("CRAN\u{e9}").is_none());
    assert!(Word::new("@RANE").is_none());
    assert!(Word::new("[RANE").is_none());
    assert!(Word::new("`RANE").is_none());
    assert!(Word::new("{RANE").is_none());
}

#[test]
fn letter_gives_the_upper_case_byte() {
    assert_eq!(Word::letter('a'), Some(b'A'));
    assert_eq!(Word::letter('z'), Some(b'Z'));
    assert_eq!(Word::letter('A'), Some(b'A'));
    assert_eq!(Word::letter('Z'), Some(b'Z'));
    assert_eq!(Word::letter('m'), Some(b'M'));
    assert_eq!(Word::letter('0'), None);
    assert_eq!(Word::letter(' '), None);
    assert_eq!(Word::letter('\u{e9}'), None);
    assert_eq!(Word::letter('@'), None);
    assert_eq!(Word::letter('['), None);
}

#[test]
fn word_info_keeps_word_and_rank() {
    let info = WordInfo::new(word("crane"), Some(7));
    assert_eq!(info.get_word().text(), "CRANE");
    assert_eq!(info.get_target(), Some(7));
    assert!(info.is_target());
    let plain = WordInfo::new(word("slate"), None);
    assert_eq!(plain.get_word().text(), "SLATE");
    assert_eq!(plain.get_target(), None);
    assert!(!plain.is_target());
}

#[test]
fn word_info_keeps_a_rank_modulo_the_code_width() {
    assert_eq!(WordInfo::new(word("crane"), Some(65534)).get_target(), Some(65534));
    assert_eq!(WordInfo::new(word("crane"), Some(65535)).get_target(), None);
    assert_eq!(WordInfo::new(word("crane"), Some(65536)).get_target(), Some(0));
    assert_eq!(WordInfo::new(word("crane"), Some(65536 + 300)).get_target(), Some(300));
}

#[test]
fn word_info_record_is_letters_then_rank() {
    let info = WordInfo::new(word("crane"), Some(0x1234));
    assert_eq!(info.to_bytes(), [b'C', b'R', b'A', b'N', b'E', 0x12, 0x34]);
    let plain = WordInfo::new(word("slate"), None);
    assert_eq!(plain.to_bytes(), [b'S', b'L', b'A', b'T', b'E', 0xff, 0xff]);
    let first = WordInfo::new(word("trace"), Some(0));
    assert_eq!(first.to_bytes(), [b'T', b'R', b'A', b'C', b'E', 0, 0]);
}

#[test]
fn word_info_record_round_trip() {
    for rank in [None, Some(0usize), Some(1), Some(255), Some(256), Some(65534)] {
        let info = WordInfo::new(word("grace"), rank);
        let back = WordInfo::from_bytes(&info.to_bytes()).unwrap();
        assert_eq!(back.get_word().text(), "GRACE");
        assert_eq!(back.get_target(), rank);
        assert_eq!(back.to_bytes(), info.to_bytes());
    }
}

#[test]
fn word_info_reads_lower_case_records_as_upper_case() {
    let info = WordInfo::from_bytes(&[b'c', b'R', b'a', b'N', b'e', 0, 5]).unwrap();
    assert_eq!(info.get_word().text(), "CRANE");
    assert_eq!(info.get_target(), Some(5));
}

#[test]
fn word_info_reads_only_the_first_seven_bytes() {
    let info = WordInfo::from_bytes(&[b'C', b'R', b'A', b'N', b'E', 1, 2, 9, 9, 9]).unwrap();
    assert_eq!(info.get_target(), Some(258));
}

#[test]
fn word_info_rejects_records_without_five_letters() {
    assert!(WordInfo::from_bytes(&[b'C', b'R', b'4', b'N', b'E', 0, 0]).is_none());
    assert!(WordInfo::from_bytes(&[0, 0, 0, 0, 0, 0, 0]).is_none());
    assert!(WordInfo::from_bytes(&[b'C', b'R', b'A', b'N', 0xc3, 0xa9, 0]).is_none());
    assert!(WordInfo::from_bytes(&[0xff, b'R', b'A', b'N', b'E', 0, 0]).is_none());
    assert!(WordInfo::from_bytes(&[b'C', b'R', b'A', b'N', b' ', 0, 0]).is_none());
}

#[test]
fn word_key_reads_the_letters_as_one_number() {
    assert_eq!(word("AAAAA").key(), 0x41_4141_4141);
    assert_eq!(word("crane").key(), 0x43_5241_4e45);
    assert_eq!(word("ZZZZZ").key(), 0x5a_5a5a_5a5a);
}

#[test]
fn word_keys_rise_as_the_words_do() {
    let words = ["AAAAA", "AAAAB", "AAABA", "ABBEY", "ABYSS", "CRANE", "CRANK", "ZEBRA", "ZZZZZ"];
    for pair in words.windows(2) {
        assert!(word(pair[0]).key() < word(pair[1]).key());
        assert!(pair[0] < pair[1]);
    }
    assert_eq!(word("crane").key(), word("CRANE").key());
}

#[test]
fn word_is_read_back_from_its_key() {
    for text in ["AAAAA", "ABBEY", "CRANE", "ZZZZZ", "qwert"] {
        let back = Word::from_key(word(text).key());
        assert!(back.same(&word(text)));
        assert_eq!(back.text(), text.to_uppercase());
        assert_eq!(back.key(), word(text).key());
    }
}
