use noodle::wordlist::{fst_entries, parse_wordlist_line, word_key, WordlistReader};
use noodle::words::Word;

fn text(chars: &[char]) -> String {
    chars.iter().collect()
}

#[test]
fn plain_lines_are_scored_by_length() {
    let (word, score) = parse_wordlist_line("apple");
    assert_eq!(text(&word), "apple");
    assert_eq!(score, 5);
    let (word, score) = parse_wordlist_line("café");
    assert_eq!(text(&word), "café");
    assert_eq!(score, 5);
}

#[test]
fn counted_lines_take_the_count() {
    let (word, score) = parse_wordlist_line("1234\tbanana split");
    assert_eq!(text(&word), "banana split");
    assert_eq!(score, 1234);
    let (word, score) = parse_wordlist_line("+7\tx");
    assert_eq!(text(&word), "x");
    assert_eq!(score, 7);
}

#[test]
fn bad_counts_keep_the_whole_line() {
    let (word, score) = parse_wordlist_line("12a\tword");
    assert_eq!(text(&word), "12a\tword");
    assert_eq!(score, 8);
    let (word, score) = parse_wordlist_line("99999999999\tword");
    assert_eq!(text(&word), "99999999999\tword");
    assert_eq!(score, 16);
    let (word, _) = parse_wordlist_line("\tword");
    assert_eq!(text(&word), "\tword");
    let (word, _) = parse_wordlist_line("+\tword");
    assert_eq!(text(&word), "+\tword");
}

#[test]
fn reader_skips_single_letters_and_digits() {
    let mut r = WordlistReader::new();
    assert!(r.read_line("b").is_none());
    assert!(r.read_line("a").is_some());
    assert!(r.read_line("I").is_some());
    assert!(r.read_line("route66").is_none());
    assert_eq!(r.skipped_count, 2);
    assert_eq!(r.word_count, 2);
}

#[test]
fn reader_bumps_words_that_are_not_plain_lowercase() {
    let mut r = WordlistReader::new();
    let plain = r.read_line("house").unwrap();
    assert_eq!(plain.tranche, 0);
    let proper = r.read_line("Paris").unwrap();
    assert_eq!(proper.tranche, 1);
    let counted = r.read_line("10\tbig cat").unwrap();
    assert_eq!(counted.tranche, 1);
    assert_eq!(counted.score, 10);
    assert_eq!(counted.text, "big cat");
}

#[test]
fn reader_tranches_grow_by_half() {
    let mut r = WordlistReader::new();
    for _ in 0..10001 {
        assert!(r.is_ready());
        r.read_line("word").unwrap();
    }
    assert_eq!(r.tranche, 1);
    assert_eq!(r.tranche_size, 15000);
    assert_eq!(r.tranche_count, 0);
    assert_eq!(r.read_line("word").unwrap().tranche, 1);
}

#[test]
fn word_keys_are_the_bytes_of_the_symbols() {
    assert_eq!(word_key(&Word::new("Can't", 0, 1)), b"can't_".to_vec());
    assert_eq!(word_key(&Word::new("ice cream", 0, 1)), b"ice_cream_".to_vec());
}

#[test]
fn map_entries_are_sorted_with_the_lowest_score_of_each_key() {
    let words = vec![
        Word::new("bee", 0, 30),
        Word::new("ant", 0, 10),
        Word::new("Bee", 1, 20),
        Word::new("be", 0, 5),
        Word::new("ant", 0, 40),
    ];
    let entries = fst_entries(&words);
    assert_eq!(
        entries,
        vec![(b"ant_".to_vec(), 10), (b"be_".to_vec(), 5), (b"bee_".to_vec(), 20)]
    );
}

#[test]
fn no_words_give_no_entries() {
    assert!(fst_entries(&[]).is_empty());
}
