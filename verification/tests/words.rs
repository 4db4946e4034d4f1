use noodle::words::{Char, CharBitset, Word};

fn spelled(word: &Word) -> String {
    word.chars.iter().map(|c| c.into_u8() as char).collect()
}

#[test]
fn word_spelling_folds_case_and_ends_with_word_end() {
    let w = Word::new("Hello World", 2, 7);
    assert_eq!(spelled(&w), "hello_world_");
    assert_eq!(w.text, "Hello World");
    assert_eq!(w.tranche, 2);
    assert_eq!(w.score, 7);
}

#[test]
fn word_spelling_strips_accents_and_marks_punctuation() {
    let w = Word::new("Café-crème", 0, 0);
    assert_eq!(spelled(&w), "cafe'creme_");
}

#[test]
fn word_spelling_expands_ligatures() {
    let w = Word::new("Æther", 0, 0);
    assert_eq!(spelled(&w), "aether_");
}

#[test]
fn word_spelling_of_empty_text_is_a_word_end() {
    let w = Word::new("", 0, 0);
    assert_eq!(spelled(&w), "_");
}

#[test]
fn char_symbols_are_case_insensitive() {
    for (lower, upper) in ('a'..='z').zip('A'..='Z') {
        assert_eq!(Char::from(lower), Char::from(upper));
        assert_eq!(Char::from(lower).as_index(), (lower as u8 - b'a') as usize);
    }
}

#[test]
fn char_symbols_of_other_characters() {
    assert_eq!(Char::from(' '), Char::word_end());
    assert_eq!(Char::from('_'), Char::word_end());
    assert_eq!(Char::from('!'), Char::punctuation());
    assert_eq!(Char::from('7'), Char::punctuation());
    assert_eq!(Char::from('é'), Char::punctuation());
    assert_eq!(Char::from(b'Q'), Char::from('q'));
    assert_eq!(Char::from(b' '), Char::word_end());
}

#[test]
fn char_written_symbol_reads_back() {
    for i in 0..28 {
        let c = Char::from_index(i);
        let written = c.into_u8() as char;
        assert_eq!(Char::from(written), c);
    }
    assert_eq!(Char::from_index(0).into_char(), 'A');
    assert_eq!(Char::punctuation().into_char(), '\'');
    assert_eq!(Char::word_end().into_char(), '_');
    assert_eq!(Char::from_index(25).into_u8(), b'z');
}

#[test]
fn charbitset_invert_twice_is_identity() {
    let mut s = CharBitset::from_range('c', 'f');
    s.union_with(Char::word_end().into());
    let original = s;
    s.invert();
    assert!(!s.contains('c'.into()));
    assert!(s.contains('a'.into()));
    assert!(s.contains(Char::word_end()));
    s.invert();
    assert_eq!(s, original);
}

#[test]
fn charbitset_operations() {
    let abc = CharBitset::from_range('a', 'c');
    let mut s = CharBitset::empty();
    assert!(s.is_empty());
    s.union_with(abc);
    assert!(s.contains('b'.into()));
    assert!(!s.contains('d'.into()));
    s.difference_with('b'.into());
    assert!(!s.contains('b'.into()));
    assert!(s.contains('a'.into()));
    assert!(s.is_intersecting(abc));
    assert!(!s.is_intersecting('z'.into()));
    let mut letters = CharBitset::letters();
    letters.invert();
    assert!(letters.is_empty());
    let mut all = CharBitset::all();
    all.invert();
    assert!(all.contains(Char::punctuation()));
    assert!(!all.contains('a'.into()));
}
