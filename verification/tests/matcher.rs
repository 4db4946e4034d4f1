use noodle::bitset::BitSet3D;
use noodle::expression::Expression;
use noodle::matcher::{next_word_match, shape_fits, word_matchers, WordMatcher};
use noodle::parser::ExpressionAst;
use noodle::words::{Char, Word};

fn word_list(texts: &[&str]) -> Vec<Word> {
    texts.iter().map(|t| Word::new(t, 0, 1)).collect()
}

fn max_len(words: &[&Word]) -> usize {
    1 + words.iter().map(|w| w.chars.len()).max().unwrap_or(0)
}

fn texts(words: &[&Word]) -> Vec<String> {
    words.iter().map(|w| w.text.clone()).collect()
}

#[test]
fn single_words_match_in_order() {
    let words = word_list(&["hello", "world", "help", "hello", "yellow"]);
    let list: Vec<&Word> = words.iter().collect();
    let expression = Expression::new("hel.*").unwrap();
    let mut matcher = WordMatcher::new(expression, max_len(&list));
    assert_eq!(matcher.next_single_word(&list, None).map(|w| w.text.clone()), Some("hello".to_string()));
    assert_eq!(matcher.next_single_word(&list, None).map(|w| w.text.clone()), Some("help".to_string()));
    assert_eq!(matcher.next_single_word(&list, None).map(|w| w.text.clone()), Some("hello".to_string()));
    assert_eq!(matcher.next_single_word(&list, None), None);
    assert_eq!(matcher.next_single_word(&list, None), None);
    // every word can continue a phrase from the state of `.*`, so all are alive
    assert_eq!(texts(&matcher.alive_wordlist), vec!["hello", "world", "help", "hello", "yellow"]);
}

#[test]
fn word_list_may_grow_between_calls() {
    let words = word_list(&["cab", "cat", "dog", "cat"]);
    let all: Vec<&Word> = words.iter().collect();
    let expression = Expression::new("cat").unwrap();
    let mut matcher = WordMatcher::new(expression, max_len(&all));
    assert_eq!(matcher.next_single_word(&all[..1], None), None);
    assert_eq!(matcher.next_single_word(&all[..3], None).map(|w| w.text.clone()), Some("cat".to_string()));
    assert_eq!(matcher.next_single_word(&all[..3], None), None);
    assert_eq!(matcher.next_single_word(&all, None).map(|w| w.text.clone()), Some("cat".to_string()));
}

#[test]
fn fuzzy_matches_within_edit_distance() {
    let words = word_list(&["hello", "help", "held", "helo", "world", "hi", "hero"]);
    let list: Vec<&Word> = words.iter().collect();
    let expression = Expression::new("helo !1").unwrap();
    let mut matcher = WordMatcher::new(expression, max_len(&list));
    let mut found = vec![];
    while let Some(w) = matcher.next_single_word(&list, None) {
        found.push(w.text.clone());
    }
    assert_eq!(found, vec!["hello", "help", "held", "helo", "hero"]);
}

#[test]
fn word_ends_and_punctuation_are_skipped_unless_explicit() {
    let words = word_list(&["can't", "cant", "can t"]);
    let list: Vec<&Word> = words.iter().collect();
    let mut plain = WordMatcher::new(Expression::new("cant").unwrap(), max_len(&list));
    let mut found = vec![];
    while let Some(w) = plain.next_single_word(&list, None) {
        found.push(w.text.clone());
    }
    assert_eq!(found, vec!["can't", "cant", "can t"]);

    let mut explicit = WordMatcher::new(Expression::new("can't").unwrap(), max_len(&list));
    let mut found = vec![];
    while let Some(w) = explicit.next_single_word(&list, None) {
        found.push(w.text.clone());
    }
    assert_eq!(found, vec!["can't"]);
}

#[test]
fn phrase_length_bound_of_a_single_word_expression() {
    let words = word_list(&["hello", "world"]);
    let list: Vec<&Word> = words.iter().collect();
    let mut matcher = WordMatcher::new(Expression::new("hello").unwrap(), max_len(&list));
    while matcher.next_single_word(&list, None).is_some() {}
    // after one word the success state is reached, and no second word leads anywhere
    assert_eq!(matcher.phrase_length_bounds(10), 1);
}

#[test]
fn phrase_length_bound_stops_at_the_limit() {
    let words = word_list(&["ab", "ba", "a", "b"]);
    let list: Vec<&Word> = words.iter().collect();
    let mut matcher = WordMatcher::new(Expression::new("[ab_]*").unwrap(), max_len(&list));
    while matcher.next_single_word(&list, None).is_some() {}
    assert_eq!(matcher.phrase_length_bounds(4), 4);
}

#[test]
fn optimizing_removes_states_no_phrase_uses() {
    let words = word_list(&["hello", "hi", "help"]);
    let list: Vec<&Word> = words.iter().collect();
    let expression = Expression::new("hello").unwrap();
    let states_before = expression.states_len();
    let mut matcher = WordMatcher::new(expression, max_len(&list));
    while matcher.next_single_word(&list, None).is_some() {}
    // a table is only checked before a symbol that is matched, so the words that die
    // at their last letter stay alive, with the empty table
    assert_eq!(texts(&matcher.alive_wordlist), vec!["hello", "hi", "help"]);
    let alive: Vec<&Word> = matcher.alive_wordlist.clone();
    assert!(matcher.optimize_for_wordlist(&alive, 10));
    assert_eq!(texts(&matcher.alive_wordlist), vec!["hello"]);
    let phrase = matcher.into_phrase_matcher();
    assert!(phrase.states_len < states_before);
    assert_eq!(phrase.phrase_length_bounds(10), 1);
}

#[test]
fn optimizing_for_a_narrower_word_list_drops_words() {
    let words = word_list(&["ab", "abab", "b", "ba"]);
    let list: Vec<&Word> = words.iter().collect();
    let expression = Expression::new("(ab)+").unwrap();
    let mut matcher = WordMatcher::new(expression, max_len(&list));
    while matcher.next_single_word(&list, None).is_some() {}
    let alive_before = texts(&matcher.alive_wordlist);
    assert_eq!(alive_before, vec!["ab", "abab", "b", "ba"]);
    let narrower: Vec<&Word> = vec![matcher.alive_wordlist[1]];
    matcher.optimize_for_wordlist(&narrower, 10);
    assert_eq!(texts(&matcher.alive_wordlist), vec!["abab"]);
}

#[test]
fn filled_tables_hold_the_rows_after_each_symbol() {
    let expression = Expression::new("ab").unwrap();
    let n = expression.states_len();
    let fuzz = expression.fuzz_value();
    let chars: Vec<Char> = vec!['a'.into(), 'b'.into(), Char::word_end()];
    let mut tables: Vec<BitSet3D> = (0..=chars.len()).map(|_| BitSet3D::new((n, fuzz + 1), n)).collect();
    for s in 0..n {
        tables[0].slice_mut((s, 0)).union_with(expression.epsilon_states(s));
    }
    assert_eq!(expression.fill_transition_table(&chars, &mut tables), chars.len());
    let success = n - 1;
    assert!(!tables[1].slice((0, 0)).contains(success));
    assert!(tables[2].slice((0, 0)).contains(success));
    // the word end is skipped, so the last table is the one before it
    assert!(tables[3].slice((0, 0)).contains(success));

    // a symbol that cannot be matched leaves no state, and the fill stops after it
    let bad: Vec<Char> = vec!['x'.into(), 'a'.into(), 'b'.into()];
    assert_eq!(expression.fill_transition_table(&bad, &mut tables), 1);
}

#[test]
fn expression_parse_errors_are_reported() {
    let err = Expression::new("ab(").err().unwrap();
    assert_eq!(err.line, 1);
    assert!(Expression::new("a(b|c)").is_ok());
}

fn compiled(text: &str) -> Expression {
    Expression::try_from_ast(&ExpressionAst::new_from_str(text).unwrap()).unwrap()
}

#[test]
fn words_matching_every_expression_come_in_order() {
    let words = word_list(&["hello", "help", "yellow", "halo", "jello"]);
    let list: Vec<&Word> = words.iter().collect();
    let expressions = vec![compiled("hel.*"), compiled(".*lo")];
    assert!(expressions.iter().all(shape_fits));
    let mut matchers = word_matchers(expressions, &list);
    assert_eq!(matchers.len(), 2);
    assert_eq!(next_word_match(&mut matchers, &list, None).map(|w| w.text.clone()), Some("hello".to_string()));
    assert_eq!(next_word_match(&mut matchers, &list, None), None);
    assert_eq!(next_word_match(&mut matchers, &list, None), None);
}

#[test]
fn a_single_expression_gives_each_matching_word() {
    let words = word_list(&["cat", "dog", "cot", "cut"]);
    let list: Vec<&Word> = words.iter().collect();
    let mut matchers = word_matchers(vec![compiled("c[ao]t")], &list);
    let mut found = vec![];
    while let Some(w) = next_word_match(&mut matchers, &list, None) {
        found.push(w.text.clone());
    }
    assert_eq!(found, vec!["cat", "cot"]);
}

#[test]
fn an_empty_word_list_gives_no_match() {
    let list: Vec<&Word> = vec![];
    let mut matchers = word_matchers(vec![compiled(".*")], &list);
    assert_eq!(next_word_match(&mut matchers, &list, None), None);
}

#[test]
fn expressions_that_cannot_be_compiled_are_refused() {
    assert!(Expression::try_from_ast(&ExpressionAst::new_from_str("a{3,1}").unwrap()).is_none());
    assert!(Expression::try_from_ast(&ExpressionAst::new_from_str("<abc>").unwrap()).is_none());
    assert!(Expression::try_from_ast(&ExpressionAst::new_from_str("a{2,3}b").unwrap()).is_some());
}

#[test]
fn a_state_at_some_fuzz_is_left_out_of_the_rows_of_more_fuzz() {
    let e = Expression::new("a !1").unwrap();
    let n = e.states_len();
    let mut t: Vec<BitSet3D> = (0..3).map(|_| BitSet3D::new((n, 2), n)).collect();
    for s in 0..n {
        t[0].slice_mut((s, 0)).union_with(e.epsilon_states(s));
    }
    let chars = Word::new("a", 0, 0).chars;
    assert_eq!(e.fill_transition_table(&chars, &mut t), 2);
    assert!(t[1].slice((0, 0)).contains(n - 1));
    assert!(!t[1].slice((0, 1)).contains(n - 1));
}

#[test]
fn the_fill_stops_at_the_first_symbol_that_leaves_no_state() {
    let e = Expression::new("hello").unwrap();
    let n = e.states_len();
    let mut t: Vec<BitSet3D> = (0..7).map(|_| BitSet3D::new((n, 1), n)).collect();
    for s in 0..n {
        t[0].slice_mut((s, 0)).union_with(e.epsilon_states(s));
    }
    let mut t2 = t.clone();
    assert_eq!(e.fill_transition_table(&Word::new("helpx", 0, 0).chars, &mut t), 4);
    assert_eq!(e.fill_transition_table(&Word::new("hello", 0, 0).chars, &mut t2), 6);
    assert!(t2[6].slice((0, 0)).contains(n - 1));
}

#[test]
fn an_epsilon_set_written_through_its_borrow_is_kept() {
    let mut e = Expression::new("ab").unwrap();
    let n = e.states_len();
    assert!(!e.epsilon_states(0).contains(n - 1));
    e.epsilon_states_mut(0).insert(n - 1);
    assert!(e.epsilon_states(0).contains(n - 1));
    assert_eq!(e.states_len(), n);
}
