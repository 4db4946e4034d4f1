use noodle::evaluator::QueryEvaluator;
use noodle::query::{QueryAst, QueryResponse};
use noodle::words::Word;

fn words(texts: &[&str]) -> Vec<Word> {
    let mut list: Vec<Word> = texts.iter().map(|t| Word::new(t, 0, 1)).collect();
    list.sort();
    list
}

fn evaluator<'w>(query: &str, list: &'w [&'w Word]) -> QueryEvaluator<'w> {
    let ast = QueryAst::new_from_str(query).unwrap();
    QueryEvaluator::from_ast(&ast, list).unwrap()
}

/// Every answer up to the end of the evaluation.
fn answers(e: &mut QueryEvaluator) -> Vec<QueryResponse> {
    let mut all = vec![];
    loop {
        let r = e.next_within_deadline(None);
        let done = matches!(r, QueryResponse::Complete(_));
        all.push(r);
        if done {
            return all;
        }
    }
}

fn matches(all: &[QueryResponse]) -> Vec<String> {
    all.iter()
        .filter_map(|r| match r {
            QueryResponse::Match(ws) => Some(ws.iter().map(|w| w.text.clone()).collect::<Vec<_>>().join(" ")),
            _ => None,
        })
        .collect()
}

#[test]
fn single_words_come_before_phrases() {
    let list = words(&["hello", "world", "help", "jello"]);
    let refs: Vec<&Word> = list.iter().collect();
    let mut e = evaluator("hel.*; .*lo; .{5}", &refs);
    let all = answers(&mut e);
    assert_eq!(matches(&all), vec!["hello"]);
    assert!(all.iter().any(|r| matches!(r, QueryResponse::Logs(_))));
}

#[test]
fn phrases_of_several_words_are_found() {
    let list = words(&["hello", "world", "help"]);
    let refs: Vec<&Word> = list.iter().collect();
    let mut e = evaluator("helloworld", &refs);
    let all = answers(&mut e);
    assert_eq!(matches(&all), vec!["hello world"]);
    match all.last() {
        Some(QueryResponse::Complete(text)) => assert!(text.starts_with("Complete, found all 1 phrases up to 10 words")),
        other => panic!("unexpected end {:?}", other),
    }
}

#[test]
fn phrases_match_every_expression() {
    let list = words(&["cat", "dog", "at", "do"]);
    let refs: Vec<&Word> = list.iter().collect();
    let mut e = evaluator("c.*g; .{6}", &refs);
    let all = answers(&mut e);
    assert_eq!(matches(&all), vec!["cat dog"]);
}

#[test]
fn the_results_limit_ends_the_evaluation() {
    let list = words(&["ab", "abc", "abd"]);
    let refs: Vec<&Word> = list.iter().collect();
    let mut e = evaluator("ab.*", &refs);
    e.set_results_limit(Some(2));
    let all = answers(&mut e);
    // a word end sorts after every letter
    assert_eq!(matches(&all), vec!["abc", "abd"]);
    assert_eq!(all.last(), Some(&QueryResponse::Complete("Found 2 results, stopping".to_string())));
    assert_eq!(e.next_within_deadline(None), QueryResponse::Complete("QueryEvaluator.next_within_deadline called repeatedly".to_string()));
}

#[test]
fn a_depth_limit_of_one_skips_phrases() {
    let list = words(&["hello", "world"]);
    let refs: Vec<&Word> = list.iter().collect();
    let mut e = evaluator("helloworld", &refs);
    e.set_search_depth_limit(1);
    let all = answers(&mut e);
    assert!(matches(&all).is_empty());
    assert_eq!(all.last(), Some(&QueryResponse::Complete("Complete, found all single-word matches".to_string())));
}

#[test]
fn no_possible_phrase_ends_the_search_early() {
    let list = words(&["hello", "world"]);
    let refs: Vec<&Word> = list.iter().collect();
    let mut e = evaluator("hello.*; xyz", &refs);
    let all = answers(&mut e);
    assert!(matches(&all).is_empty());
    assert_eq!(
        all.last(),
        Some(&QueryResponse::Complete("Complete, found all single-word matches (no phrases possible)".to_string()))
    );
}

#[test]
fn the_query_sets_the_limits() {
    let list = words(&["ab", "abc", "abd"]);
    let refs: Vec<&Word> = list.iter().collect();
    let mut e = evaluator("ab.*\n#limit 1", &refs);
    let all = answers(&mut e);
    assert_eq!(matches(&all), vec!["abc"]);
}

#[test]
fn uncompilable_expressions_give_no_evaluator() {
    let list = words(&["ab"]);
    let refs: Vec<&Word> = list.iter().collect();
    let ast = QueryAst::new_from_str("a{3,1}").unwrap();
    assert!(QueryEvaluator::from_ast(&ast, &refs).is_none());
}

#[test]
fn the_expressions_are_listed_while_evaluating() {
    let list = words(&["ab"]);
    let refs: Vec<&Word> = list.iter().collect();
    let e = evaluator("a.; .b", &refs);
    assert_eq!(e.expressions().len(), 2);
}

#[test]
fn phrases_come_in_order_of_their_words() {
    let list = words(&["ab", "cd", "ef"]);
    let refs: Vec<&Word> = list.iter().collect();
    let mut e = evaluator(".{6}", &refs);
    let found = matches(&answers(&mut e));
    assert_eq!(found.len(), 27);
    assert_eq!(&found[..3], &["ab ab ab", "ab ab cd", "ab ab ef"]);
    assert_eq!(found[26], "ef ef ef");
}

#[test]
fn a_phrase_found_on_the_last_step_is_returned() {
    let ws = [Word::new("ab", 0, 2)];
    let wl: Vec<&Word> = ws.iter().collect();
    let mut q = QueryEvaluator::new(vec![noodle::expression::Expression::new("abab").unwrap()], &wl, 2, None);
    assert!(matches!(q.next_within_deadline(None), QueryResponse::Logs(_)));
    assert_eq!(q.next_within_deadline(None), QueryResponse::Match(vec![ws[0].clone(), ws[0].clone()]));
    match q.next_within_deadline(None) {
        QueryResponse::Complete(text) => assert!(text.starts_with("Complete, found all 1 phrases up to 2 words")),
        other => panic!("unexpected answer {:?}", other),
    }
    assert!(matches!(q.next_within_deadline(None), QueryResponse::Complete(_)));
}
