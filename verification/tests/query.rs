use noodle::parser::Ast::{CharClass, Sequence};
use noodle::query::{QueryAst, QueryResponse};
use noodle::words::{CharBitset, Word};

#[test]
fn query_lines_pragmas_and_expressions() {
    let q = QueryAst::new_from_str("#words 3\nhello\n#limit 50; #quiet").unwrap();
    assert_eq!(q.options.max_words, Some(3));
    assert_eq!(q.options.results_limit, Some(50));
    assert_eq!(q.options.quiet, Some(true));
    assert_eq!(q.options.dictionary, None);
    assert_eq!(q.expressions.len(), 1);
    assert_eq!(q.expressions[0].original_text, Some("hello".to_string()));
}

#[test]
fn query_macros_substitute_in_later_lines() {
    let q = QueryAst::new_from_str("V=[aeiou]\nh(V)t").unwrap();
    assert_eq!(q.expressions.len(), 1);
    assert_eq!(q.expressions[0].original_text, Some("h([aeiou])t".to_string()));
    let vowels = {
        let mut s: CharBitset = 'a'.into();
        for c in ['e', 'i', 'o', 'u'] {
            s.union_with(c.into());
        }
        s
    };
    assert_eq!(
        q.expressions[0].root,
        Sequence(vec![CharClass('h'.into()), Sequence(vec![CharClass(vowels)]), CharClass('t'.into())])
    );
}

#[test]
fn query_macros_apply_in_the_order_defined() {
    let q = QueryAst::new_from_str("A=B\nB=c\nA").unwrap();
    // `A` becomes `B`, which the later macro turns into `c`
    assert_eq!(q.expressions[0].original_text, Some("c".to_string()));
}

#[test]
fn query_errors_name_the_line() {
    let err = QueryAst::new_from_str("abc\nab(").err().unwrap();
    assert_eq!(err.line, 2);
    let err = QueryAst::new_from_str("#bogus 3").err().unwrap();
    assert_eq!(err.line, 1);
}

#[test]
fn query_blank_lines_are_ignored() {
    let q = QueryAst::new_from_str("\n  \nab\n").unwrap();
    assert_eq!(q.expressions.len(), 1);
}

#[test]
fn query_responses_compare_by_value() {
    let w = Word::new("hi", 0, 1);
    assert_eq!(QueryResponse::Match(vec![w.clone()]), QueryResponse::Match(vec![w]));
    assert_ne!(QueryResponse::Timeout, QueryResponse::Complete("done".to_string()));
    assert_eq!(QueryResponse::Logs(vec!["a".to_string()]).clone(), QueryResponse::Logs(vec!["a".to_string()]));
}

#[test]
fn a_transadd_too_large_to_count_is_refused_by_the_checked_parse() {
    assert!(QueryAst::new_from_str_checked("<ab+18446744073709551615>").is_none());
    assert!(matches!(QueryAst::new_from_str_checked("<ate+3>"), Some(Ok(_))));
    assert!(matches!(QueryAst::new_from_str_checked("ab("), Some(Err(_))));
}
