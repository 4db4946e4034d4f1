use noodle::parser::ExpressionAst;
use noodle::words::CharBitset;

#[test]
fn expressions_are_written_back() {
    assert_eq!(ExpressionAst::new_from_str("hello").unwrap().to_text(), "(hello)");
    assert_eq!(ExpressionAst::new_from_str("a+b*c?").unwrap().to_text(), "(a+b*c?)");
    assert_eq!(ExpressionAst::new_from_str("a{2,3}").unwrap().to_text(), "a{2, 3}");
    assert_eq!(ExpressionAst::new_from_str("a{3,}b{,4}").unwrap().to_text(), "(a{3,}b{,4})");
    assert_eq!(ExpressionAst::new_from_str("x !2").unwrap().to_text(), "x !2");
}

#[test]
fn symbol_sets_are_written_back() {
    assert_eq!(CharBitset::letters().to_text(), ".");
    assert_eq!(CharBitset::all().to_text(), "[a-z_']");
    assert_eq!(CharBitset::empty().to_text(), "0");
    assert_eq!(CharBitset::from('q').to_text(), "q");
    assert_eq!(CharBitset::from_range('a', 'c').to_text(), "[abc]");
}
