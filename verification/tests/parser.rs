use noodle::parser::Ast::{Alternatives, Anagram, CharClass, Repetition, Sequence};
use noodle::parser::{AnagramKind, ExpressionAst, ExpressionOptions};
use noodle::words::CharBitset;

#[test]
fn test_expression_ast() {
    // Basic string
    assert_eq!(
        ExpressionAst::new_from_str("hello").unwrap().root,
        Sequence(vec![
            CharClass('h'.into()),
            CharClass('e'.into()),
            CharClass('l'.into()),
            CharClass('l'.into()),
            CharClass('o'.into()),
        ]),
    );

    // Character classes: ., [...], [^...], [a-z]
    let mut chars_cd: CharBitset = 'c'.into();
    chars_cd.union('d'.into());

    assert_eq!(
        ExpressionAst::new_from_str("cd[cd][^abe-z].[.abc]")
            .unwrap()
            .root,
        Sequence(vec![
            CharClass('c'.into()),
            CharClass('d'.into()),
            CharClass(chars_cd),
            CharClass(chars_cd),
            CharClass(CharBitset::letters()),
            CharClass(CharBitset::letters()),
        ])
    );

    // Grouping & repetition operators: (...), ?, +, *
    assert_eq!(
        ExpressionAst::new_from_str("a+(b[cd]?)*").unwrap().root,
        Sequence(vec![
            Repetition {
                term: Box::new(CharClass('a'.into())),
                min: 1,
                max: None,
            },
            Repetition {
                term: Box::new(Sequence(vec![
                    CharClass('b'.into()),
                    Repetition {
                        term: Box::new(CharClass(chars_cd)),
                        min: 0,
                        max: Some(1),
                    },
                ])),
                min: 0,
                max: None,
            }
        ])
    );
    assert!(ExpressionAst::new_from_str("a()b").is_err());
    assert!(ExpressionAst::new_from_str("bra(").is_err());
    assert!(ExpressionAst::new_from_str(")ket").is_err());
    assert!(ExpressionAst::new_from_str("a(b[c)d]").is_err());
    assert!(ExpressionAst::new_from_str("(a)(b)(c)((((((((d))))))))").is_ok());

    // Numeric repetition classes: {n}, {n,}, {,m}, {n,m}
    assert_eq!(
        ExpressionAst::new_from_str("a{2}b{3,}c{,4}d{5,6}")
            .unwrap()
            .root,
        Sequence(vec![
            Repetition {
                term: Box::new(CharClass('a'.into())),
                min: 2,
                max: Some(2),
            },
            Repetition {
                term: Box::new(CharClass('b'.into())),
                min: 3,
                max: None,
            },
            Repetition {
                term: Box::new(CharClass('c'.into())),
                min: 0,
                max: Some(4),
            },
            Repetition {
                term: Box::new(CharClass('d'.into())),
                min: 5,
                max: Some(6),
            },
        ])
    );
    assert!(ExpressionAst::new_from_str("{1}abc").is_err());
    assert!(ExpressionAst::new_from_str("a{}bc").is_err());
    assert!(ExpressionAst::new_from_str("a{b}c").is_err());

    // Alternatives: ...|...
    assert_eq!(
        ExpressionAst::new_from_str("a|bc|(d|ef)").unwrap().root,
        Alternatives(vec![
            Sequence(vec![CharClass('a'.into()),]),
            Sequence(vec![CharClass('b'.into()), CharClass('c'.into()),]),
            Sequence(vec![Alternatives(vec![
                Sequence(vec![CharClass('d'.into()),]),
                Sequence(vec![CharClass('e'.into()), CharClass('f'.into()),]),
            ]),]),
        ])
    );

    // Enumerations: 3 4
    assert_eq!(
        ExpressionAst::new_from_str("2 5").unwrap().root,
        Sequence(vec![
            Sequence(vec![
                Repetition {
                    term: Box::new(CharClass(CharBitset::letters())),
                    min: 2,
                    max: Some(2),
                },
                CharClass('_'.into()),
            ]),
            Sequence(vec![
                Repetition {
                    term: Box::new(CharClass(CharBitset::letters())),
                    min: 5,
                    max: Some(5),
                },
                CharClass('_'.into()),
            ]),
        ])
    );

    // Basic anagrams: <abcd>
    assert_eq!(
        ExpressionAst::new_from_str("a<bcb>").unwrap().root,
        Sequence(vec![
            CharClass('a'.into()),
            Anagram {
                kind: AnagramKind::Standard,
                bank: vec!['b'.into(), 'c'.into(), 'b'.into()],
            },
        ])
    );
    assert!(ExpressionAst::new_from_str("a<(bc)d>").is_err());
    assert!(ExpressionAst::new_from_str("a<[bc]d>").is_err());
    assert!(ExpressionAst::new_from_str("a<bc|d>").is_err());
    assert!(ExpressionAst::new_from_str("ab>c").is_err());
    assert!(ExpressionAst::new_from_str("ab<c").is_err());

    // Partial group: a(b(cd):?)
    assert_eq!(
        ExpressionAst::new_from_str("a(b(cd):?)").unwrap().root,
        Sequence(vec![
            CharClass('a'.into()),
            Sequence(vec![
                Repetition {
                    term: Box::new(CharClass('b'.into())),
                    min: 0,
                    max: Some(1),
                },
                Repetition {
                    term: Box::new(Sequence(vec![
                        CharClass('c'.into()),
                        CharClass('d'.into()),
                    ])),
                    min: 0,
                    max: Some(1),
                },
            ]),
        ])
    );
}

#[test]
fn test_expression_options() {
    assert_eq!(
        ExpressionAst::new_from_str("abc").unwrap().options,
        ExpressionOptions {
            explicit_word_boundaries: None,
            explicit_punctuation: None,
            fuzz: None,
        }
    );

    assert_eq!(
        ExpressionAst::new_from_str("[._']").unwrap().options,
        ExpressionOptions {
            explicit_word_boundaries: Some(true),
            explicit_punctuation: Some(true),
            fuzz: None,
        }
    );

    assert_eq!(
        ExpressionAst::new_from_str("3 5").unwrap().options,
        ExpressionOptions {
            explicit_word_boundaries: Some(true),
            explicit_punctuation: None,
            fuzz: None,
        }
    );

    assert_eq!(
        ExpressionAst::new_from_str("can't even").unwrap().options,
        ExpressionOptions {
            explicit_word_boundaries: None,
            explicit_punctuation: Some(true),
            fuzz: None,
        }
    );

    assert_eq!(
        ExpressionAst::new_from_str("exclaim !' !_ !5    ")
            .unwrap()
            .options,
        ExpressionOptions {
            explicit_word_boundaries: Some(true),
            explicit_punctuation: Some(true),
            fuzz: Some(5),
        }
    );

    assert!(ExpressionAst::new_from_str("uh oh!").is_err());
    assert!(ExpressionAst::new_from_str("!_ too early").is_err());
}
