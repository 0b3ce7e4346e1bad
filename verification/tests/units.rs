use ascheme::pair::{PairManager, PairType};
use ascheme::source_mapped::SourceMappable;
use ascheme::source_mapper::{MappedLine, SourceMapper};
use ascheme::string_interner::StringInterner;
use ascheme::tokenizer::TokenType;
use ascheme::tokenizer::TokenType::{Boolean, Dot, Identifier, LeftParen, Number, RightParen};
use ascheme::tokenizer::{TokenizeErrorType, Tokenizer};
use ascheme::value::{SourceValue, Value};

fn number(x: f64) -> SourceValue {
    Value::Number(x.to_bits()).empty_source_map()
}

#[test]
fn pair_it_works() {
    let mut manager = PairManager::new();
    let second_el = Value::Pair(manager.pair(number(2.0), Value::EmptyList.empty_source_map())).empty_source_map();
    let list = manager.pair(number(1.0), second_el);

    assert_eq!(manager.get_type(list), PairType::List);
    assert_eq!(
        format!("{:?}", manager.iter(list).unwrap()),
        format!(
            "{:?}",
            vec![number(1.0), number(2.0), Value::EmptyList.empty_source_map()] as Vec<SourceValue>
        )
    );
}

#[test]
fn improper_lists_are_detected() {
    let mut manager = PairManager::new();
    let improper_list = manager.pair(number(1.0), number(2.0));
    assert_eq!(manager.get_type(improper_list), PairType::ImproperList);
}

#[test]
fn cyclic_lists_are_detected() {
    let mut manager = PairManager::new();
    let cyclic_list = manager.pair(number(1.0), Value::EmptyList.empty_source_map());
    manager.set_cdr(cyclic_list, Value::Pair(cyclic_list).empty_source_map());
    assert_eq!(manager.get_type(cyclic_list), PairType::Cyclic);
}

#[test]
fn source_mapper_it_works() {
    let mut mapper = SourceMapper::new();
    let id = mapper.add("boop.txt".into(), "hi\nthere".into());
    assert_eq!(mapper.get_contents(id), "hi\nthere");
    assert_eq!(
        mapper.get_first_line(&(0, 1, Some(id))),
        Some(MappedLine::new(0, 0, 1, "hi"))
    );
    assert_eq!(
        mapper.get_first_line(&(3, 4, Some(id))),
        Some(MappedLine::new(1, 0, 1, "there"))
    );
    assert_eq!(
        mapper.get_first_line(&(0, 4, Some(id))),
        Some(MappedLine::new(0, 0, 2, "hi"))
    );
}

#[test]
fn string_interner_it_works() {
    let mut interner = StringInterner::new();

    let boop1 = interner.intern("boop");
    let boop2 = interner.intern("boop");
    let bap = interner.intern("bap");

    assert_eq!(boop1, boop2);
    assert_ne!(boop1, bap);
    assert_eq!(interner.get(boop1), "boop");
    assert_eq!(interner.get(bap), "bap");
}

fn test_tokenize(string: &'static str, expect: &[(Result<TokenType, TokenizeErrorType>, &'static str)]) {
    let mut tokenizer = Tokenizer::new(&string, None);
    let mut tokens = vec![];
    while let Some(token) = tokenizer.next() {
        tokens.push(match token {
            Ok(token) => (Ok(token.0), token.source(string)),
            Err(err) => (Err(err.0), err.source(string)),
        });
    }
    assert_eq!(&tokens, expect, "Tokenization of '{string}'");
}

#[test]
fn parens_and_whitespace_works() {
    test_tokenize("  (  ) ", &[(Ok(LeftParen), "("), (Ok(RightParen), ")")])
}

#[test]
fn number_works() {
    test_tokenize(
        ".3 5.2 1 ..5",
        &[
            (Ok(Number), ".3"),
            (Ok(Number), "5.2"),
            (Ok(Number), "1"),
            (Ok(Identifier), "..5"),
        ],
    )
}

#[test]
fn tokenizer_dot_works() {
    test_tokenize(".", &[(Ok(Dot), ".")]);
    test_tokenize(". 32", &[(Ok(Dot), "."), (Ok(Number), "32")]);
    test_tokenize("1. .", &[(Ok(Number), "1."), (Ok(Dot), ".")]);
}

#[test]
fn identifiers_starting_with_periods_work() {
    test_tokenize("..", &[(Ok(Identifier), "..")]);
    test_tokenize("..5a+(", &[(Ok(Identifier), "..5a+"), (Ok(LeftParen), "(")]);
    test_tokenize(".. 32", &[(Ok(Identifier), ".."), (Ok(Number), "32")]);
    test_tokenize("1. ...", &[(Ok(Number), "1."), (Ok(Identifier), "...")]);
}

#[test]
fn plus_and_minus_work() {
    test_tokenize(
        "+3 -4 + 3 - 4",
        &[
            (Ok(Number), "+3"),
            (Ok(Number), "-4"),
            (Ok(Identifier), "+"),
            (Ok(Number), "3"),
            (Ok(Identifier), "-"),
            (Ok(Number), "4"),
        ],
    );
}

#[test]
fn identifier_works() {
    test_tokenize(
        "hi there? ",
        &[(Ok(Identifier), "hi"), (Ok(Identifier), "there?")],
    )
}

#[test]
fn tokenizer_booleans_work() {
    test_tokenize(
        " #t  #f ",
        &[(Ok(Boolean(true)), "#t"), (Ok(Boolean(false)), "#f")],
    )
}

#[test]
fn comment_works() {
    test_tokenize(
        "hi ; here is a comment\n there ",
        &[(Ok(Identifier), "hi"), (Ok(Identifier), "there")],
    )
}

#[test]
fn string_works() {
    test_tokenize(r#"  "hello"  "#, &[(Ok(TokenType::String), r#""hello""#)]);
    test_tokenize(r#"  "hi \n bub"  "#, &[(Ok(TokenType::String), r#""hi \n bub""#)]);
    test_tokenize(r#"  "hi \" bub"  "#, &[(Ok(TokenType::String), r#""hi \" bub""#)]);
    test_tokenize(r#"  "hi \\ bub"  "#, &[(Ok(TokenType::String), r#""hi \\ bub""#)]);
    test_tokenize(
        r#"  "hi \"#,
        &[(
            Err(TokenizeErrorType::UnsupportedEscapeSequence),
            r#""hi \"#,
        )],
    );
    test_tokenize(
        r#"  "hi "#,
        &[(Err(TokenizeErrorType::UnterminatedString), r#""hi "#)],
    );
}
