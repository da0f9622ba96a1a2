use razor::item::{Item, ItemKind};
use razor::lexer::tokenize;
use razor::parser::{parse, Expected, ParseError};
use razor::token::{BraceKind, Token};
use razor::util::{split_results, Spanned};

fn lex(src: &str) -> Vec<Spanned<Token>> {
    let (tokens, errors) = split_results(tokenize(src.as_bytes().to_vec()).collect_all());
    assert!(errors.is_empty());
    tokens
}

fn parse_all(src: &str) -> Vec<Result<Spanned<Item>, Spanned<ParseError>>> {
    let mut it = parse(lex(src));
    let mut out = Vec::new();
    while let Some(r) = it.next() {
        out.push(r);
    }
    out
}

fn only_item(src: &str) -> Spanned<Item> {
    let mut all = parse_all(src);
    assert_eq!(all.len(), 1);
    match all.pop().unwrap() {
        Ok(item) => item,
        Err(e) => panic!("unexpected parse error: {:?}", e),
    }
}

fn only_error(src: &str) -> Spanned<ParseError> {
    let mut all = parse_all(src);
    assert!(!all.is_empty());
    match all.remove(0) {
        Ok(item) => panic!("unexpected item: {:?}", item),
        Err(e) => e,
    }
}

#[test]
fn function_item_happy_path() {
    let src = "greet := fn(name: string) -> string { }";
    let item = only_item(src);
    assert_eq!((item.start, item.end), (0, src.len()));
    assert_eq!(item.value.ident.value, "greet");
    assert_eq!((item.value.ident.start, item.value.ident.end), (0, 5));
    let ItemKind::Fn { args, ty, block } = &item.value.kind;
    assert_eq!(args.len(), 1);
    assert_eq!(args[0].ident.value, "name");
    assert_eq!((args[0].ident.start, args[0].ident.end), (12, 16));
    assert_eq!(args[0].ty.ident.value, "string");
    assert!(!args[0].ty.optional);
    let ty = ty.as_ref().expect("a return type");
    assert_eq!(ty.ident.value, "string");
    assert!(!ty.optional);
    assert!(block.statements.is_empty());
    assert!(block.trailing_expr.is_none());
}

#[test]
fn missing_open_paren_points_at_the_found_token() {
    let err = only_error("greet := fn name: string) { }");
    match &err.value {
        ParseError::ExpectedToken { expected, found } => {
            assert_eq!(*expected, Expected::OpenParen);
            assert!(matches!(&found.value, Token::Ident(s) if s == "name"));
            assert_eq!((found.start, found.end), (12, 16));
        }
        other => panic!("unexpected error: {:?}", other),
    }
    assert_eq!((err.start, err.end), (0, 16));
}

#[test]
fn no_args_no_return_type() {
    let item = only_item("main := fn() {}");
    let ItemKind::Fn { args, ty, .. } = &item.value.kind;
    assert!(args.is_empty());
    assert!(ty.is_none());
    assert_eq!((item.start, item.end), (0, 15));
}

#[test]
fn several_args_optional_types_and_trailing_comma() {
    let item = only_item("f := fn(a: int, b: string?,) -> thing? { x y ; 1 }");
    let ItemKind::Fn { args, ty, .. } = &item.value.kind;
    assert_eq!(args.len(), 2);
    assert_eq!(args[0].ident.value, "a");
    assert!(!args[0].ty.optional);
    assert_eq!(args[1].ident.value, "b");
    assert_eq!(args[1].ty.ident.value, "string");
    assert!(args[1].ty.optional);
    let ty = ty.as_ref().unwrap();
    assert_eq!(ty.ident.value, "thing");
    assert!(ty.optional);
}

#[test]
fn items_follow_one_another() {
    let all = parse_all("a := fn() {} b := fn(x: y) { z }");
    assert_eq!(all.len(), 2);
    let first = all[0].as_ref().unwrap();
    let second = all[1].as_ref().unwrap();
    assert_eq!(first.value.ident.value, "a");
    assert_eq!((first.start, first.end), (0, 12));
    assert_eq!(second.value.ident.value, "b");
    assert_eq!((second.start, second.end), (13, 32));
}

#[test]
fn item_must_start_with_an_identifier() {
    let err = only_error("fn := fn() {}");
    match &err.value {
        ParseError::ExpectedToken { expected, found } => {
            assert_eq!(*expected, Expected::Identifier);
            assert_eq!((found.start, found.end), (0, 2));
        }
        other => panic!("unexpected error: {:?}", other),
    }
    assert_eq!((err.start, err.end), (0, 2));
}

#[test]
fn missing_assignment() {
    let err = only_error("f = fn() {}");
    assert!(matches!(&err.value, ParseError::ExpectedToken { expected: Expected::Assign, found } if matches!(found.value, Token::Eq)));
}

#[test]
fn missing_fn_keyword() {
    let err = only_error("f := struct() {}");
    assert!(matches!(&err.value, ParseError::ExpectedToken { expected: Expected::FnKeyword, .. }));
}

#[test]
fn missing_comma_between_args() {
    let err = only_error("f := fn(a: b c: d) {}");
    match &err.value {
        ParseError::ExpectedToken { expected, found } => {
            assert_eq!(*expected, Expected::CommaOrCloseParen);
            assert!(matches!(&found.value, Token::Ident(s) if s == "c"));
        }
        other => panic!("unexpected error: {:?}", other),
    }
}

#[test]
fn leading_comma_in_args() {
    let err = only_error("f := fn(, a: b) {}");
    assert!(matches!(&err.value, ParseError::ExpectedToken { expected: Expected::ArgOrCloseParen, found } if matches!(found.value, Token::Comma)));
}

#[test]
fn missing_colon_and_type() {
    let err = only_error("f := fn(a b) {}");
    assert!(matches!(&err.value, ParseError::ExpectedToken { expected: Expected::Colon, .. }));
    let err = only_error("f := fn(a: ) {}");
    assert!(matches!(&err.value, ParseError::ExpectedToken { expected: Expected::Type, found } if matches!(found.value, Token::Brace { open: false, kind: BraceKind::Smooth })));
}

#[test]
fn missing_body() {
    let err = only_error("f := fn() -> int;");
    assert!(matches!(&err.value, ParseError::ExpectedToken { expected: Expected::OpenCurly, found } if matches!(found.value, Token::SemiColon)));
}

#[test]
fn input_ends_inside_an_item() {
    let src = "f := fn(a: int";
    let err = only_error(src);
    match &err.value {
        ParseError::UnexpectedEndOfInput { expected, at } => {
            assert_eq!(*expected, Expected::CommaOrCloseParen);
            assert_eq!(*at, src.len());
        }
        other => panic!("unexpected error: {:?}", other),
    }
    assert_eq!((err.start, err.end), (0, src.len()));
    let err = only_error("f := fn() { a b");
    assert!(matches!(err.value, ParseError::UnexpectedEndOfInput { expected: Expected::CloseCurly, at: 15 }));
    let err = only_error("f");
    assert!(matches!(err.value, ParseError::UnexpectedEndOfInput { expected: Expected::Assign, at: 1 }));
}

#[test]
fn parsing_resumes_after_a_failed_item() {
    let all = parse_all("f := 1 g := fn() {}");
    assert_eq!(all.len(), 2);
    assert!(all[0].is_err());
    let g = all[1].as_ref().unwrap();
    assert_eq!(g.value.ident.value, "g");
}

#[test]
fn no_tokens_no_items() {
    assert!(parse_all("").is_empty());
}

#[test]
fn items_and_errors_can_be_cloned() {
    let item = only_item("f := fn(a: b?) -> c {}");
    let copy = item.clone();
    assert_eq!(copy.value.ident.value, "f");
    let ItemKind::Fn { args, ty, .. } = &copy.value.kind;
    assert_eq!(args[0].ty.ident.value, "b");
    assert!(args[0].ty.optional);
    assert_eq!(ty.as_ref().unwrap().ident.value, "c");
    let err = only_error("f := fn name) {}");
    let copy = err.value.clone();
    assert_eq!(copy.range(), 8..12);
}
