use razor::codegen::{gen_c, CodegenError};
use razor::item::Item;
use razor::lexer::tokenize;
use razor::parser::parse;
use razor::util::{split_results, Spanned};

fn items(src: &str) -> Vec<Spanned<Item>> {
    let (tokens, errors) = split_results(tokenize(src.as_bytes().to_vec()).collect_all());
    assert!(errors.is_empty());
    let mut it = parse(tokens);
    let mut out = Vec::new();
    while let Some(r) = it.next() {
        out.push(r.expect("unexpected parse error"));
    }
    out
}

#[test]
fn main_without_args_is_accepted() {
    let code = gen_c(items("main := fn() {}")).unwrap();
    assert_eq!(code, "\nint main() { return 0; }");
}

#[test]
fn main_with_args_is_rejected() {
    let err = gen_c(items("helper := fn() {} main := fn(argc: int) {}")).unwrap_err();
    assert_eq!(err.value, CodegenError::IncorrectMain);
    assert_eq!((err.start, err.end), (18, 22));
}

#[test]
fn function_signatures() {
    let code = gen_c(items(
        "greet := fn(name: string, age: int?) -> string { } log := fn() { }",
    ))
    .unwrap();
    assert_eq!(
        code,
        "\nstring greet(string name, optional_int age) {\n}\nvoid log() {\n}"
    );
}

#[test]
fn optional_return_type() {
    let code = gen_c(items("find := fn(key: int) -> string? { }")).unwrap();
    assert_eq!(code, "\noptional_string find(int key) {\n}");
}

#[test]
fn no_items_no_code() {
    assert_eq!(gen_c(Vec::new()).unwrap(), "");
}
