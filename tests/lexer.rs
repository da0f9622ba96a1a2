use razor::lexer::{tokenize, LexerError};
use razor::token::{Assignment, BraceKind, Keyword, LiteralKind, Operator, Token};
use razor::util::Spanned;

fn lex(src: &[u8]) -> Vec<Result<Spanned<Token>, Spanned<LexerError>>> {
    tokenize(src.to_vec()).collect_all()
}

fn tokens(src: &[u8]) -> Vec<Spanned<Token>> {
    lex(src).into_iter().map(|r| r.expect("unexpected lexer error")).collect()
}

#[test]
fn fn_lexes_as_keyword() {
    let toks = tokens(b"fn");
    assert_eq!(toks.len(), 1);
    assert!(matches!(toks[0].value, Token::Keyword(Keyword::Fn)));
    assert_eq!((toks[0].start, toks[0].end), (0, 2));
}

#[test]
fn fnx_lexes_as_identifier() {
    let toks = tokens(b"fnx");
    assert_eq!(toks.len(), 1);
    assert!(matches!(&toks[0].value, Token::Ident(s) if s == "fnx"));
}

#[test]
fn every_keyword_is_recognized() {
    let toks = tokens(b"struct fn for pub if else get as");
    let expected = [
        Keyword::Struct,
        Keyword::Fn,
        Keyword::For,
        Keyword::Pub,
        Keyword::If,
        Keyword::Else,
        Keyword::Get,
        Keyword::As,
    ];
    assert_eq!(toks.len(), expected.len());
    for (tok, kw) in toks.iter().zip(expected.iter()) {
        assert!(matches!(&tok.value, Token::Keyword(k) if k == kw));
    }
}

#[test]
fn identifier_takes_letters_digits_and_underscores() {
    let toks = tokens(b"a_b9 c");
    assert_eq!(toks.len(), 2);
    assert!(matches!(&toks[0].value, Token::Ident(s) if s == "a_b9"));
    assert_eq!((toks[0].start, toks[0].end), (0, 4));
    assert!(matches!(&toks[1].value, Token::Ident(s) if s == "c"));
    assert_eq!((toks[1].start, toks[1].end), (5, 6));
}

#[test]
fn integer_literal() {
    let toks = tokens(b"42");
    assert_eq!(toks.len(), 1);
    assert!(matches!(&toks[0].value, Token::Literal { value, kind: LiteralKind::Int } if value == "42"));
}

#[test]
fn float_literal() {
    let toks = tokens(b"4.2");
    assert_eq!(toks.len(), 1);
    assert!(matches!(&toks[0].value, Token::Literal { value, kind: LiteralKind::Float } if value == "4.2"));
}

#[test]
fn second_dot_ends_the_number() {
    let toks = tokens(b"4.2.1");
    assert_eq!(toks.len(), 3);
    assert!(matches!(&toks[0].value, Token::Literal { value, kind: LiteralKind::Float } if value == "4.2"));
    assert_eq!((toks[0].start, toks[0].end), (0, 3));
    assert!(matches!(toks[1].value, Token::Dot));
    assert_eq!((toks[1].start, toks[1].end), (3, 4));
    assert!(matches!(&toks[2].value, Token::Literal { value, kind: LiteralKind::Int } if value == "1"));
    assert_eq!((toks[2].start, toks[2].end), (4, 5));
}

#[test]
fn dot_after_a_dotted_number_stands_alone() {
    let toks = tokens(b".5.6 a.1");
    assert_eq!(toks.len(), 5);
    assert!(matches!(&toks[0].value, Token::Literal { value, kind: LiteralKind::Float } if value == ".5"));
    assert!(matches!(toks[1].value, Token::Dot));
    assert!(matches!(&toks[2].value, Token::Literal { value, kind: LiteralKind::Int } if value == "6"));
    assert!(matches!(&toks[3].value, Token::Ident(s) if s == "a"));
    // Only a `.` that ended a number stands alone; after an identifier `.1` is a number.
    assert!(matches!(&toks[4].value, Token::Literal { value, kind: LiteralKind::Float } if value == ".1"));
}

#[test]
fn second_dot_before_a_non_digit_is_a_dot_token() {
    let toks = tokens(b"4.2.x");
    assert_eq!(toks.len(), 3);
    assert!(matches!(&toks[0].value, Token::Literal { value, kind: LiteralKind::Float } if value == "4.2"));
    assert!(matches!(toks[1].value, Token::Dot));
    assert_eq!((toks[1].start, toks[1].end), (3, 4));
    assert!(matches!(&toks[2].value, Token::Ident(s) if s == "x"));
}

#[test]
fn leading_dot_number_and_trailing_dot_number() {
    let toks = tokens(b".5 7.");
    assert_eq!(toks.len(), 2);
    assert!(matches!(&toks[0].value, Token::Literal { value, kind: LiteralKind::Float } if value == ".5"));
    assert!(matches!(&toks[1].value, Token::Literal { value, kind: LiteralKind::Float } if value == "7."));
}

#[test]
fn punctuation_and_operators() {
    let toks = tokens(b"{}()[];&,=?:.+-*/ -> := ?=");
    let spans: Vec<(usize, usize)> = toks.iter().map(|t| (t.start, t.end)).collect();
    assert!(matches!(toks[0].value, Token::Brace { open: true, kind: BraceKind::Curly }));
    assert!(matches!(toks[1].value, Token::Brace { open: false, kind: BraceKind::Curly }));
    assert!(matches!(toks[2].value, Token::Brace { open: true, kind: BraceKind::Smooth }));
    assert!(matches!(toks[3].value, Token::Brace { open: false, kind: BraceKind::Smooth }));
    assert!(matches!(toks[4].value, Token::Brace { open: true, kind: BraceKind::Square }));
    assert!(matches!(toks[5].value, Token::Brace { open: false, kind: BraceKind::Square }));
    assert!(matches!(toks[6].value, Token::SemiColon));
    assert!(matches!(toks[7].value, Token::Ampersand));
    assert!(matches!(toks[8].value, Token::Comma));
    assert!(matches!(toks[9].value, Token::Eq));
    assert!(matches!(toks[10].value, Token::QuestionMark));
    assert!(matches!(toks[11].value, Token::Colon));
    assert!(matches!(toks[12].value, Token::Dot));
    assert!(matches!(toks[13].value, Token::Operator(Operator::Plus)));
    assert!(matches!(toks[14].value, Token::Operator(Operator::Minus)));
    assert!(matches!(toks[15].value, Token::Operator(Operator::Star)));
    assert!(matches!(toks[16].value, Token::Operator(Operator::Slash)));
    assert!(matches!(toks[17].value, Token::Arrow));
    assert_eq!(spans[17], (18, 20));
    assert!(matches!(toks[18].value, Token::Assignment(Assignment::Normal)));
    assert_eq!(spans[18], (21, 23));
    assert!(matches!(toks[19].value, Token::Assignment(Assignment::Optional)));
    assert_eq!(spans[19], (24, 26));
    assert_eq!(toks.len(), 20);
}

#[test]
fn minus_before_digit_is_an_operator() {
    let toks = tokens(b"-5");
    assert_eq!(toks.len(), 2);
    assert!(matches!(toks[0].value, Token::Operator(Operator::Minus)));
    assert!(matches!(&toks[1].value, Token::Literal { value, kind: LiteralKind::Int } if value == "5"));
}

#[test]
fn string_literal() {
    let toks = tokens(b"\"hi there\" x");
    assert_eq!(toks.len(), 2);
    assert!(matches!(&toks[0].value, Token::Literal { value, kind: LiteralKind::String } if value == "hi there"));
    assert_eq!((toks[0].start, toks[0].end), (0, 10));
    assert_eq!((toks[1].start, toks[1].end), (11, 12));
}

#[test]
fn string_literal_has_no_escapes() {
    let toks = tokens(b"\"a\\\"b");
    assert!(matches!(&toks[0].value, Token::Literal { value, kind: LiteralKind::String } if value == "a\\"));
    assert!(matches!(&toks[1].value, Token::Ident(s) if s == "b"));
}

#[test]
fn unterminated_string_runs_to_the_end() {
    let toks = tokens(b"\"abc");
    assert_eq!(toks.len(), 1);
    assert!(matches!(&toks[0].value, Token::Literal { value, kind: LiteralKind::String } if value == "abc"));
    assert_eq!((toks[0].start, toks[0].end), (0, 4));
}

#[test]
fn non_utf8_string_is_an_error() {
    let res = lex(b"\"\xff\xfe\" a");
    assert_eq!(res.len(), 2);
    match &res[0] {
        Err(e) => {
            assert_eq!(e.value, LexerError::NonUtf8Bytes);
            assert_eq!((e.start, e.end), (0, 4));
        }
        Ok(_) => panic!("expected an error"),
    }
    assert!(res[1].is_ok());
}

#[test]
fn unexpected_character_skips_one_byte() {
    let res = lex(b"a$b");
    assert_eq!(res.len(), 3);
    match &res[1] {
        Err(e) => {
            assert_eq!(e.value, LexerError::UnexpectedCharacter(b'$'));
            assert_eq!((e.start, e.end), (1, 2));
        }
        Ok(_) => panic!("expected an error"),
    }
    assert!(matches!(&res[2], Ok(t) if matches!(&t.value, Token::Ident(s) if s == "b")));
}

#[test]
fn comments_are_skipped() {
    let toks = tokens(b"a # line comment\n  #! block\ncomment !# b #\n\tc");
    let names: Vec<String> = toks
        .iter()
        .map(|t| match &t.value {
            Token::Ident(s) => s.clone(),
            _ => panic!("expected identifiers"),
        })
        .collect();
    assert_eq!(names, vec!["a", "b", "c"]);
    assert_eq!((toks[1].start, toks[1].end), (39, 40));
}

#[test]
fn only_whitespace_and_comments_yield_nothing() {
    assert!(lex(b"").is_empty());
    assert!(lex(b"  \t\r\n").is_empty());
    assert!(lex(b"# no newline at the end").is_empty());
    assert!(lex(b"#! never closed").is_empty());
    assert!(lex(b"#").is_empty());
}

#[test]
fn next_pulls_one_token_at_a_time() {
    let mut it = tokenize(b"a b".to_vec());
    assert!(matches!(it.next(), Some(Ok(t)) if (t.start, t.end) == (0, 1)));
    assert!(matches!(it.next(), Some(Ok(t)) if (t.start, t.end) == (2, 3)));
    assert!(it.next().is_none());
    assert!(it.next().is_none());
}

fn span_of(r: &Result<Spanned<Token>, Spanned<LexerError>>) -> (usize, usize) {
    match r {
        Ok(t) => (t.start, t.end),
        Err(e) => (e.start, e.end),
    }
}

fn is_skippable(gap: &[u8]) -> bool {
    let mut i = 0;
    while i < gap.len() {
        match gap[i] {
            b' ' | b'\t' | b'\n' | b'\r' | 0x0c => i += 1,
            b'#' => {
                if gap.get(i + 1) == Some(&b'!') {
                    let close = gap[i + 2..].windows(2).position(|w| w == b"!#");
                    match close {
                        Some(p) => i = i + 2 + p + 2,
                        None => return false,
                    }
                } else {
                    match gap[i..].iter().position(|&c| c == b'\n') {
                        Some(p) => i += p + 1,
                        None => return false,
                    }
                }
            }
            _ => return false,
        }
    }
    true
}

#[test]
fn spans_and_skipped_text_reassemble_the_input() {
    let src: &[u8] = b"greet := fn(name: string) -> string { # note\n 4.2 $ \"s\" }  #! end !# ";
    let res = lex(src);
    let mut rebuilt = Vec::new();
    let mut last = 0;
    for r in &res {
        let (s, e) = span_of(r);
        assert!(last <= s && s < e && e <= src.len());
        assert!(is_skippable(&src[last..s]));
        rebuilt.extend_from_slice(&src[last..s]);
        rebuilt.extend_from_slice(&src[s..e]);
        last = e;
    }
    rebuilt.extend_from_slice(&src[last..]);
    assert_eq!(rebuilt, src);
    assert_eq!(res.len(), 15);
}

#[test]
fn spans_are_ordered_and_disjoint() {
    let src: &[u8] = b"a:=b?=c->d.e 1.5.6 \xff x";
    let res = lex(src);
    let spans: Vec<(usize, usize)> = res.iter().map(span_of).collect();
    for w in spans.windows(2) {
        assert!(w[0].0 < w[0].1);
        assert!(w[0].1 <= w[1].0);
    }
    assert_eq!(spans.first(), Some(&(0, 1)));
    assert_eq!(spans.last(), Some(&(21, 22)));
}
