use crate::token::{
    keyword_of, Assignment, BraceKind, Keyword, LiteralKind, Operator, Token, TokenView,
};
use crate::util::{Span, Spanned};
use vstd::prelude::*;
use vstd::utf8::{
    decode_utf8, encode_utf8, encode_utf8_decode_utf8, partial_valid_utf8,
    partial_valid_utf8_extend_ascii_block, valid_utf8,
};

verus! {

/// Why a stretch of source could not become a token.
#[derive(Debug, Clone, Copy, PartialEq, Eq, Structural)]
pub enum LexerError {
    /// The byte cannot start any token.
    UnexpectedCharacter(u8),
    /// The bytes of a string literal are not UTF-8.
    NonUtf8Bytes,
}

/// The bytes that separate tokens: ASCII whitespace.
pub open spec fn is_space(c: u8) -> bool {
    c == ' ' as u8 || c == '\t' as u8 || c == '\n' as u8 || c == 0x0c || c == '\r' as u8
}

pub open spec fn is_letter(c: u8) -> bool {
    ('a' as u8 <= c && c <= 'z' as u8) || ('A' as u8 <= c && c <= 'Z' as u8)
}

pub open spec fn is_digit(c: u8) -> bool {
    '0' as u8 <= c && c <= '9' as u8
}

/// Where the skipper stands while passing over whitespace and comments.
#[derive(Debug, Clone, Copy, PartialEq, Eq, Structural)]
pub enum Trivia {
    /// Between tokens, skipping whitespace.
    Space,
    /// Inside a `#` comment, which runs to the end of the line.
    Line,
    /// Inside a `#!` comment, which runs to the next `!#`.
    Block,
}

/// Where the next token starts when the skipper reads `b` from `i` in `mode`;
/// `None` when the input ends first.
pub open spec fn token_start(b: Seq<u8>, i: int, mode: Trivia) -> Option<int>
    decreases b.len() - i,
{
    if i < 0 || i >= b.len() {
        None
    } else {
        let c = b[i];
        match mode {
            Trivia::Space => if is_space(c) {
                token_start(b, i + 1, Trivia::Space)
            } else if c == '#' as u8 {
                if i + 1 < b.len() && b[i + 1] == '!' as u8 {
                    token_start(b, i + 2, Trivia::Block)
                } else {
                    token_start(b, i + 1, Trivia::Line)
                }
            } else {
                Some(i)
            },
            Trivia::Line => if c == '\n' as u8 {
                token_start(b, i + 1, Trivia::Space)
            } else {
                token_start(b, i + 1, Trivia::Line)
            },
            Trivia::Block => if c == '!' as u8 && i + 1 < b.len() && b[i + 1] == '#' as u8 {
                token_start(b, i + 2, Trivia::Space)
            } else {
                token_start(b, i + 1, Trivia::Block)
            },
        }
    }
}

/// The classes of bytes that a token body is made of.
#[derive(Debug, Clone, Copy, PartialEq, Eq, Structural)]
pub enum ByteClass {
    /// Letters, digits and `_`: the rest of an identifier.
    Word,
    /// Decimal digits.
    Digit,
    /// Anything but `"`: the body of a string literal.
    NotQuote,
}

pub open spec fn in_class(class: ByteClass, c: u8) -> bool {
    match class {
        ByteClass::Word => is_letter(c) || is_digit(c) || c == '_' as u8,
        ByteClass::Digit => is_digit(c),
        ByteClass::NotQuote => c != '"' as u8,
    }
}

/// The end of the longest run of bytes of `class` that starts at `i`.
pub open spec fn run_end(b: Seq<u8>, i: int, class: ByteClass) -> int
    decreases b.len() - i,
{
    if 0 <= i < b.len() && in_class(class, b[i]) {
        run_end(b, i + 1, class)
    } else {
        i
    }
}

/// The end of a numeric literal whose first byte stands at `s`, and whether it holds a `.`:
/// digits and at most one `.`.
pub open spec fn number_end(b: Seq<u8>, s: int) -> (int, bool) {
    if b[s] == '.' as u8 {
        (run_end(b, s + 1, ByteClass::Digit), true)
    } else {
        let d = run_end(b, s + 1, ByteClass::Digit);
        if d < b.len() && b[d] == '.' as u8 {
            (run_end(b, d + 1, ByteClass::Digit), true)
        } else {
            (d, false)
        }
    }
}

/// The token made of the single byte `c`, for the bytes that always stand alone.
pub open spec fn single_byte_token(c: u8) -> Option<TokenView> {
    if c == '{' as u8 {
        Some(TokenView::Brace { open: true, kind: BraceKind::Curly })
    } else if c == '}' as u8 {
        Some(TokenView::Brace { open: false, kind: BraceKind::Curly })
    } else if c == '(' as u8 {
        Some(TokenView::Brace { open: true, kind: BraceKind::Smooth })
    } else if c == ')' as u8 {
        Some(TokenView::Brace { open: false, kind: BraceKind::Smooth })
    } else if c == '[' as u8 {
        Some(TokenView::Brace { open: true, kind: BraceKind::Square })
    } else if c == ']' as u8 {
        Some(TokenView::Brace { open: false, kind: BraceKind::Square })
    } else if c == ';' as u8 {
        Some(TokenView::SemiColon)
    } else if c == '&' as u8 {
        Some(TokenView::Ampersand)
    } else if c == ',' as u8 {
        Some(TokenView::Comma)
    } else if c == '=' as u8 {
        Some(TokenView::Eq)
    } else if c == '+' as u8 {
        Some(TokenView::Operator(Operator::Plus))
    } else if c == '*' as u8 {
        Some(TokenView::Operator(Operator::Star))
    } else if c == '/' as u8 {
        Some(TokenView::Operator(Operator::Slash))
    } else {
        None
    }
}

/// True when `b[i]` exists and equals `c`.
pub open spec fn byte_at_is(b: Seq<u8>, i: int, c: u8) -> bool {
    0 <= i < b.len() && b[i] == c
}

/// True when a numeric literal starts at `s`: at a digit, or at a `.` before a digit unless
/// that `.` is `held_dot`, the one that ended the numeric literal just before it.
pub open spec fn starts_number(b: Seq<u8>, s: int, held_dot: bool) -> bool {
    is_digit(b[s]) || (b[s] == '.' as u8 && !held_dot && s + 1 < b.len() && is_digit(b[s + 1]))
}

/// True when the token at `s` is a numeric literal that a further `.` ended: that `.` then
/// stands alone as the next token.
pub open spec fn ends_at_dot(b: Seq<u8>, s: int, held_dot: bool) -> bool {
    starts_number(b, s, held_dot) && byte_at_is(b, scan(b, s, held_dot).0, '.' as u8)
}

/// The token that starts at `s`: where it ends, and what it is. `held_dot` tells that the
/// byte at `s` is the `.` that ended the numeric literal just before.
pub open spec fn scan(b: Seq<u8>, s: int, held_dot: bool) -> (int, Result<TokenView, LexerError>)
    recommends
        0 <= s < b.len(),
{
    let c = b[s];
    if is_letter(c) {
        let e = run_end(b, s + 1, ByteClass::Word);
        let text = b.subrange(s, e);
        (
            e,
            Ok(
                match keyword_of(text) {
                    Some(k) => TokenView::Keyword(k),
                    None => TokenView::Ident(decode_utf8(text)),
                },
            ),
        )
    } else if c == '"' as u8 {
        let q = run_end(b, s + 1, ByteClass::NotQuote);
        let body = b.subrange(s + 1, q);
        let e = if q < b.len() { q + 1 } else { q };
        (
            e,
            if valid_utf8(body) {
                Ok(TokenView::Literal { value: decode_utf8(body), kind: LiteralKind::String })
            } else {
                Err(LexerError::NonUtf8Bytes)
            },
        )
    } else if starts_number(b, s, held_dot) {
        let (e, dot) = number_end(b, s);
        (
            e,
            Ok(
                TokenView::Literal {
                    value: decode_utf8(b.subrange(s, e)),
                    kind: if dot { LiteralKind::Float } else { LiteralKind::Int },
                },
            ),
        )
    } else if c == '.' as u8 {
        (s + 1, Ok(TokenView::Dot))
    } else if c == '-' as u8 {
        if byte_at_is(b, s + 1, '>' as u8) {
            (s + 2, Ok(TokenView::Arrow))
        } else {
            (s + 1, Ok(TokenView::Operator(Operator::Minus)))
        }
    } else if c == ':' as u8 {
        if byte_at_is(b, s + 1, '=' as u8) {
            (s + 2, Ok(TokenView::Assignment(Assignment::Normal)))
        } else {
            (s + 1, Ok(TokenView::Colon))
        }
    } else if c == '?' as u8 {
        if byte_at_is(b, s + 1, '=' as u8) {
            (s + 2, Ok(TokenView::Assignment(Assignment::Optional)))
        } else {
            (s + 1, Ok(TokenView::QuestionMark))
        }
    } else {
        (
            s + 1,
            match single_byte_token(c) {
                Some(t) => Ok(t),
                None => Err(LexerError::UnexpectedCharacter(c)),
            },
        )
    }
}

/// One step of the tokenizer from position `i`: the span `[start, end)` of the next token and
/// the token or error found there; `None` when only whitespace and comments are left.
pub open spec fn lex_step(b: Seq<u8>, i: int, held_dot: bool) -> Option<
    (int, int, Result<TokenView, LexerError>),
> {
    match token_start(b, i, Trivia::Space) {
        None => None,
        Some(s) => Some((s, scan(b, s, held_dot).0, scan(b, s, held_dot).1)),
    }
}

/// Whether the step from `i` leaves a `.` that ended a numeric literal for the next step.
pub open spec fn held_after(b: Seq<u8>, i: int, held_dot: bool) -> bool {
    match token_start(b, i, Trivia::Space) {
        None => false,
        Some(s) => ends_at_dot(b, s, held_dot),
    }
}

/// Everything the tokenizer yields from position `i` on, in order.
pub open spec fn lex_all(b: Seq<u8>, i: int, held_dot: bool) -> Seq<
    (int, int, Result<TokenView, LexerError>),
>
    decreases b.len() - i,
    when 0 <= i <= b.len()
    via lex_all_decreases
{
    match lex_step(b, i, held_dot) {
        None => Seq::empty(),
        Some(step) => seq![step] + lex_all(b, step.1, held_after(b, i, held_dot)),
    }
}

#[via_fn]
proof fn lex_all_decreases(b: Seq<u8>, i: int, held_dot: bool) {
    if let Some(step) = lex_step(b, i, held_dot) {
        lemma_lex_step_bounds(b, i, held_dot);
    }
}

/// A token starts at or after where the skipper began, inside the input, on a byte that is
/// neither whitespace nor `#`.
pub proof fn lemma_token_start_bounds(b: Seq<u8>, i: int, mode: Trivia)
    ensures
        token_start(b, i, mode) matches Some(s) ==> i <= s < b.len() && !is_space(b[s])
            && b[s] != '#' as u8,
    decreases b.len() - i,
{
    if 0 <= i < b.len() {
        let c = b[i];
        match mode {
            Trivia::Space => if is_space(c) {
                lemma_token_start_bounds(b, i + 1, Trivia::Space);
            } else if c == '#' as u8 {
                if i + 1 < b.len() && b[i + 1] == '!' as u8 {
                    lemma_token_start_bounds(b, i + 2, Trivia::Block);
                } else {
                    lemma_token_start_bounds(b, i + 1, Trivia::Line);
                }
            },
            Trivia::Line => if c == '\n' as u8 {
                lemma_token_start_bounds(b, i + 1, Trivia::Space);
            } else {
                lemma_token_start_bounds(b, i + 1, Trivia::Line);
            },
            Trivia::Block => if c == '!' as u8 && i + 1 < b.len() && b[i + 1] == '#' as u8 {
                lemma_token_start_bounds(b, i + 2, Trivia::Space);
            } else {
                lemma_token_start_bounds(b, i + 1, Trivia::Block);
            },
        }
    }
}

/// A run stays inside the input, holds only bytes of its class, and stops at one outside it.
pub proof fn lemma_run_end_bounds(b: Seq<u8>, i: int, class: ByteClass)
    requires
        0 <= i <= b.len(),
    ensures
        i <= run_end(b, i, class) <= b.len(),
        forall|k: int| i <= k < run_end(b, i, class) ==> in_class(class, #[trigger] b[k]),
        run_end(b, i, class) < b.len() ==> !in_class(class, b[run_end(b, i, class)]),
    decreases b.len() - i,
{
    if i < b.len() && in_class(class, b[i]) {
        lemma_run_end_bounds(b, i + 1, class);
    }
}

/// Every token takes at least one byte and ends inside the input.
pub proof fn lemma_scan_bounds(b: Seq<u8>, s: int, held_dot: bool)
    requires
        0 <= s < b.len(),
    ensures
        s < scan(b, s, held_dot).0 <= b.len(),
{
    lemma_run_end_bounds(b, s + 1, ByteClass::Word);
    lemma_run_end_bounds(b, s + 1, ByteClass::NotQuote);
    lemma_run_end_bounds(b, s + 1, ByteClass::Digit);
    let d = run_end(b, s + 1, ByteClass::Digit);
    if d < b.len() {
        lemma_run_end_bounds(b, d + 1, ByteClass::Digit);
    }
}

/// Each step of the tokenizer moves forward: its span is non-empty and lies between the
/// cursor and the end of the input.
pub proof fn lemma_lex_step_bounds(b: Seq<u8>, i: int, held_dot: bool)
    ensures
        lex_step(b, i, held_dot) matches Some(step) ==> i <= step.0 < step.1 <= b.len(),
{
    lemma_token_start_bounds(b, i, Trivia::Space);
    if let Some(s) = token_start(b, i, Trivia::Space) {
        lemma_scan_bounds(b, s, held_dot);
    }
}

/// The source rebuilt from a run of tokenizer steps that starts at `from`: for each step, the
/// bytes skipped before it and then the bytes its span covers; last, what follows the final span.
pub open spec fn reassemble(
    b: Seq<u8>,
    steps: Seq<(int, int, Result<TokenView, LexerError>)>,
    from: int,
) -> Seq<u8>
    decreases steps.len(),
{
    if steps.len() == 0 {
        b.subrange(from, b.len() as int)
    } else {
        b.subrange(from, steps[0].0) + b.subrange(steps[0].0, steps[0].1) + reassemble(
            b,
            steps.drop_first(),
            steps[0].1,
        )
    }
}

proof fn lemma_lex_all_shape(b: Seq<u8>, i: int, h: bool)
    requires
        0 <= i <= b.len(),
    ensures
        forall|k: int|
            0 <= k < lex_all(b, i, h).len() ==> i <= (#[trigger] lex_all(b, i, h)[k]).0 < lex_all(b, i, h)[k].1 <= b.len(),
        forall|k: int|
            0 <= k < lex_all(b, i, h).len() - 1 ==> (#[trigger] lex_all(b, i, h)[k]).1 <= lex_all(b, i, h)[k + 1].0 && token_start(b, lex_all(b, i, h)[k].1, Trivia::Space) == Some(
                lex_all(b, i, h)[k + 1].0,
            ),
        lex_all(b, i, h).len() == 0 ==> token_start(b, i, Trivia::Space) is None,
        lex_all(b, i, h).len() > 0 ==> token_start(b, i, Trivia::Space) == Some(lex_all(b, i, h)[0].0)
            && token_start(b, lex_all(b, i, h).last().1, Trivia::Space) is None,
        reassemble(b, lex_all(b, i, h), i) == b.subrange(i, b.len() as int),
    decreases b.len() - i,
{
    lemma_lex_step_bounds(b, i, h);
    let toks = lex_all(b, i, h);
    match lex_step(b, i, h) {
        None => {
            assert(toks.len() == 0);
        },
        Some(step) => {
            lemma_lex_all_shape(b, step.1, held_after(b, i, h));
            let rest = lex_all(b, step.1, held_after(b, i, h));
            assert(toks == seq![step] + rest);
            assert(toks.drop_first() =~= rest);
            assert forall|k: int| 0 <= k < toks.len() implies i <= (#[trigger] toks[k]).0
                < toks[k].1 <= b.len() by {
                if k > 0 {
                    assert(toks[k] == rest[k - 1]);
                }
            }
            assert forall|k: int| 0 <= k < toks.len() - 1 implies (#[trigger] toks[k]).1
                <= toks[k + 1].0 && token_start(b, toks[k].1, Trivia::Space) == Some(
                toks[k + 1].0,
            ) by {
                if k > 0 {
                    assert(toks[k] == rest[k - 1]);
                    assert(toks[k + 1] == rest[k]);
                } else {
                    assert(toks[1] == rest[0]);
                }
            }
            if rest.len() > 0 {
                assert(toks.last() == rest.last());
            } else {
                assert(toks.last() == step);
            }
            assert(b.subrange(i, step.0) + b.subrange(step.0, step.1) + b.subrange(
                step.1,
                b.len() as int,
            ) =~= b.subrange(i, b.len() as int));
        },
    }
}

/// Nothing of the input is lost or invented: gluing together, in order, the bytes skipped before
/// each token, the bytes of each token's span and the bytes after the last one gives the input
/// back, and each skipped stretch is exactly whitespace and comments: reading on from the end of
/// one span (or from the start) the skipper stops where the next span starts, and after the last
/// span it finds no further token.
pub proof fn lemma_spans_reassemble(b: Seq<u8>)
    ensures
        reassemble(b, lex_all(b, 0, false), 0) == b,
        lex_all(b, 0, false).len() == 0 ==> token_start(b, 0, Trivia::Space) is None,
        lex_all(b, 0, false).len() > 0 ==> token_start(b, 0, Trivia::Space) == Some(lex_all(b, 0, false)[0].0)
            && token_start(b, lex_all(b, 0, false).last().1, Trivia::Space) is None,
        forall|k: int|
            0 <= k < lex_all(b, 0, false).len() - 1 ==> token_start(
                b,
                (#[trigger] lex_all(b, 0, false)[k]).1,
                Trivia::Space,
            ) == Some(lex_all(b, 0, false)[k + 1].0),
{
    lemma_lex_all_shape(b, 0, false);
    assert(b.subrange(0, b.len() as int) =~= b);
}

/// Tokenizing yields finitely many spans, each non-empty and inside the input, ordered by start
/// and not overlapping.
pub proof fn lemma_spans_ordered(b: Seq<u8>)
    ensures
        forall|k: int|
            0 <= k < lex_all(b, 0, false).len() ==> 0 <= (#[trigger] lex_all(b, 0, false)[k]).0 < lex_all(b, 0, false)[k].1 <= b.len(),
        forall|k: int|
            0 <= k < lex_all(b, 0, false).len() - 1 ==> (#[trigger] lex_all(b, 0, false)[k]).1 <= lex_all(b, 0, false)[k + 1].0,
{
    lemma_lex_all_shape(b, 0, false);
}

/// A `.` that ends a numeric literal is the very next token, a `.` of its own, whatever follows
/// it: after `4.2` in `4.2.1` comes `.` and then `1`.
pub proof fn lemma_dot_after_number(b: Seq<u8>, i: int, held_dot: bool)
    requires
        held_after(b, i, held_dot),
    ensures
        lex_step(b, i, held_dot) matches Some(step) && lex_step(b, step.1, true) == Some(
            (step.1, step.1 + 1, Ok::<TokenView, LexerError>(TokenView::Dot)),
        ),
{
    lemma_token_start_bounds(b, i, Trivia::Space);
    let e = lex_step(b, i, held_dot).unwrap().1;
    assert(b[e] == '.' as u8);
    assert(token_start(b, e, Trivia::Space) == Some(e));
}

/// A word whose text is one of the reserved words always lexes as that keyword, never as an
/// identifier; any other word lexes as the identifier with its text.
pub proof fn lemma_words(b: Seq<u8>, s: int, held_dot: bool)
    requires
        0 <= s < b.len(),
        is_letter(b[s]),
    ensures
        ({
            let e = run_end(b, s + 1, ByteClass::Word);
            let text = b.subrange(s, e);
            &&& scan(b, s, held_dot).0 == e
            &&& keyword_of(text) matches Some(k) ==> scan(b, s, held_dot).1 == Ok::<
                TokenView,
                LexerError,
            >(TokenView::Keyword(k))
            &&& keyword_of(text) is None ==> scan(b, s, held_dot).1 == Ok::<TokenView, LexerError>(
                TokenView::Ident(decode_utf8(text)),
            )
        }),
{
}

/// Wherever a token starts with the letters `fn` and no identifier byte follows them, it is the
/// `fn` keyword and never an identifier.
pub proof fn lemma_fn_is_keyword(b: Seq<u8>, s: int, held_dot: bool)
    requires
        0 <= s,
        s + 2 <= b.len(),
        b[s] == 'f' as u8,
        b[s + 1] == 'n' as u8,
        s + 2 == b.len() || !in_class(ByteClass::Word, b[s + 2]),
    ensures
        scan(b, s, held_dot) == (s + 2, Ok::<TokenView, LexerError>(TokenView::Keyword(Keyword::Fn))),
{
    assert(run_end(b, s + 2, ByteClass::Word) == s + 2);
    assert(run_end(b, s + 1, ByteClass::Word) == s + 2);
    assert(b.subrange(s, s + 2) =~= seq!['f' as u8, 'n' as u8]);
}

/// Wherever a token starts with the letters `fnx` and no identifier byte follows them, it is the
/// plain identifier `fnx`.
pub proof fn lemma_fnx_is_ident(b: Seq<u8>, s: int, held_dot: bool)
    requires
        0 <= s,
        s + 3 <= b.len(),
        b[s] == 'f' as u8,
        b[s + 1] == 'n' as u8,
        b[s + 2] == 'x' as u8,
        s + 3 == b.len() || !in_class(ByteClass::Word, b[s + 3]),
    ensures
        scan(b, s, held_dot) == (s + 3, Ok::<TokenView, LexerError>(TokenView::Ident(seq!['f', 'n', 'x']))),
{
    assert(run_end(b, s + 3, ByteClass::Word) == s + 3);
    assert(run_end(b, s + 2, ByteClass::Word) == s + 3);
    assert(run_end(b, s + 1, ByteClass::Word) == s + 3);
    let text = b.subrange(s, s + 3);
    let chars = seq!['f', 'n', 'x'];
    assert(text =~= seq!['f' as u8, 'n' as u8, 'x' as u8]);
    assert(keyword_of(text) is None);
    vstd::utf8::is_ascii_chars_encode_utf8(chars);
    assert(encode_utf8(chars) =~= text);
    encode_utf8_decode_utf8(chars);
}

/// The view of one item that the tokenizer yields: its span and the token or error in it.
pub open spec fn spanned_view(x: Result<Spanned<Token>, Spanned<LexerError>>) -> (
    int,
    int,
    Result<TokenView, LexerError>,
) {
    match x {
        Ok(t) => (t.start as int, t.end as int, Ok(t.value@)),
        Err(e) => (e.start as int, e.end as int, Err(e.value)),
    }
}

pub open spec fn views(v: Seq<Result<Spanned<Token>, Spanned<LexerError>>>) -> Seq<
    (int, int, Result<TokenView, LexerError>),
> {
    v.map_values(|x: Result<Spanned<Token>, Spanned<LexerError>>| spanned_view(x))
}

pub open spec fn result_view(r: Result<Token, LexerError>) -> Result<TokenView, LexerError> {
    match r {
        Ok(t) => Ok(t@),
        Err(e) => Err(e),
    }
}

/// Relies on `String::from_utf8`: it succeeds exactly on UTF-8 input, and the string it
/// returns is encoded by those bytes.
#[verifier::external_body]
fn utf8_string(bytes: Vec<u8>) -> (r: Option<String>)
    ensures
        r is Some <==> valid_utf8(bytes@),
        r matches Some(s) ==> encode_utf8(s@) == bytes@,
{
    match String::from_utf8(bytes) {
        Ok(s) => Some(s),
        Err(_) => None,
    }
}

proof fn lemma_ascii_valid(b: Seq<u8>)
    requires
        forall|k: int| 0 <= k < b.len() ==> #[trigger] b[k] <= 0x7f,
    ensures
        valid_utf8(b),
{
    assert(valid_utf8(b.subrange(0, 0)));
    assert(partial_valid_utf8(b, 0));
    partial_valid_utf8_extend_ascii_block(b, 0, b.len() as int);
    assert(b.subrange(0, b.len() as int) =~= b);
}

/// The text of bytes that are all ASCII.
fn ascii_string(bytes: Vec<u8>) -> (r: String)
    requires
        forall|k: int| 0 <= k < bytes@.len() ==> #[trigger] bytes@[k] <= 0x7f,
    ensures
        r@ == decode_utf8(bytes@),
{
    proof {
        lemma_ascii_valid(bytes@);
    }
    match utf8_string(bytes) {
        Some(s) => {
            proof {
                encode_utf8_decode_utf8(s@);
            }
            s
        },
        None => {
            proof {
                assert(false);
            }
            String::new()
        },
    }
}

fn is_space_byte(c: u8) -> (r: bool)
    ensures
        r == is_space(c),
{
    c == ' ' as u8 || c == '\t' as u8 || c == '\n' as u8 || c == 0x0c || c == '\r' as u8
}

fn is_letter_byte(c: u8) -> (r: bool)
    ensures
        r == is_letter(c),
{
    ('a' as u8 <= c && c <= 'z' as u8) || ('A' as u8 <= c && c <= 'Z' as u8)
}

fn is_digit_byte(c: u8) -> (r: bool)
    ensures
        r == is_digit(c),
{
    '0' as u8 <= c && c <= '9' as u8
}

impl ByteClass {
    fn contains(self, c: u8) -> (r: bool)
        ensures
            r == in_class(self, c),
    {
        match self {
            ByteClass::Word => is_letter_byte(c) || is_digit_byte(c) || c == '_' as u8,
            ByteClass::Digit => is_digit_byte(c),
            ByteClass::NotQuote => c != '"' as u8,
        }
    }
}

fn single_byte(c: u8) -> (r: Option<Token>)
    ensures
        match r {
            Some(t) => single_byte_token(c) == Some(t@),
            None => single_byte_token(c) is None,
        },
{
    if c == '{' as u8 {
        Some(Token::Brace { open: true, kind: BraceKind::Curly })
    } else if c == '}' as u8 {
        Some(Token::Brace { open: false, kind: BraceKind::Curly })
    } else if c == '(' as u8 {
        Some(Token::Brace { open: true, kind: BraceKind::Smooth })
    } else if c == ')' as u8 {
        Some(Token::Brace { open: false, kind: BraceKind::Smooth })
    } else if c == '[' as u8 {
        Some(Token::Brace { open: true, kind: BraceKind::Square })
    } else if c == ']' as u8 {
        Some(Token::Brace { open: false, kind: BraceKind::Square })
    } else if c == ';' as u8 {
        Some(Token::SemiColon)
    } else if c == '&' as u8 {
        Some(Token::Ampersand)
    } else if c == ',' as u8 {
        Some(Token::Comma)
    } else if c == '=' as u8 {
        Some(Token::Eq)
    } else if c == '+' as u8 {
        Some(Token::Operator(Operator::Plus))
    } else if c == '*' as u8 {
        Some(Token::Operator(Operator::Star))
    } else if c == '/' as u8 {
        Some(Token::Operator(Operator::Slash))
    } else {
        None
    }
}

/// Starts a tokenizer at the beginning of `bytes`.
pub fn tokenize(bytes: Vec<u8>) -> (r: TokenIter)
    ensures
        r.wf(),
        r.source() == bytes@,
        r.pos() == 0,
        !r.held_dot(),
{
    TokenIter { bytes, index: 0, held_dot: false }
}

/// A pull-based tokenizer: each call of [`TokenIter::next`] yields at most one token or error.
pub struct TokenIter {
    bytes: Vec<u8>,
    index: usize,
    /// Set when the last token was a numeric literal that a further `.` ended; that `.`, at the
    /// cursor, is then a token of its own.
    held_dot: bool,
}

impl TokenIter {
    /// The bytes being tokenized.
    pub closed spec fn source(&self) -> Seq<u8> {
        self.bytes@
    }

    /// The cursor: how many bytes have been consumed.
    pub closed spec fn pos(&self) -> int {
        self.index as int
    }

    /// Whether the byte at the cursor is a `.` that ended the numeric literal just read.
    pub closed spec fn held_dot(&self) -> bool {
        self.held_dot
    }

    pub closed spec fn wf(&self) -> bool {
        self.index <= self.bytes@.len()
    }

    fn peek_byte(&self) -> (r: Option<u8>)
        requires
            self.wf(),
        ensures
            r == (if self.pos() < self.source().len() {
                Some(self.source()[self.pos()])
            } else {
                None::<u8>
            }),
    {
        if self.index < self.bytes.len() {
            Some(self.bytes[self.index])
        } else {
            None
        }
    }

    /// Returns the next byte and moves the cursor past it.
    fn next_byte(&mut self) -> (r: Option<u8>)
        requires
            old(self).wf(),
        ensures
            final(self).wf(),
            final(self).source() == old(self).source(),
            final(self).held_dot() == old(self).held_dot(),
            if old(self).pos() < old(self).source().len() {
                r == Some(old(self).source()[old(self).pos()]) && final(self).pos() == old(
                    self,
                ).pos() + 1
            } else {
                r is None && final(self).pos() == old(self).pos()
            },
    {
        if self.index < self.bytes.len() {
            let b = self.bytes[self.index];
            self.index = self.index + 1;
            Some(b)
        } else {
            None
        }
    }

    /// Appends to `vec` the longest run of bytes of `class` at the cursor, consuming them.
    fn collect_bytes(&mut self, vec: Vec<u8>, class: ByteClass) -> (r: Vec<u8>)
        requires
            old(self).wf(),
        ensures
            final(self).wf(),
            final(self).source() == old(self).source(),
            final(self).held_dot() == old(self).held_dot(),
            final(self).pos() == run_end(old(self).source(), old(self).pos(), class),
            r@ == vec@ + old(self).source().subrange(old(self).pos(), final(self).pos()),
    {
        let ghost b = self.bytes@;
        let ghost first = self.index as int;
        proof {
            lemma_run_end_bounds(b, first, class);
        }
        let mut vec = vec;
        let ghost v0 = vec@;
        while self.index < self.bytes.len() && class.contains(self.bytes[self.index])
            invariant
                self.wf(),
                self.bytes@ == b,
                self.held_dot == old(self).held_dot,
                0 <= first <= self.pos() <= b.len(),
                run_end(b, self.pos(), class) == run_end(b, first, class),
                vec@ == v0 + b.subrange(first, self.pos()),
            decreases b.len() - self.pos(),
        {
            let c = self.bytes[self.index];
            vec.push(c);
            self.index = self.index + 1;
            assert(b.subrange(first, self.pos()) =~= b.subrange(first, self.pos() - 1).push(c));
            assert(vec@ =~= v0 + b.subrange(first, self.pos()));
        }
        vec
    }

    /// Reads the token whose first byte, `byte`, was just consumed; `held` tells that this byte
    /// is the `.` that ended the numeric literal just before.
    fn next_token(&mut self, byte: u8, held: bool) -> (r: Result<Token, LexerError>)
        requires
            old(self).wf(),
            1 <= old(self).pos(),
            old(self).source()[old(self).pos() - 1] == byte,
        ensures
            final(self).wf(),
            final(self).source() == old(self).source(),
            (final(self).pos(), result_view(r)) == scan(
                old(self).source(),
                old(self).pos() - 1,
                held,
            ),
            final(self).held_dot() == ends_at_dot(old(self).source(), old(self).pos() - 1, held),
    {
        let ghost b = self.bytes@;
        let ghost s = self.index - 1;
        self.held_dot = false;
        if is_letter_byte(byte) {
            let mut first = Vec::new();
            first.push(byte);
            let bytes = self.collect_bytes(first, ByteClass::Word);
            proof {
                lemma_run_end_bounds(b, s + 1, ByteClass::Word);
                assert(bytes@ =~= b.subrange(s, self.pos()));
                assert forall|k: int| 0 <= k < bytes@.len() implies #[trigger] bytes@[k] <= 0x7f
                by {
                    if k > 0 {
                        assert(in_class(ByteClass::Word, b[s + k]));
                    }
                }
            }
            let text = ascii_string(bytes);
            return match Keyword::from_str(text.as_str()) {
                Ok(keyword) => {
                    proof {
                        lemma_ascii_valid(b.subrange(s, self.pos()));
                        vstd::utf8::decode_utf8_encode_utf8(b.subrange(s, self.pos()));
                    }
                    Ok(Token::Keyword(keyword))
                },
                Err(_) => {
                    proof {
                        lemma_ascii_valid(b.subrange(s, self.pos()));
                        vstd::utf8::decode_utf8_encode_utf8(b.subrange(s, self.pos()));
                    }
                    Ok(Token::Ident(text))
                },
            };
        }
        if byte == '"' as u8 {
            let bytes = self.collect_bytes(Vec::new(), ByteClass::NotQuote);
            proof {
                lemma_run_end_bounds(b, s + 1, ByteClass::NotQuote);
                assert(bytes@ =~= b.subrange(s + 1, self.pos()));
            }
            // The closing quote, when the input has one.
            let _ = self.next_byte();
            return match utf8_string(bytes) {
                Some(value) => {
                    proof {
                        encode_utf8_decode_utf8(value@);
                    }
                    Ok(Token::Literal { value, kind: LiteralKind::String })
                },
                None => Err(LexerError::NonUtf8Bytes),
            };
        }
        let next = self.peek_byte();
        let starts_number = is_digit_byte(byte) || (byte == '.' as u8 && !held && match next {
            Some(c) => is_digit_byte(c),
            None => false,
        });
        if starts_number {
            let mut first = Vec::new();
            first.push(byte);
            let mut bytes = self.collect_bytes(first, ByteClass::Digit);
            let mut dot = byte == '.' as u8;
            proof {
                lemma_run_end_bounds(b, s + 1, ByteClass::Digit);
            }
            if !dot {
                if let Some(c) = self.peek_byte() {
                    if c == '.' as u8 {
                        let _ = self.next_byte();
                        bytes.push(c);
                        proof {
                            lemma_run_end_bounds(b, self.pos(), ByteClass::Digit);
                        }
                        bytes = self.collect_bytes(bytes, ByteClass::Digit);
                        dot = true;
                    }
                }
            }
            proof {
                assert(bytes@ =~= b.subrange(s, self.pos()));
                assert forall|k: int| 0 <= k < bytes@.len() implies #[trigger] bytes@[k] <= 0x7f
                by {
                    if b[s + k] != '.' as u8 && k > 0 {
                        assert(in_class(ByteClass::Digit, b[s + k]));
                    }
                }
            }
            let value = ascii_string(bytes);
            let kind = if dot {
                LiteralKind::Float
            } else {
                LiteralKind::Int
            };
            self.held_dot = self.peek_byte() == Some('.' as u8);
            return Ok(Token::Literal { value, kind });
        }
        if byte == '.' as u8 {
            return Ok(Token::Dot);
        }
        if byte == '-' as u8 {
            if next == Some('>' as u8) {
                let _ = self.next_byte();
                return Ok(Token::Arrow);
            }
            return Ok(Token::Operator(Operator::Minus));
        }
        if byte == ':' as u8 {
            if next == Some('=' as u8) {
                let _ = self.next_byte();
                return Ok(Token::Assignment(Assignment::Normal));
            }
            return Ok(Token::Colon);
        }
        if byte == '?' as u8 {
            if next == Some('=' as u8) {
                let _ = self.next_byte();
                return Ok(Token::Assignment(Assignment::Optional));
            }
            return Ok(Token::QuestionMark);
        }
        match single_byte(byte) {
            Some(token) => Ok(token),
            None => Err(LexerError::UnexpectedCharacter(byte)),
        }
    }

    /// Skips whitespace and comments, then reads one token or error and spans it with the
    /// bytes it took; `None` once only whitespace and comments are left.
    pub fn next(&mut self) -> (r: Option<Result<Spanned<Token>, Spanned<LexerError>>>)
        requires
            old(self).wf(),
        ensures
            final(self).wf(),
            final(self).source() == old(self).source(),
            match lex_step(old(self).source(), old(self).pos(), old(self).held_dot()) {
                None => r is None && final(self).pos() == old(self).source().len()
                    && !final(self).held_dot(),
                Some(step) => r matches Some(x) && spanned_view(x) == step && final(self).pos()
                    == step.1 && final(self).held_dot() == held_after(
                    old(self).source(),
                    old(self).pos(),
                    old(self).held_dot(),
                ),
            },
    {
        let ghost b = self.bytes@;
        let ghost first = self.index as int;
        let held = self.held_dot;
        let mut mode = Trivia::Space;
        loop
            invariant
                self.wf(),
                self.bytes@ == b,
                b == old(self).source(),
                first == old(self).pos(),
                first <= self.pos(),
                self.held_dot == held,
                held == old(self).held_dot(),
                token_start(b, self.pos(), mode) == token_start(b, first, Trivia::Space),
            ensures
                self.wf(),
                self.bytes@ == b,
                self.held_dot == held,
                self.pos() < b.len(),
                token_start(b, first, Trivia::Space) == Some(self.pos()),
            decreases b.len() - self.pos(),
        {
            let c = match self.peek_byte() {
                Some(c) => c,
                None => {
                    self.held_dot = false;
                    return None;
                },
            };
            match mode {
                Trivia::Space => {
                    if is_space_byte(c) {
                        let _ = self.next_byte();
                    } else if c == '#' as u8 {
                        let _ = self.next_byte();
                        if self.peek_byte() == Some('!' as u8) {
                            let _ = self.next_byte();
                            mode = Trivia::Block;
                        } else {
                            mode = Trivia::Line;
                        }
                    } else {
                        break ;
                    }
                },
                Trivia::Line => {
                    let _ = self.next_byte();
                    if c == '\n' as u8 {
                        mode = Trivia::Space;
                    }
                },
                Trivia::Block => {
                    let _ = self.next_byte();
                    if c == '!' as u8 && self.peek_byte() == Some('#' as u8) {
                        let _ = self.next_byte();
                        mode = Trivia::Space;
                    }
                },
            }
        }
        let start = self.index;
        let byte = self.bytes[self.index];
        let _ = self.next_byte();
        proof {
            lemma_scan_bounds(b, start as int, held);
        }
        match self.next_token(byte, held) {
            Ok(token) => Some(Ok(token.span(start..self.index))),
            Err(error) => Some(Err(error.span(start..self.index))),
        }
    }

    /// Yields everything that is left, in order: tokens and errors alike.
    pub fn collect_all(&mut self) -> (r: Vec<Result<Spanned<Token>, Spanned<LexerError>>>)
        requires
            old(self).wf(),
        ensures
            final(self).wf(),
            final(self).source() == old(self).source(),
            views(r@) == lex_all(old(self).source(), old(self).pos(), old(self).held_dot()),
    {
        let ghost b = self.bytes@;
        let ghost first = self.index as int;
        let ghost held = self.held_dot;
        let mut out = Vec::new();
        loop
            invariant
                self.wf(),
                self.bytes@ == b,
                views(out@) + lex_all(b, self.pos(), self.held_dot()) == lex_all(b, first, held),
            ensures
                self.wf(),
                self.bytes@ == b,
                views(out@) == lex_all(b, first, held),
            decreases b.len() - self.pos(),
        {
            let ghost before = out@;
            let ghost p = self.pos();
            let ghost h = self.held_dot();
            proof {
                lemma_lex_step_bounds(b, p, h);
            }
            match self.next() {
                Some(x) => {
                    out.push(x);
                    proof {
                        let step = lex_step(b, p, h).unwrap();
                        let rest = lex_all(b, step.1, held_after(b, p, h));
                        assert(lex_all(b, p, h) == seq![step] + rest);
                        assert(views(out@) =~= views(before).push(step));
                        assert(views(out@) + rest =~= views(before) + lex_all(b, p, h));
                    }
                },
                None => {
                    proof {
                        assert(lex_all(b, p, h) =~= Seq::empty());
                        assert(views(out@) =~= views(out@) + lex_all(b, p, h));
                    }
                    break ;
                },
            }
        }
        out
    }
}

} // verus!
