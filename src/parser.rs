use crate::item::{
    opt_ty_view, text_view, Block, FnArg, FnArgView, Item, ItemKind, ItemView, Ty, TyView,
};
use crate::token::{Assignment, BraceKind, Keyword, Token, TokenView};
use crate::util::{Span, Spanned};
use vstd::prelude::*;

verus! {

/// The kinds of token the item grammar asks for at one point or another.
#[derive(Debug, Clone, Copy, PartialEq, Eq, Structural)]
pub enum Expected {
    /// The name that starts an item.
    Identifier,
    /// `:=` after the item's name.
    Assign,
    /// The `fn` keyword.
    FnKeyword,
    /// `(` opening the parameter list.
    OpenParen,
    /// A parameter name, or `)` closing the list.
    ArgOrCloseParen,
    /// `,` or `)` after a parameter.
    CommaOrCloseParen,
    /// `:` between a parameter's name and its type.
    Colon,
    /// A type name.
    Type,
    /// `{` opening the body.
    OpenCurly,
    /// `}` closing the body.
    CloseCurly,
}

/// Why an item could not be parsed.
#[derive(Debug, Clone)]
pub enum ParseError {
    /// `found` stands where a token of the kind `expected` was needed.
    ExpectedToken { expected: Expected, found: Spanned<Token> },
    /// The tokens ran out where one of the kind `expected` was needed; `at` is the end of the
    /// last token.
    UnexpectedEndOfInput { expected: Expected, at: usize },
}

impl ParseError {
    /// The source range the error points at: the offending token, or an empty range at the end
    /// of the last token when the tokens ran out.
    pub fn range(&self) -> (r: std::ops::Range<usize>)
        ensures
            match self {
                ParseError::ExpectedToken { found, .. } => r.start == found.start && r.end
                    == found.end,
                ParseError::UnexpectedEndOfInput { at, .. } => r.start == at && r.end == at,
            },
    {
        match self {
            ParseError::ExpectedToken { found, .. } => found.start..found.end,
            ParseError::UnexpectedEndOfInput { at, .. } => *at..*at,
        }
    }
}

pub enum ParseErrorView {
    ExpectedToken { expected: Expected, found: Spanned<TokenView> },
    UnexpectedEndOfInput { expected: Expected, at: int },
}

impl View for ParseError {
    type V = ParseErrorView;

    open spec fn view(&self) -> ParseErrorView {
        match self {
            ParseError::ExpectedToken { expected, found } => ParseErrorView::ExpectedToken {
                expected: *expected,
                found: token_view(*found),
            },
            ParseError::UnexpectedEndOfInput { expected, at } => {
                ParseErrorView::UnexpectedEndOfInput { expected: *expected, at: *at as int }
            },
        }
    }
}

pub open spec fn token_view(t: Spanned<Token>) -> Spanned<TokenView> {
    Spanned { start: t.start, end: t.end, value: t.value@ }
}

/// The text of an identifier token, with its span.
pub open spec fn ident_view(t: Spanned<Token>) -> Spanned<Seq<char>> {
    Spanned {
        start: t.start,
        end: t.end,
        value: match t.value {
            Token::Ident(s) => s@,
            _ => Seq::empty(),
        },
    }
}

pub open spec fn close_paren() -> TokenView {
    TokenView::Brace { open: false, kind: BraceKind::Smooth }
}

/// True when a token of kind `tok` is what `e` asks for.
pub open spec fn fits(tok: TokenView, e: Expected) -> bool {
    match e {
        Expected::Identifier | Expected::Type => tok is Ident,
        Expected::Assign => tok == TokenView::Assignment(Assignment::Normal),
        Expected::FnKeyword => tok == TokenView::Keyword(Keyword::Fn),
        Expected::OpenParen => tok == TokenView::Brace { open: true, kind: BraceKind::Smooth },
        Expected::ArgOrCloseParen => tok is Ident || tok == close_paren(),
        Expected::CommaOrCloseParen => tok == TokenView::Comma || tok == close_paren(),
        Expected::Colon => tok == TokenView::Colon,
        Expected::OpenCurly => tok == TokenView::Brace { open: true, kind: BraceKind::Curly },
        Expected::CloseCurly => tok == TokenView::Brace { open: false, kind: BraceKind::Curly },
    }
}

/// True when the token at `j` exists and is what `e` asks for.
pub open spec fn token_is(t: Seq<Spanned<Token>>, j: int, e: Expected) -> bool {
    0 <= j < t.len() && fits(t[j].value@, e)
}

/// The failure when what stands at `j` is not what `e` asks for: how many tokens the item took,
/// up to and including the offending one, and the error, spanned by that token, or by an empty
/// range at the end of the last token when the tokens ran out.
pub open spec fn miss(t: Seq<Spanned<Token>>, j: int, e: Expected) -> (int, ParseErrorView) {
    if j < t.len() {
        (j + 1, ParseErrorView::ExpectedToken { expected: e, found: token_view(t[j]) })
    } else {
        (
            t.len() as int,
            ParseErrorView::UnexpectedEndOfInput {
                expected: e,
                at: if t.len() > 0 {
                    t.last().end as int
                } else {
                    0
                },
            },
        )
    }
}

/// `type := IDENT '?'?` at `j`: the type and the position after it.
pub open spec fn parse_ty(t: Seq<Spanned<Token>>, j: int) -> Result<
    (TyView, int),
    (int, ParseErrorView),
> {
    if !token_is(t, j, Expected::Type) {
        Err(miss(t, j, Expected::Type))
    } else if j + 1 < t.len() && t[j + 1].value@ == TokenView::QuestionMark {
        Ok((TyView { ident: ident_view(t[j]), optional: true }, j + 2))
    } else {
        Ok((TyView { ident: ident_view(t[j]), optional: false }, j + 1))
    }
}

/// The parameter list from `j` up to and including its `)`: `arg (',' arg)* ','?` with
/// `arg := IDENT ':' type`. `after_arg` tells whether a parameter was just read.
pub open spec fn parse_args(t: Seq<Spanned<Token>>, j: int, after_arg: bool) -> Result<
    (Seq<FnArgView>, int),
    (int, ParseErrorView),
>
    decreases t.len() - j,
{
    if j < 0 || j >= t.len() {
        Err(
            miss(
                t,
                t.len() as int,
                if after_arg {
                    Expected::CommaOrCloseParen
                } else {
                    Expected::ArgOrCloseParen
                },
            ),
        )
    } else if t[j].value@ == close_paren() {
        Ok((Seq::empty(), j + 1))
    } else if after_arg {
        if t[j].value@ == TokenView::Comma {
            parse_args(t, j + 1, false)
        } else {
            Err(miss(t, j, Expected::CommaOrCloseParen))
        }
    } else if !(t[j].value@ is Ident) {
        Err(miss(t, j, Expected::ArgOrCloseParen))
    } else if !token_is(t, j + 1, Expected::Colon) {
        Err(miss(t, j + 1, Expected::Colon))
    } else {
        match parse_ty(t, j + 2) {
            Err(e) => Err(e),
            Ok((ty, k)) => match parse_args(t, k, true) {
                Err(e) => Err(e),
                Ok((rest, m)) => Ok(
                    (seq![FnArgView { ident: ident_view(t[j]), ty }] + rest, m),
                ),
            },
        }
    }
}

/// The first `}` at or after `j`.
pub open spec fn close_curly(t: Seq<Spanned<Token>>, j: int) -> Option<int>
    decreases t.len() - j,
{
    if j < 0 || j >= t.len() {
        None
    } else if token_is(t, j, Expected::CloseCurly) {
        Some(j)
    } else {
        close_curly(t, j + 1)
    }
}

/// The optional `'->' type` at `j`, and the position after it.
pub open spec fn parse_return(t: Seq<Spanned<Token>>, j: int) -> Result<
    (Option<TyView>, int),
    (int, ParseErrorView),
> {
    if 0 <= j < t.len() && t[j].value@ == TokenView::Arrow {
        match parse_ty(t, j + 1) {
            Err(e) => Err(e),
            Ok((ty, k)) => Ok((Some(ty), k)),
        }
    } else {
        Ok((None, j))
    }
}

/// One item read from the front of `t`:
/// `IDENT ':=' 'fn' '(' arg_list? ')' ('->' type)? '{' ... '}'`, where the body's tokens are
/// passed over up to the first `}`. Gives how many tokens the item took and what it is.
pub open spec fn parse_item(t: Seq<Spanned<Token>>) -> (int, Result<ItemView, ParseErrorView>) {
    let failed = |m: (int, ParseErrorView)| (m.0, Err::<ItemView, ParseErrorView>(m.1));
    if !token_is(t, 0, Expected::Identifier) {
        failed(miss(t, 0, Expected::Identifier))
    } else if !token_is(t, 1, Expected::Assign) {
        failed(miss(t, 1, Expected::Assign))
    } else if !token_is(t, 2, Expected::FnKeyword) {
        failed(miss(t, 2, Expected::FnKeyword))
    } else if !token_is(t, 3, Expected::OpenParen) {
        failed(miss(t, 3, Expected::OpenParen))
    } else {
        match parse_args(t, 4, false) {
            Err(m) => failed(m),
            Ok((args, j)) => match parse_return(t, j) {
                Err(m) => failed(m),
                Ok((ty, k)) => if !token_is(t, k, Expected::OpenCurly) {
                    failed(miss(t, k, Expected::OpenCurly))
                } else {
                    match close_curly(t, k + 1) {
                        None => failed(miss(t, t.len() as int, Expected::CloseCurly)),
                        Some(c) => (
                            c + 1,
                            Ok(
                                ItemView { ident: ident_view(t[0]), args, ty, empty_block: true },
                            ),
                        ),
                    }
                },
            },
        }
    }
}

proof fn lemma_step_past(t: Seq<Spanned<Token>>, j: int)
    requires
        0 <= j < t.len(),
    ensures
        t.subrange(j, t.len() as int).drop_first() == t.subrange(j + 1, t.len() as int),
{
    assert(t.subrange(j, t.len() as int).drop_first() =~= t.subrange(j + 1, t.len() as int));
}

/// What an item parse gives, seen through the views.
pub open spec fn outcome_view(r: Result<Item, ParseError>) -> Result<ItemView, ParseErrorView> {
    match r {
        Ok(item) => Ok(item@),
        Err(e) => Err(e@),
    }
}

/// The view of one element that the parser yields: its span and the item or error in it.
pub open spec fn spanned_outcome(x: Result<Spanned<Item>, Spanned<ParseError>>) -> (
    int,
    int,
    Result<ItemView, ParseErrorView>,
) {
    match x {
        Ok(i) => (i.start as int, i.end as int, Ok(i.value@)),
        Err(e) => (e.start as int, e.end as int, Err(e.value@)),
    }
}

pub open spec fn prefix_args(
    pre: Seq<FnArgView>,
    r: Result<(Seq<FnArgView>, int), (int, ParseErrorView)>,
) -> Result<(Seq<FnArgView>, int), (int, ParseErrorView)> {
    match r {
        Ok((rest, m)) => Ok((pre + rest, m)),
        Err(e) => Err(e),
    }
}

/// True when `tok` is what `e` asks for.
fn fits_token(tok: &Token, e: Expected) -> (r: bool)
    ensures
        r == fits(tok@, e),
{
    match e {
        Expected::Identifier | Expected::Type => matches!(tok, Token::Ident(_)),
        Expected::Assign => matches!(tok, Token::Assignment(Assignment::Normal)),
        Expected::FnKeyword => matches!(tok, Token::Keyword(Keyword::Fn)),
        Expected::OpenParen => matches!(tok, Token::Brace { open: true, kind: BraceKind::Smooth }),
        Expected::ArgOrCloseParen => matches!(tok, Token::Ident(_)) || matches!(
            tok,
            Token::Brace { open: false, kind: BraceKind::Smooth }
        ),
        Expected::CommaOrCloseParen => matches!(tok, Token::Comma) || matches!(
            tok,
            Token::Brace { open: false, kind: BraceKind::Smooth }
        ),
        Expected::Colon => matches!(tok, Token::Colon),
        Expected::OpenCurly => matches!(tok, Token::Brace { open: true, kind: BraceKind::Curly }),
        Expected::CloseCurly => matches!(tok, Token::Brace { open: false, kind: BraceKind::Curly }),
    }
}

/// Starts a parser over `tokens`, front to back.
pub fn parse(tokens: Vec<Spanned<Token>>) -> (r: ItemIter)
    ensures
        r.rest() == tokens@,
{
    let ghost all = tokens@;
    let mut tokens = tokens;
    let mut reversed: Vec<Spanned<Token>> = Vec::new();
    while tokens.len() > 0
        invariant
            tokens@.len() + reversed@.len() == all.len(),
            tokens@ == all.subrange(0, tokens@.len() as int),
            forall|k: int|
                0 <= k < reversed@.len() ==> #[trigger] reversed@[k] == all[all.len() - 1 - k],
        decreases tokens@.len(),
    {
        let t = tokens.pop().unwrap();
        reversed.push(t);
    }
    let r = ItemIter { tokens: reversed, index: 0 };
    assert(r.rest() =~= all);
    r
}

/// A pull-based parser: each call of [`ItemIter::next`] yields at most one item or error.
pub struct ItemIter {
    /// The tokens not yet consumed, the next one last.
    tokens: Vec<Spanned<Token>>,
    /// The end of the last token consumed.
    index: usize,
}

impl ItemIter {
    /// The tokens not yet consumed, in order.
    pub closed spec fn rest(&self) -> Seq<Spanned<Token>> {
        Seq::new(self.tokens@.len(), |k: int| self.tokens@[self.tokens@.len() - 1 - k])
    }

    pub closed spec fn last_end(&self) -> int {
        self.index as int
    }

    fn peek_token(&self) -> (r: Option<&Spanned<Token>>)
        ensures
            match r {
                Some(x) => self.rest().len() > 0 && *x == self.rest()[0],
                None => self.rest().len() == 0,
            },
    {
        if self.tokens.len() > 0 {
            Some(&self.tokens[self.tokens.len() - 1])
        } else {
            None
        }
    }

    fn next_token(&mut self) -> (r: Option<Spanned<Token>>)
        ensures
            match r {
                Some(x) => old(self).rest().len() > 0 && x == old(self).rest()[0]
                    && final(self).rest() == old(self).rest().drop_first()
                    && final(self).last_end() == x.end,
                None => old(self).rest().len() == 0 && final(self).rest() == old(self).rest()
                    && final(self).last_end() == old(self).last_end(),
            },
    {
        match self.tokens.pop() {
            Some(token) => {
                self.index = token.end;
                proof {
                    assert(self.rest() =~= old(self).rest().drop_first());
                }
                Some(token)
            },
            None => None,
        }
    }

    /// Consumes the token at position `j` of the item's tokens `t`, which must be of the kind
    /// `e`.
    fn expect(
        &mut self,
        e: Expected,
        Ghost(t): Ghost<Seq<Spanned<Token>>>,
        Ghost(j): Ghost<int>,
    ) -> (r: Result<Spanned<Token>, ParseError>)
        requires
            1 <= j <= t.len(),
            old(self).rest() == t.subrange(j, t.len() as int),
            old(self).last_end() == t[j - 1].end,
        ensures
            j < t.len() ==> final(self).rest() == t.subrange(j + 1, t.len() as int)
                && final(self).last_end() == t[j].end,
            j == t.len() ==> final(self).rest() == old(self).rest() && final(self).last_end()
                == old(self).last_end(),
            token_is(t, j, e) ==> r == Ok::<Spanned<Token>, ParseError>(t[j]),
            !token_is(t, j, e) ==> (r matches Err(err) && err@ == miss(t, j, e).1),
    {
        match self.next_token() {
            Some(token) => {
                proof {
                    lemma_step_past(t, j);
                }
                if fits_token(&token.value, e) {
                    Ok(token)
                } else {
                    Err(ParseError::ExpectedToken { expected: e, found: token })
                }
            },
            None => Err(ParseError::UnexpectedEndOfInput { expected: e, at: self.index }),
        }
    }

    /// Reads `type := IDENT '?'?` from position `j` of the item's tokens `t`.
    fn next_ty(
        &mut self,
        Ghost(t): Ghost<Seq<Spanned<Token>>>,
        Ghost(j): Ghost<int>,
    ) -> (r: Result<Ty, ParseError>)
        requires
            1 <= j <= t.len(),
            old(self).rest() == t.subrange(j, t.len() as int),
            old(self).last_end() == t[j - 1].end,
        ensures
            match parse_ty(t, j) {
                Ok((ty, k)) => r matches Ok(x) && x@ == ty && j < k <= t.len()
                    && final(self).rest() == t.subrange(k, t.len() as int)
                    && final(self).last_end() == t[k - 1].end,
                Err((m, err)) => r matches Err(x) && x@ == err && j <= m <= t.len()
                    && final(self).rest() == t.subrange(m, t.len() as int)
                    && (m > 0 ==> final(self).last_end() == t[m - 1].end),
            },
    {
        let ident = match self.next_token() {
            Some(Spanned { start, end, value: Token::Ident(ident) }) => ident.span(start..end),
            Some(found) => {
                return Err(ParseError::ExpectedToken { expected: Expected::Type, found });
            },
            None => {
                return Err(ParseError::UnexpectedEndOfInput { expected: Expected::Type, at: self.index });
            },
        };
        proof {
            lemma_step_past(t, j);
        }
        let optional = match self.peek_token() {
            Some(next) => matches!(next.value, Token::QuestionMark),
            None => false,
        };
        if optional {
            let _ = self.next_token();
            proof {
                lemma_step_past(t, j + 1);
            }
        }
        Ok(Ty { ident, optional })
    }

    /// Reads the rest of the item whose first token, `token`, was just consumed.
    fn next_item(&mut self, token: Spanned<Token>) -> (r: Result<Item, ParseError>)
        requires
            old(self).last_end() == token.end,
        ensures
            ({
                let t = seq![token] + old(self).rest();
                let (n, res) = parse_item(t);
                &&& 1 <= n <= t.len()
                &&& final(self).rest() == t.subrange(n, t.len() as int)
                &&& final(self).last_end() == t[n - 1].end
                &&& outcome_view(r) == res
            }),
    {
        let ghost t = seq![token] + self.rest();
        proof {
            assert(self.rest() =~= t.subrange(1, t.len() as int));
        }
        let ident = match token {
            Spanned { start, end, value: Token::Ident(ident) } => ident.span(start..end),
            found => {
                return Err(ParseError::ExpectedToken { expected: Expected::Identifier, found });
            },
        };
        if let Err(e) = self.expect(Expected::Assign, Ghost(t), Ghost(1)) {
            return Err(e);
        }
        if let Err(e) = self.expect(Expected::FnKeyword, Ghost(t), Ghost(2)) {
            return Err(e);
        }
        if let Err(e) = self.expect(Expected::OpenParen, Ghost(t), Ghost(3)) {
            return Err(e);
        }
        // The parameter list, up to and including its `)`.
        let mut args: Vec<FnArg> = Vec::new();
        let mut after_arg = false;
        let ghost mut n: int = 4;
        proof {
            let start = parse_args(t, 4, false);
            assert(prefix_args(Seq::empty(), start) == start) by {
                match parse_args(t, 4, false) {
                    Ok((rest, m)) => {
                        assert(Seq::<FnArgView>::empty() + rest =~= rest);
                    },
                    Err(_) => {},
                }
            }
        }
        loop
            invariant_except_break
                parse_args(t, 4, false) == prefix_args(
                    args@.map_values(|a: FnArg| a@),
                    parse_args(t, n, after_arg),
                ),
            invariant
                t == seq![token] + old(self).rest(),
                token_is(t, 0, Expected::Identifier),
                token_is(t, 1, Expected::Assign),
                token_is(t, 2, Expected::FnKeyword),
                token_is(t, 3, Expected::OpenParen),
                4 <= n <= t.len(),
                self.rest() == t.subrange(n, t.len() as int),
                self.last_end() == t[n - 1].end,
            ensures
                4 <= n <= t.len(),
                self.rest() == t.subrange(n, t.len() as int),
                self.last_end() == t[n - 1].end,
                parse_args(t, 4, false) == Ok::<(Seq<FnArgView>, int), (int, ParseErrorView)>(
                    (args@.map_values(|a: FnArg| a@), n),
                ),
            decreases t.len() - n,
        {
            let ghost pre = args@.map_values(|a: FnArg| a@);
            let token = match self.next_token() {
                Some(token) => token,
                None => {
                    let expected = if after_arg {
                        Expected::CommaOrCloseParen
                    } else {
                        Expected::ArgOrCloseParen
                    };
                    return Err(ParseError::UnexpectedEndOfInput { expected, at: self.index });
                },
            };
            proof {
                lemma_step_past(t, n);
            }
            if matches!(token.value, Token::Brace { open: false, kind: BraceKind::Smooth }) {
                proof {
                    assert(pre + Seq::<FnArgView>::empty() =~= pre);
                    n = n + 1;
                }
                break ;
            }
            if after_arg {
                if !matches!(token.value, Token::Comma) {
                    return Err(
                        ParseError::ExpectedToken { expected: Expected::CommaOrCloseParen, found: token },
                    );
                }
                after_arg = false;
                proof {
                    n = n + 1;
                }
            } else {
                let ident = match token {
                    Spanned { start, end, value: Token::Ident(ident) } => ident.span(start..end),
                    _ => {
                        return Err(
                        ParseError::ExpectedToken { expected: Expected::ArgOrCloseParen, found: token },
                    );
                    },
                };
                if let Err(e) = self.expect(Expected::Colon, Ghost(t), Ghost(n + 1)) {
                    return Err(e);
                }
                let ty = match self.next_ty(Ghost(t), Ghost(n + 2)) {
                    Ok(ty) => ty,
                    Err(e) => {
                        return Err(e);
                    },
                };
                let arg = FnArg { ident, ty };
                let ghost av = arg@;
                args.push(arg);
                after_arg = true;
                proof {
                    let k = match parse_ty(t, n + 2) {
                        Ok((_, k)) => k,
                        Err(_) => n,
                    };
                    assert(args@.map_values(|a: FnArg| a@) =~= pre.push(av));
                    match parse_args(t, k, true) {
                        Ok((rest, m)) => {
                            assert(pre + (seq![av] + rest) =~= pre.push(av) + rest);
                        },
                        Err(_) => {},
                    }
                    n = k;
                }
            }
        }
        let ghost after_args = n;
        // The optional return type.
        let has_return_type = match self.peek_token() {
            Some(next) => matches!(next.value, Token::Arrow),
            None => false,
        };
        let ty = if has_return_type {
            let _ = self.next_token();
            proof {
                lemma_step_past(t, n);
            }
            match self.next_ty(Ghost(t), Ghost(n + 1)) {
                Ok(ty) => {
                    proof {
                        n = match parse_ty(t, after_args + 1) {
                            Ok((_, k)) => k,
                            Err(_) => n,
                        };
                    }
                    Some(ty)
                },
                Err(e) => {
                    return Err(e);
                },
            }
        } else {
            None
        };
        assert(parse_return(t, after_args) matches Ok((v, k)) && v == opt_ty_view(ty) && k == n);
        if let Err(e) = self.expect(Expected::OpenCurly, Ghost(t), Ghost(n)) {
            return Err(e);
        }
        proof {
            n = n + 1;
        }
        // The body: its tokens are passed over up to the closing `}`.
        let ghost body = n;
        let ghost found = ItemView {
            ident: text_view(ident),
            args: args@.map_values(|a: FnArg| a@),
            ty: opt_ty_view(ty),
            empty_block: true,
        };
        loop
            invariant_except_break
                close_curly(t, n) == close_curly(t, body),
            invariant
                t == seq![token] + old(self).rest(),
                close_curly(t, body) is None ==> parse_item(t) == (
                    t.len() as int,
                    Err::<ItemView, ParseErrorView>(
                        miss(t, t.len() as int, Expected::CloseCurly).1,
                    ),
                ),
                close_curly(t, body) matches Some(c) ==> parse_item(t) == (
                    c + 1,
                    Ok::<ItemView, ParseErrorView>(found),
                ),
                1 <= body <= n <= t.len(),
                self.rest() == t.subrange(n, t.len() as int),
                self.last_end() == t[n - 1].end,
            ensures
                body < n <= t.len(),
                self.rest() == t.subrange(n, t.len() as int),
                self.last_end() == t[n - 1].end,
                close_curly(t, body) == Some(n - 1),
            decreases t.len() - n,
        {
            let token = match self.next_token() {
                Some(token) => token,
                None => {
                    return Err(
                    ParseError::UnexpectedEndOfInput { expected: Expected::CloseCurly, at: self.index },
                );
                },
            };
            proof {
                lemma_step_past(t, n);
                n = n + 1;
            }
            if fits_token(&token.value, Expected::CloseCurly) {
                break ;
            }
        }
        let block = Block { statements: Vec::new(), trailing_expr: None };
        Ok(Item { ident, kind: ItemKind::Fn { args, ty, block } })
    }

    /// Reads one item, or the error that ended it, and spans it from the start of its first
    /// token to the end of its last; `None` once the tokens are used up.
    pub fn next(&mut self) -> (r: Option<Result<Spanned<Item>, Spanned<ParseError>>>)
        ensures
            old(self).rest().len() == 0 ==> r is None && final(self).rest() == old(self).rest(),
            old(self).rest().len() > 0 ==> ({
                let t = old(self).rest();
                let (n, res) = parse_item(t);
                &&& 1 <= n <= t.len()
                &&& final(self).rest() == t.subrange(n, t.len() as int)
                &&& r matches Some(x)
                &&& spanned_outcome(x) == (t[0].start as int, t[n - 1].end as int, res)
            }),
    {
        let token = match self.next_token() {
            Some(token) => token,
            None => {
                return None;
            },
        };
        let start = token.start;
        let ghost t = old(self).rest();
        proof {
            assert(seq![token] + self.rest() =~= t);
        }
        match self.next_item(token) {
            Ok(item) => Some(Ok(item.span(start..self.index))),
            Err(error) => Some(Err(error.span(start..self.index))),
        }
    }
}

} // verus!
