use vstd::prelude::*;
use vstd::string::StringSliceAdditionalSpecFns;

verus! {

/// One lexical unit of Razor source.
#[allow(inconsistent_fields)]
#[derive(Debug, Clone)]
pub enum Token {
    Ident(String),
    Assignment(Assignment),
    Eq,
    Brace { open: bool, kind: BraceKind },
    QuestionMark,
    SemiColon,
    Colon,
    Dot,
    Ampersand,
    Comma,
    Literal { value: String, kind: LiteralKind },
    Keyword(Keyword),
    Arrow,
    Operator(Operator),
}

/// The mathematical content of a [`Token`]: its text payloads as character sequences.
#[allow(inconsistent_fields)]
pub enum TokenView {
    Ident(Seq<char>),
    Assignment(Assignment),
    Eq,
    Brace { open: bool, kind: BraceKind },
    QuestionMark,
    SemiColon,
    Colon,
    Dot,
    Ampersand,
    Comma,
    Literal { value: Seq<char>, kind: LiteralKind },
    Keyword(Keyword),
    Arrow,
    Operator(Operator),
}

impl View for Token {
    type V = TokenView;

    open spec fn view(&self) -> TokenView {
        match self {
            Token::Ident(s) => TokenView::Ident(s@),
            Token::Assignment(a) => TokenView::Assignment(*a),
            Token::Eq => TokenView::Eq,
            Token::Brace { open, kind } => TokenView::Brace { open: *open, kind: *kind },
            Token::QuestionMark => TokenView::QuestionMark,
            Token::SemiColon => TokenView::SemiColon,
            Token::Colon => TokenView::Colon,
            Token::Dot => TokenView::Dot,
            Token::Ampersand => TokenView::Ampersand,
            Token::Comma => TokenView::Comma,
            Token::Literal { value, kind } => TokenView::Literal { value: value@, kind: *kind },
            Token::Keyword(k) => TokenView::Keyword(*k),
            Token::Arrow => TokenView::Arrow,
            Token::Operator(o) => TokenView::Operator(*o),
        }
    }
}

/// The binary arithmetic operators.
#[derive(Debug, Clone, Copy, PartialEq, Eq, Structural)]
pub enum Operator {
    Plus,
    Minus,
    Star,
    Slash,
}

impl crate::expr_tree::Operator for Operator {
    /// Multiplication and division bind tighter than addition and subtraction.
    open spec fn spec_precedence(&self) -> u32 {
        match self {
            Operator::Plus | Operator::Minus => 1,
            Operator::Star | Operator::Slash => 2,
        }
    }

    fn precedence(&self) -> (r: u32) {
        match self {
            Operator::Plus | Operator::Minus => 1,
            Operator::Star | Operator::Slash => 2,
        }
    }
}

/// The reserved words of the language.
#[derive(Debug, Clone, Copy, PartialEq, Eq, Structural)]
pub enum Keyword {
    Struct,
    Fn,
    For,
    Pub,
    If,
    Else,
    Get,
    As,
}

/// Returned when a text is not one of the reserved words.
#[derive(Debug, Clone, Copy, PartialEq, Eq, Structural)]
pub struct UnknownKeywordError;

/// The reserved word spelled by the bytes `t`, if any.
pub open spec fn keyword_of(t: Seq<u8>) -> Option<Keyword> {
    if t == seq!['s' as u8, 't' as u8, 'r' as u8, 'u' as u8, 'c' as u8, 't' as u8] {
        Some(Keyword::Struct)
    } else if t == seq!['f' as u8, 'n' as u8] {
        Some(Keyword::Fn)
    } else if t == seq!['f' as u8, 'o' as u8, 'r' as u8] {
        Some(Keyword::For)
    } else if t == seq!['p' as u8, 'u' as u8, 'b' as u8] {
        Some(Keyword::Pub)
    } else if t == seq!['i' as u8, 'f' as u8] {
        Some(Keyword::If)
    } else if t == seq!['e' as u8, 'l' as u8, 's' as u8, 'e' as u8] {
        Some(Keyword::Else)
    } else if t == seq!['g' as u8, 'e' as u8, 't' as u8] {
        Some(Keyword::Get)
    } else if t == seq!['a' as u8, 's' as u8] {
        Some(Keyword::As)
    } else {
        None
    }
}

/// True when `b` holds exactly the bytes of `w`.
fn bytes_are(b: &[u8], w: &[u8]) -> (r: bool)
    ensures
        r == (b@ == w@),
{
    if b.len() != w.len() {
        return false;
    }
    let mut i: usize = 0;
    while i < b.len()
        invariant
            b@.len() == w@.len(),
            i <= b@.len(),
            forall|j: int| 0 <= j < i ==> b@[j] == w@[j],
        decreases b@.len() - i,
    {
        if b[i] != w[i] {
            return false;
        }
        i += 1;
    }
    assert(b@ =~= w@);
    true
}

impl Keyword {
    /// Looks up the reserved word spelled by `s`.
    pub fn from_str(s: &str) -> (r: Result<Keyword, UnknownKeywordError>)
        ensures
            match keyword_of(s.spec_bytes()) {
                Some(k) => r == Ok::<Keyword, UnknownKeywordError>(k),
                None => r is Err,
            },
    {
        let b = s.as_bytes();
        if bytes_are(b, &['s' as u8, 't' as u8, 'r' as u8, 'u' as u8, 'c' as u8, 't' as u8]) {
            Ok(Keyword::Struct)
        } else if bytes_are(b, &['f' as u8, 'n' as u8]) {
            Ok(Keyword::Fn)
        } else if bytes_are(b, &['f' as u8, 'o' as u8, 'r' as u8]) {
            Ok(Keyword::For)
        } else if bytes_are(b, &['p' as u8, 'u' as u8, 'b' as u8]) {
            Ok(Keyword::Pub)
        } else if bytes_are(b, &['i' as u8, 'f' as u8]) {
            Ok(Keyword::If)
        } else if bytes_are(b, &['e' as u8, 'l' as u8, 's' as u8, 'e' as u8]) {
            Ok(Keyword::Else)
        } else if bytes_are(b, &['g' as u8, 'e' as u8, 't' as u8]) {
            Ok(Keyword::Get)
        } else if bytes_are(b, &['a' as u8, 's' as u8]) {
            Ok(Keyword::As)
        } else {
            Err(UnknownKeywordError)
        }
    }
}

/// The two assignment forms: `:=` and `?=`.
#[derive(Debug, Clone, Copy, PartialEq, Eq, Structural)]
pub enum Assignment {
    Normal,
    Optional,
}

/// What a literal token denotes.
#[derive(Debug, Clone, Copy, PartialEq, Eq, Structural)]
pub enum LiteralKind {
    String,
    Int,
    Float,
}

/// The three bracket shapes: `{}`, `[]` and `()`.
#[derive(Debug, Clone, Copy, PartialEq, Eq, Structural)]
pub enum BraceKind {
    Curly,
    Square,
    Smooth,
}

} // verus!
