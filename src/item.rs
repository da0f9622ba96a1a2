use crate::expr_tree::ExprTree;
use crate::token::{LiteralKind, Operator};
use crate::util::Spanned;
use vstd::prelude::*;

verus! {

/// A top-level declaration: a name bound to what it declares.
#[derive(Debug, Clone)]
pub struct Item {
    pub ident: Spanned<String>,
    pub kind: ItemKind,
}

/// What an item declares.
#[derive(Debug, Clone)]
pub enum ItemKind {
    Fn { args: Vec<FnArg>, ty: Option<Ty>, block: Block },
}

/// A named type; `optional` when it is marked nullable by a trailing `?`.
#[derive(Debug, Clone)]
pub struct Ty {
    pub ident: Spanned<String>,
    pub optional: bool,
}

/// One parameter of a function: its name and type.
#[derive(Debug, Clone)]
pub struct FnArg {
    pub ident: Spanned<String>,
    pub ty: Ty,
}

/// A function body: statements, each ended by `;`, then an optional trailing expression.
#[derive(Debug, Clone)]
pub struct Block {
    pub statements: Vec<Statement>,
    pub trailing_expr: Option<ExprTree<Value, Operator>>,
}

#[derive(Debug, Clone)]
pub enum Statement {
    VariableInit { ident: Spanned<String>, expr: ExprTree<Value, Operator> },
}

/// A leaf of an expression.
#[derive(Debug, Clone)]
pub enum Value {
    Ident(Spanned<String>),
    Literal { value: Spanned<String>, kind: LiteralKind },
}

/// A spanned text seen as a character sequence.
pub open spec fn text_view(s: Spanned<String>) -> Spanned<Seq<char>> {
    Spanned { start: s.start, end: s.end, value: s.value@ }
}

pub struct TyView {
    pub ident: Spanned<Seq<char>>,
    pub optional: bool,
}

pub struct FnArgView {
    pub ident: Spanned<Seq<char>>,
    pub ty: TyView,
}

/// The content of a function item: its name, parameters, return type, and whether its body is
/// empty (no statements and no trailing expression).
pub struct ItemView {
    pub ident: Spanned<Seq<char>>,
    pub args: Seq<FnArgView>,
    pub ty: Option<TyView>,
    pub empty_block: bool,
}

impl View for Ty {
    type V = TyView;

    open spec fn view(&self) -> TyView {
        TyView { ident: text_view(self.ident), optional: self.optional }
    }
}

impl View for FnArg {
    type V = FnArgView;

    open spec fn view(&self) -> FnArgView {
        FnArgView { ident: text_view(self.ident), ty: self.ty@ }
    }
}

pub open spec fn opt_ty_view(t: Option<Ty>) -> Option<TyView> {
    match t {
        Some(ty) => Some(ty@),
        None => None,
    }
}

impl View for Item {
    type V = ItemView;

    open spec fn view(&self) -> ItemView {
        match &self.kind {
            ItemKind::Fn { args, ty, block } => ItemView {
                ident: text_view(self.ident),
                args: args@.map_values(|a: FnArg| a@),
                ty: opt_ty_view(*ty),
                empty_block: block.statements@.len() == 0 && block.trailing_expr is None,
            },
        }
    }
}

} // verus!
