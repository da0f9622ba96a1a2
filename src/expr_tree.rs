use crate::token;
use vstd::prelude::*;

verus! {

/// An operator that can stand in an [`ExprTree`]: it binds by its precedence, the higher the
/// tighter.
pub trait Operator {
    spec fn spec_precedence(&self) -> u32;

    fn precedence(&self) -> (r: u32)
        ensures
            r == self.spec_precedence(),
    ;
}

/// A binary expression tree over leaf values `T` and operators `O`.
#[derive(Debug)]
pub enum ExprTree<T, O> {
    Value(T),
    Expression { left: Box<ExprTree<T, O>>, operator: O, right: Box<ExprTree<T, O>> },
    /// A parenthesized group: its inside takes no part in the precedence of what surrounds it.
    Enclosed(Box<ExprTree<T, O>>),
}

/// True of a leaf or a parenthesized group: what may be appended to a tree as its new right
/// operand.
pub open spec fn is_operand<T, O>(t: ExprTree<T, O>) -> bool {
    !(t is Expression)
}

/// The tree that appending `(op, right)` to `tree` builds. Only the rightmost spine is walked:
/// an operator that binds tighter than the root goes into the right subtree, any other becomes
/// the new root with the whole old tree as its left operand.
pub open spec fn appended<T, O: Operator>(
    tree: ExprTree<T, O>,
    op: O,
    right: ExprTree<T, O>,
) -> ExprTree<T, O>
    decreases tree,
{
    match tree {
        ExprTree::Expression { left, operator, right: r } => {
            if op.spec_precedence() > operator.spec_precedence() {
                ExprTree::Expression {
                    left,
                    operator,
                    right: Box::new(appended(*r, op, right)),
                }
            } else {
                ExprTree::Expression { left: Box::new(tree), operator: op, right: Box::new(right) }
            }
        },
        _ => ExprTree::Expression { left: Box::new(tree), operator: op, right: Box::new(right) },
    }
}

/// The precedence invariant: below every operator node, a left child that is itself an
/// operator node binds at least as tightly, and a right child that is one binds strictly more
/// tightly. The inside of every group holds to it as well.
pub open spec fn precedence_ok<T, O: Operator>(t: ExprTree<T, O>) -> bool
    decreases t,
{
    match t {
        ExprTree::Value(_) => true,
        ExprTree::Enclosed(inner) => precedence_ok(*inner),
        ExprTree::Expression { left, operator, right } => {
            &&& precedence_ok(*left)
            &&& precedence_ok(*right)
            &&& (match *left {
                ExprTree::Expression { operator: l, .. } => l.spec_precedence()
                    >= operator.spec_precedence(),
                _ => true,
            })
            &&& (match *right {
                ExprTree::Expression { operator: r, .. } => r.spec_precedence()
                    > operator.spec_precedence(),
                _ => true,
            })
        },
    }
}

/// The operands of the tree from left to right; a group counts as one operand.
pub open spec fn operands<T, O>(t: ExprTree<T, O>) -> Seq<ExprTree<T, O>>
    decreases t,
{
    match t {
        ExprTree::Expression { left, right, .. } => operands(*left) + operands(*right),
        _ => seq![t],
    }
}

/// The operators of the tree from left to right, not counting those inside groups.
pub open spec fn operators<T, O>(t: ExprTree<T, O>) -> Seq<O>
    decreases t,
{
    match t {
        ExprTree::Expression { left, operator, right } => operators(*left) + seq![operator]
            + operators(*right),
        _ => Seq::empty(),
    }
}

/// Appending keeps everything already in the tree, in order: the operands and the operators read
/// from left to right are the old ones followed by the new ones.
pub proof fn lemma_append_keeps_order<T, O: Operator>(
    tree: ExprTree<T, O>,
    op: O,
    right: ExprTree<T, O>,
)
    requires
        is_operand(right),
    ensures
        operands(appended(tree, op, right)) == operands(tree).push(right),
        operators(appended(tree, op, right)) == operators(tree).push(op),
    decreases tree,
{
    assert(operands(right) == seq![right]);
    assert(operators(right) == Seq::<O>::empty());
    match tree {
        ExprTree::Expression { left, operator, right: r } => {
            if op.spec_precedence() > operator.spec_precedence() {
                lemma_append_keeps_order(*r, op, right);
                assert(operands(appended(tree, op, right)) =~= operands(tree).push(right));
                assert(operators(appended(tree, op, right)) =~= operators(tree).push(op));
            } else {
                assert(operands(appended(tree, op, right)) =~= operands(tree).push(right));
                assert(operators(appended(tree, op, right)) =~= operators(tree).push(op));
            }
        },
        _ => {
            assert(operands(appended(tree, op, right)) =~= operands(tree).push(right));
            assert(operators(appended(tree, op, right)) =~= operators(tree).push(op));
        },
    }
}

/// The operator at the root of a tree that `append` built: the old root when the new operator
/// went below it, else the new operator.
proof fn lemma_appended_root<T, O: Operator>(tree: ExprTree<T, O>, op: O, right: ExprTree<T, O>)
    ensures
        appended(tree, op, right) matches ExprTree::Expression { operator: top, .. } && (
        top == op || (tree matches ExprTree::Expression { operator: old, .. } && top == old
            && op.spec_precedence() > old.spec_precedence())),
{
}

/// Appending an operand to a tree that holds the precedence invariant gives a tree that holds it.
pub proof fn lemma_append_keeps_precedence<T, O: Operator>(
    tree: ExprTree<T, O>,
    op: O,
    right: ExprTree<T, O>,
)
    requires
        precedence_ok(tree),
        precedence_ok(right),
        is_operand(right),
    ensures
        precedence_ok(appended(tree, op, right)),
    decreases tree,
{
    if let ExprTree::Expression { left, operator, right: r } = tree {
        if op.spec_precedence() > operator.spec_precedence() {
            lemma_append_keeps_precedence(*r, op, right);
            lemma_appended_root(*r, op, right);
        }
    }
}

/// A group is opaque: whatever operators it holds, an operator appended after it becomes a new
/// root above it.
pub proof fn lemma_enclosed_is_opaque<T, O: Operator>(
    inner: ExprTree<T, O>,
    op: O,
    right: ExprTree<T, O>,
)
    ensures
        appended(ExprTree::Enclosed(Box::new(inner)), op, right) == (ExprTree::Expression {
            left: Box::new(ExprTree::Enclosed(Box::new(inner))),
            operator: op,
            right: Box::new(right),
        }),
{
}

/// `*` appended to a tree whose root is `+` goes below the root, into its right operand: from
/// `a + b` and `* x` comes `a + (b * x)`.
pub proof fn lemma_tighter_operator_nests<T>(
    a: ExprTree<T, token::Operator>,
    b: ExprTree<T, token::Operator>,
    x: ExprTree<T, token::Operator>,
)
    ensures
        appended(
            ExprTree::Expression {
                left: Box::new(a),
                operator: token::Operator::Plus,
                right: Box::new(b),
            },
            token::Operator::Star,
            x,
        ) == (ExprTree::Expression {
            left: Box::new(a),
            operator: token::Operator::Plus,
            right: Box::new(appended(b, token::Operator::Star, x)),
        }),
        is_operand(b) ==> appended(
            ExprTree::Expression {
                left: Box::new(a),
                operator: token::Operator::Plus,
                right: Box::new(b),
            },
            token::Operator::Star,
            x,
        ) == (ExprTree::Expression {
            left: Box::new(a),
            operator: token::Operator::Plus,
            right: Box::new(
                ExprTree::Expression {
                    left: Box::new(b),
                    operator: token::Operator::Star,
                    right: Box::new(x),
                },
            ),
        }),
{
}

/// `+` appended to a tree whose root is `*` becomes the new root: from `a * b` and `+ x` comes
/// `(a * b) + x`.
pub proof fn lemma_looser_operator_becomes_root<T>(
    a: ExprTree<T, token::Operator>,
    b: ExprTree<T, token::Operator>,
    x: ExprTree<T, token::Operator>,
)
    ensures
        appended(
            ExprTree::Expression {
                left: Box::new(a),
                operator: token::Operator::Star,
                right: Box::new(b),
            },
            token::Operator::Plus,
            x,
        ) == (ExprTree::Expression {
            left: Box::new(
                ExprTree::Expression {
                    left: Box::new(a),
                    operator: token::Operator::Star,
                    right: Box::new(b),
                },
            ),
            operator: token::Operator::Plus,
            right: Box::new(x),
        }),
{
}

/// Operators of equal precedence group to the left: `a + b - c + d` builds `((a + b) - c) + d`.
pub proof fn lemma_equal_precedence_groups_left<T>(
    a: ExprTree<T, token::Operator>,
    b: ExprTree<T, token::Operator>,
    c: ExprTree<T, token::Operator>,
    d: ExprTree<T, token::Operator>,
)
    requires
        is_operand(a),
    ensures
        appended(
            appended(appended(a, token::Operator::Plus, b), token::Operator::Minus, c),
            token::Operator::Plus,
            d,
        ) == (ExprTree::Expression {
            left: Box::new(
                ExprTree::Expression {
                    left: Box::new(
                        ExprTree::Expression {
                            left: Box::new(a),
                            operator: token::Operator::Plus,
                            right: Box::new(b),
                        },
                    ),
                    operator: token::Operator::Minus,
                    right: Box::new(c),
                },
            ),
            operator: token::Operator::Plus,
            right: Box::new(d),
        }),
{
}

impl<T: Clone, O: Clone> Clone for ExprTree<T, O> {
    /// A copy of the tree of the same shape, made by cloning each value and operator.
    fn clone(&self) -> (r: Self)
        decreases self,
    {
        match self {
            ExprTree::Value(v) => ExprTree::Value(v.clone()),
            ExprTree::Expression { left, operator, right } => {
                let l = ExprTree::clone(&**left);
                let r = ExprTree::clone(&**right);
                let operator = operator.clone();
                ExprTree::Expression { left: Box::new(l), operator, right: Box::new(r) }
            },
            ExprTree::Enclosed(inner) => {
                let inner = ExprTree::clone(&**inner);
                ExprTree::Enclosed(Box::new(inner))
            },
        }
    }
}

impl<T, O> ExprTree<T, O> {
    pub fn new_expression(left: ExprTree<T, O>, operator: O, right: ExprTree<T, O>) -> (r: Self)
        ensures
            r == (ExprTree::Expression { left: Box::new(left), operator, right: Box::new(right) }),
    {
        ExprTree::Expression { operator, left: Box::new(left), right: Box::new(right) }
    }

    pub fn new_enclosed(node: ExprTree<T, O>) -> (r: Self)
        ensures
            r == ExprTree::Enclosed(Box::new(node)),
    {
        ExprTree::Enclosed(Box::new(node))
    }
}

impl<T, O: Operator> ExprTree<T, O> {
    /// Extends the tree by one more operator and right operand, keeping the precedence
    /// invariant.
    pub fn append(self, operator: O, right: ExprTree<T, O>) -> (r: Self)
        ensures
            r == appended(self, operator, right),
        decreases self,
    {
        match self {
            ExprTree::Expression { left, operator: self_operator, right: self_right } => {
                if operator.precedence() > self_operator.precedence() {
                    let nested = (*self_right).append(operator, right);
                    ExprTree::Expression {
                        left,
                        operator: self_operator,
                        right: Box::new(nested),
                    }
                } else {
                    let old = ExprTree::Expression {
                        left,
                        operator: self_operator,
                        right: self_right,
                    };
                    ExprTree::new_expression(old, operator, right)
                }
            },
            other => ExprTree::new_expression(other, operator, right),
        }
    }
}

} // verus!
