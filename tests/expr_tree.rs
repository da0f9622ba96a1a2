use razor::expr_tree::ExprTree;
use razor::token::Operator;

type Tree = ExprTree<&'static str, Operator>;

fn leaf(name: &'static str) -> Tree {
    ExprTree::Value(name)
}

/// Writes a tree fully parenthesized, with groups in square brackets.
fn show(t: &Tree) -> String {
    match t {
        ExprTree::Value(v) => v.to_string(),
        ExprTree::Expression { left, operator, right } => {
            let op = match operator {
                Operator::Plus => "+",
                Operator::Minus => "-",
                Operator::Star => "*",
                Operator::Slash => "/",
            };
            format!("({} {} {})", show(left), op, show(right))
        }
        ExprTree::Enclosed(inner) => format!("[{}]", show(inner)),
    }
}

#[test]
fn tighter_operator_nests_under_the_right_side() {
    let t = leaf("a").append(Operator::Plus, leaf("b")).append(Operator::Star, leaf("x"));
    assert_eq!(show(&t), "(a + (b * x))");
}

#[test]
fn looser_operator_becomes_the_root() {
    let t = leaf("a").append(Operator::Star, leaf("b")).append(Operator::Plus, leaf("x"));
    assert_eq!(show(&t), "((a * b) + x)");
}

#[test]
fn equal_precedence_groups_left() {
    let t = leaf("a")
        .append(Operator::Plus, leaf("b"))
        .append(Operator::Minus, leaf("c"))
        .append(Operator::Plus, leaf("d"));
    assert_eq!(show(&t), "(((a + b) - c) + d)");
    let t = leaf("a")
        .append(Operator::Star, leaf("b"))
        .append(Operator::Slash, leaf("c"));
    assert_eq!(show(&t), "((a * b) / c)");
}

#[test]
fn mixed_chain_follows_precedence() {
    let t = leaf("a")
        .append(Operator::Plus, leaf("b"))
        .append(Operator::Star, leaf("c"))
        .append(Operator::Star, leaf("d"))
        .append(Operator::Minus, leaf("e"))
        .append(Operator::Slash, leaf("f"));
    assert_eq!(show(&t), "((a + ((b * c) * d)) - (e / f))");
}

#[test]
fn enclosed_group_is_opaque() {
    let group = ExprTree::new_enclosed(leaf("a").append(Operator::Plus, leaf("b")));
    let t = group.append(Operator::Star, leaf("c"));
    assert_eq!(show(&t), "([(a + b)] * c)");
    let group = ExprTree::new_enclosed(leaf("a").append(Operator::Star, leaf("b")));
    let t = group.append(Operator::Plus, leaf("c"));
    assert_eq!(show(&t), "([(a * b)] + c)");
}

#[test]
fn group_appended_as_an_operand() {
    let group = ExprTree::new_enclosed(leaf("b").append(Operator::Minus, leaf("c")));
    let t = leaf("a").append(Operator::Star, group);
    assert_eq!(show(&t), "(a * [(b - c)])");
}

#[test]
fn new_expression_builds_one_node() {
    let t = ExprTree::new_expression(leaf("a"), Operator::Slash, leaf("b"));
    assert_eq!(show(&t), "(a / b)");
}

#[test]
fn clone_keeps_the_shape() {
    let t = ExprTree::new_enclosed(leaf("a").append(Operator::Plus, leaf("b")))
        .append(Operator::Star, leaf("c"))
        .append(Operator::Minus, leaf("d"));
    let copy = t.clone();
    assert_eq!(show(&copy), show(&t));
    assert_eq!(show(&copy), "(([(a + b)] * c) - d)");
}
