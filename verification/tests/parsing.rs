use shunting_yard::{expr, expr_bp, Lexer, ParseError, S};

fn printed(line: &str) -> String {
    match expr(line) {
        Ok(tree) => tree.to_string(),
        Err(e) => panic!("{:?}", e),
    }
}

fn failure(line: &str) -> ParseError {
    match expr(line) {
        Ok(tree) => panic!("parsed as {}", tree.to_string()),
        Err(e) => e,
    }
}

#[test]
fn single_atom_is_printed_as_itself() {
    assert_eq!(printed("1"), "1");
    assert_eq!(printed("z"), "z");
    assert_eq!(printed("Q"), "Q");
}

#[test]
fn every_atom_round_trips() {
    for c in ('0'..='9').chain('a'..='z').chain('A'..='Z') {
        let line = c.to_string();
        assert_eq!(printed(&line), line);
    }
}

#[test]
fn parentheses_around_an_atom_vanish() {
    assert_eq!(printed("(1)"), "1");
    assert_eq!(printed("((1))"), "1");
    assert_eq!(printed("(((((x)))))"), "x");
}

#[test]
fn parentheses_around_an_expression_vanish() {
    assert_eq!(printed("1 + 2"), "(+ 1 2)");
    assert_eq!(printed("(1 + 2)"), "(+ 1 2)");
    assert_eq!(printed("((1 + 2))"), "(+ 1 2)");
}

#[test]
fn multiplication_binds_tighter_than_addition() {
    assert_eq!(printed("1 + 2 * 3"), "(+ 1 (* 2 3))");
    assert_eq!(printed("1 * 2 + 3"), "(+ (* 1 2) 3)");
    assert_eq!(printed("8 / 4 - 2"), "(- (/ 8 4) 2)");
}

#[test]
fn subtraction_nests_to_the_left() {
    assert_eq!(printed("1 - 2 - 3"), "(- (- 1 2) 3)");
    assert_eq!(printed("1 + 2 - 3"), "(- (+ 1 2) 3)");
    assert_eq!(printed("8 / 4 * 2"), "(* (/ 8 4) 2)");
}

#[test]
fn assignment_nests_to_the_right() {
    assert_eq!(printed("a = b = c"), "(= a (= b c))");
}

#[test]
fn prefix_minus_binds_only_its_operand() {
    assert_eq!(printed("- 1 + 2"), "(+ (- 1) 2)");
    assert_eq!(printed("+ 1"), "(+ 1)");
    assert_eq!(printed("- - 1"), "(- (- 1))");
    assert_eq!(printed("1 - - 2"), "(- 1 (- 2))");
}

#[test]
fn prefix_minus_spans_a_product() {
    assert_eq!(printed("- 1 * 2"), "(* (- 1) 2)");
    assert_eq!(printed("- a . b"), "(- (. a b))");
}

#[test]
fn postfix_bang() {
    assert_eq!(printed("1 !"), "(! 1)");
    assert_eq!(printed("1 ! !"), "(! (! 1))");
    assert_eq!(printed("- a !"), "(- (! a))");
    assert_eq!(printed("a . b !"), "(! (. a b))");
    assert_eq!(printed("1 + 2 !"), "(+ 1 (! 2))");
}

#[test]
fn dot_binds_tightest() {
    assert_eq!(printed("a . b"), "(. a b)");
    assert_eq!(printed("a * b . c"), "(* a (. b c))");
    assert_eq!(printed("a = b + c * d . e"), "(= a (+ b (* c (. d e))))");
}

#[test]
fn dot_chain_follows_its_binding_powers() {
    assert_eq!(printed("a . b . c"), "(. a (. b c))");
}

#[test]
fn parentheses_override_precedence() {
    assert_eq!(printed("(1 + 2) * 3"), "(* (+ 1 2) 3)");
    assert_eq!(printed("1 - (2 - 3)"), "(- 1 (- 2 3))");
    assert_eq!(printed("(a = b) = c"), "(= (= a b) c)");
}

#[test]
fn unclosed_parenthesis_is_malformed() {
    assert_eq!(failure("(1"), ParseError::MalformedParenthesis);
    assert_eq!(failure("("), ParseError::MalformedParenthesis);
    assert_eq!(failure("((1)"), ParseError::MalformedParenthesis);
    assert_eq!(failure("1 + (2 * 3"), ParseError::MalformedParenthesis);
    assert_eq!(failure("(1 #)"), ParseError::MalformedParenthesis);
}

#[test]
fn line_without_expression() {
    assert_eq!(failure(""), ParseError::NoExpression);
    assert_eq!(failure("   \t "), ParseError::NoExpression);
    assert_eq!(failure("#"), ParseError::NoExpression);
    assert_eq!(failure(")"), ParseError::NoExpression);
    assert_eq!(failure("# 1"), ParseError::NoExpression);
    assert_eq!(failure("()"), ParseError::NoExpression);
}

#[test]
fn leading_operator_takes_what_follows() {
    assert_eq!(printed("* 1"), "(* 1)");
    assert_eq!(printed("= 1"), "(= 1)");
    assert_eq!(printed(". a"), "(. a)");
    assert_eq!(printed("!"), "!");
    assert_eq!(printed("* 1 + 2"), "(+ (* 1) 2)");
}

#[test]
fn dangling_operator_keeps_one_operand() {
    assert_eq!(printed("a +"), "(+ a)");
    assert_eq!(printed("a *"), "(* a)");
    assert_eq!(printed("a ="), "(= a)");
    assert_eq!(printed("1 + 2 *"), "(+ 1 (* 2))");
}

#[test]
fn lone_prefix_operator_is_a_leaf() {
    assert_eq!(printed("-"), "-");
    assert_eq!(printed("+"), "+");
}

#[test]
fn adjacent_atoms_stack() {
    assert_eq!(printed("1 2"), "(2 1)");
    assert_eq!(printed("(1) 2"), "(2 1)");
    assert_eq!(printed("(1)(2)"), "2");
}

#[test]
fn parsing_stops_at_a_foreign_character() {
    assert_eq!(printed("1 + 2 # 3"), "(+ 1 2)");
    assert_eq!(printed("1 ) 2"), "1");
    assert_eq!(printed("(1))"), "1");
}

#[test]
fn blanks_do_not_matter() {
    assert_eq!(printed("1+2*3"), "(+ 1 (* 2 3))");
    assert_eq!(printed(" 1\t+ 2\r\n"), "(+ 1 2)");
    assert_eq!(printed("1 \u{c} + 2"), "(+ 1 2)");
}

#[test]
fn tree_shape_of_an_infix_expression() {
    let tree = expr("1 + 2").unwrap();
    let S::Cons(head, rest) = tree;
    assert_eq!(head, '+');
    assert_eq!(rest.len(), 2);
    let S::Cons(left, left_rest) = &rest[0];
    let S::Cons(right, right_rest) = &rest[1];
    assert_eq!((*left, left_rest.len()), ('1', 0));
    assert_eq!((*right, right_rest.len()), ('2', 0));
}

#[test]
fn expr_bp_leaves_what_binds_too_loosely() {
    let mut lexer = Lexer::new("2 * 3 + 4");
    let tree = expr_bp(&mut lexer, 6).unwrap().unwrap();
    assert_eq!(tree.to_string(), "(* 2 3)");
    assert_eq!(lexer.peek(), Some('+'));
    let rest = expr_bp(&mut lexer, 0).unwrap().unwrap();
    assert_eq!(rest.to_string(), "(+ 4)");
    assert_eq!(lexer.peek(), None);
}

#[test]
fn expr_bp_at_the_highest_power_takes_nothing() {
    let mut lexer = Lexer::new("1 + 2");
    assert!(expr_bp(&mut lexer, 100).unwrap().is_none());
    assert_eq!(lexer.next(), Some('1'));
}

#[test]
fn expr_bp_reports_the_unclosed_parenthesis() {
    let mut lexer = Lexer::new("(1 + 2");
    assert!(matches!(expr_bp(&mut lexer, 0), Err(ParseError::MalformedParenthesis)));
}

#[test]
fn write_to_appends() {
    let tree = expr("1 + 2").unwrap();
    let mut out = String::from("=> ");
    tree.write_to(&mut out);
    assert_eq!(out, "=> (+ 1 2)");
}

#[test]
fn hand_built_tree_prints_all_children() {
    let leaf = |c: char| S::Cons(c, Vec::new());
    let tree = S::Cons('f', vec![leaf('x'), S::Cons('g', vec![leaf('y')]), leaf('z')]);
    assert_eq!(tree.to_string(), "(f x (g y) z)");
}
