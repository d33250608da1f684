use evaluator::command::{is_quit, is_quit_word};
use evaluator::expr::{check_priority, evaluate, Expr};
use evaluator::scan::{check_paren_count, chars_of, is_sym, ParseError, Reduction, Scanner};

fn text(v: &[char]) -> String {
    v.iter().collect()
}

fn leaf(k: usize) -> Expr {
    Expr::Operand(k)
}

fn node(op: char, l: Expr, r: Expr) -> Expr {
    Expr::Apply(op, Box::new(l), Box::new(r))
}

fn leaves(n: usize) -> Vec<Expr> {
    (0..n).map(Expr::Operand).collect()
}

/// Reads an expression that holds no parentheses to its end.
fn read_flat(s: &str) -> Result<Reduction, ParseError> {
    let mut sc = Scanner::start(s)?;
    assert!(sc.advance().is_none());
    assert!(sc.at_end());
    sc.finish()
}

fn literal_texts(r: &Reduction) -> Vec<String> {
    r.literals.iter().map(|l| text(l)).collect()
}

#[test]
fn operators_are_recognized() {
    for c in ['+', '-', '*', '/', '%', '^'] {
        assert!(is_sym(c));
    }
    for c in ['a', '(', ')', '1', '.', ' ', '='] {
        assert!(!is_sym(c));
    }
}

#[test]
fn paren_counts() {
    assert!(check_paren_count(""));
    assert!(check_paren_count("((1))*(2)"));
    assert!(!check_paren_count("(1+2"));
    assert!(!check_paren_count("1+2)"));
    assert!(!check_paren_count(")("));
}

#[test]
fn unbalanced_input_is_refused() {
    assert_eq!(Scanner::start("(1+2").err(), Some(ParseError::UnbalancedParenthesis));
    assert_eq!(Scanner::start("1+2)").err(), Some(ParseError::UnbalancedParenthesis));
    assert_eq!(Scanner::start("((1)").err(), Some(ParseError::UnbalancedParenthesis));
    assert!(Scanner::start("(1)").is_ok());
}

#[test]
fn quit_is_recognized_with_surrounding_space() {
    assert!(is_quit("quit"));
    assert!(is_quit("  quit \n"));
    assert!(is_quit("\tquit"));
    assert!(!is_quit("quitx"));
    assert!(!is_quit("q uit"));
    assert!(!is_quit("1+2"));
    assert!(is_quit_word("quit"));
    assert!(!is_quit_word(" quit"));
}

#[test]
fn chars_are_kept_in_order() {
    assert_eq!(chars_of("a(é)"), vec!['a', '(', 'é', ')']);
}

#[test]
fn one_reduction_step() {
    let mut nums = leaves(3);
    let mut syms = vec!['+', '*'];
    check_priority(&mut nums, &mut syms, 1);
    assert_eq!(nums, vec![leaf(0), node('*', leaf(1), leaf(2))]);
    assert_eq!(syms, vec!['+']);
}

#[test]
fn sums_group_from_the_left() {
    let r = evaluate(leaves(3), vec!['-', '+']);
    assert_eq!(r, node('+', node('-', leaf(0), leaf(1)), leaf(2)));
}

#[test]
fn power_binds_tighter_than_product_than_sum() {
    let r = evaluate(leaves(4), vec!['+', '*', '^']);
    assert_eq!(r, node('+', leaf(0), node('*', leaf(1), node('^', leaf(2), leaf(3)))));
}

#[test]
fn same_tier_groups_from_the_left() {
    let r = evaluate(leaves(3), vec!['^', '^']);
    assert_eq!(r, node('^', node('^', leaf(0), leaf(1)), leaf(2)));
    let r = evaluate(leaves(4), vec!['/', '%', '*']);
    assert_eq!(r, node('*', node('%', node('/', leaf(0), leaf(1)), leaf(2)), leaf(3)));
}

#[test]
fn single_operand_stands_alone() {
    assert_eq!(evaluate(leaves(1), vec![]), leaf(0));
}

#[test]
fn flat_expression_is_split_at_operators() {
    let r = read_flat("2^3+4*5").unwrap();
    assert_eq!(literal_texts(&r), vec!["2", "3", "4", "5"]);
    assert_eq!(
        r.tree,
        Some(node('+', node('^', leaf(0), leaf(1)), node('*', leaf(2), leaf(3))))
    );
}

#[test]
fn remainder_is_an_operator() {
    let r = read_flat("10%3").unwrap();
    assert_eq!(literal_texts(&r), vec!["10", "3"]);
    assert_eq!(r.tree, Some(node('%', leaf(0), leaf(1))));
}

#[test]
fn leading_minus_reads_as_zero_minus() {
    let r = read_flat("-5+2").unwrap();
    assert_eq!(literal_texts(&r), vec!["0", "5", "2"]);
    let r = read_flat("3*-2").unwrap();
    assert_eq!(literal_texts(&r), vec!["3", "0", "2"]);
    assert_eq!(r.tree, Some(node('-', node('*', leaf(0), leaf(1)), leaf(2))));
}

#[test]
fn other_characters_are_skipped() {
    let r = read_flat(" 1 2 + x3\n").unwrap();
    assert_eq!(literal_texts(&r), vec!["12", "3"]);
}

#[test]
fn empty_expression_has_no_operands() {
    let r = read_flat("").unwrap();
    assert!(r.literals.is_empty());
    assert_eq!(r.tree, None);
    let r = read_flat("  ").unwrap();
    assert_eq!(r.tree, None);
}

#[test]
fn missing_last_operand_is_an_error() {
    assert_eq!(read_flat("1+").err(), Some(ParseError::MalformedNumber));
    assert_eq!(read_flat("2^").err(), Some(ParseError::InvalidExponent));
    assert_eq!(read_flat("2^3*").err(), Some(ParseError::MalformedNumber));
}

#[test]
fn group_is_handed_out_whole() {
    let mut sc = Scanner::start("(2+3)*4").unwrap();
    let inner = sc.advance().unwrap();
    assert_eq!(text(&inner), "2+3");
    assert!(!sc.at_end());
    // A waiting scanner hands out the same text again.
    assert_eq!(text(&sc.advance().unwrap()), "2+3");
    sc.resume(vec!['5']);
    assert!(sc.advance().is_none());
    let r = sc.finish().unwrap();
    assert_eq!(literal_texts(&r), vec!["5", "4"]);
    assert_eq!(r.tree, Some(node('*', leaf(0), leaf(1))));
}

#[test]
fn nested_group_keeps_its_parentheses() {
    let mut sc = Scanner::start("((1+1))*((2+2))").unwrap();
    assert_eq!(text(&sc.advance().unwrap()), "(1+1)");
    sc.resume(vec!['2']);
    assert_eq!(text(&sc.advance().unwrap()), "(2+2)");
    sc.resume(vec!['4']);
    assert!(sc.advance().is_none());
    let r = sc.finish().unwrap();
    assert_eq!(literal_texts(&r), vec!["2", "4"]);
}

#[test]
fn empty_group_reads_as_zero() {
    let r = read_flat("()+1").unwrap();
    assert_eq!(literal_texts(&r), vec!["0", "1"]);
}

#[test]
fn resume_without_a_group_changes_nothing() {
    let mut sc = Scanner::start("7").unwrap();
    sc.resume(vec!['9']);
    assert!(sc.advance().is_none());
    let r = sc.finish().unwrap();
    assert_eq!(literal_texts(&r), vec!["7"]);
}
