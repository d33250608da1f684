use evaluator::graph::{fill_in, sample_chars, substitute, GraphInput};

fn text(v: &[char]) -> String {
    v.iter().collect()
}

#[test]
fn graph_input_holds_its_values() {
    let mut g = GraphInput::new("x*x".to_string(), 20);
    assert_eq!(g.get_y(), "x*x");
    assert_eq!(g.get_amt(), 20);
    g.clear_y();
    assert_eq!(g.get_y(), "");
    assert_eq!(g.get_amt(), 20);
}

#[test]
fn sample_text_in_decimal() {
    assert_eq!(text(&sample_chars(0)), "0");
    assert_eq!(text(&sample_chars(7)), "7");
    assert_eq!(text(&sample_chars(1234)), "1234");
    assert_eq!(text(&sample_chars(-3)), "(-3)");
    assert_eq!(text(&sample_chars(-40)), "(-40)");
    assert_eq!(text(&sample_chars(i32::MAX)), "2147483647");
    assert_eq!(text(&sample_chars(i32::MIN)), "(-2147483648)");
}

#[test]
fn every_letter_is_replaced() {
    assert_eq!(text(&substitute("x*x+1", 3)), "3*3+1");
    assert_eq!(text(&substitute("y^2", -2)), "(-2)^2");
    assert_eq!(text(&substitute("2*t + z", 10)), "2*10 + 10");
    assert_eq!(text(&substitute("1+2", 5)), "1+2");
    assert_eq!(text(&substitute("", 5)), "");
}

#[test]
fn marked_characters_are_replaced() {
    let t = vec!['a', '+', 'b'];
    assert_eq!(text(&fill_in(&t, &vec![true, false, false], 4)), "4+b");
    assert_eq!(text(&fill_in(&t, &vec![true, false, true], -1)), "(-1)+(-1)");
}
