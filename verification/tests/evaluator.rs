use dentaku::eval::{evaluate, i32_to_chars, outcome_to_chars, Outcome};

fn line(s: &str) -> Vec<char> {
    s.chars().collect()
}

fn text(v: &[char]) -> String {
    v.iter().collect()
}

#[test]
fn sums_of_well_formed_lines() {
    assert_eq!(evaluate(&line("1+2-3")), Outcome::Value(0));
    assert_eq!(evaluate(&line("10 - 4")), Outcome::Value(6));
    assert_eq!(evaluate(&line("7")), Outcome::Value(7));
    assert_eq!(evaluate(&line("  42  ")), Outcome::Value(42));
    assert_eq!(evaluate(&line("1 + 2 + 3 + 4")), Outcome::Value(10));
    assert_eq!(evaluate(&line("100-101")), Outcome::Value(-1));
}

#[test]
fn leading_sign_and_empty_lines() {
    assert_eq!(evaluate(&line("-5")), Outcome::Value(-5));
    assert_eq!(evaluate(&line("+5")), Outcome::Value(5));
    assert_eq!(evaluate(&line("")), Outcome::Value(0));
    assert_eq!(evaluate(&line("   ")), Outcome::Value(0));
}

#[test]
fn line_ending_in_operator_is_invalid() {
    assert_eq!(evaluate(&line("3+")), Outcome::Invalid);
    assert_eq!(evaluate(&line("3-")), Outcome::Invalid);
    assert_eq!(evaluate(&line("3 + ")), Outcome::Invalid);
}

#[test]
fn split_digit_groups_are_invalid() {
    assert_eq!(evaluate(&line("1 2")), Outcome::Invalid);
    assert_eq!(evaluate(&line("12 34")), Outcome::Invalid);
    assert_eq!(evaluate(&line("1 + 2 3")), Outcome::Invalid);
}

#[test]
fn consecutive_operators_are_invalid() {
    assert_eq!(evaluate(&line("1+-2")), Outcome::Invalid);
    assert_eq!(evaluate(&line("1--2")), Outcome::Invalid);
    assert_eq!(evaluate(&line("1+ -2")), Outcome::Invalid);
}

#[test]
fn unsupported_characters_are_invalid() {
    assert_eq!(evaluate(&line("abc")), Outcome::Invalid);
    assert_eq!(evaluate(&line("2*3")), Outcome::Invalid);
    assert_eq!(evaluate(&line("2/3")), Outcome::Invalid);
    assert_eq!(evaluate(&line("(1+2)")), Outcome::Invalid);
    assert_eq!(evaluate(&line("1.5")), Outcome::Invalid);
}

#[test]
fn rendering_integers() {
    assert_eq!(text(&i32_to_chars(0)), "0");
    assert_eq!(text(&i32_to_chars(7)), "7");
    assert_eq!(text(&i32_to_chars(12345)), "12345");
    assert_eq!(text(&i32_to_chars(-1)), "-1");
    assert_eq!(text(&i32_to_chars(i32::MAX)), "2147483647");
    assert_eq!(text(&i32_to_chars(i32::MIN)), "-2147483648");
}

#[test]
fn rendering_outcomes() {
    assert_eq!(text(&outcome_to_chars(Outcome::Value(-40))), "-40");
    assert_eq!(text(&outcome_to_chars(Outcome::Invalid)), "I cant calcurate");
}

#[test]
fn evaluating_a_rendered_value_gives_it_back() {
    for v in [0, 1, -1, 99, -1000, 2147483647, -2147483647, i32::MIN] {
        assert_eq!(evaluate(&i32_to_chars(v)), Outcome::Value(v));
    }
}
