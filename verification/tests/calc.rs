use tinyjson::calc::{parse_calc, try_parse_calc, Parser};

#[test]
fn evaluates_simple_sums() {
    assert_eq!(parse_calc("1+2"), 3);
    assert_eq!(parse_calc("10-4-3"), 3);
    assert_eq!(parse_calc("7"), 7);
}

#[test]
fn multiplication_binds_tighter() {
    assert_eq!(parse_calc("1+2*3"), 7);
    assert_eq!(parse_calc("2*3+1"), 7);
    assert_eq!(parse_calc("8/2/2"), 2);
}

#[test]
fn parentheses_group() {
    assert_eq!(parse_calc("(1+2)*3"), 9);
    assert_eq!(parse_calc("2*((1+1)+1)"), 6);
}

#[test]
fn division_by_zero_divides_by_one() {
    assert_eq!(parse_calc("4/0"), 4);
    assert_eq!(parse_calc("4/(1-1)"), 4);
}

#[test]
fn oversized_literal_becomes_one() {
    assert_eq!(parse_calc("99999999999999999999"), 1);
    assert_eq!(parse_calc("9223372036854775807"), i64::MAX);
    assert_eq!(parse_calc("9223372036854775808"), 1);
}

#[test]
fn arithmetic_wraps() {
    assert_eq!(
        parse_calc("9223372036854775807+1"),
        i64::MIN
    );
    assert_eq!(parse_calc("0-9223372036854775807-2"), i64::MAX);
}

#[test]
fn trailing_whitespace_inside_parens_is_tolerated() {
    assert_eq!(parse_calc("(1 )+2"), 3);
}

#[test]
fn parser_construction_and_product() {
    let _parser = Parser::new("6*7");
    assert_eq!(parse_calc("6*7"), 42);
}

#[test]
fn rejected_inputs_give_nothing() {
    assert_eq!(try_parse_calc(""), None);
    assert_eq!(try_parse_calc("1+"), None);
    assert_eq!(try_parse_calc("(1"), None);
    assert_eq!(try_parse_calc(")"), None);
    assert_eq!(try_parse_calc("a"), None);
    assert_eq!(try_parse_calc("1 + 2"), None);
    assert_eq!(try_parse_calc("1+2"), Some(3));
}
