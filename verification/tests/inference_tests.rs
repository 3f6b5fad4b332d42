//! Tests for value type inference: the boolean / number / string priority
//! chain and the floating-point literal grammar.

use conftree::infer_value;
use conftree::ConfigValue;

fn s(x: &str) -> String {
    x.to_string()
}

#[test]
fn booleans_are_recognized() {
    assert_eq!(infer_value("true"), ConfigValue::Bool(true));
    assert_eq!(infer_value("false"), ConfigValue::Bool(false));
}

#[test]
fn boolean_parse_is_case_sensitive() {
    assert_eq!(infer_value("True"), ConfigValue::Str(s("True")));
    assert_eq!(infer_value("TRUE"), ConfigValue::Str(s("TRUE")));
    assert_eq!(infer_value("FALSE"), ConfigValue::Str(s("FALSE")));
}

#[test]
fn integers_and_decimals_are_numbers() {
    assert_eq!(infer_value("42"), ConfigValue::Num(s("42")));
    assert_eq!(infer_value("3.14"), ConfigValue::Num(s("3.14")));
    assert_eq!(infer_value("-7"), ConfigValue::Num(s("-7")));
    assert_eq!(infer_value("+42"), ConfigValue::Num(s("+42")));
    assert_eq!(infer_value("0"), ConfigValue::Num(s("0")));
}

#[test]
fn fractional_forms_match_the_platform_grammar() {
    assert_eq!(infer_value(".5"), ConfigValue::Num(s(".5")));
    assert_eq!(infer_value("5."), ConfigValue::Num(s("5.")));
    assert_eq!(infer_value("-.5"), ConfigValue::Num(s("-.5")));
    assert_eq!(infer_value("."), ConfigValue::Str(s(".")));
    assert_eq!(infer_value("-"), ConfigValue::Str(s("-")));
    assert_eq!(infer_value("1.2.3"), ConfigValue::Str(s("1.2.3")));
}

#[test]
fn exponents_match_the_platform_grammar() {
    assert_eq!(infer_value("1e3"), ConfigValue::Num(s("1e3")));
    assert_eq!(infer_value("1E-4"), ConfigValue::Num(s("1E-4")));
    assert_eq!(infer_value("2.5e+10"), ConfigValue::Num(s("2.5e+10")));
    assert_eq!(infer_value(".5e2"), ConfigValue::Num(s(".5e2")));
    assert_eq!(infer_value("4e"), ConfigValue::Str(s("4e")));
    assert_eq!(infer_value("e3"), ConfigValue::Str(s("e3")));
    assert_eq!(infer_value("1e3e4"), ConfigValue::Str(s("1e3e4")));
    assert_eq!(infer_value("1e+"), ConfigValue::Str(s("1e+")));
}

#[test]
fn special_float_words_are_numbers_in_any_case() {
    assert_eq!(infer_value("inf"), ConfigValue::Num(s("inf")));
    assert_eq!(infer_value("-inf"), ConfigValue::Num(s("-inf")));
    assert_eq!(infer_value("Infinity"), ConfigValue::Num(s("Infinity")));
    assert_eq!(infer_value("NaN"), ConfigValue::Num(s("NaN")));
    assert_eq!(infer_value("nan"), ConfigValue::Num(s("nan")));
    assert_eq!(infer_value("infinit"), ConfigValue::Str(s("infinit")));
}

#[test]
fn everything_else_stays_a_string() {
    assert_eq!(
        infer_value("localhost:3000"),
        ConfigValue::Str(s("localhost:3000"))
    );
    assert_eq!(infer_value(""), ConfigValue::Str(s("")));
    assert_eq!(infer_value("12a"), ConfigValue::Str(s("12a")));
    assert_eq!(infer_value("--5"), ConfigValue::Str(s("--5")));
    assert_eq!(infer_value("0x10"), ConfigValue::Str(s("0x10")));
}

#[test]
fn classification_agrees_with_the_platform_float_parse() {
    for raw in [
        "42", "3.14", ".5", "5.", "1e3", "1E-4", "+42", "-inf", "NaN", "Infinity", "1.2.3", "4e",
        "e3", ".", "-", "--5", "0x10", "localhost:3000", "", "1e3e4", "1e+", "infinit",
    ] {
        let platform = raw.parse::<f64>().is_ok();
        let classified = matches!(infer_value(raw), ConfigValue::Num(_));
        assert_eq!(classified, platform, "disagreement on {:?}", raw);
    }
}
