use eqn_eval::configuration_and_utilities::{
    binary_addition_based_enums, binary_multiplication_based_enums, convert_string_to_enum,
    unary_enums, StdFunctions,
};
use eqn_eval::evaluation::fill_indices;
use eqn_eval::expression::{EvalTypes, Term};
use eqn_eval::string_and_vec_parsing::{parse_on_parens, zip_by_map, CanStripEmpties};

fn separators(var_name: &str) -> Vec<&str> {
    vec!["(", ")", "*", "-", "+", "^", "/", var_name]
}

fn strings(v: &[&str]) -> Vec<String> {
    v.iter().map(|s| s.to_string()).collect()
}

#[test]
fn convert_operators_to_variant_names() {
    assert_eq!(convert_string_to_enum("+", true, "x".to_string()), "Add");
    assert_eq!(convert_string_to_enum("/", true, "x".to_string()), "Divide");
    assert_eq!(convert_string_to_enum("-", true, "x".to_string()), "Subtract");
    assert_eq!(convert_string_to_enum("^", true, "x".to_string()), "Power");
    assert_eq!(convert_string_to_enum("*", true, "x".to_string()), "Multiply");
    assert_eq!(convert_string_to_enum("sin", true, "x".to_string()), "Sin");
    assert_eq!(convert_string_to_enum("cos", true, "x".to_string()), "Cos");
    assert_eq!(convert_string_to_enum("x", true, "x".to_string()), "Variable");
    assert_eq!(convert_string_to_enum("2.5", true, "x".to_string()), "2.5");
    assert_eq!(convert_string_to_enum("Sin", true, "x".to_string()), "Sin");
}

#[test]
fn convert_without_check_keeps_token() {
    assert_eq!(convert_string_to_enum("+", false, "x".to_string()), "+");
    assert_eq!(convert_string_to_enum("x", false, "x".to_string()), "x");
    assert_eq!(convert_string_to_enum("sin", false, "x".to_string()), "sin");
}

#[test]
fn convert_operator_before_variable() {
    // An operator symbol used as the variable's name stays an operator.
    assert_eq!(convert_string_to_enum("+", true, "+".to_string()), "Add");
}

#[test]
fn from_name_finds_every_variant() {
    let all = [
        ("None", StdFunctions::NoFunction),
        ("Add", StdFunctions::Add),
        ("Subtract", StdFunctions::Subtract),
        ("Multiply", StdFunctions::Multiply),
        ("Divide", StdFunctions::Divide),
        ("Power", StdFunctions::Power),
        ("NumberOfBinaryFns", StdFunctions::NumberOfBinaryFns),
        ("Sin", StdFunctions::Sin),
        ("Cos", StdFunctions::Cos),
        ("Variable", StdFunctions::Variable),
        ("E", StdFunctions::E),
        ("Pi", StdFunctions::Pi),
    ];
    for (name, f) in all {
        assert_eq!(StdFunctions::from_name(name), Some(f));
    }
}

#[test]
fn from_name_is_case_sensitive() {
    assert_eq!(StdFunctions::from_name("add"), None);
    assert_eq!(StdFunctions::from_name("PI"), None);
    assert_eq!(StdFunctions::from_name(""), None);
    assert_eq!(StdFunctions::from_name("Tan"), None);
}

#[test]
fn default_function_is_none() {
    assert_eq!(StdFunctions::default(), StdFunctions::NoFunction);
}

#[test]
fn operation_lists() {
    assert_eq!(unary_enums(), [StdFunctions::Sin, StdFunctions::Cos]);
    assert_eq!(
        binary_multiplication_based_enums(),
        [StdFunctions::Divide, StdFunctions::Multiply, StdFunctions::Power]
    );
    assert_eq!(binary_addition_based_enums(), [StdFunctions::Add, StdFunctions::Subtract]);
}

#[test]
fn parse_expression_with_enums() {
    let tokens = parse_on_parens("sin(x)*(x+2*x^2)", separators("x"), true, "x");
    assert_eq!(
        tokens,
        strings(&[
            "Sin", "(", "Variable", ")", "Multiply", "(", "Variable", "Add", "2", "Multiply",
            "Variable", "Power", "2", ")"
        ])
    );
}

#[test]
fn parse_expression_without_enums() {
    let tokens = parse_on_parens("12+ab/(3)", separators("x"), false, "x");
    assert_eq!(tokens, strings(&["12", "+", "ab", "/", "(", "3", ")"]));
}

#[test]
fn parse_splits_at_single_character_variable() {
    let tokens = parse_on_parens("2x", separators("x"), true, "x");
    assert_eq!(tokens, strings(&["2", "Variable"]));
}

#[test]
fn parse_does_not_split_at_longer_variable_name() {
    // Only one-character separators can match a character.
    let tokens = parse_on_parens("2xy+xy", separators("xy"), true, "xy");
    assert_eq!(tokens, strings(&["2xy", "Add", "Variable"]));
}

#[test]
fn parse_empty_text() {
    let tokens = parse_on_parens("", separators("x"), true, "x");
    assert!(tokens.is_empty());
}

#[test]
fn tokens_concatenate_to_input() {
    let input = "sin(x)/((1+x)^2)-(2+x)^2+1.1^x";
    let tokens = parse_on_parens(input, separators("x"), false, "x");
    assert_eq!(tokens.concat(), input);
    assert!(tokens.iter().all(|t| !t.is_empty()));
}

#[test]
fn converted_tokens_are_converted_raw_tokens() {
    let input = "cos(x)-3*x";
    let raw = parse_on_parens(input, separators("x"), false, "x");
    let converted = parse_on_parens(input, separators("x"), true, "x");
    let expected: Vec<String> = raw
        .iter()
        .map(|t| convert_string_to_enum(t, true, "x".to_string()).to_string())
        .collect();
    assert_eq!(converted, expected);
}

#[test]
fn strip_empties_keeps_non_empty_in_order() {
    let v: Vec<&str> = vec!["", "0", "", "1", "3.5", ""];
    assert_eq!(v.strip_empties(), vec!["0", "1", "3.5"]);
    let none: Vec<&str> = vec!["", ""];
    assert!(none.strip_empties().is_empty());
}

#[test]
fn fill_indices_without_pairs() {
    let (outside, mapping) = fill_indices(vec![], 3);
    assert_eq!(outside, vec![0, 1, 2]);
    assert_eq!(mapping, strings(&["use outside", "use outside", "use outside"]));
}

#[test]
fn fill_indices_complement() {
    let (outside, mapping) = fill_indices(vec![(1, 3), (5, 6)], 9);
    assert_eq!(outside, vec![0, 4, 7, 8]);
    assert_eq!(
        mapping,
        strings(&["use outside", "use top", "use outside", "use top", "use outside", "use outside"])
    );
}

#[test]
fn fill_indices_pair_at_both_ends() {
    let (outside, mapping) = fill_indices(vec![(0, 2), (3, 5)], 6);
    assert!(outside.is_empty());
    assert_eq!(mapping, strings(&["use top", "use top"]));
}

#[test]
fn fill_indices_empty_range() {
    let (outside, mapping) = fill_indices(vec![], 0);
    assert!(outside.is_empty());
    assert!(mapping.is_empty());
}

#[test]
fn zip_interlaces_by_marks() {
    let top = vec![EvalTypes::EvalVec(Term::Variable)];
    let outside = vec![
        EvalTypes::EvalVec(Term::Number("1".to_string())),
        EvalTypes::Fun(StdFunctions::Add),
    ];
    let zipped = zip_by_map(top, outside, strings(&["use outside", "use outside", "use top"]));
    assert_eq!(
        zipped,
        vec![
            EvalTypes::EvalVec(Term::Number("1".to_string())),
            EvalTypes::Fun(StdFunctions::Add),
            EvalTypes::EvalVec(Term::Variable),
        ]
    );
}

#[test]
fn zip_with_fill_indices_mapping() {
    // tokens: a ( b ) c  -> one group (1, 3), outside 0, 4
    let (outside_idx, mapping) = fill_indices(vec![(1, 3)], 5);
    assert_eq!(outside_idx, vec![0, 4]);
    let top = vec![EvalTypes::Fun(StdFunctions::Sin)];
    let outside = vec![EvalTypes::Fun(StdFunctions::Add), EvalTypes::Fun(StdFunctions::Cos)];
    let zipped = zip_by_map(top, outside, mapping);
    assert_eq!(
        zipped,
        vec![
            EvalTypes::Fun(StdFunctions::Add),
            EvalTypes::Fun(StdFunctions::Sin),
            EvalTypes::Fun(StdFunctions::Cos),
        ]
    );
}

#[test]
fn discriminants_of_variants() {
    assert_eq!(StdFunctions::Add.discriminant(), -5);
    assert_eq!(StdFunctions::Power.discriminant(), -1);
    assert_eq!(StdFunctions::NoFunction.discriminant(), 0);
    assert_eq!(StdFunctions::NumberOfBinaryFns.discriminant(), 5);
    assert_eq!(StdFunctions::Sin.discriminant(), 1);
    assert_eq!(StdFunctions::Cos.discriminant(), 2);
    assert_eq!(StdFunctions::Variable.discriminant(), 10);
    assert_eq!(StdFunctions::E.discriminant(), 11);
    assert_eq!(StdFunctions::Pi.discriminant(), 12);
}
