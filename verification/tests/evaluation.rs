use eqn_eval::configuration_and_utilities::StdFunctions;
use eqn_eval::evaluation::recursive_eval;
use eqn_eval::expression::{EvalError, EvalTypes, Term};
use eqn_eval::number_syntax::is_number;
use eqn_eval::request::{parse_request, split_on_chars, RequestError};

/// Computes a term element by element over the input values.
fn compute(term: &Term, input: &[f64]) -> Vec<f64> {
    match term {
        Term::Number(s) => vec![s.parse::<f64>().unwrap(); input.len()],
        Term::Variable => input.to_vec(),
        Term::Unary(f, a) => {
            let a = compute(a, input);
            match f {
                StdFunctions::Sin => a.iter().map(|v| v.sin()).collect(),
                StdFunctions::Cos => a.iter().map(|v| v.cos()).collect(),
                _ => panic!("not a function of one argument"),
            }
        }
        Term::Binary(f, a, b) => {
            let a = compute(a, input);
            let b = compute(b, input);
            a.iter()
                .enumerate()
                .map(|(i, x)| match f {
                    StdFunctions::Add => x + b[i],
                    StdFunctions::Subtract => x - b[i],
                    StdFunctions::Multiply => x * b[i],
                    StdFunctions::Divide => x / b[i],
                    StdFunctions::Power => x.powf(b[i]),
                    _ => panic!("not a binary operator"),
                })
                .collect()
        }
    }
}

/// Reads a request, evaluates it and computes the result.
fn solve(line: &str) -> Vec<f64> {
    let mut request = parse_request(line).unwrap();
    let values: Vec<f64> = request.values.iter().map(|v| v.parse().unwrap()).collect();
    match recursive_eval(&mut request.expression).unwrap() {
        EvalTypes::EvalVec(t) => compute(&t, &values),
        other => panic!("not an operand: {:?}", other),
    }
}

fn tokens(v: &[&str]) -> Vec<String> {
    v.iter().map(|s| s.to_string()).collect()
}

fn num(s: &str) -> Box<Term> {
    Box::new(Term::Number(s.to_string()))
}

fn close(a: &[f64], b: &[f64]) -> bool {
    a.len() == b.len() && a.iter().zip(b).all(|(x, y)| (x - y).abs() <= 1e-9 * (1.0 + y.abs()))
}

#[test]
fn simple_request_gives_five() {
    assert_eq!(solve("x:2:x*3-x+1"), vec![5.0]);
}

#[test]
fn documented_request_value() {
    let got = solve("x:[0,1,2,3]:sin(x)/((1+x)^2)-(2+x)^2+1.1^x");
    let want = [-3.0, -7.689632253798026, -14.688966952574923, -23.660179999496258];
    assert!(close(&got, &want), "{:?}", got);
}

#[test]
fn nested_parentheses_request() {
    assert_eq!(solve("x:[1,2]:(2+x*(x+1)+x+(x))/2"), vec![3.0, 6.0]);
}

#[test]
fn request_without_brackets() {
    assert_eq!(solve("x:2,4:x*3-x+1"), vec![5.0, 9.0]);
}

#[test]
fn long_request_matches_direct_computation() {
    let xs = [0.0f64, 1.0, 3.1419];
    let got = solve("x:[0,1,3.1419]:sin(x)*(cos(x)*(x+2*x^2))+sin(x)/(cos(x)*(x+2*x^2))+2^x-4");
    let want: Vec<f64> = xs
        .iter()
        .map(|&x| {
            // Operators of one rank apply from left to right: 2*x^2 is (2*x)^2.
            x.sin() * (x.cos() * (x + (2.0 * x).powf(2.0)))
                + x.sin() / (x.cos() * (x + (2.0 * x).powf(2.0)))
                + 2f64.powf(x)
                - 4.0
        })
        .collect();
    assert_eq!(got.len(), want.len());
    for (g, w) in got.iter().zip(want.iter()) {
        assert!(g.is_nan() && w.is_nan() || (g - w).abs() <= 1e-9 * (1.0 + w.abs()));
    }
}

#[test]
fn same_rank_left_to_right() {
    let mut t = tokens(&["8", "Divide", "4", "Divide", "2"]);
    let r = recursive_eval(&mut t).unwrap();
    assert_eq!(
        r,
        EvalTypes::EvalVec(Term::Binary(
            StdFunctions::Divide,
            Box::new(Term::Binary(StdFunctions::Divide, num("8"), num("4"))),
            num("2")
        ))
    );
    assert_eq!(solve("x:0:8/4/2"), vec![1.0]);
    assert_eq!(solve("x:0:2^3*2"), vec![16.0]);
    assert_eq!(solve("x:0:2*3^2"), vec![36.0]);
    assert_eq!(solve("x:0:10-4-3"), vec![3.0]);
}

#[test]
fn multiplication_before_addition() {
    let mut t = tokens(&["1", "Add", "2", "Multiply", "3"]);
    let r = recursive_eval(&mut t).unwrap();
    assert_eq!(
        r,
        EvalTypes::EvalVec(Term::Binary(
            StdFunctions::Add,
            num("1"),
            Box::new(Term::Binary(StdFunctions::Multiply, num("2"), num("3")))
        ))
    );
    assert_eq!(solve("x:0:1+2*3"), vec![7.0]);
}

#[test]
fn parenthesised_expression_same_value() {
    let mut a = tokens(&["2", "Add", "Variable"]);
    let mut b = tokens(&["(", "2", "Add", "Variable", ")"]);
    assert_eq!(recursive_eval(&mut a), recursive_eval(&mut b));
    assert_eq!(solve("x:[1,2]:(x+1)"), solve("x:[1,2]:x+1"));
}

#[test]
fn recursive_eval_keeps_tokens() {
    let mut t = tokens(&["(", "2", ")"]);
    let before = t.clone();
    let _ = recursive_eval(&mut t);
    assert_eq!(t, before);
}

#[test]
fn function_names_go_through_upper_camel_case() {
    // "sin" is not converted beforehand here: only the case conversion makes
    // it the name of a variant.
    let mut t = tokens(&["sin", "2"]);
    assert_eq!(
        recursive_eval(&mut t),
        Ok(EvalTypes::EvalVec(Term::Unary(StdFunctions::Sin, num("2"))))
    );
    let mut p = tokens(&["pi"]);
    assert_eq!(recursive_eval(&mut p), Ok(EvalTypes::Fun(StdFunctions::Pi)));
}

#[test]
fn single_number_and_variable() {
    let mut t = tokens(&["4.5"]);
    assert_eq!(recursive_eval(&mut t), Ok(EvalTypes::EvalVec(Term::Number("4.5".to_string()))));
    let mut v = tokens(&["Variable"]);
    assert_eq!(recursive_eval(&mut v), Ok(EvalTypes::EvalVec(Term::Variable)));
}

#[test]
fn error_empty_expression() {
    let mut t: Vec<String> = vec![];
    assert_eq!(recursive_eval(&mut t), Err(EvalError::EmptyExpression));
    let mut p = tokens(&["(", ")"]);
    assert_eq!(recursive_eval(&mut p), Err(EvalError::ImproperlyFormatted));
}

#[test]
fn error_parentheses_mismatch() {
    let mut t = tokens(&["(", "2", "Add", "1"]);
    assert_eq!(recursive_eval(&mut t), Err(EvalError::ParenthesesMismatch));
    let mut u = tokens(&["(", "(", "2", ")"]);
    assert_eq!(recursive_eval(&mut u), Err(EvalError::ParenthesesMismatch));
}

#[test]
fn error_unknown_function() {
    let mut t = tokens(&["tan", "(", "2", ")"]);
    assert_eq!(recursive_eval(&mut t), Err(EvalError::UnknownFunction));
}

#[test]
fn error_wrong_eval_type() {
    let mut t = tokens(&["2", "Multiply", "pi"]);
    assert_eq!(recursive_eval(&mut t), Err(EvalError::WrongEvalType));
}

#[test]
fn error_improperly_formatted() {
    let mut t = tokens(&["2", "3"]);
    assert_eq!(recursive_eval(&mut t), Err(EvalError::ImproperlyFormatted));
}

#[test]
fn two_groups_are_not_one() {
    // "(2)+(3)" starts with "(" and ends with ")", but its first "(" closes
    // after "2": it is two groups, not one.
    let mut t = tokens(&["(", "2", ")", "Add", "(", "3", ")"]);
    assert_eq!(
        recursive_eval(&mut t),
        Ok(EvalTypes::EvalVec(Term::Binary(StdFunctions::Add, num("2"), num("3"))))
    );
    let mut u = tokens(&["(", "(", "2", ")", "Add", "(", "3", ")", ")"]);
    assert_eq!(recursive_eval(&mut t), recursive_eval(&mut u));
}

#[test]
fn division_of_groups() {
    let mut t = tokens(&["(", "Variable", ")", "Divide", "(", "2", ")"]);
    assert_eq!(
        recursive_eval(&mut t),
        Ok(EvalTypes::EvalVec(Term::Binary(
            StdFunctions::Divide,
            Box::new(Term::Variable),
            num("2")
        )))
    );
    assert_eq!(solve("x:[4]:(x)/(2)"), vec![2.0]);
    let got = solve("x:[1,2]:(sin(x))/(cos(x)+1)");
    let want: Vec<f64> = [1.0f64, 2.0].iter().map(|x| x.sin() / (x.cos() + 1.0)).collect();
    assert!(close(&got, &want), "{:?}", got);
}

#[test]
fn ranks_over_a_longer_expression() {
    // 1 + 2*3 - (4/2)^2: multiplication, division and exponentiation first,
    // from left to right, then addition and subtraction.
    assert_eq!(solve("x:0:1+2*3-4/2^2"), vec![3.0]);
    assert_eq!(solve("x:[2]:x*x+x-x/x*3"), vec![3.0]);
}

#[test]
fn number_syntax_matches_standard_parser() {
    let cases = [
        "0", "12", "3.5", ".5", "5.", ".", "", "e5", "1e5", "1E5", "1e+5", "1e-5", "1e", "1.2.3",
        "inf", "INF", "Infinity", "infinity", "nan", "NaN", "+3", "-3", "+-3", "--1", "abc", "1a",
        " 1", "1 ", "+inf", "-nan", "infin", "1_000", "0x10", "1.5e3", ".e3", "5.e3", "\u{663}", "E",
        "pi", "+", "-", "+.", "-.5", "1e+", "00", "1.e", "iNfInItY", "nAn",
    ];
    for c in cases {
        assert_eq!(is_number(c), c.parse::<f64>().is_ok(), "{:?}", c);
    }
}

#[test]
fn split_matches_standard_split() {
    let cases = ["x:2:x+1", "::", "", "a", "[1,2]", ",,", "x:[0,1,3.1]:sin(x)"];
    for c in cases {
        let ours = split_on_chars(c, &[':']);
        let std: Vec<String> = c.split(':').map(|s| s.to_string()).collect();
        assert_eq!(ours, std);
        let ours2 = split_on_chars(c, &['[', ']', ',']);
        let std2: Vec<String> = c.split(&['[', ']', ',']).map(|s| s.to_string()).collect();
        assert_eq!(ours2, std2);
    }
}

#[test]
fn parse_request_fields() {
    let r = parse_request("x:[0,1,3.5]:sin(x)+2").unwrap();
    assert_eq!(r.var_name, "x");
    assert_eq!(r.values, tokens(&["0", "1", "3.5"]));
    assert_eq!(r.expression, tokens(&["Sin", "(", "Variable", ")", "Add", "2"]));
}

#[test]
fn parse_request_wrong_number_of_parts() {
    assert_eq!(parse_request("x:2").err(), Some(RequestError::IncorrectFormatting));
    assert_eq!(parse_request("x:2:x:1").err(), Some(RequestError::IncorrectFormatting));
    assert_eq!(parse_request("").err(), Some(RequestError::IncorrectFormatting));
}

fn kinds_ok(t: &Term) -> bool {
    match t {
        Term::Number(_) | Term::Variable => true,
        Term::Unary(f, a) => matches!(f, StdFunctions::Sin | StdFunctions::Cos) && kinds_ok(a),
        Term::Binary(f, a, b) => {
            matches!(
                f,
                StdFunctions::Add
                    | StdFunctions::Subtract
                    | StdFunctions::Multiply
                    | StdFunctions::Divide
                    | StdFunctions::Power
            ) && kinds_ok(a)
                && kinds_ok(b)
        }
    }
}

#[test]
fn operations_name_operators_of_their_kind() {
    let mut request = parse_request("x:[0,1]:sin(x)*(cos(x)*(x+2*x^2))+sin(x)/(cos(x)*(x+2*x^2))+2^x-4").unwrap();
    match recursive_eval(&mut request.expression).unwrap() {
        EvalTypes::EvalVec(t) => assert!(kinds_ok(&t)),
        other => panic!("not an operand: {:?}", other),
    }
}
