use calculator_cli::{
    apply_operator, evaluate_expression, parse_expression, precedence, to_rpn, Arithmetic, Error,
    Operation, Progress, Token, Word,
};

/// Pairs each word with its reading as a number.
fn words<'a>(raw: Vec<&'a str>) -> Vec<Word<'a>> {
    raw.into_iter()
        .map(|text| Word { text, number: text.parse::<f64>().ok().map(f64::to_bits) })
        .collect()
}

fn number(value: f64) -> Token {
    Token::Number(value.to_bits())
}

fn compute(arithmetic: Arithmetic) -> f64 {
    let lhs = f64::from_bits(arithmetic.lhs);
    let rhs = f64::from_bits(arithmetic.rhs);
    match arithmetic.operation {
        Operation::Add => lhs + rhs,
        Operation::Subtract => lhs - rhs,
        Operation::Multiply => lhs * rhs,
        Operation::Divide => lhs / rhs,
    }
}

fn value_of(mut progress: Progress) -> Result<f64, Error> {
    loop {
        match progress {
            Progress::Finished(result) => return result.map(f64::from_bits),
            Progress::Pending(arithmetic, evaluation) => {
                progress = evaluation.resume(compute(arithmetic).to_bits());
            }
        }
    }
}

#[test]
fn test_to_rpn() {
    let tokens = parse_expression(words(vec!["2", "+", "3", "*", "4"])).unwrap();
    let rpn = to_rpn(&tokens).unwrap();
    assert_eq!(
        rpn,
        vec![
            number(2.0),
            number(3.0),
            number(4.0),
            Token::Operator('*'),
            Token::Operator('+')
        ]
    );
}

#[test]
fn test_apply_operator() {
    let applied = |op: char, b: f64, a: f64| {
        apply_operator(op, b.to_bits(), a.to_bits()).map(compute)
    };
    assert_eq!(applied('+', 2.0, 3.0), Ok(5.0));
    assert_eq!(applied('-', 5.0, 3.0), Ok(-2.0));
    assert_eq!(applied('*', 2.0, 3.0), Ok(6.0));
    assert_eq!(applied('/', 2.0, 6.0), Ok(3.0));
    assert!(matches!(
        applied('/', 0.0, 4.0),
        Err(Error::DivisionByZero)
    ));
}

#[test]
fn test_precedence() {
    assert_eq!(precedence('+'), 1);
    assert_eq!(precedence('-'), 1);
    assert_eq!(precedence('*'), 2);
    assert_eq!(precedence('/'), 2);
    assert_eq!(precedence('%'), 0);
}

#[test]
fn test_parse_expression() {
    let input = words(vec!["3", "+", "5"]);
    let expected = vec![number(3.0), Token::Operator('+'), number(5.0)];
    assert_eq!(parse_expression(input).unwrap(), expected);
}

#[test]
fn test_invalid_expression() {
    let input = words(vec!["3", "+", "five"]);
    let result = parse_expression(input);
    assert!(result.is_err());
}

#[test]
fn test_empty_expression() {
    let input: Vec<Word> = words(vec![]);
    let result = parse_expression(input);
    assert!(result.is_err());
}

#[test]
fn test_single_number() {
    let input = words(vec!["42"]);
    let expected = vec![number(42.0)];
    assert_eq!(parse_expression(input).unwrap(), expected);
}

#[test]
fn test_evaluate_expression() {
    let input = words(vec!["3", "+", "5"]);
    let tokens = parse_expression(input).unwrap();
    let result = value_of(evaluate_expression(&tokens)).unwrap();
    assert_eq!(result, 8.0);

    let input = words(vec!["10", "/", "2"]);
    let tokens = parse_expression(input).unwrap();
    let result = value_of(evaluate_expression(&tokens)).unwrap();
    assert_eq!(result, 5.0);

    let input = words(vec!["2", "*", "3", "+", "4"]);
    let tokens = parse_expression(input).unwrap();
    let result = value_of(evaluate_expression(&tokens)).unwrap();
    assert_eq!(result, 10.0);
}

#[test]
fn test_division_by_zero() {
    let input = words(vec!["10", "/", "0"]);
    let tokens = parse_expression(input).unwrap();
    let result = value_of(evaluate_expression(&tokens));
    assert!(matches!(result, Err(Error::DivisionByZero)));
}
