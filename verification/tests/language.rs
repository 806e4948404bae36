use compose_the_function::language::{
    evaluate, infer_monomorphic, is_valid_variable_name, EvaluationError, Expr, Operator, Type,
    TypeInferenceError, TypeScheme, TypeVarId, Value,
};

fn literal(value: i64) -> Expr {
    Expr::Literal(Value::Int(value))
}

fn binary(operator: Operator, left: Expr, right: Expr) -> Expr {
    Expr::Apply(
        Box::new(Expr::Apply(Box::new(Expr::Operator(operator)), Box::new(left))),
        Box::new(right),
    )
}

#[test]
fn arrows_are_recursive_and_right_associative() {
    let binary_integer_function = Type::arrow(Type::Int, Type::arrow(Type::Int, Type::Int));
    let higher_order = Type::arrow(Type::arrow(Type::Int, Type::Int), Type::Int);

    assert_eq!(binary_integer_function.to_string(), "Int -> Int -> Int");
    assert_eq!(higher_order.to_string(), "(Int -> Int) -> Int");
}

#[test]
fn literal_inference_is_monomorphic() {
    assert_eq!(
        infer_monomorphic(&Expr::Literal(Value::Int(5))),
        Ok(Type::Int)
    );
    assert_eq!(
        infer_monomorphic(&Expr::Literal(Value::Bool(true))),
        Ok(Type::Bool)
    );
}

#[test]
fn operators_own_their_symbol_and_declared_type() {
    assert_eq!(Operator::Add.symbol(), "+");
    assert_eq!(Operator::Add.typ().to_string(), "Int -> Int -> Int");
    assert_eq!(Operator::GreaterThanOrEqual.symbol(), ">=");
    assert_eq!(
        Operator::GreaterThanOrEqual.typ().to_string(),
        "Int -> Int -> Bool"
    );
}

#[test]
fn applied_addition_is_inferred_and_evaluated() {
    let expression = Expr::Apply(
        Box::new(Expr::Apply(
            Box::new(Expr::Operator(Operator::Add)),
            Box::new(Expr::Literal(Value::Int(1))),
        )),
        Box::new(Expr::Literal(Value::Int(2))),
    );

    assert_eq!(infer_monomorphic(&expression), Ok(Type::Int));
    assert_eq!(evaluate(&expression), Ok(Value::Int(3)));
    assert_eq!(expression.to_string(), "(1 + 2)");
}

#[test]
fn variable_names_follow_the_language_identifier_rules() {
    assert!(is_valid_variable_name("x"));
    assert!(is_valid_variable_name("total_2"));
    assert!(!is_valid_variable_name(""));
    assert!(!is_valid_variable_name("2total"));
    assert!(!is_valid_variable_name("has space"));
}

#[test]
fn identifier_rule_accepts_underscores_and_rejects_other_symbols() {
    assert!(is_valid_variable_name("_"));
    assert!(is_valid_variable_name("_Abc9"));
    assert!(!is_valid_variable_name("x-y"));
    assert!(!is_valid_variable_name("é"));
    assert!(!is_valid_variable_name("x!"));
}

#[test]
fn type_variables_and_schemes_are_named() {
    assert_eq!(Type::Var(TypeVarId::new(0)).to_string(), "'a");
    assert_eq!(Type::Var(TypeVarId::new(25)).to_string(), "'z");
    assert_eq!(Type::Var(TypeVarId::new(26)).to_string(), "'t26");
    assert_eq!(TypeScheme::monomorphic(Type::Int).to_string(), "Int");
    let scheme = TypeScheme {
        quantified: vec![TypeVarId::new(0), TypeVarId::new(1)],
        typ: Type::arrow(Type::Var(TypeVarId::new(0)), Type::Var(TypeVarId::new(1))),
    };
    assert_eq!(scheme.to_string(), "∀a b. 'a -> 'b");
}

#[test]
fn every_operator_has_symbol_precedence_and_type() {
    let table = [
        (Operator::Add, "+", 2, "Int -> Int -> Int"),
        (Operator::Subtract, "-", 2, "Int -> Int -> Int"),
        (Operator::Multiply, "*", 3, "Int -> Int -> Int"),
        (Operator::Equal, "==", 1, "Int -> Int -> Bool"),
        (Operator::GreaterThan, ">", 1, "Int -> Int -> Bool"),
        (Operator::GreaterThanOrEqual, ">=", 1, "Int -> Int -> Bool"),
        (Operator::LessThan, "<", 1, "Int -> Int -> Bool"),
        (Operator::LessThanOrEqual, "<=", 1, "Int -> Int -> Bool"),
    ];
    for (operator, symbol, precedence, typ) in table {
        assert_eq!(operator.symbol(), symbol);
        assert_eq!(operator.to_string(), symbol);
        assert_eq!(operator.precedence(), precedence);
        assert_eq!(operator.typ().to_string(), typ);
    }
}

#[test]
fn arithmetic_and_comparisons_evaluate_exactly() {
    assert_eq!(
        evaluate(&binary(Operator::Subtract, literal(10), literal(3))),
        Ok(Value::Int(7))
    );
    assert_eq!(
        evaluate(&binary(Operator::Multiply, literal(-4), literal(6))),
        Ok(Value::Int(-24))
    );
    assert_eq!(
        evaluate(&binary(Operator::Equal, literal(2), literal(2))),
        Ok(Value::Bool(true))
    );
    assert_eq!(
        evaluate(&binary(Operator::GreaterThan, literal(2), literal(2))),
        Ok(Value::Bool(false))
    );
    assert_eq!(
        evaluate(&binary(Operator::GreaterThanOrEqual, literal(2), literal(2))),
        Ok(Value::Bool(true))
    );
    assert_eq!(
        evaluate(&binary(Operator::LessThan, literal(1), literal(2))),
        Ok(Value::Bool(true))
    );
    assert_eq!(
        evaluate(&binary(Operator::LessThanOrEqual, literal(3), literal(2))),
        Ok(Value::Bool(false))
    );
}

#[test]
fn overflowing_arithmetic_is_an_error() {
    assert_eq!(
        evaluate(&binary(Operator::Add, literal(i64::MAX), literal(1))),
        Err(EvaluationError::IntegerOverflow)
    );
    assert_eq!(
        evaluate(&binary(Operator::Subtract, literal(i64::MIN), literal(1))),
        Err(EvaluationError::IntegerOverflow)
    );
    assert_eq!(
        evaluate(&binary(Operator::Multiply, literal(i64::MAX), literal(2))),
        Err(EvaluationError::IntegerOverflow)
    );
    assert_eq!(
        evaluate(&binary(Operator::Add, literal(i64::MAX), literal(0))),
        Ok(Value::Int(i64::MAX))
    );
}

#[test]
fn unsupported_forms_are_reported_by_evaluation() {
    assert_eq!(
        evaluate(&Expr::Variable("x".into())),
        Err(EvaluationError::NotSupported(
            "variable evaluation is currently not supported"
        ))
    );
    assert_eq!(
        evaluate(&Expr::Operator(Operator::Add)),
        Err(EvaluationError::NotSupported(
            "operator evaluation is currently not supported"
        ))
    );
    assert_eq!(
        evaluate(&Expr::Apply(
            Box::new(Expr::Operator(Operator::Add)),
            Box::new(literal(1))
        )),
        Err(EvaluationError::NotSupported(
            "partially applied functions cannot be evaluated yet"
        ))
    );
    assert_eq!(
        evaluate(&Expr::Lambda {
            parameter: "x".into(),
            body: Box::new(literal(1)),
        }),
        Err(EvaluationError::NotSupported(
            "lambda evaluation is currently not supported"
        ))
    );
    assert_eq!(
        evaluate(&binary(
            Operator::Add,
            Expr::Literal(Value::Bool(true)),
            literal(1)
        )),
        Err(EvaluationError::ExpectedInteger(Value::Bool(true)))
    );
}

#[test]
fn inference_errors_name_the_mismatch() {
    let applied_to_bool = Expr::Apply(
        Box::new(Expr::Operator(Operator::Add)),
        Box::new(Expr::Literal(Value::Bool(false))),
    );
    let mismatch = infer_monomorphic(&applied_to_bool).unwrap_err();
    assert_eq!(
        mismatch,
        TypeInferenceError::TypeMismatch {
            expected: Type::Int,
            actual: Type::Bool
        }
    );
    assert_eq!(
        mismatch.debug_text(),
        "TypeMismatch { expected: Int, actual: Bool }"
    );
    let not_function = infer_monomorphic(&Expr::Apply(Box::new(literal(1)), Box::new(literal(2))))
        .unwrap_err();
    assert_eq!(not_function, TypeInferenceError::NotAFunction(Type::Int));
    assert_eq!(not_function.debug_text(), "NotAFunction(Int)");
    let variable = infer_monomorphic(&Expr::Variable("x".into())).unwrap_err();
    assert_eq!(
        variable.debug_text(),
        "NotImplemented(\"variable type inference is not implemented\")"
    );
    assert_eq!(
        infer_monomorphic(&Expr::Apply(
            Box::new(Expr::Operator(Operator::LessThan)),
            Box::new(literal(1))
        ))
        .unwrap()
        .to_string(),
        "Int -> Bool"
    );
}

#[test]
fn debug_texts_match_the_derived_format() {
    let arrow = Type::arrow(Type::Int, Type::Bool);
    assert_eq!(arrow.debug_text(), format!("{:?}", arrow));
    assert_eq!(Value::Int(-3).debug_text(), "Int(-3)");
    assert_eq!(Value::Bool(false).debug_text(), "Bool(false)");
    assert_eq!(
        EvaluationError::ExpectedInteger(Value::Bool(true)).debug_text(),
        "ExpectedInteger(Bool(true))"
    );
    assert_eq!(EvaluationError::IntegerOverflow.debug_text(), "IntegerOverflow");
    let unsupported = EvaluationError::NotSupported("a \"quoted\" note");
    assert_eq!(unsupported.debug_text(), format!("{:?}", unsupported));
    let var = Type::Var(TypeVarId::new(7));
    assert_eq!(var.debug_text(), format!("{:?}", var));
}

#[test]
fn expressions_print_in_surface_notation() {
    let nested = binary(
        Operator::Add,
        literal(1),
        binary(Operator::Multiply, literal(2), literal(-5)),
    );
    assert_eq!(nested.to_string(), "(1 + (2 * -5))");
    assert_eq!(Expr::Operator(Operator::LessThanOrEqual).to_string(), "<=");
    assert_eq!(
        Expr::Apply(Box::new(Expr::Variable("f".into())), Box::new(literal(3))).to_string(),
        "(f 3)"
    );
    assert_eq!(
        Expr::Lambda {
            parameter: "x".into(),
            body: Box::new(Expr::Variable("x".into())),
        }
        .to_string(),
        "fun x -> x"
    );
    assert_eq!(Value::Bool(true).to_string(), "true");
    assert_eq!(Value::Int(i64::MIN).to_string(), "-9223372036854775808");
    assert_eq!(nested.clone(), nested);
}

#[test]
fn well_typed_integer_expressions_evaluate_to_integers() {
    let expression = binary(
        Operator::Subtract,
        binary(Operator::Multiply, literal(6), literal(7)),
        literal(2),
    );
    assert_eq!(infer_monomorphic(&expression), Ok(Type::Int));
    assert_eq!(evaluate(&expression), Ok(Value::Int(40)));
    let comparison = binary(Operator::LessThan, literal(1), expression);
    assert_eq!(infer_monomorphic(&comparison), Ok(Type::Bool));
    assert_eq!(evaluate(&comparison), Ok(Value::Bool(true)));
}
