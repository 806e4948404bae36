use compose_the_function::cards::{starter_cards, CardTerm};
use compose_the_function::language::{
    infer_monomorphic, EvaluationError, Expr, Operator, Type, TypeInferenceError, Value,
};
use compose_the_function::player::{Player, PlayerError, TurnState, STARTING_ENERGY};

#[test]
fn bindings_preserve_expressions_including_functions_without_evaluation() {
    let mut turn = TurnState::new();
    let expressions = [
        Expr::Literal(Value::Bool(true)),
        Expr::Operator(Operator::Add),
        Expr::Apply(
            Box::new(Expr::Operator(Operator::Add)),
            Box::new(Expr::Literal(Value::Int(1))),
        ),
    ];
    for (index, expression) in expressions.into_iter().enumerate() {
        let name = format!("x{index}");
        let typ = infer_monomorphic(&expression).unwrap();
        turn.bind_expression(&name, expression.clone()).unwrap();
        let card = turn.binding(&name).unwrap();
        assert_eq!(card.term(), &CardTerm::Binding(expression));
        assert_eq!(card.scheme().typ, typ);
    }
    assert_eq!(turn.current_energy(), 0);
}

#[test]
fn rebinding_replaces_expression_and_type() {
    let mut turn = TurnState::new();
    turn.bind_expression("x", Expr::Literal(Value::Int(1)))
        .unwrap();
    turn.bind_expression("x", Expr::Operator(Operator::Add))
        .unwrap();
    assert_eq!(turn.bindings().len(), 1);
    assert_eq!(turn.binding("x").unwrap().scheme().typ, Operator::Add.typ());
    assert_eq!(turn.current_energy(), 1);
}

#[test]
fn failed_binding_preserves_previous_binding_and_energy() {
    let mut turn = TurnState::new();
    turn.bind_expression("x", Expr::Literal(Value::Int(5)))
        .unwrap();
    let before = turn.bindings().to_vec();
    assert!(turn
        .bind_expression("bad name", Expr::Literal(Value::Int(2)))
        .is_err());
    assert!(turn
        .bind_expression("x", Expr::Variable("missing".into()))
        .is_err());
    assert_eq!(turn.bindings(), &before[..]);
    assert_eq!(turn.current_energy(), 2);
    turn.bind_expression("x", Expr::Literal(Value::Int(6)))
        .unwrap();
    turn.bind_expression("x", Expr::Literal(Value::Int(7)))
        .unwrap();
    assert_eq!(
        turn.bind_expression("x", Expr::Literal(Value::Int(8))),
        Err(PlayerError::OutOfEnergy)
    );
    assert_eq!(
        turn.binding("x").unwrap().term(),
        &CardTerm::Binding(Expr::Literal(Value::Int(7)))
    );
}

#[test]
fn scoring_failures_preserve_turn_and_fresh_turn_has_no_bindings() {
    let mut turn = TurnState::new();
    turn.bind_expression("x", Expr::Literal(Value::Int(5)))
        .unwrap();
    assert_eq!(
        turn.evaluate(&Expr::Literal(Value::Bool(true))),
        Err(PlayerError::ScoreMustBeInteger)
    );
    assert!(turn.evaluate(&Expr::Operator(Operator::Add)).is_err());
    assert_eq!(turn.current_energy(), 2);
    assert_eq!(turn.bindings().len(), 1);
    assert_eq!(turn.evaluate(&Expr::Literal(Value::Int(5))), Ok(5));
    drop(turn);
    let mut next = TurnState::new();
    assert!(next.bindings().is_empty());
    assert_eq!(next.current_energy(), STARTING_ENERGY);
    next.bind_expression("x", Expr::Literal(Value::Int(2)))
        .unwrap();
}

#[test]
fn binding_errors_say_which_check_failed() {
    let mut turn = TurnState::new();
    assert_eq!(
        turn.bind_expression("bad name", Expr::Literal(Value::Int(1))),
        Err(PlayerError::InvalidVariableName("bad name".into()))
    );
    assert_eq!(
        turn.bind_expression("x", Expr::Variable("y".into())),
        Err(PlayerError::TypeInference(TypeInferenceError::NotImplemented(
            "variable type inference is not implemented"
        )))
    );
    assert_eq!(turn.current_energy(), STARTING_ENERGY);
    assert!(turn.bindings().is_empty());
}

#[test]
fn scoring_spends_energy_and_reports_each_failure() {
    let mut turn = TurnState::new();
    let sum = Expr::Apply(
        Box::new(Expr::Apply(
            Box::new(Expr::Operator(Operator::Add)),
            Box::new(Expr::Literal(Value::Int(i64::MAX))),
        )),
        Box::new(Expr::Literal(Value::Int(1))),
    );
    assert_eq!(
        turn.evaluate(&sum),
        Err(PlayerError::Evaluation(EvaluationError::IntegerOverflow))
    );
    assert_eq!(
        turn.evaluate(&Expr::Variable("x".into())),
        Err(PlayerError::TypeInference(TypeInferenceError::NotImplemented(
            "variable type inference is not implemented"
        )))
    );
    assert_eq!(turn.current_energy(), 3);
    assert_eq!(turn.evaluate(&Expr::Literal(Value::Int(-4))), Ok(-4));
    assert_eq!(turn.evaluate(&Expr::Literal(Value::Int(0))), Ok(0));
    assert_eq!(turn.evaluate(&Expr::Literal(Value::Int(9))), Ok(9));
    assert_eq!(turn.current_energy(), 0);
    assert_eq!(
        turn.evaluate(&Expr::Literal(Value::Int(1))),
        Err(PlayerError::OutOfEnergy)
    );
}

#[test]
fn player_errors_have_readable_messages() {
    assert_eq!(
        PlayerError::OutOfEnergy.to_string(),
        "the player is out of energy"
    );
    assert_eq!(
        PlayerError::InvalidVariableName("bad name".into()).to_string(),
        "\"bad name\" is not a valid variable name"
    );
    assert_eq!(
        PlayerError::ScoreMustBeInteger.to_string(),
        "only an Int can be used as a score"
    );
    assert_eq!(
        PlayerError::TypeInference(TypeInferenceError::NotAFunction(Type::Bool)).to_string(),
        "type inference failed: NotAFunction(Bool)"
    );
    assert_eq!(
        PlayerError::Evaluation(EvaluationError::IntegerOverflow).to_string(),
        "evaluation failed: IntegerOverflow"
    );
    assert_eq!(
        PlayerError::InvalidVariableName("tab\there".into()).to_string(),
        format!("{:?} is not a valid variable name", "tab\there")
    );
}

#[test]
fn sorted_bindings_list_names_in_order() {
    let mut turn = TurnState::new();
    turn.bind_expression("zeta", Expr::Literal(Value::Int(1)))
        .unwrap();
    turn.bind_expression("Alpha", Expr::Literal(Value::Int(2)))
        .unwrap();
    turn.bind_expression("alpha", Expr::Literal(Value::Int(3)))
        .unwrap();
    let names: Vec<&str> = turn
        .sorted_bindings()
        .iter()
        .map(|card| card.name())
        .collect();
    assert_eq!(names, vec!["Alpha", "alpha", "zeta"]);
    assert!(turn.binding("beta").is_none());
    assert_eq!(TurnState::default().current_energy(), STARTING_ENERGY);
}

#[test]
fn a_player_owns_a_deck() {
    let (_, deck) = starter_cards();
    let mut player = Player::new(deck);
    assert_eq!(player.deck().cards().len(), 4);
    let removed = player.deck_mut().remove(0).unwrap();
    assert_eq!(player.deck().cards().len(), 3);
    assert!(!player.deck().contains(removed.definition()));
}
