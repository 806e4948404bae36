use compose_the_function::cards::{
    starter_cards, CardId, CardInstance, CardLibrary, CardTerm, Deck,
};
use compose_the_function::expression_builder::{ExpressionBuildError, ExpressionBuilder};
use compose_the_function::language::{evaluate, infer_monomorphic, Expr, Operator, Value};
use compose_the_function::player::TurnState;

fn deck_of(library: &mut CardLibrary, cards: &[Result<i64, Operator>]) -> Deck {
    let mut instances = Vec::new();
    for card in cards {
        let id = match card {
            Ok(value) => library.register_integer_literal(*value),
            Err(operator) => library.register_operator(*operator),
        };
        instances.push(CardInstance::new(id));
    }
    Deck::new(instances)
}

fn select_all(builder: &mut ExpressionBuilder, deck: &mut Deck, library: &CardLibrary) {
    while !deck.is_empty() {
        builder.select(0, deck, library).unwrap();
    }
}

#[test]
fn clearing_an_old_selection_preserves_a_newer_binding_with_the_same_name() {
    let (_, mut deck) = starter_cards();
    let mut turn = TurnState::new();
    turn.bind_expression("x", Expr::Literal(Value::Int(1)))
        .unwrap();
    let mut builder = ExpressionBuilder::new();
    builder.select_binding("x", &mut turn).unwrap();
    turn.bind_expression("x", Expr::Literal(Value::Int(9)))
        .unwrap();
    builder.clear(&mut deck, &mut turn);
    assert_eq!(turn.bindings().len(), 1);
    assert_eq!(
        turn.binding("x").unwrap().term(),
        &CardTerm::Binding(Expr::Literal(Value::Int(9)))
    );
}

#[test]
fn a_binding_can_only_be_selected_once_and_clear_restores_it() {
    let (library, mut deck) = starter_cards();
    let mut turn = TurnState::new();
    turn.bind_expression("x", Expr::Literal(Value::Int(3)))
        .unwrap();
    let mut builder = ExpressionBuilder::new();
    builder.select_binding("x", &mut turn).unwrap();
    builder.select(3, &mut deck, &library).unwrap();
    assert_eq!(
        builder.select_binding("x", &mut turn),
        Err(ExpressionBuildError::UnknownBinding("x".into()))
    );
    assert_eq!(builder.current_expr(), "x +");
    assert!(turn.bindings().is_empty());
    builder.clear(&mut deck, &mut turn);
    assert_eq!(deck.cards().len(), 4);
    assert_eq!(turn.bindings().len(), 1);
    builder.clear(&mut deck, &mut turn);
    assert_eq!(deck.cards().len(), 4);
}

#[test]
fn rebinding_preserves_old_selections_and_derived_bindings() {
    let mut turn = TurnState::new();
    let mut builder = ExpressionBuilder::new();
    turn.bind_expression("x", Expr::Literal(Value::Int(1)))
        .unwrap();
    builder.select_binding("x", &mut turn).unwrap();
    turn.bind_expression("y", builder.build().unwrap()).unwrap();
    turn.bind_expression("x", Expr::Literal(Value::Int(9)))
        .unwrap();
    assert_eq!(evaluate(&builder.build().unwrap()), Ok(Value::Int(1)));
    builder.commit();
    builder.select_binding("y", &mut turn).unwrap();
    assert_eq!(evaluate(&builder.build().unwrap()), Ok(Value::Int(1)));
    builder.commit();
    builder.select_binding("x", &mut turn).unwrap();
    assert_eq!(evaluate(&builder.build().unwrap()), Ok(Value::Int(9)));
}

#[test]
fn a_missing_binding_does_not_change_the_selection() {
    let mut builder = ExpressionBuilder::new();
    assert_eq!(
        builder.select_binding("x", &mut TurnState::new()),
        Err(ExpressionBuildError::UnknownBinding("x".into()))
    );
    assert_eq!(builder.current_expr(), "");
    assert_eq!(builder.build(), Err(ExpressionBuildError::EmptyExpression));
}

#[test]
fn selected_cards_build_an_infix_expression_and_leave_the_deck() {
    let (library, mut deck) = starter_cards();
    let mut builder = ExpressionBuilder::new();

    builder.select(0, &mut deck, &library).unwrap(); // 1
    builder.select(2, &mut deck, &library).unwrap(); // +
    builder.select(0, &mut deck, &library).unwrap(); // 2

    let expression = builder.build().unwrap();
    assert_eq!(builder.current_expr(), "1 + 2");
    assert_eq!(infer_monomorphic(&expression).unwrap().to_string(), "Int");
    assert_eq!(evaluate(&expression), Ok(Value::Int(3)));
    assert_eq!(deck.cards().len(), 1);
}

#[test]
fn invalid_order_is_rejected_without_clearing_the_selection() {
    let (library, mut deck) = starter_cards();
    let mut builder = ExpressionBuilder::new();

    builder.select(0, &mut deck, &library).unwrap(); // 1
    builder.select(0, &mut deck, &library).unwrap(); // 2

    assert_eq!(builder.current_expr(), "1 2");
    assert_eq!(
        builder.build(),
        Err(ExpressionBuildError::ExpectedOperator(2))
    );
}

#[test]
fn clear_returns_selected_instances_to_the_deck() {
    let (library, mut deck) = starter_cards();
    let mut turn = TurnState::new();
    let mut builder = ExpressionBuilder::new();

    builder.select(0, &mut deck, &library).unwrap();
    builder.select(2, &mut deck, &library).unwrap();
    builder.clear(&mut deck, &mut turn);

    assert_eq!(builder.current_expr(), "");
    assert_eq!(deck.cards().len(), 4);
}

#[test]
fn multiplication_has_higher_precedence_than_addition() {
    let mut library = CardLibrary::new();
    let one = library.register_integer_literal(1);
    let add = library.register_operator(Operator::Add);
    let two = library.register_integer_literal(2);
    let multiply = library.register_operator(Operator::Multiply);
    let five = library.register_integer_literal(5);
    let mut deck = Deck::new(
        [one, add, two, multiply, five]
            .map(CardInstance::new)
            .to_vec(),
    );
    let mut builder = ExpressionBuilder::new();

    for _ in 0..5 {
        builder.select(0, &mut deck, &library).unwrap();
    }

    let expression = builder.build().unwrap();
    assert_eq!(builder.current_expr(), "1 + 2 * 5");
    assert_eq!(evaluate(&expression), Ok(Value::Int(11)));
}

#[test]
fn operators_of_equal_precedence_associate_to_the_left() {
    let mut library = CardLibrary::new();
    let mut deck = deck_of(
        &mut library,
        &[Ok(10), Err(Operator::Subtract), Ok(3), Err(Operator::Subtract), Ok(2)],
    );
    let mut builder = ExpressionBuilder::new();
    select_all(&mut builder, &mut deck, &library);
    let expression = builder.build().unwrap();
    assert_eq!(expression.to_string(), "((10 - 3) - 2)");
    assert_eq!(evaluate(&expression), Ok(Value::Int(5)));
}

#[test]
fn comparisons_bind_loosest() {
    let mut library = CardLibrary::new();
    let mut deck = deck_of(
        &mut library,
        &[
            Ok(2),
            Err(Operator::Multiply),
            Ok(3),
            Err(Operator::LessThan),
            Ok(1),
            Err(Operator::Add),
            Ok(6),
        ],
    );
    let mut builder = ExpressionBuilder::new();
    select_all(&mut builder, &mut deck, &library);
    let expression = builder.build().unwrap();
    assert_eq!(expression.to_string(), "((2 * 3) < (1 + 6))");
    assert_eq!(evaluate(&expression), Ok(Value::Bool(true)));
    assert_eq!(builder.current_expr(), "2 * 3 < 1 + 6");
}

#[test]
fn malformed_selections_report_the_first_misplaced_card() {
    let mut library = CardLibrary::new();
    let mut deck = deck_of(&mut library, &[Err(Operator::Add), Ok(1)]);
    let mut builder = ExpressionBuilder::new();
    select_all(&mut builder, &mut deck, &library);
    assert_eq!(
        builder.build(),
        Err(ExpressionBuildError::ExpectedOperand(1))
    );

    let mut deck = deck_of(&mut library, &[Ok(1), Err(Operator::Add)]);
    let mut builder = ExpressionBuilder::new();
    select_all(&mut builder, &mut deck, &library);
    assert_eq!(builder.build(), Err(ExpressionBuildError::TrailingOperator));

    let mut deck = deck_of(
        &mut library,
        &[Ok(1), Err(Operator::Add), Err(Operator::Multiply), Ok(2)],
    );
    let mut builder = ExpressionBuilder::new();
    select_all(&mut builder, &mut deck, &library);
    assert_eq!(
        builder.build(),
        Err(ExpressionBuildError::ExpectedOperand(3))
    );
}

#[test]
fn selecting_outside_the_deck_or_library_changes_nothing() {
    let (library, mut deck) = starter_cards();
    let mut builder = ExpressionBuilder::new();
    assert_eq!(
        builder.select(4, &mut deck, &library),
        Err(ExpressionBuildError::InvalidDeckIndex(4))
    );
    let empty = CardLibrary::new();
    let first = deck.cards()[0].definition();
    assert_eq!(
        builder.select(0, &mut deck, &empty),
        Err(ExpressionBuildError::UnknownCard(first))
    );
    assert_eq!(deck.cards().len(), 4);
    assert_eq!(builder.current_expr(), "");
}

#[test]
fn selected_bindings_are_reported_by_name() {
    let mut turn = TurnState::new();
    turn.bind_expression("x", Expr::Literal(Value::Int(4)))
        .unwrap();
    let mut builder = ExpressionBuilder::default();
    assert!(!builder.has_selected_binding("x"));
    builder.select_binding("x", &mut turn).unwrap();
    assert!(builder.has_selected_binding("x"));
    assert!(!builder.has_selected_binding("y"));
    builder.commit();
    assert!(!builder.has_selected_binding("x"));
    assert_eq!(builder.current_expr(), "");
    assert!(turn.binding("x").is_none());
}

#[test]
fn clear_appends_deck_cards_in_selection_order() {
    let (library, mut deck) = starter_cards();
    let ids: Vec<CardId> = deck.cards().iter().map(|card| card.definition()).collect();
    let mut builder = ExpressionBuilder::new();
    let mut turn = TurnState::new();
    builder.select(2, &mut deck, &library).unwrap();
    builder.select(0, &mut deck, &library).unwrap();
    builder.clear(&mut deck, &mut turn);
    let after: Vec<CardId> = deck.cards().iter().map(|card| card.definition()).collect();
    assert_eq!(after, vec![ids[1], ids[3], ids[2], ids[0]]);
    assert_eq!(turn.current_energy(), 3);
}

#[test]
fn build_errors_have_readable_messages() {
    assert_eq!(
        ExpressionBuildError::EmptyExpression.to_string(),
        "expression is empty"
    );
    assert_eq!(
        ExpressionBuildError::InvalidDeckIndex(7).to_string(),
        "selected card is not in the deck"
    );
    let (library, deck) = starter_cards();
    let id = deck.cards()[3].definition();
    assert!(library.get(id).is_some());
    assert_eq!(
        ExpressionBuildError::UnknownCard(id).to_string(),
        "card 4 is missing"
    );
    assert_eq!(
        ExpressionBuildError::UnknownBinding("x".into()).to_string(),
        "binding \"x\" is missing from this turn"
    );
    assert_eq!(
        ExpressionBuildError::ExpectedOperand(12).to_string(),
        "expected a value at card 12"
    );
    assert_eq!(
        ExpressionBuildError::ExpectedOperator(3).to_string(),
        "expected an operator at card 3"
    );
    assert_eq!(
        ExpressionBuildError::TrailingOperator.to_string(),
        "expression cannot end with an operator"
    );
    assert_eq!(
        ExpressionBuildError::MalformedExpression.to_string(),
        "expression is malformed"
    );
}
