use compose_the_function::cards::{
    starter_cards, CardInstance, CardLibrary, CardRegistrationError, CardTerm, Deck,
};
use compose_the_function::language::{Expr, Operator, Type, TypeScheme, Value};

#[test]
fn persistent_library_rejects_bindings_without_consuming_an_id() {
    let mut library = CardLibrary::new();
    let first = library.register_integer_literal(1);
    assert_eq!(
        library.register(
            "x",
            CardTerm::Binding(Expr::Literal(Value::Int(2))),
            TypeScheme::monomorphic(Type::Int)
        ),
        Err(CardRegistrationError::BindingMustBeTurnLocal)
    );
    assert_eq!(library.len(), 1);
    assert_eq!(
        library.register_integer_literal(2).value(),
        first.value() + 1
    );
}

#[test]
fn library_generates_incrementing_card_ids() {
    let mut library = CardLibrary::new();

    let first = library.register_integer_literal(1);
    let second = library.register_integer_literal(2);

    assert_eq!(first.value(), 1);
    assert_eq!(second.value(), 2);
}

#[test]
fn starter_deck_references_literal_definitions() {
    let (library, deck) = starter_cards();

    let values: Vec<_> = deck
        .cards()
        .iter()
        .filter_map(|instance| {
            let definition = library.get(instance.definition()).unwrap();
            match definition.term() {
                CardTerm::Literal(Value::Int(value)) => Some(*value),
                _ => None,
            }
        })
        .collect();

    assert_eq!(values, vec![1, 2, 5]);
    assert!(deck.cards().iter().any(|instance| {
        library
            .get(instance.definition())
            .is_some_and(|definition| definition.term() == &CardTerm::Operator(Operator::Add))
    }));
}

#[test]
fn registering_an_operator_uses_its_semantics_for_metadata() {
    let mut library = CardLibrary::new();

    let add_id = library.register_operator(Operator::Add);
    let comparison_id = library.register_operator(Operator::GreaterThanOrEqual);

    let add = library.get(add_id).unwrap();
    assert_eq!(add.name(), "+");
    assert_eq!(add.term(), &CardTerm::Operator(Operator::Add));
    assert_eq!(add.scheme().typ.to_string(), "Int -> Int -> Int");

    let comparison = library.get(comparison_id).unwrap();
    assert_eq!(comparison.name(), ">=");
    assert_eq!(comparison.scheme().typ.to_string(), "Int -> Int -> Bool");
}

#[test]
fn negative_literals_are_named_by_their_decimal_notation() {
    let mut library = CardLibrary::new();
    let minimum = library.register_integer_literal(i64::MIN);
    let zero = library.register_integer_literal(0);
    assert_eq!(library.get(minimum).unwrap().name(), "-9223372036854775808");
    assert_eq!(library.get(zero).unwrap().name(), "0");
    assert_eq!(library.get(zero).unwrap().term().category(), "Literal");
}

#[test]
fn lookups_outside_the_library_find_nothing() {
    let (library, _) = starter_cards();
    let mut other = CardLibrary::new();
    for value in 0..6 {
        other.register_integer_literal(value);
    }
    let sixth = other.register_integer_literal(6);
    assert_eq!(sixth.value(), 7);
    assert!(library.get(sixth).is_none());
    assert_eq!(library.len(), 4);
    assert!(!library.is_empty());
    assert!(CardLibrary::new().is_empty());
}

#[test]
fn contains_name_finds_persistent_names_only() {
    let (mut library, _) = starter_cards();
    assert!(library.contains_name("+"));
    assert!(library.contains_name("5"));
    assert!(!library.contains_name("x"));
    library
        .register(
            "double",
            CardTerm::Definition(Expr::Literal(Value::Int(8))),
            TypeScheme::monomorphic(Type::Int),
        )
        .unwrap();
    assert!(library.contains_name("double"));
}

#[test]
fn deck_removal_keeps_order_and_rejects_missing_positions() {
    let (_, mut deck) = starter_cards();
    let third = deck.cards()[2];
    assert_eq!(deck.remove(9), None);
    assert_eq!(deck.cards().len(), 4);
    assert_eq!(deck.remove(1).map(|card| card.definition().value()), Some(2));
    assert_eq!(deck.cards()[1], third);
    assert!(deck.contains(third.definition()));
    let removed = deck.remove(1).unwrap();
    assert!(!deck.contains(removed.definition()));
    deck.add(third);
    assert_eq!(deck.cards().last(), Some(&third));
    let empty = Deck::new(Vec::new());
    assert!(empty.is_empty());
    assert_eq!(CardInstance::new(third.definition()), third);
}

#[test]
fn card_categories_follow_the_term() {
    assert_eq!(CardTerm::Literal(Value::Bool(true)).category(), "Literal");
    assert_eq!(CardTerm::Operator(Operator::Add).category(), "Operator");
    assert_eq!(
        CardTerm::Binding(Expr::Literal(Value::Int(1))).category(),
        "Binding"
    );
    assert_eq!(
        CardTerm::Definition(Expr::Literal(Value::Int(1))).category(),
        "Definition"
    );
}
