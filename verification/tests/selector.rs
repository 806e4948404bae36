use compose_the_function::cards::{starter_cards, CardInstance, CardLibrary, CardTerm, Deck};
use compose_the_function::expression_builder::ExpressionBuilder;
use compose_the_function::language::{Expr, Operator, Type, TypeScheme, Value};
use compose_the_function::player::TurnState;
use compose_the_function::selector::{
    bind_selection, card_rows, card_width, centered, overwrite_warning, prompt_segments, render,
    render_card_group, resolve_cards, score_selection, validated_expression, BuildAction, Key,
    Segment, Selector, CARD_HEIGHT, MINIMUM_INNER_WIDTH,
};

fn joined(segments: &[Segment]) -> String {
    segments.iter().map(|segment| segment.text.as_str()).collect()
}

#[test]
fn failed_actions_keep_selected_bindings_recoverable() {
    let (_, mut deck) = starter_cards();
    let mut turn = TurnState::new();
    turn.bind_expression("f", Expr::Operator(Operator::Add))
        .unwrap();
    let original = turn.binding("f").unwrap().clone();
    let mut builder = ExpressionBuilder::new();
    builder.select_binding("f", &mut turn).unwrap();
    assert!(score_selection(&mut builder, &mut turn).is_err());
    assert!(bind_selection(&mut builder, &mut turn, "bad name").is_err());
    assert_eq!(turn.current_energy(), 2);
    assert!(turn.bindings().is_empty());
    assert_eq!(builder.current_expr(), "f");
    builder.clear(&mut deck, &mut turn);
    assert_eq!(turn.binding("f").unwrap(), &original);
    assert_eq!(deck.cards().len(), 4);
}

#[test]
fn binding_a_selected_binding_consumes_the_input_and_keeps_only_the_result() {
    let (_, mut deck) = starter_cards();
    let mut turn = TurnState::new();
    turn.bind_expression("x", Expr::Literal(Value::Int(3)))
        .unwrap();
    let mut builder = ExpressionBuilder::new();
    builder.select_binding("x", &mut turn).unwrap();
    assert!(overwrite_warning(&turn, &builder, "x").is_some());
    bind_selection(&mut builder, &mut turn, "x").unwrap();
    builder.clear(&mut deck, &mut turn);
    assert_eq!(turn.bindings().len(), 1);
    builder.select_binding("x", &mut turn).unwrap();
    bind_selection(&mut builder, &mut turn, "y").unwrap();
    builder.clear(&mut deck, &mut turn);
    assert_eq!(turn.bindings().len(), 1);
    assert!(turn.binding("x").is_none());
    assert_eq!(
        turn.binding("y").unwrap().term(),
        &CardTerm::Binding(Expr::Literal(Value::Int(3)))
    );
}

#[test]
fn bind_then_score_consumes_binding_without_registering_persistent_definitions() {
    let (mut library, mut deck) = starter_cards();
    deck.add(CardInstance::new(library.register_operator(Operator::Add)));
    let original_library_size = library.len();
    let mut turn = TurnState::new();
    let mut builder = ExpressionBuilder::new();
    builder.select(0, &mut deck, &library).unwrap();
    builder.select(2, &mut deck, &library).unwrap();
    builder.select(0, &mut deck, &library).unwrap();
    bind_selection(&mut builder, &mut turn, "x").unwrap();
    assert_eq!(builder.current_expr(), "");
    assert_eq!(deck.cards().len(), 2);
    builder.select_binding("x", &mut turn).unwrap();
    builder.select(1, &mut deck, &library).unwrap();
    builder.select(0, &mut deck, &library).unwrap(); // Remaining literal 5.
    assert_eq!(score_selection(&mut builder, &mut turn), Ok(8));
    assert!(turn.bindings().is_empty());
    assert_eq!(turn.current_energy(), 1);
    assert_eq!(library.len(), original_library_size);
    builder.clear(&mut deck, &mut turn);
    assert_eq!(deck.cards().len(), 0);
}

#[test]
fn failed_actions_preserve_selection_for_clearing_or_retry() {
    let (mut library, mut deck) = starter_cards();
    let boolean = library
        .register(
            "true",
            CardTerm::Literal(Value::Bool(true)),
            TypeScheme::monomorphic(Type::Bool),
        )
        .unwrap();
    deck.add(CardInstance::new(boolean));
    let mut builder = ExpressionBuilder::new();
    let mut turn = TurnState::new();
    builder.select(4, &mut deck, &library).unwrap();
    assert!(score_selection(&mut builder, &mut turn).is_err());
    assert!(bind_selection(&mut builder, &mut turn, "bad name").is_err());
    assert_eq!(builder.current_expr(), "true");
    assert_eq!(turn.current_energy(), 3);
    assert!(turn.bindings().is_empty());
    builder.clear(&mut deck, &mut turn);
    assert_eq!(deck.cards().len(), 5);
}

#[test]
fn binding_display_is_sorted_and_overwrite_warning_is_advisory() {
    let (mut library, mut deck) = starter_cards();
    let persistent = library
        .register(
            "a",
            CardTerm::Definition(Expr::Literal(Value::Int(8))),
            TypeScheme::monomorphic(Type::Int),
        )
        .unwrap();
    deck.add(CardInstance::new(persistent));
    let mut turn = TurnState::new();
    turn.bind_expression("z", Expr::Literal(Value::Int(1)))
        .unwrap();
    turn.bind_expression("a", Expr::Literal(Value::Int(2)))
        .unwrap();
    assert_eq!(
        turn.sorted_bindings()
            .iter()
            .map(|card| card.name())
            .collect::<Vec<_>>(),
        vec!["a", "z"]
    );
    assert!(overwrite_warning(&turn, &ExpressionBuilder::new(), "a")
        .unwrap()
        .contains("overwrite"));
    assert!(overwrite_warning(&turn, &ExpressionBuilder::new(), "other").is_none());
    let mut builder = ExpressionBuilder::new();
    builder.select_binding("a", &mut turn).unwrap();
    bind_selection(&mut builder, &mut turn, "a").unwrap();
    let rendered = render(
        &library,
        &deck,
        &builder,
        deck.cards().len(),
        "",
        &turn,
    )
    .unwrap();
    let rendered = joined(&rendered);
    assert!(rendered.contains("Bindings — one use this turn"));
    assert!(rendered.contains("b: bind"));
    assert_eq!(
        library.get(persistent).unwrap().term(),
        &CardTerm::Definition(Expr::Literal(Value::Int(8)))
    );
}

#[test]
fn unicode_card_contains_name_category_and_type() {
    let (library, deck) = starter_cards();
    let cards = resolve_cards(&library, &deck).unwrap();
    let rows = card_rows(cards[0], card_width(cards[0]));

    assert_eq!(rows[0], "┌─────────┐");
    assert_eq!(rows[1], "│    1    │");
    assert_eq!(rows[2], "│ Literal │");
    assert_eq!(rows[3], "│   Int   │");
    assert_eq!(rows[4], "└─────────┘");
}

#[test]
fn centering_puts_the_extra_space_on_the_right() {
    assert_eq!(centered("ab", 5), " ab  ");
    assert_eq!(centered("abc", 5), " abc ");
    assert_eq!(centered("toolong", 3), "toolong");
    assert_eq!(centered("", 2), "  ");
    assert_eq!(centered("é", 3), " é ");
}

#[test]
fn cards_widen_for_long_names_and_types() {
    let (mut library, deck) = starter_cards();
    let wide = library
        .register(
            "a_very_long_name",
            CardTerm::Definition(Expr::Literal(Value::Int(1))),
            TypeScheme::monomorphic(Type::Int),
        )
        .unwrap();
    let card = library.get(wide).unwrap();
    assert_eq!(card_width(card), 16);
    let rows = card_rows(card, card_width(card));
    assert_eq!(rows.len(), CARD_HEIGHT);
    assert_eq!(rows[1], "│a_very_long_name│");
    assert_eq!(rows[2], "│   Definition   │");
    let plus = library.get(deck.cards()[3].definition()).unwrap();
    assert_eq!(plus.name(), "+");
    assert_eq!(card_width(plus), "Int -> Int -> Int".chars().count());
    let one = library.get(deck.cards()[0].definition()).unwrap();
    assert_eq!(card_width(one), MINIMUM_INNER_WIDTH);
}

#[test]
fn validation_explains_build_and_type_errors() {
    let builder = ExpressionBuilder::new();
    assert_eq!(
        validated_expression(&builder),
        Err("Invalid expression: expression is empty".to_string())
    );
    let (library, mut deck) = starter_cards();
    let mut builder = ExpressionBuilder::new();
    builder.select(3, &mut deck, &library).unwrap();
    assert_eq!(
        validated_expression(&builder),
        Err("Invalid expression: expected a value at card 1".to_string())
    );
    let (library, mut deck) = starter_cards();
    let mut turn = TurnState::new();
    turn.bind_expression("t", Expr::Literal(Value::Bool(true)))
        .unwrap();
    let mut builder = ExpressionBuilder::new();
    builder.select(0, &mut deck, &library).unwrap();
    builder.select(2, &mut deck, &library).unwrap();
    builder.select_binding("t", &mut turn).unwrap();
    assert_eq!(builder.current_expr(), "1 + t");
    assert_eq!(
        validated_expression(&builder),
        Err("Invalid expression type: TypeMismatch { expected: Int, actual: Bool }".to_string())
    );
}

#[test]
fn scoring_and_binding_report_player_errors() {
    let (library, mut deck) = starter_cards();
    let mut turn = TurnState::new();
    let mut builder = ExpressionBuilder::new();
    builder.select(0, &mut deck, &library).unwrap();
    assert_eq!(
        bind_selection(&mut builder, &mut turn, "bad name"),
        Err("Could not bind expression: \"bad name\" is not a valid variable name".to_string())
    );
    assert_eq!(builder.current_expr(), "1");
    bind_selection(&mut builder, &mut turn, "one").unwrap();
    assert_eq!(turn.current_energy(), 2);
    builder.select_binding("one", &mut turn).unwrap();
    assert_eq!(score_selection(&mut builder, &mut turn), Ok(1));
    assert_eq!(turn.current_energy(), 1);
    builder.select(0, &mut deck, &library).unwrap();
    assert_eq!(score_selection(&mut builder, &mut turn), Ok(2));
    builder.select(0, &mut deck, &library).unwrap();
    assert_eq!(
        score_selection(&mut builder, &mut turn),
        Err("Could not end turn: the player is out of energy".to_string())
    );
    assert_eq!(builder.current_expr(), "5");
}

#[test]
fn overwrite_warning_quotes_the_name() {
    let mut turn = TurnState::new();
    turn.bind_expression("x", Expr::Literal(Value::Int(1)))
        .unwrap();
    assert_eq!(
        overwrite_warning(&turn, &ExpressionBuilder::new(), "x"),
        Some(
            "Warning: Enter will overwrite binding \"x\". Earlier expressions keep its previous definition."
                .to_string()
        )
    );
    let mut builder = ExpressionBuilder::new();
    builder.select_binding("x", &mut turn).unwrap();
    assert!(overwrite_warning(&turn, &builder, "x").is_some());
    assert!(overwrite_warning(&turn, &builder, "y").is_none());
}

#[test]
fn empty_groups_render_as_none_and_the_selection_is_highlighted() {
    assert_eq!(
        render_card_group(&Vec::new(), 0, 0),
        vec![Segment {
            text: "(none)".to_string(),
            highlighted: false
        }]
    );
    let (library, deck) = starter_cards();
    let cards = resolve_cards(&library, &deck).unwrap();
    let group = render_card_group(&cards, 1, 0);
    let highlighted: Vec<&str> = group
        .iter()
        .filter(|segment| segment.highlighted)
        .map(|segment| segment.text.as_str())
        .collect();
    assert_eq!(highlighted.len(), CARD_HEIGHT);
    assert_eq!(highlighted[1], "│    2    │");
    let text = joined(&group);
    assert_eq!(text.matches("\r\n").count(), CARD_HEIGHT - 1);
    assert!(text.starts_with("┌─────────┐  ┌─────────┐"));
}

#[test]
fn render_shows_energy_expression_and_status() {
    let (library, deck) = starter_cards();
    let turn = TurnState::new();
    let builder = ExpressionBuilder::new();
    let screen = joined(&render(&library, &deck, &builder, 0, "hello", &turn).unwrap());
    assert!(screen.starts_with("Energy: 3    Current expression: <empty>\r\n"));
    assert!(screen.contains("hello\r\nDeck\r\n"));
    assert!(screen.ends_with("(none)"));
    let mut other = CardLibrary::new();
    other.register_integer_literal(0);
    assert!(render(&other, &deck, &builder, 0, "", &turn).is_none());
    assert!(resolve_cards(&other, &deck).is_none());
}

#[test]
fn prompt_shows_the_name_and_cursor() {
    let turn = TurnState::new();
    let builder = ExpressionBuilder::new();
    let prompt = prompt_segments(&turn, &builder, "ab");
    assert_eq!(
        joined(&prompt),
        "\r\n\r\nVariable name: ab \r\nEnter: confirm  Esc: cancel"
    );
    assert_eq!(prompt.iter().filter(|segment| segment.highlighted).count(), 1);
}

#[test]
fn navigation_wraps_within_a_group_and_switches_groups() {
    let (library, mut deck) = starter_cards();
    let mut turn = TurnState::new();
    turn.bind_expression("x", Expr::Literal(Value::Int(1)))
        .unwrap();
    turn.bind_expression("y", Expr::Literal(Value::Int(2)))
        .unwrap();
    let mut builder = ExpressionBuilder::new();
    let mut selector = Selector::new();
    let mut press = |selector: &mut Selector,
                     key: Key,
                     deck: &mut Deck,
                     turn: &mut TurnState| {
        selector.handle_key(key, &library, deck, turn, &mut builder)
    };
    assert_eq!(press(&mut selector, Key::Left, &mut deck, &mut turn), None);
    assert_eq!(selector.selected_index(), 3);
    assert_eq!(press(&mut selector, Key::Right, &mut deck, &mut turn), None);
    assert_eq!(selector.selected_index(), 0);
    press(&mut selector, Key::Down, &mut deck, &mut turn);
    assert_eq!(selector.selected_index(), 4);
    press(&mut selector, Key::Right, &mut deck, &mut turn);
    assert_eq!(selector.selected_index(), 5);
    press(&mut selector, Key::Right, &mut deck, &mut turn);
    assert_eq!(selector.selected_index(), 4);
    press(&mut selector, Key::Up, &mut deck, &mut turn);
    assert_eq!(selector.selected_index(), 0);
    assert!(selector.is_consistent(&deck, &turn));
}

#[test]
fn keys_select_bind_and_score_through_the_selector() {
    let (library, mut deck) = starter_cards();
    let mut turn = TurnState::new();
    let mut builder = ExpressionBuilder::new();
    let mut selector = Selector::new();
    // Select 1, then + (now at index 2), then 2.
    selector.handle_key(Key::Enter, &library, &mut deck, &mut turn, &mut builder);
    selector.handle_key(Key::Right, &library, &mut deck, &mut turn, &mut builder);
    selector.handle_key(Key::Right, &library, &mut deck, &mut turn, &mut builder);
    selector.handle_key(Key::Char(' '), &library, &mut deck, &mut turn, &mut builder);
    assert_eq!(selector.selected_index(), 1);
    selector.handle_key(Key::Left, &library, &mut deck, &mut turn, &mut builder);
    selector.handle_key(Key::Enter, &library, &mut deck, &mut turn, &mut builder);
    assert_eq!(builder.current_expr(), "1 + 2");
    // Bind it as `s`.
    selector.handle_key(Key::Char('b'), &library, &mut deck, &mut turn, &mut builder);
    assert_eq!(selector.naming(), Some(""));
    selector.handle_key(Key::Char('s'), &library, &mut deck, &mut turn, &mut builder);
    selector.handle_key(Key::Char('x'), &library, &mut deck, &mut turn, &mut builder);
    selector.handle_key(Key::Backspace, &library, &mut deck, &mut turn, &mut builder);
    selector.handle_key(Key::Char('\u{7}'), &library, &mut deck, &mut turn, &mut builder);
    assert_eq!(selector.naming(), Some("s"));
    let prompt = joined(&selector.frame(&library, &deck, &builder, &turn).unwrap());
    assert!(prompt.contains("Variable name: s"));
    selector.handle_key(Key::Enter, &library, &mut deck, &mut turn, &mut builder);
    assert_eq!(selector.naming(), None);
    assert_eq!(selector.status(), "Bound s. One use this turn.");
    assert_eq!(turn.current_energy(), 2);
    // Select the binding and score it.
    selector.handle_key(Key::Down, &library, &mut deck, &mut turn, &mut builder);
    assert_eq!(selector.selected_index(), 1);
    selector.handle_key(Key::Enter, &library, &mut deck, &mut turn, &mut builder);
    assert_eq!(builder.current_expr(), "s");
    assert_eq!(
        selector.handle_key(Key::Char('E'), &library, &mut deck, &mut turn, &mut builder),
        Some(BuildAction::Scored(3))
    );
}

#[test]
fn naming_rejects_invalid_names_and_can_be_cancelled() {
    let (library, mut deck) = starter_cards();
    let mut turn = TurnState::new();
    let mut builder = ExpressionBuilder::new();
    let mut selector = Selector::new();
    selector.handle_key(Key::Char('B'), &library, &mut deck, &mut turn, &mut builder);
    assert_eq!(selector.status(), "Invalid expression: expression is empty");
    assert_eq!(selector.naming(), None);
    selector.handle_key(Key::Enter, &library, &mut deck, &mut turn, &mut builder);
    selector.handle_key(Key::Char('b'), &library, &mut deck, &mut turn, &mut builder);
    selector.handle_key(Key::Char('9'), &library, &mut deck, &mut turn, &mut builder);
    selector.handle_key(Key::Enter, &library, &mut deck, &mut turn, &mut builder);
    assert_eq!(selector.naming(), Some("9"));
    assert_eq!(
        selector.status(),
        "Variable names must start with a letter or underscore and contain only letters, numbers, or underscores."
    );
    selector.handle_key(Key::Esc, &library, &mut deck, &mut turn, &mut builder);
    assert_eq!(selector.naming(), None);
    assert_eq!(selector.status(), "Binding cancelled.");
    assert_eq!(turn.current_energy(), 3);
    assert_eq!(builder.current_expr(), "1");
}

#[test]
fn clear_quit_and_exhausted_selection_keys() {
    let (library, mut deck) = starter_cards();
    let mut turn = TurnState::new();
    let mut builder = ExpressionBuilder::new();
    let mut selector = Selector::new();
    for _ in 0..4 {
        selector.handle_key(Key::Enter, &library, &mut deck, &mut turn, &mut builder);
    }
    assert!(deck.is_empty());
    assert_eq!(selector.selected_index(), 0);
    selector.handle_key(Key::Enter, &library, &mut deck, &mut turn, &mut builder);
    assert_eq!(
        selector.status(),
        "No cards remain. Bind, end the turn, or clear."
    );
    selector.handle_key(Key::Char('e'), &library, &mut deck, &mut turn, &mut builder);
    assert_eq!(
        selector.status(),
        "Invalid expression: expected an operator at card 2"
    );
    selector.handle_key(Key::Char('c'), &library, &mut deck, &mut turn, &mut builder);
    assert_eq!(selector.status(), "Selection cleared.");
    assert_eq!(deck.cards().len(), 4);
    assert_eq!(builder.current_expr(), "");
    assert_eq!(
        selector.handle_key(Key::Other, &library, &mut deck, &mut turn, &mut builder),
        None
    );
    assert_eq!(selector.status(), "");
    assert_eq!(
        selector.handle_key(Key::Char('q'), &library, &mut deck, &mut turn, &mut builder),
        Some(BuildAction::Quit)
    );
    assert_eq!(
        selector.handle_key(Key::Esc, &library, &mut deck, &mut turn, &mut builder),
        Some(BuildAction::Quit)
    );
}

#[test]
fn out_of_energy_blocks_binding() {
    let (library, mut deck) = starter_cards();
    let mut turn = TurnState::new();
    for name in ["a", "b", "c"] {
        turn.bind_expression(name, Expr::Literal(Value::Int(1)))
            .unwrap();
    }
    let mut builder = ExpressionBuilder::new();
    let mut selector = Selector::new();
    selector.handle_key(Key::Enter, &library, &mut deck, &mut turn, &mut builder);
    selector.handle_key(Key::Char('b'), &library, &mut deck, &mut turn, &mut builder);
    assert_eq!(
        selector.status(),
        "Could not bind: the player is out of energy"
    );
    assert_eq!(selector.naming(), None);
}
