# Compose the Function

A small card game in which the player builds real expressions of a tiny
functional language from cards, type-checks them, binds them as single-use
turn-local cards, or evaluates them for a score.

The game logic is written in Verus and proved against its contracts:

- `src/language.rs`: types, values, operators, expressions, monomorphic type
  inference and evaluation (with type preservation and progress proved).
- `src/cards.rs`: card identities, definitions, the persistent library and decks.
- `src/player.rs`: the player's deck and the per-turn state (energy and bindings).
- `src/expression_builder.rs`: selecting cards and building an infix expression
  with operator precedence (a shunting-yard proved equal to the infix tree).
- `src/selector.rs`: the turn's interaction as a state machine from key presses
  to state changes, and the screen layout as text segments.
- `src/text.rs`: decimal notation, lexicographic order and small string helpers.

`app/main.rs` is the terminal front end (crossterm): it draws the segments the
library lays out and feeds key presses to the selector.
