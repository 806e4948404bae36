use vstd::prelude::*;

use crate::cards::{category_text, CardDefinition, CardLibrary, CardTerm, Deck};
use crate::expression_builder::{
    build_error_text, build_spec, extend_text, parts_of, restore_all, returned_instances,
    term_part, ExpressionBuilder, ExpressionBuildError, ExpressionPart, SelectedCard,
    SelectedSource, is_binding_named,
};
use crate::language::{
    inference_error_debug_text, infer_monomorphic, infer_spec, is_valid_variable_name,
    scheme_text, valid_variable_name, Expr,
};
use crate::player::{binding_order, card_names, is_binding_order, player_error_text, score_outcome, PlayerError, TurnState};
use crate::text::{char_count, chars_of, debug_str_text, decimal, push_char, push_debug_str, push_decimal, text_less};

verus! {

broadcast use vstd::string::group_string_axioms;

/// How a turn ended.
#[derive(Debug, Clone, PartialEq, Eq, Structural)]
pub enum BuildAction {
    Scored(i64),
    Quit,
}

/// Height of a card, in rows.
pub const CARD_HEIGHT: usize = 5;

/// Narrowest inner width of a card.
pub const MINIMUM_INNER_WIDTH: usize = 9;

/// `piece` written `n` times.
pub open spec fn repeat_text(piece: Seq<char>, n: nat) -> Seq<char>
    decreases n,
{
    if n == 0 {
        Seq::empty()
    } else {
        repeat_text(piece, (n - 1) as nat) + piece
    }
}

fn push_repeated(out: &mut String, piece: &str, n: usize)
    ensures
        final(out)@ == old(out)@ + repeat_text(piece@, n as nat),
{
    for i in 0..n
        invariant
            out@ == old(out)@ + repeat_text(piece@, i as nat),
    {
        out.append(piece);
        assert(out@ =~= old(out)@ + repeat_text(piece@, (i + 1) as nat));
    }
}

/// `content` padded with spaces to `width` characters, the extra space on
/// the right when the padding is odd; content wider than `width` is kept whole.
pub open spec fn centered_text(content: Seq<char>, width: nat) -> Seq<char> {
    let padding: nat = if width > content.len() {
        (width - content.len()) as nat
    } else {
        0
    };
    let left = padding / 2;
    repeat_text(" "@, left) + content + repeat_text(" "@, (padding - left) as nat)
}

pub fn centered(content: &str, width: usize) -> (s: String)
    ensures
        s@ == centered_text(content@, width as nat),
{
    let count = char_count(content);
    let padding: usize = if width > count {
        width - count
    } else {
        0
    };
    let left = padding / 2;
    let right = padding - left;
    let mut s = String::new();
    push_repeated(&mut s, " ", left);
    s.append(content);
    push_repeated(&mut s, " ", right);
    assert(s@ =~= centered_text(content@, width as nat));
    s
}

/// The inner width of a card: its widest line, and at least the minimum.
pub open spec fn card_width_spec(card: CardDefinition) -> nat {
    let name = card.name_view().len();
    let category = category_text(card.term_view()).len();
    let typ = scheme_text(card.scheme_view()).len();
    let widest = if name >= category && name >= typ {
        name
    } else if category >= typ {
        category
    } else {
        typ
    };
    if widest >= MINIMUM_INNER_WIDTH {
        widest
    } else {
        MINIMUM_INNER_WIDTH as nat
    }
}

pub fn card_width(card: &CardDefinition) -> (width: usize)
    ensures
        width == card_width_spec(*card),
{
    let name = char_count(card.name());
    let category = char_count(card.term().category());
    let scheme = card.scheme().to_string();
    let typ = char_count(scheme.as_str());
    let widest = if name >= category && name >= typ {
        name
    } else if category >= typ {
        category
    } else {
        typ
    };
    if widest >= MINIMUM_INNER_WIDTH {
        widest
    } else {
        MINIMUM_INNER_WIDTH
    }
}

/// The five lines of a card drawn with box characters: a border, the name,
/// the category, the type scheme, and a border, each centred in `width`.
pub open spec fn card_rows_spec(card: CardDefinition, width: nat) -> Seq<Seq<char>> {
    let border = repeat_text("─"@, width);
    seq![
        "┌"@ + border + "┐"@,
        "│"@ + centered_text(card.name_view(), width) + "│"@,
        "│"@ + centered_text(category_text(card.term_view()), width) + "│"@,
        "│"@ + centered_text(scheme_text(card.scheme_view()), width) + "│"@,
        "└"@ + border + "┘"@,
    ]
}

/// The views of a sequence of strings.
pub open spec fn string_views(strings: Seq<String>) -> Seq<Seq<char>> {
    strings.map_values(|s: String| s@)
}

fn framed(left: &str, middle: String, right: &str) -> (s: String)
    ensures
        s@ == left@ + middle@ + right@,
{
    let mut s = String::from_str(left);
    s.append(middle.as_str());
    s.append(right);
    s
}

pub fn card_rows(card: &CardDefinition, width: usize) -> (rows: Vec<String>)
    ensures
        string_views(rows@) == card_rows_spec(*card, width as nat),
{
    let mut border = String::new();
    push_repeated(&mut border, "─", width);
    let scheme = card.scheme().to_string();
    let mut rows: Vec<String> = Vec::new();
    rows.push(framed("┌", border.clone(), "┐"));
    rows.push(framed("│", centered(card.name(), width), "│"));
    rows.push(framed("│", centered(card.term().category(), width), "│"));
    rows.push(framed("│", centered(scheme.as_str(), width), "│"));
    rows.push(framed("└", border, "┘"));
    assert(string_views(rows@) =~= card_rows_spec(*card, width as nat));
    rows
}

/// The definitions of the deck's cards, in deck order; `None` when some
/// card is missing from the library.
pub fn resolve_cards<'a>(library: &'a CardLibrary, deck: &Deck) -> (cards: Option<
    Vec<&'a CardDefinition>,
>)
    ensures
        cards is Some <==> forall|i: int|
            0 <= i < deck@.len() ==> library.lookup((#[trigger] deck@[i]).definition_id()) is Some,
        cards matches Some(v) ==> v@.len() == deck@.len() && forall|i: int|
            0 <= i < deck@.len() ==> *(#[trigger] v@[i]) == library.lookup(
                deck@[i].definition_id(),
            )->Some_0,
{
    let mut cards: Vec<&'a CardDefinition> = Vec::new();
    let n = deck.cards().len();
    for i in 0..n
        invariant
            n == deck@.len(),
            cards@.len() == i,
            forall|j: int|
                0 <= j < i ==> library.lookup((#[trigger] deck@[j]).definition_id()) is Some,
            forall|j: int|
                0 <= j < i ==> *(#[trigger] cards@[j]) == library.lookup(
                    deck@[j].definition_id(),
                )->Some_0,
    {
        match library.get(deck.cards()[i].definition()) {
            Some(card) => cards.push(card),
            None => {
                return None;
            },
        }
    }
    Some(cards)
}


/// The expression of a selection when it builds and type-checks; otherwise
/// the message that explains why not.
pub open spec fn validation_spec(selection: Seq<SelectedCard>) -> Result<Expr, Seq<char>> {
    match build_spec(parts_of(selection)) {
        Err(error) => Err("Invalid expression: "@ + build_error_text(error)),
        Ok(expression) => match infer_spec(expression) {
            Err(error) => Err("Invalid expression type: "@ + inference_error_debug_text(error)),
            Ok(_) => Ok(expression),
        },
    }
}

pub fn validated_expression(builder: &ExpressionBuilder) -> (r: Result<Expr, String>)
    ensures
        r is Ok <==> validation_spec(builder.selection()) is Ok,
        r matches Ok(e) ==> e == validation_spec(builder.selection())->Ok_0,
        r matches Err(message) ==> message@ == validation_spec(builder.selection())->Err_0,
{
    let expression = match builder.build() {
        Ok(expression) => expression,
        Err(error) => {
            let mut message = String::from_str("Invalid expression: ");
            let detail = error.to_string();
            message.append(detail.as_str());
            return Err(message);
        },
    };
    match infer_monomorphic(&expression) {
        Ok(_) => Ok(expression),
        Err(error) => {
            let mut message = String::from_str("Invalid expression type: ");
            let detail = error.debug_text();
            message.append(detail.as_str());
            Err(message)
        },
    }
}

/// Why binding `expression` under `name` would be refused, if it would.
pub open spec fn bind_refusal(energy: u32, name: Seq<char>, expression: Expr) -> Option<
    Seq<char>,
> {
    if energy == 0 {
        Some(player_error_text(PlayerError::OutOfEnergy))
    } else if !valid_variable_name(name) {
        Some(debug_str_text(name) + " is not a valid variable name"@)
    } else {
        match infer_spec(expression) {
            Err(error) => Some(player_error_text(PlayerError::TypeInference(error))),
            Ok(_) => None,
        }
    }
}

/// Why binding the selection under `name` would be refused, if it would.
pub open spec fn bind_selection_outcome(
    builder: ExpressionBuilder,
    turn: TurnState,
    name: Seq<char>,
) -> Option<Seq<char>> {
    match validation_spec(builder.selection()) {
        Err(m) => Some(m),
        Ok(expression) => match bind_refusal(turn.energy(), name, expression) {
            Some(m) => Some("Could not bind expression: "@ + m),
            None => None,
        },
    }
}

/// The effect of binding the selection under `name`: on refusal nothing
/// changes and `message` explains why; on success the selection is consumed,
/// one energy is spent and `name` names a card holding the expression.
pub open spec fn bind_selection_post(
    builder0: ExpressionBuilder,
    builder1: ExpressionBuilder,
    turn0: TurnState,
    turn1: TurnState,
    name: Seq<char>,
    message: Option<Seq<char>>,
) -> bool {
    let refusal = bind_selection_outcome(builder0, turn0, name);
    &&& builder1.wf()
    &&& turn1.wf()
    &&& message == refusal
    &&& refusal is Some ==> builder1 == builder0 && turn1 == turn0
    &&& refusal is None ==> {
        let expression = validation_spec(builder0.selection())->Ok_0;
        &&& builder1.text() == Seq::<char>::empty()
        &&& builder1.selection() == Seq::<SelectedCard>::empty()
        &&& turn1.energy() == turn0.energy() - 1
        &&& turn1@ == turn0@.insert(name, turn1@[name])
        &&& turn1@[name].describes(
            name,
            CardTerm::Binding(expression),
            infer_spec(expression)->Ok_0,
        )
    }
}

/// Binds the selected expression under `name` and consumes the selection.
pub fn bind_selection(builder: &mut ExpressionBuilder, turn: &mut TurnState, name: &str) -> (r:
    Result<(), String>)
    requires
        old(builder).wf(),
        old(turn).wf(),
    ensures
        bind_selection_post(
            *old(builder),
            *final(builder),
            *old(turn),
            *final(turn),
            name@,
            match r {
                Ok(_) => None,
                Err(message) => Some(message@),
            },
        ),
{
    let expression = validated_expression(builder)?;
    let ghost e = expression;
    match turn.bind_expression(name, expression) {
        Ok(()) => {},
        Err(error) => {
            let mut message = String::from_str("Could not bind expression: ");
            let detail = error.to_string();
            message.append(detail.as_str());
            return Err(message);
        },
    }
    builder.commit();
    Ok(())
}

/// What scoring the selection gives: the score, or the explanation of why not.
pub open spec fn score_selection_outcome(builder: ExpressionBuilder, turn: TurnState) -> Result<
    i64,
    Seq<char>,
> {
    match validation_spec(builder.selection()) {
        Err(m) => Err(m),
        Ok(expression) => match score_outcome(turn.energy(), expression) {
            Ok(score) => Ok(score),
            Err(error) => Err("Could not end turn: "@ + player_error_text(error)),
        },
    }
}

/// The effect of scoring the selection: on refusal nothing changes and
/// `outcome` holds the explanation; on success the selection is consumed,
/// one energy is spent and the bindings stay.
pub open spec fn score_selection_post(
    builder0: ExpressionBuilder,
    builder1: ExpressionBuilder,
    turn0: TurnState,
    turn1: TurnState,
    outcome: Result<i64, Seq<char>>,
) -> bool {
    let expected = score_selection_outcome(builder0, turn0);
    &&& builder1.wf()
    &&& turn1.wf()
    &&& outcome == expected
    &&& expected is Err ==> builder1 == builder0 && turn1 == turn0
    &&& expected is Ok ==> {
        &&& builder1.text() == Seq::<char>::empty()
        &&& builder1.selection() == Seq::<SelectedCard>::empty()
        &&& turn1.energy() == turn0.energy() - 1
        &&& turn1@ == turn0@
        &&& turn1.binding_count() == turn0.binding_count()
    }
}

/// Scores the selected expression and consumes the selection.
pub fn score_selection(builder: &mut ExpressionBuilder, turn: &mut TurnState) -> (r: Result<
    i64,
    String,
>)
    requires
        old(builder).wf(),
        old(turn).wf(),
    ensures
        score_selection_post(
            *old(builder),
            *final(builder),
            *old(turn),
            *final(turn),
            match r {
                Ok(score) => Ok(score),
                Err(message) => Err(message@),
            },
        ),
{
    let expression = validated_expression(builder)?;
    let score = match turn.evaluate(&expression) {
        Ok(score) => score,
        Err(error) => {
            let mut message = String::from_str("Could not end turn: ");
            let detail = error.to_string();
            message.append(detail.as_str());
            return Err(message);
        },
    };
    builder.commit();
    Ok(score)
}

/// The advisory warning shown while typing a binding name that is taken.
pub open spec fn overwrite_warning_text(name: Seq<char>) -> Seq<char> {
    "Warning: Enter will overwrite binding "@ + debug_str_text(name)
        + ". Earlier expressions keep its previous definition."@
}

/// Whether binding under `name` would replace a binding of the turn, either
/// one still available or one currently selected.
pub open spec fn name_taken(turn: TurnState, builder: ExpressionBuilder, name: Seq<char>) -> bool {
    turn@.contains_key(name) || exists|i: int|
        0 <= i < builder.selection().len() && is_binding_named(
            #[trigger] builder.selection()[i],
            name,
        )
}

pub fn overwrite_warning(turn: &TurnState, builder: &ExpressionBuilder, name: &str) -> (warning:
    Option<String>)
    requires
        turn.wf(),
    ensures
        warning is Some <==> name_taken(*turn, *builder, name@),
        warning matches Some(w) ==> w@ == overwrite_warning_text(name@),
{
    if turn.binding(name).is_some() || builder.has_selected_binding(name) {
        let mut w = String::from_str("Warning: Enter will overwrite binding ");
        push_debug_str(&mut w, name);
        w.append(". Earlier expressions keep its previous definition.");
        Some(w)
    } else {
        None
    }
}


/// A key press, as the selector understands it.
#[derive(Debug, Clone, Copy, PartialEq, Eq, Structural)]
pub enum Key {
    Up,
    Down,
    Left,
    Right,
    Enter,
    Backspace,
    Esc,
    Char(char),
    Other,
}

/// Unicode general category Cc: the control characters.
pub open spec fn is_control_char(c: char) -> bool {
    (c as u32) <= 0x1f || (0x7f <= (c as u32) && (c as u32) <= 0x9f)
}

fn is_control(c: char) -> (b: bool)
    ensures
        b == is_control_char(c),
{
    let u = c as u32;
    u <= 0x1f || (0x7f <= u && u <= 0x9f)
}

/// The key is the letter `lower` in either case.
pub open spec fn is_letter_key(key: Key, lower: char, upper: char) -> bool {
    key == Key::Char(lower) || key == Key::Char(upper)
}

/// Enter and Space select the highlighted card.
pub open spec fn is_select_key(key: Key) -> bool {
    key == Key::Enter || key == Key::Char(' ')
}

/// Where the highlight moves for a navigation key. Cards form two groups,
/// the deck (`cards` of them, first) and the bindings; Left and Right wrap
/// within the current group, Up and Down jump to the first card of the other
/// group when it is not empty. `None` when the key does not navigate here.
pub open spec fn navigate_spec(key: Key, selected: nat, cards: nat, bindings: nat) -> Option<nat> {
    let in_deck = selected < cards;
    let group_start: nat = if in_deck {
        0
    } else {
        cards
    };
    let group_count: nat = if in_deck {
        cards
    } else {
        bindings
    };
    match key {
        Key::Up => if !in_deck && cards > 0 {
            Some(0)
        } else {
            None
        },
        Key::Down => if in_deck && bindings > 0 {
            Some(cards)
        } else {
            None
        },
        Key::Left => if group_count > 0 {
            if selected == group_start {
                Some((group_start + group_count - 1) as nat)
            } else {
                Some((selected - 1) as nat)
            }
        } else {
            None
        },
        Key::Right => if group_count > 0 {
            Some(group_start + ((selected - group_start + 1) as nat) % group_count)
        } else {
            None
        },
        _ => None,
    }
}

/// The highlight points at a card, or at the start when there is none.
pub open spec fn index_ok(selected: nat, cards: nat, bindings: nat) -> bool {
    selected == 0 || selected < cards + bindings
}

fn navigate(key: Key, selected: usize, cards: usize, bindings: usize) -> (r: Option<usize>)
    requires
        index_ok(selected as nat, cards as nat, bindings as nat),
        cards + bindings <= usize::MAX,
    ensures
        match r {
            Some(n) => navigate_spec(key, selected as nat, cards as nat, bindings as nat) == Some(
                n as nat,
            ),
            None => navigate_spec(key, selected as nat, cards as nat, bindings as nat) is None,
        },
{
    let in_deck = selected < cards;
    let group_start = if in_deck {
        0
    } else {
        cards
    };
    let group_count = if in_deck {
        cards
    } else {
        bindings
    };
    match key {
        Key::Up => if !in_deck && cards > 0 {
            Some(0)
        } else {
            None
        },
        Key::Down => if in_deck && bindings > 0 {
            Some(cards)
        } else {
            None
        },
        Key::Left => if group_count > 0 {
            if selected == group_start {
                Some(group_start + group_count - 1)
            } else {
                Some(selected - 1)
            }
        } else {
            None
        },
        Key::Right => if group_count > 0 {
            Some(group_start + (selected - group_start + 1) % group_count)
        } else {
            None
        },
        _ => None,
    }
}

/// Interaction state of one turn's selector: the highlighted card, the
/// status line, and the name being typed while binding.
#[derive(Debug)]
pub struct Selector {
    selected_index: usize,
    status: String,
    naming: Option<String>,
}

/// Texts of the status line.
pub open spec fn select_failed_text(error: ExpressionBuildError) -> Seq<char> {
    "Could not select card: "@ + build_error_text(error)
}

pub open spec fn bound_text(name: Seq<char>) -> Seq<char> {
    "Bound "@ + name + ". One use this turn."@
}

pub open spec fn invalid_name_text() -> Seq<char> {
    "Variable names must start with a letter or underscore and contain only letters, numbers, or underscores."@
}

impl Selector {
    /// The highlighted position among deck cards then bindings.
    pub closed spec fn index(self) -> nat {
        self.selected_index as nat
    }

    /// The status line.
    pub closed spec fn status_view(self) -> Seq<char> {
        self.status@
    }

    /// The name typed so far, while a binding name is being entered.
    pub closed spec fn naming_view(self) -> Option<Seq<char>> {
        match self.naming {
            Some(name) => Some(name@),
            None => None,
        }
    }

    pub fn new() -> (selector: Self)
        ensures
            selector.index() == 0,
            selector.status_view() == Seq::<char>::empty(),
            selector.naming_view() is None,
    {
        Selector { selected_index: 0, status: String::new(), naming: None }
    }

    pub fn selected_index(&self) -> (index: usize)
        ensures
            index == self.index(),
    {
        self.selected_index
    }

    pub fn status(&self) -> (status: &str)
        ensures
            status@ == self.status_view(),
    {
        self.status.as_str()
    }

    /// The name typed so far, while a binding name is being entered.
    pub fn naming(&self) -> (name: Option<&str>)
        ensures
            match name {
                Some(n) => self.naming_view() == Some(n@),
                None => self.naming_view() is None,
            },
    {
        match &self.naming {
            Some(name) => Some(name.as_str()),
            None => None,
        }
    }

    /// Whether the highlight is consistent with the deck and the turn.
    pub fn is_consistent(&self, deck: &Deck, turn: &TurnState) -> (b: bool)
        ensures
            b == (index_ok(self.index(), deck@.len(), turn.binding_count()) && deck@.len()
                + turn.binding_count() <= usize::MAX),
    {
        let cards = deck.cards().len();
        let bindings = turn.bindings().len();
        if cards > usize::MAX - bindings {
            return false;
        }
        self.selected_index == 0 || self.selected_index < cards + bindings
    }
}


/// The smaller of two numbers.
pub open spec fn min_nat(a: nat, b: nat) -> nat {
    if a <= b {
        a
    } else {
        b
    }
}

/// The effect of selecting the highlighted card: a deck card moves from the
/// deck into the selection, a binding leaves the turn for the selection; the
/// highlight stays put, clamped to the cards left in its group.
pub open spec fn select_highlighted_post(
    selected: nat,
    s1: Selector,
    b0: ExpressionBuilder,
    b1: ExpressionBuilder,
    d0: Deck,
    d1: Deck,
    t0: TurnState,
    t1: TurnState,
    library: CardLibrary,
) -> bool {
    let cards = d0@.len();
    &&& s1.naming_view() is None
    &&& b1.wf()
    &&& t1.wf()
    &&& if selected < cards {
        let instance = d0@[selected as int];
        match library.lookup(instance.definition_id()) {
            Some(definition) => {
                &&& d1@ == d0@.remove(selected as int)
                &&& b1.selection() == b0.selection().push(
                    SelectedCard {
                        source: SelectedSource::Deck(instance),
                        part: term_part(definition.term_view()),
                    },
                )
                &&& b1.text() == extend_text(b0.text(), definition.name_view())
                &&& t1 == t0
                &&& s1.status_view() == Seq::<char>::empty()
                &&& s1.index() == if d1@.len() == 0 {
                    0
                } else {
                    min_nat(selected, (d1@.len() - 1) as nat)
                }
            },
            None => {
                &&& d1@ == d0@
                &&& b1 == b0
                &&& t1 == t0
                &&& s1.status_view() == select_failed_text(
                    ExpressionBuildError::UnknownCard(instance.definition_id()),
                )
                &&& s1.index() == selected
            },
        }
    } else {
        let name = binding_order(t0@)[selected - cards];
        let card = t0@[name];
        &&& d1@ == d0@
        &&& t1@ == t0@.remove(name)
        &&& t1.energy() == t0.energy()
        &&& t1.binding_count() == t0.binding_count() - 1
        &&& b1.selection() == b0.selection().push(
            SelectedCard {
                source: SelectedSource::Binding(card),
                part: ExpressionPart::Operand(card.term_view()->Binding_0),
            },
        )
        &&& b1.text() == extend_text(b0.text(), name)
        &&& s1.status_view() == Seq::<char>::empty()
        &&& s1.index() == if t1.binding_count() == 0 {
            0
        } else {
            min_nat(selected, (cards + t1.binding_count() - 1) as nat)
        }
    }
}

/// The effect of a key press while cards are being selected.
pub open spec fn selecting_post(
    s0: Selector,
    s1: Selector,
    b0: ExpressionBuilder,
    b1: ExpressionBuilder,
    d0: Deck,
    d1: Deck,
    t0: TurnState,
    t1: TurnState,
    library: CardLibrary,
    key: Key,
    result: Option<BuildAction>,
) -> bool {
    let selected = s0.index();
    let cards = d0@.len();
    let bindings = t0.binding_count();
    let unchanged = b1 == b0 && d1@ == d0@ && t1 == t0;
    let stays = s1.index() == selected && s1.naming_view() is None;
    match navigate_spec(key, selected, cards, bindings) {
        Some(next) => unchanged && result is None && s1.index() == next && s1.naming_view() is None
            && s1.status_view() == Seq::<char>::empty(),
        None => if is_select_key(key) && cards + bindings > 0 {
            result is None && select_highlighted_post(
                selected,
                s1,
                b0,
                b1,
                d0,
                d1,
                t0,
                t1,
                library,
            )
        } else if is_letter_key(key, 'b', 'B') {
            &&& unchanged
            &&& result is None
            &&& s1.index() == selected
            &&& if t0.energy() == 0 {
                s1.status_view() == "Could not bind: the player is out of energy"@
                    && s1.naming_view() is None
            } else {
                match validation_spec(b0.selection()) {
                    Err(m) => s1.status_view() == m && s1.naming_view() is None,
                    Ok(_) => s1.status_view() == Seq::<char>::empty() && s1.naming_view() == Some(
                        Seq::<char>::empty(),
                    ),
                }
            }
        } else if is_letter_key(key, 'e', 'E') {
            &&& d1@ == d0@
            &&& stays
            &&& score_selection_post(b0, b1, t0, t1, score_selection_outcome(b0, t0))
            &&& match score_selection_outcome(b0, t0) {
                Ok(score) => result == Some(BuildAction::Scored(score)),
                Err(m) => result is None && s1.status_view() == m,
            }
        } else if is_letter_key(key, 'c', 'C') {
            &&& result is None
            &&& b1.wf()
            &&& b1.text() == Seq::<char>::empty()
            &&& b1.selection() == Seq::<SelectedCard>::empty()
            &&& d1@ == d0@ + returned_instances(b0.selection())
            &&& t1.wf()
            &&& t1.energy() == t0.energy()
            &&& t1@ == restore_all(t0@, b0.selection())
            &&& s1.index() == 0
            &&& s1.naming_view() is None
            &&& s1.status_view() == "Selection cleared."@
        } else if key == Key::Esc || key == Key::Char('q') {
            unchanged && stays && result == Some(BuildAction::Quit)
        } else if is_select_key(key) {
            unchanged && stays && result is None && s1.status_view()
                == "No cards remain. Bind, end the turn, or clear."@
        } else {
            unchanged && stays && result is None && s1.status_view() == Seq::<char>::empty()
        },
    }
}

/// A printable character typed by the key, if any.
pub open spec fn typed_char(key: Key) -> Option<char> {
    match key {
        Key::Char(c) => if is_control_char(c) {
            None
        } else {
            Some(c)
        },
        _ => None,
    }
}

/// The effect of a key press while a binding name is being typed: Enter
/// binds under a valid name, Esc cancels, Backspace deletes the last
/// character, a printable character is appended.
pub open spec fn naming_post(
    s0: Selector,
    s1: Selector,
    b0: ExpressionBuilder,
    b1: ExpressionBuilder,
    t0: TurnState,
    t1: TurnState,
    key: Key,
    result: Option<BuildAction>,
) -> bool {
    let name = s0.naming_view()->Some_0;
    let unchanged = b1 == b0 && t1 == t0;
    &&& result is None
    &&& if key == Key::Enter {
        if !valid_variable_name(name) {
            &&& unchanged
            &&& s1.index() == s0.index()
            &&& s1.naming_view() == Some(name)
            &&& s1.status_view() == invalid_name_text()
        } else {
            let outcome = bind_selection_outcome(b0, t0, name);
            &&& s1.naming_view() is None
            &&& bind_selection_post(b0, b1, t0, t1, name, outcome)
            &&& match outcome {
                None => s1.status_view() == bound_text(name) && s1.index() == 0,
                Some(m) => s1.status_view() == m && s1.index() == s0.index(),
            }
        }
    } else if key == Key::Esc {
        unchanged && s1.index() == s0.index() && s1.naming_view() is None && s1.status_view()
            == "Binding cancelled."@
    } else {
        &&& unchanged
        &&& s1.index() == s0.index()
        &&& s1.status_view() == Seq::<char>::empty()
        &&& s1.naming_view() == Some(
            if key == Key::Backspace {
                if name.len() > 0 {
                    name.drop_last()
                } else {
                    name
                }
            } else {
                match typed_char(key) {
                    Some(c) => name.push(c),
                    None => name,
                }
            },
        )
    }
}

/// `s` without its last character.
fn without_last(s: &String) -> (r: String)
    ensures
        r@ == if s@.len() > 0 {
            s@.drop_last()
        } else {
            s@
        },
{
    let chars = chars_of(s.as_str());
    let mut r = String::new();
    if chars.len() == 0 {
        return r;
    }
    let n = chars.len() - 1;
    for i in 0..n
        invariant
            n == chars@.len() - 1,
            chars@ == s@,
            r@ == s@.take(i as int),
    {
        push_char(&mut r, chars[i]);
        assert(r@ =~= s@.take(i + 1));
    }
    assert(s@.take(n as int) =~= s@.drop_last());
    r
}

impl Selector {
    fn select_highlighted(
        &mut self,
        library: &CardLibrary,
        deck: &mut Deck,
        turn: &mut TurnState,
        builder: &mut ExpressionBuilder,
    )
        requires
            old(self).naming_view() is None,
            old(builder).wf(),
            old(turn).wf(),
            index_ok(old(self).index(), old(deck)@.len(), old(turn).binding_count()),
            old(deck)@.len() + old(turn).binding_count() > 0,
            old(deck)@.len() + old(turn).binding_count() <= usize::MAX,
            old(self).status_view() == Seq::<char>::empty(),
        ensures
            select_highlighted_post(
                old(self).index(),
                *final(self),
                *old(builder),
                *final(builder),
                *old(deck),
                *final(deck),
                *old(turn),
                *final(turn),
                *library,
            ),
    {
        let cards_count = deck.cards().len();
        let selected = self.selected_index;
        if selected < cards_count {
            let result = builder.select(selected, deck, library);
            match result {
                Ok(()) => {},
                Err(error) => {
                    let mut message = String::from_str("Could not select card: ");
                    let detail = error.to_string();
                    message.append(detail.as_str());
                    self.status = message;
                },
            }
            let left = deck.cards().len();
            self.selected_index = if left == 0 {
                0
            } else if selected < left - 1 {
                selected
            } else {
                left - 1
            };
        } else {
            let sorted = turn.sorted_bindings();
            let name = String::from_str(sorted[selected - cards_count].name());
            proof {
                let k = selected - cards_count;
                assert(card_names(sorted@)[k] == sorted@[k].name_view());
                let order = binding_order(turn@);
                assert(order[k] == name@);
                assert(sorted@[k].name_view() == name@);
                assert(turn@.contains_key(name@));
            }
            let result = builder.select_binding(name.as_str(), turn);
            match result {
                Ok(()) => {},
                Err(error) => {
                    let mut message = String::from_str("Could not select card: ");
                    let detail = error.to_string();
                    message.append(detail.as_str());
                    self.status = message;
                },
            }
            let left = turn.bindings().len();
            self.selected_index = if left == 0 {
                0
            } else if selected < cards_count + left - 1 {
                selected
            } else {
                cards_count + left - 1
            };
        }
    }

    fn handle_selecting_key(
        &mut self,
        key: Key,
        library: &CardLibrary,
        deck: &mut Deck,
        turn: &mut TurnState,
        builder: &mut ExpressionBuilder,
    ) -> (r: Option<BuildAction>)
        requires
            old(self).naming_view() is None,
            old(builder).wf(),
            old(turn).wf(),
            index_ok(old(self).index(), old(deck)@.len(), old(turn).binding_count()),
            old(deck)@.len() + old(turn).binding_count() <= usize::MAX,
        ensures
            selecting_post(
                *old(self),
                *final(self),
                *old(builder),
                *final(builder),
                *old(deck),
                *final(deck),
                *old(turn),
                *final(turn),
                *library,
                key,
                r,
            ),
    {
        self.status = String::new();
        let cards_count = deck.cards().len();
        let bindings_count = turn.bindings().len();
        let count = cards_count + bindings_count;
        match navigate(key, self.selected_index, cards_count, bindings_count) {
            Some(next) => {
                self.selected_index = next;
                return None;
            },
            None => {},
        }
        if (key == Key::Enter || key == Key::Char(' ')) && count > 0 {
            self.select_highlighted(library, deck, turn, builder);
            return None;
        }
        if key == Key::Char('b') || key == Key::Char('B') {
            if turn.current_energy() == 0 {
                self.status = String::from_str("Could not bind: the player is out of energy");
                return None;
            }
            match validated_expression(builder) {
                Ok(_) => {},
                Err(message) => {
                    self.status = message;
                    return None;
                },
            }
            self.naming = Some(String::new());
            return None;
        }
        if key == Key::Char('e') || key == Key::Char('E') {
            match score_selection(builder, turn) {
                Ok(score) => {
                    return Some(BuildAction::Scored(score));
                },
                Err(message) => {
                    self.status = message;
                    return None;
                },
            }
        }
        if key == Key::Char('c') || key == Key::Char('C') {
            builder.clear(deck, turn);
            self.selected_index = 0;
            self.status = String::from_str("Selection cleared.");
            return None;
        }
        if key == Key::Esc || key == Key::Char('q') {
            return Some(BuildAction::Quit);
        }
        if key == Key::Enter || key == Key::Char(' ') {
            self.status = String::from_str("No cards remain. Bind, end the turn, or clear.");
        }
        None
    }

    fn handle_naming_key(
        &mut self,
        key: Key,
        name: String,
        turn: &mut TurnState,
        builder: &mut ExpressionBuilder,
    )
        requires
            old(self).naming_view() is None,
            old(builder).wf(),
            old(turn).wf(),
        ensures
            ({
                let s0 = Selector {
                    selected_index: old(self).selected_index,
                    status: old(self).status,
                    naming: Some(name),
                };
                naming_post(
                    s0,
                    *final(self),
                    *old(builder),
                    *final(builder),
                    *old(turn),
                    *final(turn),
                    key,
                    None,
                )
            }),
    {
        self.status = String::new();
        if key == Key::Enter {
            if !is_valid_variable_name(name.as_str()) {
                self.status = String::from_str(
                    "Variable names must start with a letter or underscore and contain only letters, numbers, or underscores.",
                );
                self.naming = Some(name);
                return ;
            }
            match bind_selection(builder, turn, name.as_str()) {
                Ok(()) => {
                    let mut message = String::from_str("Bound ");
                    message.append(name.as_str());
                    message.append(". One use this turn.");
                    self.status = message;
                    self.selected_index = 0;
                },
                Err(message) => {
                    self.status = message;
                },
            }
            return ;
        }
        if key == Key::Esc {
            self.status = String::from_str("Binding cancelled.");
            return ;
        }
        if key == Key::Backspace {
            self.naming = Some(without_last(&name));
            return ;
        }
        match key {
            Key::Char(c) => {
                if !is_control(c) {
                    let mut longer = name;
                    push_char(&mut longer, c);
                    self.naming = Some(longer);
                } else {
                    self.naming = Some(name);
                }
            },
            _ => {
                self.naming = Some(name);
            },
        }
    }

    /// Handles one key press of the turn's interaction loop and says whether
    /// the turn ended (scored or quit). While a binding name is being typed
    /// the key edits the name; otherwise it navigates, selects, binds, scores,
    /// clears or quits.
    pub fn handle_key(
        &mut self,
        key: Key,
        library: &CardLibrary,
        deck: &mut Deck,
        turn: &mut TurnState,
        builder: &mut ExpressionBuilder,
    ) -> (r: Option<BuildAction>)
        requires
            old(builder).wf(),
            old(turn).wf(),
            index_ok(old(self).index(), old(deck)@.len(), old(turn).binding_count()),
            old(deck)@.len() + old(turn).binding_count() <= usize::MAX,
        ensures
            final(builder).wf(),
            final(turn).wf(),
            index_ok(final(self).index(), final(deck)@.len(), final(turn).binding_count()),
            old(self).naming_view() is None ==> selecting_post(
                *old(self),
                *final(self),
                *old(builder),
                *final(builder),
                *old(deck),
                *final(deck),
                *old(turn),
                *final(turn),
                *library,
                key,
                r,
            ),
            old(self).naming_view() is Some ==> final(deck)@ == old(deck)@ && naming_post(
                *old(self),
                *final(self),
                *old(builder),
                *final(builder),
                *old(turn),
                *final(turn),
                key,
                r,
            ),
    {
        match self.naming.take() {
            None => self.handle_selecting_key(key, library, deck, turn, builder),
            Some(name) => {
                self.handle_naming_key(key, name, turn, builder);
                None
            },
        }
    }
}


/// A piece of screen text, possibly shown highlighted (reversed colours).
#[derive(Debug, Clone, PartialEq, Eq)]
pub struct Segment {
    pub text: String,
    pub highlighted: bool,
}

/// The texts and highlight flags of a sequence of segments.
pub open spec fn segment_views(segments: Seq<Segment>) -> Seq<(Seq<char>, bool)> {
    segments.map_values(|segment: Segment| (segment.text@, segment.highlighted))
}

/// Row `r` of the first `k` cards, two spaces apart; the card at position
/// `selected - offset` is highlighted.
pub open spec fn row_line(
    rows: Seq<Seq<Seq<char>>>,
    r: int,
    k: nat,
    selected: nat,
    offset: nat,
) -> Seq<(Seq<char>, bool)>
    decreases k,
{
    if k == 0 {
        Seq::empty()
    } else {
        let i = (k - 1) as nat;
        let gap: Seq<(Seq<char>, bool)> = if i > 0 {
            seq![("  "@, false)]
        } else {
            Seq::empty()
        };
        row_line(rows, r, i, selected, offset) + gap + seq![(rows[i as int][r], i + offset == selected)]
    }
}

/// The first `n` rows of a group of cards, separated by line breaks.
pub open spec fn grid_lines(rows: Seq<Seq<Seq<char>>>, n: nat, selected: nat, offset: nat) -> Seq<
    (Seq<char>, bool),
>
    decreases n,
{
    if n == 0 {
        Seq::empty()
    } else {
        let r = (n - 1) as nat;
        let newline: Seq<(Seq<char>, bool)> = if n < CARD_HEIGHT {
            seq![("\r\n"@, false)]
        } else {
            Seq::empty()
        };
        grid_lines(rows, r, selected, offset) + row_line(rows, r as int, rows.len(), selected, offset)
            + newline
    }
}

/// A group of cards side by side, or `(none)` when it is empty.
pub open spec fn group_segments(rows: Seq<Seq<Seq<char>>>, selected: nat, offset: nat) -> Seq<
    (Seq<char>, bool),
> {
    if rows.len() == 0 {
        seq![("(none)"@, false)]
    } else {
        grid_lines(rows, CARD_HEIGHT as nat, selected, offset)
    }
}

/// The drawn lines of each card, each at its own width.
pub open spec fn rows_of(cards: Seq<CardDefinition>) -> Seq<Seq<Seq<char>>> {
    cards.map_values(|card: CardDefinition| card_rows_spec(card, card_width_spec(card)))
}

proof fn lemma_segment_views_push(v: Seq<Segment>, s: Segment)
    ensures
        segment_views(v.push(s)) == segment_views(v).push((s.text@, s.highlighted)),
{
    assert(segment_views(v.push(s)) =~= segment_views(v).push((s.text@, s.highlighted)));
}

fn segment(text: String, highlighted: bool) -> (s: Segment)
    ensures
        s.text@ == text@,
        s.highlighted == highlighted,
{
    Segment { text, highlighted }
}

/// Draws a group of cards side by side, highlighting the selected one.
pub fn render_card_group(cards: &Vec<&CardDefinition>, selected: usize, offset: usize) -> (segments:
    Vec<Segment>)
    ensures
        segment_views(segments@) == group_segments(
            rows_of(cards@.map_values(|card: &CardDefinition| *card)),
            selected as nat,
            offset as nat,
        ),
{
    let ghost plain = cards@.map_values(|card: &CardDefinition| *card);
    let ghost rows_spec = rows_of(plain);
    let mut segments: Vec<Segment> = Vec::new();
    if cards.len() == 0 {
        segments.push(segment(String::from_str("(none)"), false));
        assert(segment_views(segments@) =~= group_segments(rows_spec, selected as nat, offset as nat));
        return segments;
    }
    let mut rows: Vec<Vec<String>> = Vec::new();
    let n = cards.len();
    for i in 0..n
        invariant
            n == cards@.len(),
            plain == cards@.map_values(|card: &CardDefinition| *card),
            rows_spec == rows_of(plain),
            rows@.len() == i,
            forall|j: int| 0 <= j < i ==> string_views(#[trigger] rows@[j]@) == rows_spec[j],
    {
        let card = cards[i];
        rows.push(card_rows(card, card_width(card)));
    }
    for r in 0..CARD_HEIGHT
        invariant
            n == cards@.len(),
            n > 0,
            rows@.len() == n,
            rows_spec.len() == n,
            forall|j: int| 0 <= j < n ==> string_views(#[trigger] rows@[j]@) == rows_spec[j],
            forall|j: int| 0 <= j < n ==> (#[trigger] rows_spec[j]).len() == CARD_HEIGHT,
            segment_views(segments@) == grid_lines(rows_spec, r as nat, selected as nat, offset as nat),
    {
        let ghost before = segment_views(segments@);
        for i in 0..n
            invariant
                n == cards@.len(),
                rows@.len() == n,
                rows_spec.len() == n,
                0 <= r < CARD_HEIGHT,
                forall|j: int| 0 <= j < n ==> string_views(#[trigger] rows@[j]@) == rows_spec[j],
                forall|j: int| 0 <= j < n ==> (#[trigger] rows_spec[j]).len() == CARD_HEIGHT,
                segment_views(segments@) == before + row_line(
                    rows_spec,
                    r as int,
                    i as nat,
                    selected as nat,
                    offset as nat,
                ),
        {
            let ghost mid = segment_views(segments@);
            if i > 0 {
                let ghost v0 = segments@;
                segments.push(segment(String::from_str("  "), false));
                proof {
                    lemma_segment_views_push(v0, segments@.last());
                }
            }
            let ghost gap = segment_views(segments@);
            let highlighted = selected >= offset && i == selected - offset;
            assert(string_views(rows@[i as int]@)[r as int] == rows@[i as int]@[r as int]@);
            assert(rows_spec[i as int][r as int] == rows@[i as int]@[r as int]@);
            let ghost v1 = segments@;
            segments.push(segment(rows[i][r].clone(), highlighted));
            proof {
                lemma_segment_views_push(v1, segments@.last());
                assert(segment_views(segments@) == gap.push((rows_spec[i as int][r as int], i + offset == selected)));
            }
            assert(segment_views(segments@) =~= before + row_line(
                rows_spec,
                r as int,
                (i + 1) as nat,
                selected as nat,
                offset as nat,
            ));
        }
        let ghost lines = segment_views(segments@);
        if r + 1 < CARD_HEIGHT {
            let ghost v0 = segments@;
            segments.push(segment(String::from_str("\r\n"), false));
            proof {
                lemma_segment_views_push(v0, segments@.last());
            }
        }
        assert(segment_views(segments@) =~= grid_lines(
            rows_spec,
            (r + 1) as nat,
            selected as nat,
            offset as nat,
        ));
    }
    segments
}


/// The key help line.
pub open spec fn help_text() -> Seq<char> {
    "←/→: move  ↑/↓: switch group  Enter/Space: select  b: bind  e: end turn  c: clear  Esc/q: quit\r\n"@
}

/// The lines above the cards: energy and expression, key help, status, and
/// the deck heading.
pub open spec fn header_segments(energy: u32, text: Seq<char>, status: Seq<char>) -> Seq<
    (Seq<char>, bool),
> {
    let shown = if text.len() == 0 {
        "<empty>"@
    } else {
        text
    };
    seq![
        ("Energy: "@ + decimal(energy as nat) + "    Current expression: "@ + shown + "\r\n"@, false),
        (help_text(), false),
        (status + "\r\n"@, false),
        ("Deck\r\n"@, false),
    ]
}

/// Every deck card has a definition in the library.
pub open spec fn deck_resolves(library: CardLibrary, deck: Deck) -> bool {
    forall|i: int|
        0 <= i < deck@.len() ==> library.lookup((#[trigger] deck@[i]).definition_id()) is Some
}

/// The definitions of the deck's cards, in deck order.
pub open spec fn deck_definitions(library: CardLibrary, deck: Deck) -> Seq<CardDefinition> {
    Seq::new(deck@.len(), |i: int| library.lookup(deck@[i].definition_id())->Some_0)
}

/// The turn's binding cards in display order.
pub open spec fn binding_cards(turn: TurnState) -> Seq<CardDefinition> {
    binding_order(turn@).map_values(|name: Seq<char>| turn@[name])
}

/// The whole screen: header, deck cards, and binding cards; the highlighted
/// position counts deck cards first, then bindings.
pub open spec fn screen_spec(
    library: CardLibrary,
    deck: Deck,
    builder: ExpressionBuilder,
    turn: TurnState,
    selected: nat,
    status: Seq<char>,
) -> Seq<(Seq<char>, bool)> {
    header_segments(turn.energy(), builder.text(), status) + group_segments(
        rows_of(deck_definitions(library, deck)),
        selected,
        0,
    ) + seq![("\r\n\r\nBindings — one use this turn\r\n"@, false)] + group_segments(
        rows_of(binding_cards(turn)),
        selected,
        deck@.len(),
    )
}

fn push_segment(segments: &mut Vec<Segment>, text: String, highlighted: bool)
    ensures
        segment_views(final(segments)@) == segment_views(old(segments)@).push(
            (text@, highlighted),
        ),
{
    let ghost before = segments@;
    segments.push(Segment { text, highlighted });
    proof {
        lemma_segment_views_push(before, segments@.last());
    }
}

fn append_segments(segments: &mut Vec<Segment>, more: Vec<Segment>)
    ensures
        segment_views(final(segments)@) == segment_views(old(segments)@) + segment_views(more@),
{
    let mut more = more;
    let ghost before = segments@;
    let ghost added = more@;
    segments.append(&mut more);
    assert(segment_views(segments@) =~= segment_views(before) + segment_views(added));
}

/// Lays out the screen for the current turn; `None` when a deck card is
/// missing from the library.
pub fn render(
    library: &CardLibrary,
    deck: &Deck,
    builder: &ExpressionBuilder,
    selected: usize,
    status: &str,
    turn: &TurnState,
) -> (screen: Option<Vec<Segment>>)
    requires
        turn.wf(),
    ensures
        screen is Some <==> deck_resolves(*library, *deck),
        screen matches Some(v) ==> segment_views(v@) == screen_spec(
            *library,
            *deck,
            *builder,
            *turn,
            selected as nat,
            status@,
        ),
{
    let cards = match resolve_cards(library, deck) {
        Some(cards) => cards,
        None => {
            return None;
        },
    };
    let mut segments: Vec<Segment> = Vec::new();
    let mut first = String::from_str("Energy: ");
    push_decimal(&mut first, turn.current_energy() as u64);
    first.append("    Current expression: ");
    if builder.current_expr().is_empty() {
        first.append("<empty>");
    } else {
        first.append(builder.current_expr());
    }
    first.append("\r\n");
    push_segment(&mut segments, first, false);
    push_segment(
        &mut segments,
        String::from_str(
            "←/→: move  ↑/↓: switch group  Enter/Space: select  b: bind  e: end turn  c: clear  Esc/q: quit\r\n",
        ),
        false,
    );
    let mut status_line = String::from_str(status);
    status_line.append("\r\n");
    push_segment(&mut segments, status_line, false);
    push_segment(&mut segments, String::from_str("Deck\r\n"), false);
    assert(segment_views(segments@) =~= header_segments(turn.energy(), builder.text(), status@));
    let ghost header = segment_views(segments@);
    let deck_group = render_card_group(&cards, selected, 0);
    proof {
        assert(cards@.map_values(|card: &CardDefinition| *card) =~= deck_definitions(
            *library,
            *deck,
        ));
    }
    append_segments(&mut segments, deck_group);
    push_segment(&mut segments, String::from_str("\r\n\r\nBindings — one use this turn\r\n"), false);
    let sorted = turn.sorted_bindings();
    let binding_group = render_card_group(&sorted, selected, cards.len());
    proof {
        let order = binding_order(turn@);
        assert(crate::player::card_names(sorted@) == order);
        assert forall|i: int| 0 <= i < sorted@.len() implies *sorted@[i] == turn@[order[i]] by {
            assert(crate::player::card_names(sorted@)[i] == sorted@[i].name_view());
        }
        assert(sorted@.map_values(|card: &CardDefinition| *card) =~= binding_cards(*turn));
    }
    append_segments(&mut segments, binding_group);
    assert(segment_views(segments@) =~= screen_spec(
        *library,
        *deck,
        *builder,
        *turn,
        selected as nat,
        status@,
    ));
    Some(segments)
}

/// The name prompt below the cards, with the typed name, a highlighted
/// cursor, and the overwrite warning when the name is taken.
pub open spec fn prompt_spec(name: Seq<char>, taken: bool) -> Seq<(Seq<char>, bool)> {
    let base = seq![
        ("\r\n\r\nVariable name: "@, false),
        (name, false),
        (" "@, true),
        ("\r\nEnter: confirm  Esc: cancel"@, false),
    ];
    if taken {
        base + seq![("\r\n"@, false), (overwrite_warning_text(name), false)]
    } else {
        base
    }
}

/// Lays out the name prompt.
pub fn prompt_segments(turn: &TurnState, builder: &ExpressionBuilder, name: &str) -> (segments: Vec<
    Segment,
>)
    requires
        turn.wf(),
    ensures
        segment_views(segments@) == prompt_spec(name@, name_taken(*turn, *builder, name@)),
{
    let mut segments: Vec<Segment> = Vec::new();
    push_segment(&mut segments, String::from_str("\r\n\r\nVariable name: "), false);
    push_segment(&mut segments, String::from_str(name), false);
    push_segment(&mut segments, String::from_str(" "), true);
    push_segment(&mut segments, String::from_str("\r\nEnter: confirm  Esc: cancel"), false);
    match overwrite_warning(turn, builder, name) {
        Some(warning) => {
            push_segment(&mut segments, String::from_str("\r\n"), false);
            push_segment(&mut segments, warning, false);
        },
        None => {},
    }
    assert(segment_views(segments@) =~= prompt_spec(name@, name_taken(*turn, *builder, name@)));
    segments
}

impl Selector {
    /// Lays out the whole screen for the selector's state: the cards, and
    /// the name prompt while a binding name is being typed; `None` when a
    /// deck card is missing from the library.
    pub fn frame(
        &self,
        library: &CardLibrary,
        deck: &Deck,
        builder: &ExpressionBuilder,
        turn: &TurnState,
    ) -> (screen: Option<Vec<Segment>>)
        requires
            turn.wf(),
        ensures
            screen is Some <==> deck_resolves(*library, *deck),
            screen matches Some(v) ==> segment_views(v@) == screen_spec(
                *library,
                *deck,
                *builder,
                *turn,
                self.index(),
                self.status_view(),
            ) + match self.naming_view() {
                Some(name) => prompt_spec(name, name_taken(*turn, *builder, name)),
                None => Seq::empty(),
            },
    {
        let mut segments = match render(
            library,
            deck,
            builder,
            self.selected_index,
            self.status.as_str(),
            turn,
        ) {
            Some(segments) => segments,
            None => {
                return None;
            },
        };
        let ghost screen = segment_views(segments@);
        match &self.naming {
            Some(name) => {
                let prompt = prompt_segments(turn, builder, name.as_str());
                append_segments(&mut segments, prompt);
            },
            None => {
                assert(segment_views(segments@) =~= screen + Seq::empty());
            },
        }
        Some(segments)
    }
}


/// Successful actions consume their input: after a successful bind or a
/// successful score, clearing gives no deck card and no binding back.
pub proof fn lemma_successful_actions_are_not_undone_by_clear(
    b0: ExpressionBuilder,
    b1: ExpressionBuilder,
    t0: TurnState,
    t1: TurnState,
    name: Seq<char>,
    scored: bool,
)
    requires
        !scored ==> bind_selection_post(b0, b1, t0, t1, name, None),
        scored ==> score_selection_outcome(b0, t0) is Ok && score_selection_post(
            b0,
            b1,
            t0,
            t1,
            score_selection_outcome(b0, t0),
        ),
    ensures
        returned_instances(b1.selection()) == Seq::<crate::cards::CardInstance>::empty(),
        restore_all(t1@, b1.selection()) == t1@,
{
}

/// Right moves the highlight to the next card of its group and Left to the
/// previous one, wrapping at the ends of the group (the deck is the first
/// group, the bindings the second). Up goes to the first deck card and Down
/// to the first binding, when the highlight is in the other group and the
/// target group is not empty.
pub proof fn lemma_arrows_step_through_the_group(selected: nat, cards: nat, bindings: nat)
    requires
        selected < cards + bindings,
    ensures
        ({
            let start: nat = if selected < cards {
                0
            } else {
                cards
            };
            let end: nat = if selected < cards {
                cards
            } else {
                cards + bindings
            };
            &&& navigate_spec(Key::Right, selected, cards, bindings) == Some(
                if selected + 1 < end {
                    (selected + 1) as nat
                } else {
                    start
                },
            )
            &&& navigate_spec(Key::Left, selected, cards, bindings) == Some(
                if selected > start {
                    (selected - 1) as nat
                } else {
                    (end - 1) as nat
                },
            )
        }),
        navigate_spec(Key::Up, selected, cards, bindings) == if selected >= cards && cards > 0 {
            Some(0nat)
        } else {
            None
        },
        navigate_spec(Key::Down, selected, cards, bindings) == if selected < cards && bindings > 0 {
            Some(cards)
        } else {
            None
        },
{
    let in_deck = selected < cards;
    let group_start: nat = if in_deck {
        0
    } else {
        cards
    };
    let group_count: nat = if in_deck {
        cards
    } else {
        bindings
    };
    let offset = (selected - group_start) as nat;
    if offset + 1 == group_count {
        assert((offset + 1) % group_count == 0) by (nonlinear_arith)
            requires
                offset + 1 == group_count,
                group_count > 0,
        ;
    } else {
        assert((offset + 1) % group_count == offset + 1) by (nonlinear_arith)
            requires
                offset + 1 < group_count,
        ;
    }
}

/// Enter (or Space) on a highlighted binding selects the binding shown at
/// that position: with `p` the highlight and `n` deck cards, the card of the
/// `(p - n)`-th name in lexicographic order, the same card that the screen
/// draws highlighted. It leaves the turn and joins the selection.
pub proof fn lemma_enter_selects_the_highlighted_binding(
    s0: Selector,
    s1: Selector,
    b0: ExpressionBuilder,
    b1: ExpressionBuilder,
    d0: Deck,
    d1: Deck,
    t0: TurnState,
    t1: TurnState,
    library: CardLibrary,
    key: Key,
    result: Option<BuildAction>,
)
    requires
        t0.wf(),
        is_select_key(key),
        d0@.len() <= s0.index() < d0@.len() + t0.binding_count(),
        selecting_post(s0, s1, b0, b1, d0, d1, t0, t1, library, key, result),
    ensures
        ({
            let k = s0.index() - d0@.len();
            let order = binding_order(t0@);
            let card = binding_cards(t0)[k];
            &&& is_binding_order(order, t0@)
            &&& card.name_view() == order[k]
            &&& t0@.contains_key(order[k]) && card == t0@[order[k]]
            &&& forall|j: int| 0 <= j < k ==> text_less(#[trigger] order[j], order[k])
            &&& forall|j: int| k < j < order.len() ==> text_less(order[k], #[trigger] order[j])
            &&& b1.selection() == b0.selection().push(
                SelectedCard {
                    source: SelectedSource::Binding(card),
                    part: ExpressionPart::Operand(card.term_view()->Binding_0),
                },
            )
            &&& b1.text() == extend_text(b0.text(), order[k])
            &&& t1@ == t0@.remove(order[k])
            &&& d1@ == d0@
            &&& result is None
        }),
{
    t0.lemma_binding_order();
    t0.lemma_wf();
    let k = s0.index() - d0@.len();
    let order = binding_order(t0@);
    assert(navigate_spec(key, s0.index(), d0@.len(), t0.binding_count()) is None);
    assert(order.contains(order[k]));
}

/// While a binding name is being typed, a key that types a character other
/// than a control character (U+0000 to U+001F and U+007F to U+009F) appends
/// it to the name, and a control character leaves the name as it is; neither
/// touches the selection or the turn.
pub proof fn lemma_typing_appends_to_the_name(
    s0: Selector,
    s1: Selector,
    b0: ExpressionBuilder,
    b1: ExpressionBuilder,
    t0: TurnState,
    t1: TurnState,
    c: char,
    result: Option<BuildAction>,
)
    requires
        s0.naming_view() is Some,
        naming_post(s0, s1, b0, b1, t0, t1, Key::Char(c), result),
    ensures
        0x20 <= (c as u32) < 0x7f || 0x9f < (c as u32) ==> s1.naming_view() == Some(
            s0.naming_view()->Some_0.push(c),
        ),
        (c as u32) < 0x20 || 0x7f <= (c as u32) <= 0x9f ==> s1.naming_view() == s0.naming_view(),
        b1 == b0,
        t1 == t0,
        s1.index() == s0.index(),
        result is None,
{
}

proof fn lemma_spaces(n: nat)
    ensures
        repeat_text(" "@, n).len() == n,
        forall|i: int| 0 <= i < n ==> #[trigger] repeat_text(" "@, n)[i] == ' ',
    decreases n,
{
    reveal_strlit(" ");
    if n > 0 {
        lemma_spaces((n - 1) as nat);
        let shorter = repeat_text(" "@, (n - 1) as nat);
        assert forall|i: int| 0 <= i < n implies #[trigger] repeat_text(" "@, n)[i] == ' ' by {
            if i < n - 1 {
                assert(repeat_text(" "@, n)[i] == shorter[i]);
            }
        }
    }
}

/// Centring pads with spaces to the width (never cutting wider content):
/// the content stands whole at offset `left`, spaces fill the rest, and the
/// space on the right is the space on the left or one more.
pub proof fn lemma_centering_pads_evenly(content: Seq<char>, width: nat)
    ensures
        ({
            let r = centered_text(content, width);
            let total: nat = if width > content.len() {
                width
            } else {
                content.len()
            };
            let left: int = (total - content.len()) / 2;
            let right: int = total - content.len() - left;
            &&& r.len() == total
            &&& r.subrange(left, left + content.len()) == content
            &&& forall|i: int| 0 <= i < left ==> #[trigger] r[i] == ' '
            &&& forall|i: int| left + content.len() <= i < total ==> #[trigger] r[i] == ' '
            &&& (right == left || right == left + 1)
        }),
{
    let padding: nat = if width > content.len() {
        (width - content.len()) as nat
    } else {
        0
    };
    let left = padding / 2;
    let right = (padding - left) as nat;
    lemma_spaces(left);
    lemma_spaces(right);
    let r = centered_text(content, width);
    let a = repeat_text(" "@, left);
    let b = repeat_text(" "@, right);
    assert(r == a + content + b);
    assert(r.subrange(left as int, (left + content.len()) as int) =~= content);
    assert forall|i: int| 0 <= i < left implies #[trigger] r[i] == ' ' by {
        assert(r[i] == a[i]);
    }
    assert forall|i: int| left + content.len() <= i < r.len() implies #[trigger] r[i] == ' ' by {
        assert(r[i] == b[i - left - content.len()]);
    }
}

/// A card is as wide as its widest line (name, category or type), and never
/// narrower than the minimum width.
pub proof fn lemma_card_width_is_widest_line(card: CardDefinition)
    ensures
        ({
            let w = card_width_spec(card);
            let name = card.name_view().len();
            let category = category_text(card.term_view()).len();
            let typ = scheme_text(card.scheme_view()).len();
            &&& w >= name && w >= category && w >= typ && w >= MINIMUM_INNER_WIDTH
            &&& (w == name || w == category || w == typ || w == MINIMUM_INNER_WIDTH)
        }),
{
}

/// Enter (or Space) on a highlighted deck card selects that very instance,
/// the one the screen draws highlighted at the same position: it leaves the
/// deck, the other cards keep their order, and it joins the selection with
/// the part of its definition.
pub proof fn lemma_enter_selects_the_highlighted_deck_card(
    s0: Selector,
    s1: Selector,
    b0: ExpressionBuilder,
    b1: ExpressionBuilder,
    d0: Deck,
    d1: Deck,
    t0: TurnState,
    t1: TurnState,
    library: CardLibrary,
    key: Key,
    result: Option<BuildAction>,
)
    requires
        is_select_key(key),
        s0.index() < d0@.len(),
        deck_resolves(library, d0),
        selecting_post(s0, s1, b0, b1, d0, d1, t0, t1, library, key, result),
    ensures
        ({
            let p = s0.index() as int;
            let definition = deck_definitions(library, d0)[p];
            &&& d1@.len() + 1 == d0@.len()
            &&& forall|i: int| 0 <= i < p ==> #[trigger] d1@[i] == d0@[i]
            &&& forall|i: int| p <= i < d1@.len() ==> #[trigger] d1@[i] == d0@[i + 1]
            &&& b1.selection().len() == b0.selection().len() + 1
            &&& b1.selection().last() == SelectedCard {
                source: SelectedSource::Deck(d0@[p]),
                part: term_part(definition.term_view()),
            }
            &&& b1.text() == extend_text(b0.text(), definition.name_view())
            &&& t1 == t0
            &&& result is None
        }),
{
    let p = s0.index() as int;
    assert(navigate_spec(key, s0.index(), d0@.len(), t0.binding_count()) is None);
    assert(library.lookup(d0@[p].definition_id()) is Some);
}

/// While a binding name is being typed, Backspace deletes its last
/// character (an empty name stays empty) and changes nothing else.
pub proof fn lemma_backspace_deletes_the_last_character(
    s0: Selector,
    s1: Selector,
    b0: ExpressionBuilder,
    b1: ExpressionBuilder,
    t0: TurnState,
    t1: TurnState,
    result: Option<BuildAction>,
)
    requires
        s0.naming_view() is Some,
        naming_post(s0, s1, b0, b1, t0, t1, Key::Backspace, result),
    ensures
        ({
            let name = s0.naming_view()->Some_0;
            let after = s1.naming_view()->Some_0;
            &&& s1.naming_view() is Some
            &&& name.len() > 0 ==> after.len() + 1 == name.len() && after == name.take(
                name.len() - 1,
            )
            &&& name.len() == 0 ==> after.len() == 0
        }),
        b1 == b0,
        t1 == t0,
        result is None,
{
    let name = s0.naming_view()->Some_0;
    if name.len() > 0 {
        assert(name.drop_last() =~= name.take(name.len() - 1));
    }
}

/// Left undoes Right and Right undoes Left: moving within a group wraps
/// around at its ends and never leaves the group.
pub proof fn lemma_left_right_inverse(selected: nat, cards: nat, bindings: nat)
    requires
        selected < cards + bindings,
    ensures
        ({
            let right = navigate_spec(Key::Right, selected, cards, bindings);
            &&& right is Some
            &&& (selected < cards <==> right->Some_0 < cards)
            &&& right->Some_0 < cards + bindings
            &&& navigate_spec(Key::Left, right->Some_0, cards, bindings) == Some(selected)
        }),
        ({
            let left = navigate_spec(Key::Left, selected, cards, bindings);
            &&& left is Some
            &&& (selected < cards <==> left->Some_0 < cards)
            &&& left->Some_0 < cards + bindings
            &&& navigate_spec(Key::Right, left->Some_0, cards, bindings) == Some(selected)
        }),
{
    let in_deck = selected < cards;
    let group_start: nat = if in_deck {
        0
    } else {
        cards
    };
    let group_count: nat = if in_deck {
        cards
    } else {
        bindings
    };
    let offset = (selected - group_start) as nat;
    assert(offset < group_count);
    if offset + 1 == group_count {
        assert((offset + 1) % group_count == 0) by (nonlinear_arith)
            requires
                offset + 1 == group_count,
                group_count > 0,
        ;
    } else {
        assert((offset + 1) % group_count == offset + 1) by (nonlinear_arith)
            requires
                offset + 1 < group_count,
        ;
    }
    if offset == 0 {
        assert(((group_count - 1) + 1) as nat % group_count == 0) by (nonlinear_arith)
            requires
                group_count > 0,
        ;
    } else {
        assert(((offset - 1) + 1) as nat % group_count == offset) by (nonlinear_arith)
            requires
                0 < offset < group_count,
        ;
    }
}

} // verus!
