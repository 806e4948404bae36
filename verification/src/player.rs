use vstd::prelude::*;

use crate::cards::{CardDefinition, CardTerm, Deck};
use crate::language::{
    evaluate, evaluation_error_debug_text, evaluate_spec, inference_error_debug_text,
    infer_monomorphic, infer_spec, is_valid_variable_name, valid_variable_name,
    EvaluationError, Expr, TypeInferenceError, TypeScheme, Value,
};
use crate::text::{
    debug_str_text, lemma_text_less_irreflexive, lemma_text_less_total,
    lemma_text_less_transitive, push_debug_str, text_less, text_lt,
};

verus! {

broadcast use vstd::string::group_string_axioms;

/// Energy that every turn starts with.
pub const STARTING_ENERGY: u32 = 3;

/// The player owns the deck across turns.
#[derive(Debug)]
pub struct Player {
    current_deck: Deck,
}

impl Player {
    /// The player's deck.
    pub closed spec fn deck_view(self) -> Deck {
        self.current_deck
    }

    pub fn new(deck: Deck) -> (player: Self)
        ensures
            player.deck_view() == deck,
    {
        Player { current_deck: deck }
    }

    pub fn deck(&self) -> (deck: &Deck)
        ensures
            *deck == self.deck_view(),
    {
        &self.current_deck
    }

    pub fn deck_mut(&mut self) -> (deck: &mut Deck)
        ensures
            *deck == old(self).deck_view(),
            final(self).deck_view() == *final(deck),
    {
        &mut self.current_deck
    }
}

/// No two cards carry the same name.
pub open spec fn unique_names(cards: Seq<CardDefinition>) -> bool {
    forall|i: int, j: int|
        0 <= i < j < cards.len() ==> (#[trigger] cards[i]).name_view() != (#[trigger] cards[j]).name_view()
}

/// Whether some card in `cards` carries the name `name`.
pub open spec fn has_name(cards: Seq<CardDefinition>, name: Seq<char>) -> bool {
    exists|i: int| 0 <= i < cards.len() && (#[trigger] cards[i]).name_view() == name
}

/// The cards of `cards`, looked up by name.
pub open spec fn binding_map(cards: Seq<CardDefinition>) -> Map<Seq<char>, CardDefinition> {
    Map::new(
        |name: Seq<char>| has_name(cards, name),
        |name: Seq<char>|
            cards[choose|i: int| 0 <= i < cards.len() && (#[trigger] cards[i]).name_view() == name],
    )
}

proof fn lemma_binding_map_at(cards: Seq<CardDefinition>, i: int)
    requires
        unique_names(cards),
        0 <= i < cards.len(),
    ensures
        binding_map(cards).contains_key(cards[i].name_view()),
        binding_map(cards)[cards[i].name_view()] == cards[i],
{
    let name = cards[i].name_view();
    assert(has_name(cards, name));
    let j = choose|j: int| 0 <= j < cards.len() && (#[trigger] cards[j]).name_view() == name;
    if j < i {
        assert(cards[j].name_view() != cards[i].name_view());
    } else if i < j {
        assert(cards[i].name_view() != cards[j].name_view());
    }
}

proof fn lemma_binding_map_update(cards: Seq<CardDefinition>, i: int, card: CardDefinition)
    requires
        unique_names(cards),
        0 <= i < cards.len(),
        card.name_view() == cards[i].name_view(),
    ensures
        unique_names(cards.update(i, card)),
        binding_map(cards.update(i, card)) == binding_map(cards).insert(card.name_view(), card),
{
    let after = cards.update(i, card);
    assert forall|a: int, b: int| 0 <= a < b < after.len() implies (#[trigger] after[a]).name_view()
        != (#[trigger] after[b]).name_view() by {
        assert(after[a].name_view() == cards[a].name_view());
        assert(after[b].name_view() == cards[b].name_view());
    }
    let m = binding_map(cards).insert(card.name_view(), card);
    assert forall|name: Seq<char>| #[trigger] m.contains_key(name) == binding_map(after).contains_key(
        name,
    ) by {
        if has_name(cards, name) {
            let j = choose|j: int| 0 <= j < cards.len() && (#[trigger] cards[j]).name_view() == name;
            assert(after[j].name_view() == name);
        }
        if has_name(after, name) {
            let j = choose|j: int| 0 <= j < after.len() && (#[trigger] after[j]).name_view() == name;
            assert(cards[j].name_view() == name);
        }
    }
    assert forall|name: Seq<char>| m.contains_key(name) implies #[trigger] m[name] == binding_map(
        after,
    )[name] by {
        let j = choose|j: int| 0 <= j < after.len() && (#[trigger] after[j]).name_view() == name;
        lemma_binding_map_at(after, j);
        if j != i {
            lemma_binding_map_at(cards, j);
        }
    }
    assert(m =~= binding_map(after));
}

proof fn lemma_binding_map_push(cards: Seq<CardDefinition>, card: CardDefinition)
    requires
        unique_names(cards),
        !has_name(cards, card.name_view()),
    ensures
        unique_names(cards.push(card)),
        binding_map(cards.push(card)) == binding_map(cards).insert(card.name_view(), card),
{
    let after = cards.push(card);
    assert forall|a: int, b: int| 0 <= a < b < after.len() implies (#[trigger] after[a]).name_view()
        != (#[trigger] after[b]).name_view() by {
        if b == cards.len() {
            assert(cards[a] == after[a]);
        } else {
            assert(cards[a] == after[a]);
            assert(cards[b] == after[b]);
        }
    }
    let m = binding_map(cards).insert(card.name_view(), card);
    assert forall|name: Seq<char>| #[trigger] m.contains_key(name) == binding_map(after).contains_key(
        name,
    ) by {
        if has_name(cards, name) {
            let j = choose|j: int| 0 <= j < cards.len() && (#[trigger] cards[j]).name_view() == name;
            assert(after[j].name_view() == name);
        }
        if name == card.name_view() {
            assert(after[cards.len() as int].name_view() == name);
        }
        if has_name(after, name) {
            let j = choose|j: int| 0 <= j < after.len() && (#[trigger] after[j]).name_view() == name;
            if j < cards.len() {
                assert(cards[j].name_view() == name);
            }
        }
    }
    assert forall|name: Seq<char>| m.contains_key(name) implies #[trigger] m[name] == binding_map(
        after,
    )[name] by {
        let j = choose|j: int| 0 <= j < after.len() && (#[trigger] after[j]).name_view() == name;
        lemma_binding_map_at(after, j);
        if j < cards.len() {
            assert(cards[j] == after[j]);
            lemma_binding_map_at(cards, j);
        }
    }
    assert(m =~= binding_map(after));
}

proof fn lemma_binding_map_remove(cards: Seq<CardDefinition>, i: int)
    requires
        unique_names(cards),
        0 <= i < cards.len(),
    ensures
        unique_names(cards.remove(i)),
        binding_map(cards.remove(i)) == binding_map(cards).remove(cards[i].name_view()),
{
    let after = cards.remove(i);
    assert forall|a: int, b: int| 0 <= a < b < after.len() implies (#[trigger] after[a]).name_view()
        != (#[trigger] after[b]).name_view() by {
        let a0 = if a < i { a } else { a + 1 };
        let b0 = if b < i { b } else { b + 1 };
        assert(after[a] == cards[a0]);
        assert(after[b] == cards[b0]);
    }
    let key = cards[i].name_view();
    let m = binding_map(cards).remove(key);
    assert forall|name: Seq<char>| #[trigger] m.contains_key(name) == binding_map(after).contains_key(
        name,
    ) by {
        if has_name(cards, name) && name != key {
            let j = choose|j: int| 0 <= j < cards.len() && (#[trigger] cards[j]).name_view() == name;
            if j < i {
                assert(after[j] == cards[j]);
            } else {
                assert(after[j - 1] == cards[j]);
            }
        }
        if has_name(after, name) {
            let j = choose|j: int| 0 <= j < after.len() && (#[trigger] after[j]).name_view() == name;
            let j0 = if j < i { j } else { j + 1 };
            assert(after[j] == cards[j0]);
            assert(cards[j0].name_view() == name);
            assert(j0 != i);
        }
    }
    assert forall|name: Seq<char>| m.contains_key(name) implies #[trigger] m[name] == binding_map(
        after,
    )[name] by {
        let j = choose|j: int| 0 <= j < after.len() && (#[trigger] after[j]).name_view() == name;
        lemma_binding_map_at(after, j);
        let j0 = if j < i { j } else { j + 1 };
        assert(after[j] == cards[j0]);
        lemma_binding_map_at(cards, j0);
    }
    assert(m =~= binding_map(after));
}

/// Why a turn action was refused.
#[derive(Debug, Clone, PartialEq, Eq)]
pub enum PlayerError {
    OutOfEnergy,
    InvalidVariableName(String),
    TypeInference(TypeInferenceError),
    Evaluation(EvaluationError),
    ScoreMustBeInteger,
}

/// The message shown for a refused action.
pub open spec fn player_error_text(error: PlayerError) -> Seq<char> {
    match error {
        PlayerError::OutOfEnergy => "the player is out of energy"@,
        PlayerError::InvalidVariableName(name) => debug_str_text(name@)
            + " is not a valid variable name"@,
        PlayerError::ScoreMustBeInteger => "only an Int can be used as a score"@,
        PlayerError::TypeInference(error) => "type inference failed: "@
            + inference_error_debug_text(error),
        PlayerError::Evaluation(error) => "evaluation failed: "@ + evaluation_error_debug_text(
            error,
        ),
    }
}

impl PlayerError {
    /// The message for the error, as `Display` would show it.
    pub fn to_string(&self) -> (s: String)
        ensures
            s@ == player_error_text(*self),
    {
        let mut s = String::new();
        match self {
            PlayerError::OutOfEnergy => s.append("the player is out of energy"),
            PlayerError::InvalidVariableName(name) => {
                push_debug_str(&mut s, name.as_str());
                s.append(" is not a valid variable name");
            },
            PlayerError::ScoreMustBeInteger => s.append("only an Int can be used as a score"),
            PlayerError::TypeInference(error) => {
                s.append("type inference failed: ");
                let detail = error.debug_text();
                s.append(detail.as_str());
            },
            PlayerError::Evaluation(error) => {
                s.append("evaluation failed: ");
                let detail = error.debug_text();
                s.append(detail.as_str());
            },
        }
        assert(s@ =~= player_error_text(*self));
        s
    }
}

/// What scoring an expression gives with the energy `energy`: energy is
/// checked first, then the type, then evaluation; only an integer scores.
pub open spec fn score_outcome(energy: u32, expression: Expr) -> Result<i64, PlayerError> {
    if energy == 0 {
        Err(PlayerError::OutOfEnergy)
    } else {
        match infer_spec(expression) {
            Err(error) => Err(PlayerError::TypeInference(error)),
            Ok(_) => match evaluate_spec(expression) {
                Err(error) => Err(PlayerError::Evaluation(error)),
                Ok(Value::Int(score)) => Ok(score),
                Ok(Value::Bool(_)) => Err(PlayerError::ScoreMustBeInteger),
            },
        }
    }
}

/// Expression-backed cards and energy owned by one turn. Drop on completion or quit.
#[derive(Debug)]
pub struct TurnState {
    current_energy: u32,
    bindings: Vec<CardDefinition>,
}

impl View for TurnState {
    type V = Map<Seq<char>, CardDefinition>;

    /// The turn's bindings by name.
    closed spec fn view(&self) -> Map<Seq<char>, CardDefinition> {
        binding_map(self.bindings@)
    }
}

impl TurnState {
    /// The energy left this turn.
    pub closed spec fn energy(self) -> u32 {
        self.current_energy
    }

    /// How many bindings the turn holds.
    pub closed spec fn binding_count(self) -> nat {
        self.bindings@.len()
    }

    /// Names are unique, every card is a binding stored under its own name,
    /// and energy never exceeds the starting amount.
    pub closed spec fn wf(self) -> bool {
        &&& unique_names(self.bindings@)
        &&& forall|i: int|
            0 <= i < self.bindings@.len() ==> (#[trigger] self.bindings@[i]).term_view() is Binding
        &&& self.current_energy <= STARTING_ENERGY
    }

    /// What a well-formed turn guarantees of its bindings and energy.
    pub proof fn lemma_wf(self)
        requires
            self.wf(),
        ensures
            self.energy() <= STARTING_ENERGY,
            forall|name: Seq<char>| #[trigger]
                self@.contains_key(name) ==> self@[name].name_view() == name
                    && self@[name].term_view() is Binding,
    {
        assert forall|name: Seq<char>| #[trigger]
            self@.contains_key(name) implies self@[name].name_view() == name
            && self@[name].term_view() is Binding by {
            let j = choose|j: int|
                0 <= j < self.bindings@.len() && (#[trigger] self.bindings@[j]).name_view() == name;
            lemma_binding_map_at(self.bindings@, j);
        }
    }

    fn take_binding_index(&self, name: &str) -> (r: Option<usize>)
        requires
            unique_names(self.bindings@),
        ensures
            r is Some <==> has_name(self.bindings@, name@),
            r matches Some(i) ==> i < self.bindings@.len() && self.bindings@[i as int].name_view()
                == name@,
    {
        let target = String::from_str(name);
        let n = self.bindings.len();
        for i in 0..n
            invariant
                n == self.bindings@.len(),
                target@ == name@,
                forall|j: int| 0 <= j < i ==> (#[trigger] self.bindings@[j]).name_view() != name@,
        {
            if self.bindings[i].is_named(&target) {
                assert(self.bindings@[i as int].name_view() == name@);
                return Some(i);
            }
        }
        None
    }

    pub fn new() -> (turn: Self)
        ensures
            turn.wf(),
            turn.energy() == STARTING_ENERGY,
            turn@ == Map::<Seq<char>, CardDefinition>::empty(),
    {
        let turn = TurnState { current_energy: STARTING_ENERGY, bindings: Vec::new() };
        assert(turn@ =~= Map::<Seq<char>, CardDefinition>::empty());
        turn
    }

    pub fn current_energy(&self) -> (energy: u32)
        ensures
            energy == self.energy(),
    {
        self.current_energy
    }

    /// The turn's binding cards, in no particular order, each name once.
    pub fn bindings(&self) -> (cards: &[CardDefinition])
        ensures
            binding_map(cards@) == self@,
            cards@.len() == self.binding_count(),
            self.wf() ==> unique_names(cards@),
    {
        self.bindings.as_slice()
    }

    /// The binding card registered under `name`, if any.
    pub fn binding(&self, name: &str) -> (card: Option<&CardDefinition>)
        requires
            self.wf(),
        ensures
            card is Some <==> self@.contains_key(name@),
            card is Some ==> *card->Some_0 == self@[name@],
    {
        match self.take_binding_index(name) {
            Some(i) => {
                proof {
                    lemma_binding_map_at(self.bindings@, i as int);
                }
                Some(&self.bindings[i])
            },
            None => None,
        }
    }

    /// Takes the binding `name` out of the turn.
    pub(crate) fn take_binding(&mut self, name: &str) -> (card: Option<CardDefinition>)
        requires
            old(self).wf(),
        ensures
            final(self).wf(),
            final(self).energy() == old(self).energy(),
            old(self)@.contains_key(name@) ==> card == Some(old(self)@[name@]) && final(self)@
                == old(self)@.remove(name@) && final(self).binding_count() == old(
                self,
            ).binding_count() - 1,
            !old(self)@.contains_key(name@) ==> card is None && *final(self) == *old(self),
            card matches Some(c) ==> c.term_view() is Binding && c.name_view() == name@,
    {
        match self.take_binding_index(name) {
            Some(i) => {
                proof {
                    lemma_binding_map_at(self.bindings@, i as int);
                    lemma_binding_map_remove(self.bindings@, i as int);
                }
                let card = self.bindings.remove(i);
                assert forall|j: int| 0 <= j < self.bindings@.len() implies (
                #[trigger] self.bindings@[j]).term_view() is Binding by {
                    let j0 = if j < i { j } else { j + 1 };
                    assert(self.bindings@[j] == old(self).bindings@[j0]);
                }
                Some(card)
            },
            None => None,
        }
    }

    /// Puts a binding card back unless a binding of the same name was
    /// registered in the meantime: clearing an older selection must not
    /// overwrite a newer binding.
    pub(crate) fn restore_binding(&mut self, card: CardDefinition)
        requires
            old(self).wf(),
            card.term_view() is Binding,
        ensures
            final(self).wf(),
            final(self).energy() == old(self).energy(),
            final(self)@ == restored(old(self)@, card),
    {
        match self.take_binding_index(card.name()) {
            Some(i) => {
                proof {
                    lemma_binding_map_at(self.bindings@, i as int);
                }
            },
            None => {
                proof {
                    lemma_binding_map_push(self.bindings@, card);
                }
                self.bindings.push(card);
                assert forall|j: int| 0 <= j < self.bindings@.len() implies (
                #[trigger] self.bindings@[j]).term_view() is Binding by {
                    if j < old(self).bindings@.len() {
                        assert(self.bindings@[j] == old(self).bindings@[j]);
                    }
                }
            },
        }
    }

    /// The binding cards ordered by name, as they are displayed.
    pub fn sorted_bindings(&self) -> (cards: Vec<&CardDefinition>)
        requires
            self.wf(),
        ensures
            cards@.len() == self.binding_count(),
            forall|i: int|
                0 <= i < cards@.len() ==> self@.contains_key((#[trigger] cards@[i]).name_view())
                    && self@[cards@[i].name_view()] == *cards@[i],
            forall|name: Seq<char>|
                #[trigger] self@.contains_key(name) ==> exists|i: int|
                    0 <= i < cards@.len() && (#[trigger] cards@[i]).name_view() == name,
            sorted_by_name(cards@),
            card_names(cards@) == binding_order(self@),
    {
        broadcast use vstd::seq_lib::group_to_multiset_ensures;

        let mut cards: Vec<&CardDefinition> = Vec::new();
        let ghost mut chosen: Seq<CardDefinition> = Seq::empty();
        let n = self.bindings.len();
        assert(self.bindings@.take(0) =~= Seq::<CardDefinition>::empty());
        for k in 0..n
            invariant
                n == self.bindings@.len(),
                self.wf(),
                sorted_by_name(cards@),
                chosen.len() == cards@.len(),
                forall|i: int| 0 <= i < cards@.len() ==> *(#[trigger] cards@[i]) == chosen[i],
                chosen.to_multiset() == self.bindings@.take(k as int).to_multiset(),
        {
            let card = &self.bindings[k];
            proof {
                assert forall|i: int| 0 <= i < cards@.len() implies (#[trigger] cards@[i]).name_view()
                    != card.name_view() by {
                    let c = chosen[i];
                    assert(chosen.contains(c));
                    vstd::seq_lib::to_multiset_contains(chosen, c);
                    vstd::seq_lib::to_multiset_contains(self.bindings@.take(k as int), c);
                    assert(chosen.to_multiset().count(c) > 0);
                    assert(self.bindings@.take(k as int).to_multiset().count(c) > 0);
                    assert(self.bindings@.take(k as int).contains(c));
                    let j = choose|j: int| 0 <= j < k && self.bindings@.take(k as int)[j] == c;
                    assert(self.bindings@[j] == c);
                    assert(self.bindings@[j].name_view() != self.bindings@[k as int].name_view());
                }
            }
            let position = insert_by_name(&mut cards, card);
            proof {
                vstd::seq_lib::to_multiset_insert(chosen, position as int, *card);
                vstd::seq_lib::to_multiset_build(self.bindings@.take(k as int), *card);
                chosen = chosen.insert(position as int, *card);
                assert(self.bindings@.take(k + 1) =~= self.bindings@.take(k as int).push(*card));
                assert forall|i: int| 0 <= i < cards@.len() implies *(#[trigger] cards@[i])
                    == chosen[i] by {
                    if i < position {
                    } else if i > position {
                    }
                }
            }
        }
        proof {
            assert(self.bindings@.take(n as int) =~= self.bindings@);
            assert(chosen.to_multiset().len() == chosen.len());
            assert(self.bindings@.to_multiset().len() == self.bindings@.len());
            assert forall|i: int|
                0 <= i < cards@.len() implies self@.contains_key((#[trigger] cards@[i]).name_view())
                && self@[cards@[i].name_view()] == *cards@[i] by {
                let c = chosen[i];
                assert(chosen.contains(c));
                assert(chosen.to_multiset().count(c) > 0);
                assert(self.bindings@.to_multiset().count(c) > 0);
                assert(self.bindings@.contains(c));
                let j = choose|j: int| 0 <= j < n && self.bindings@[j] == c;
                lemma_binding_map_at(self.bindings@, j);
            }
            assert forall|name: Seq<char>| #[trigger] self@.contains_key(name) implies exists|i: int|
                0 <= i < cards@.len() && (#[trigger] cards@[i]).name_view() == name by {
                let j = choose|j: int|
                    0 <= j < self.bindings@.len() && (#[trigger] self.bindings@[j]).name_view() == name;
                let c = self.bindings@[j];
                assert(self.bindings@.contains(c));
                assert(self.bindings@.to_multiset().count(c) > 0);
                assert(chosen.to_multiset().count(c) > 0);
                assert(chosen.contains(c));
                let i = choose|i: int| 0 <= i < chosen.len() && chosen[i] == c;
                assert(cards@[i].name_view() == name);
            }
            let names = card_names(cards@);
            assert forall|name: Seq<char>| #[trigger] names.contains(name) == self@.contains_key(
                name,
            ) by {
                if names.contains(name) {
                    let i = choose|i: int| 0 <= i < names.len() && names[i] == name;
                    assert(cards@[i].name_view() == name);
                }
                if self@.contains_key(name) {
                    let i = choose|i: int|
                        0 <= i < cards@.len() && (#[trigger] cards@[i]).name_view() == name;
                    assert(names[i] == name);
                }
            }
            assert forall|i: int, j: int| 0 <= i < j < names.len() implies text_less(
                #[trigger] names[i],
                #[trigger] names[j],
            ) by {
                assert(names[i] == cards@[i].name_view() && names[j] == cards@[j].name_view());
            }
            assert(is_binding_order(names, self@));
            let order = binding_order(self@);
            assert(is_binding_order(order, self@));
            assert forall|x: Seq<char>| #[trigger] names.contains(x) == order.contains(x) by {
                assert(names.contains(x) == self@.contains_key(x));
                assert(order.contains(x) == self@.contains_key(x));
            }
            lemma_sorted_unique(names, order);
        }
        cards
    }
}

impl TurnState {
    fn require_energy(&self) -> (r: Result<(), PlayerError>)
        ensures
            r is Ok <==> self.energy() > 0,
            r is Err ==> r == Err::<(), PlayerError>(PlayerError::OutOfEnergy),
    {
        if self.current_energy == 0 {
            Err(PlayerError::OutOfEnergy)
        } else {
            Ok(())
        }
    }

    /// Registers `expression` under `name` after checking energy, the name and
    /// the expression's type, without evaluating it. A new card replaces an
    /// older binding of the same name; success spends one energy. A refused
    /// binding changes nothing.
    pub fn bind_expression(&mut self, name: &str, expression: Expr) -> (r: Result<(), PlayerError>)
        requires
            old(self).wf(),
        ensures
            final(self).wf(),
            old(self).energy() == 0 ==> r == Err::<(), PlayerError>(PlayerError::OutOfEnergy),
            old(self).energy() > 0 && !valid_variable_name(name@) ==> (r matches Err(
                PlayerError::InvalidVariableName(shown),
            ) && shown@ == name@),
            old(self).energy() > 0 && valid_variable_name(name@) && infer_spec(expression) is Err
                ==> r == Err::<(), PlayerError>(
                PlayerError::TypeInference(infer_spec(expression)->Err_0),
            ),
            r is Ok <==> old(self).energy() > 0 && valid_variable_name(name@) && infer_spec(
                expression,
            ) is Ok,
            r is Err ==> *final(self) == *old(self),
            r is Ok ==> final(self).energy() == old(self).energy() - 1 && final(self)@ == old(
                self,
            )@.insert(name@, final(self)@[name@]) && final(self)@[name@].describes(
                name@,
                CardTerm::Binding(expression),
                infer_spec(expression)->Ok_0,
            ),
    {
        self.require_energy()?;
        if !is_valid_variable_name(name) {
            return Err(PlayerError::InvalidVariableName(String::from_str(name)));
        }
        let typ = match infer_monomorphic(&expression) {
            Ok(typ) => typ,
            Err(error) => {
                return Err(PlayerError::TypeInference(error));
            },
        };
        let ghost t = typ;
        let card = CardDefinition::new(
            String::from_str(name),
            CardTerm::Binding(expression),
            TypeScheme::monomorphic(typ),
        );
        assert(card.describes(name@, CardTerm::Binding(expression), t));
        match self.take_binding_index(name) {
            Some(i) => {
                proof {
                    lemma_binding_map_update(self.bindings@, i as int, card);
                }
                self.bindings.set(i, card);
                assert forall|j: int| 0 <= j < self.bindings@.len() implies (
                #[trigger] self.bindings@[j]).term_view() is Binding by {
                    if j != i {
                        assert(self.bindings@[j] == old(self).bindings@[j]);
                    }
                }
            },
            None => {
                proof {
                    lemma_binding_map_push(self.bindings@, card);
                }
                self.bindings.push(card);
                assert forall|j: int| 0 <= j < self.bindings@.len() implies (
                #[trigger] self.bindings@[j]).term_view() is Binding by {
                    if j < old(self).bindings@.len() {
                        assert(self.bindings@[j] == old(self).bindings@[j]);
                    }
                }
            },
        }
        self.current_energy = self.current_energy - 1;
        Ok(())
    }

    /// Scores `expression`: it must type-check and evaluate to an integer.
    /// Success spends one energy; a refused score changes nothing.
    pub fn evaluate(&mut self, expression: &Expr) -> (r: Result<i64, PlayerError>)
        requires
            old(self).wf(),
        ensures
            final(self).wf(),
            r == score_outcome(old(self).energy(), *expression),
            r is Err ==> *final(self) == *old(self),
            r is Ok ==> final(self).energy() == old(self).energy() - 1 && final(self)@ == old(
                self,
            )@ && final(self).binding_count() == old(self).binding_count(),
    {
        self.require_energy()?;
        match infer_monomorphic(expression) {
            Ok(_) => {},
            Err(error) => {
                return Err(PlayerError::TypeInference(error));
            },
        }
        let value = match evaluate(expression) {
            Ok(value) => value,
            Err(error) => {
                return Err(PlayerError::Evaluation(error));
            },
        };
        let score = match value {
            Value::Int(score) => score,
            Value::Bool(_) => {
                return Err(PlayerError::ScoreMustBeInteger);
            },
        };
        self.current_energy = self.current_energy - 1;
        Ok(score)
    }
}

impl Default for TurnState {
    fn default() -> (turn: Self)
        ensures
            turn.wf(),
            turn.energy() == STARTING_ENERGY,
            turn@ == Map::<Seq<char>, CardDefinition>::empty(),
    {
        TurnState::new()
    }
}

/// Names strictly increase along the sequence.
pub open spec fn names_sorted(names: Seq<Seq<char>>) -> bool {
    forall|i: int, j: int| 0 <= i < j < names.len() ==> text_less(#[trigger] names[i], #[trigger] names[j])
}

/// The names of the bindings in display order: every name once, by
/// lexicographic order.
pub open spec fn binding_order(bindings: Map<Seq<char>, CardDefinition>) -> Seq<Seq<char>> {
    choose|names: Seq<Seq<char>>| is_binding_order(names, bindings)
}

/// `names` lists the names of `bindings`, each once, in lexicographic order.
pub open spec fn is_binding_order(
    names: Seq<Seq<char>>,
    bindings: Map<Seq<char>, CardDefinition>,
) -> bool {
    &&& names_sorted(names)
    &&& forall|name: Seq<char>| #[trigger] names.contains(name) == bindings.contains_key(name)
}

/// `x` inserted into the strictly sorted `sorted` at its place (nothing is
/// added when it is already there).
spec fn insert_name(sorted: Seq<Seq<char>>, x: Seq<char>) -> Seq<Seq<char>>
    decreases sorted.len(),
{
    if sorted.len() == 0 {
        seq![x]
    } else if x == sorted[0] {
        sorted
    } else if text_less(x, sorted[0]) {
        seq![x] + sorted
    } else {
        seq![sorted[0]] + insert_name(sorted.drop_first(), x)
    }
}

proof fn lemma_insert_name(sorted: Seq<Seq<char>>, x: Seq<char>)
    requires
        names_sorted(sorted),
    ensures
        names_sorted(insert_name(sorted, x)),
        forall|y: Seq<char>| #[trigger]
            insert_name(sorted, x).contains(y) == (sorted.contains(y) || y == x),
        !sorted.contains(x) ==> insert_name(sorted, x).len() == sorted.len() + 1,
    decreases sorted.len(),
{
    let r = insert_name(sorted, x);
    if sorted.len() == 0 {
        assert forall|y: Seq<char>| #[trigger] r.contains(y) == (sorted.contains(y) || y == x) by {
            if r.contains(y) {
                let k = choose|k: int| 0 <= k < r.len() && r[k] == y;
                assert(k == 0);
            }
            if y == x {
                assert(r[0] == x);
            }
        }
    } else if x == sorted[0] {
        assert(sorted.contains(sorted[0]));
    } else if text_less(x, sorted[0]) {
        assert forall|i: int, j: int| 0 <= i < j < r.len() implies text_less(
            #[trigger] r[i],
            #[trigger] r[j],
        ) by {
            if i == 0 {
                assert(r[j] == sorted[j - 1]);
                if j - 1 > 0 {
                    lemma_text_less_transitive(x, sorted[0], sorted[j - 1]);
                }
            } else {
                assert(r[i] == sorted[i - 1] && r[j] == sorted[j - 1]);
            }
        }
        assert forall|y: Seq<char>| #[trigger] r.contains(y) == (sorted.contains(y) || y == x) by {
            if r.contains(y) {
                let k = choose|k: int| 0 <= k < r.len() && r[k] == y;
                if k > 0 {
                    assert(sorted[k - 1] == y);
                }
            }
            if sorted.contains(y) {
                let k = choose|k: int| 0 <= k < sorted.len() && sorted[k] == y;
                assert(r[k + 1] == y);
            }
            if y == x {
                assert(r[0] == x);
            }
        }
    } else {
        let tail = sorted.drop_first();
        assert forall|i: int, j: int| 0 <= i < j < tail.len() implies text_less(
            #[trigger] tail[i],
            #[trigger] tail[j],
        ) by {
            assert(tail[i] == sorted[i + 1] && tail[j] == sorted[j + 1]);
        }
        lemma_insert_name(tail, x);
        lemma_text_less_total(x, sorted[0]);
        if !sorted.contains(x) {
            if tail.contains(x) {
                let l = choose|l: int| 0 <= l < tail.len() && tail[l] == x;
                assert(sorted[l + 1] == x);
            }
        }
        let rest = insert_name(tail, x);
        assert(r == seq![sorted[0]] + rest);
        assert forall|i: int, j: int| 0 <= i < j < r.len() implies text_less(
            #[trigger] r[i],
            #[trigger] r[j],
        ) by {
            if i == 0 {
                let y = rest[j - 1];
                assert(rest.contains(y));
                if y != x {
                    assert(tail.contains(y));
                    let k = choose|k: int| 0 <= k < tail.len() && tail[k] == y;
                    assert(sorted[k + 1] == y);
                }
            } else {
                assert(r[i] == rest[i - 1] && r[j] == rest[j - 1]);
            }
        }
        assert forall|y: Seq<char>| #[trigger] r.contains(y) == (sorted.contains(y) || y == x) by {
            if r.contains(y) {
                let k = choose|k: int| 0 <= k < r.len() && r[k] == y;
                if k > 0 {
                    assert(rest[k - 1] == y);
                    assert(rest.contains(y));
                    if tail.contains(y) {
                        let l = choose|l: int| 0 <= l < tail.len() && tail[l] == y;
                        assert(sorted[l + 1] == y);
                    }
                } else {
                    assert(sorted[0] == y);
                }
            }
            if sorted.contains(y) {
                let k = choose|k: int| 0 <= k < sorted.len() && sorted[k] == y;
                if k == 0 {
                    assert(r[0] == y);
                } else {
                    assert(tail[k - 1] == y);
                    assert(tail.contains(y));
                    assert(rest.contains(y));
                    let l = choose|l: int| 0 <= l < rest.len() && rest[l] == y;
                    assert(r[l + 1] == y);
                }
            }
            if y == x {
                assert(rest.contains(x));
                let l = choose|l: int| 0 <= l < rest.len() && rest[l] == x;
                assert(r[l + 1] == x);
            }
        }
    }
}

/// The names of `cards`, sorted, each once.
spec fn sorted_names_of(cards: Seq<CardDefinition>) -> Seq<Seq<char>>
    decreases cards.len(),
{
    if cards.len() == 0 {
        Seq::empty()
    } else {
        insert_name(sorted_names_of(cards.drop_last()), cards.last().name_view())
    }
}

proof fn lemma_sorted_names_of(cards: Seq<CardDefinition>)
    ensures
        names_sorted(sorted_names_of(cards)),
        forall|y: Seq<char>| #[trigger] sorted_names_of(cards).contains(y) == has_name(cards, y),
        unique_names(cards) ==> sorted_names_of(cards).len() == cards.len(),
    decreases cards.len(),
{
    if cards.len() > 0 {
        let init = cards.drop_last();
        lemma_sorted_names_of(init);
        lemma_insert_name(sorted_names_of(init), cards.last().name_view());
        if unique_names(cards) {
            assert(unique_names(init)) by {
                assert forall|i: int, j: int| 0 <= i < j < init.len() implies (#[trigger] init[i]).name_view()
                    != (#[trigger] init[j]).name_view() by {
                    assert(init[i] == cards[i] && init[j] == cards[j]);
                }
            }
            if has_name(init, cards.last().name_view()) {
                let i = choose|i: int|
                    0 <= i < init.len() && (#[trigger] init[i]).name_view() == cards.last().name_view();
                assert(cards[i] == init[i]);
                assert(cards[i].name_view() != cards[cards.len() - 1].name_view());
            }
        }
        assert forall|y: Seq<char>| #[trigger] sorted_names_of(cards).contains(y) == has_name(
            cards,
            y,
        ) by {
            if has_name(init, y) {
                let i = choose|i: int| 0 <= i < init.len() && (#[trigger] init[i]).name_view() == y;
                assert(cards[i] == init[i]);
            }
            if has_name(cards, y) {
                let i = choose|i: int| 0 <= i < cards.len() && (#[trigger] cards[i]).name_view() == y;
                if i < cards.len() - 1 {
                    assert(init[i] == cards[i]);
                }
            }
            if y == cards.last().name_view() {
                assert(cards[cards.len() - 1].name_view() == y);
            }
        }
    }
}

impl TurnState {
    /// The display order of the bindings lists every name of the turn once,
    /// in lexicographic order.
    pub proof fn lemma_binding_order(self)
        ensures
            is_binding_order(binding_order(self@), self@),
            self.wf() ==> binding_order(self@).len() == self.binding_count(),
    {
        let names = sorted_names_of(self.bindings@);
        lemma_sorted_names_of(self.bindings@);
        assert(is_binding_order(names, self@));
        let order = binding_order(self@);
        assert forall|x: Seq<char>| #[trigger] names.contains(x) == order.contains(x) by {
            assert(names.contains(x) == self@.contains_key(x));
            assert(order.contains(x) == self@.contains_key(x));
        }
        lemma_sorted_unique(names, order);
    }
}

/// A strictly sorted sequence is determined by its elements.
proof fn lemma_sorted_unique(a: Seq<Seq<char>>, b: Seq<Seq<char>>)
    requires
        names_sorted(a),
        names_sorted(b),
        forall|x: Seq<char>| #[trigger] a.contains(x) == b.contains(x),
    ensures
        a == b,
    decreases a.len(),
{
    if a.len() == 0 {
        if b.len() > 0 {
            assert(b.contains(b[0]));
            assert(a.contains(b[0]) == b.contains(b[0]));
        }
        assert(a =~= b);
    } else {
        assert(a.contains(a[0]));
        assert(a.contains(a[0]) == b.contains(a[0]));
        assert(b.len() > 0);
        assert(b.contains(b[0]));
        assert(a.contains(b[0]) == b.contains(b[0]));
        let i = choose|i: int| 0 <= i < b.len() && b[i] == a[0];
        let j = choose|j: int| 0 <= j < a.len() && a[j] == b[0];
        if a[0] != b[0] {
            assert(i > 0 && j > 0);
            assert(text_less(b[0], b[i]));
            assert(text_less(a[0], a[j]));
            lemma_text_less_total(a[0], b[0]);
        }
        let a1 = a.drop_first();
        let b1 = b.drop_first();
        assert forall|x: Seq<char>| #[trigger] a1.contains(x) == b1.contains(x) by {
            if a1.contains(x) {
                let k = choose|k: int| 0 <= k < a1.len() && a1[k] == x;
                assert(a[k + 1] == x);
                assert(text_less(a[0], x));
                lemma_text_less_irreflexive(x);
                assert(a.contains(x) == b.contains(x));
                assert(b.contains(x));
                let l = choose|l: int| 0 <= l < b.len() && b[l] == x;
                assert(l != 0);
                assert(b1[l - 1] == x);
            }
            if b1.contains(x) {
                let k = choose|k: int| 0 <= k < b1.len() && b1[k] == x;
                assert(b[k + 1] == x);
                assert(text_less(b[0], x));
                lemma_text_less_irreflexive(x);
                assert(a.contains(x) == b.contains(x));
                assert(a.contains(x));
                let l = choose|l: int| 0 <= l < a.len() && a[l] == x;
                assert(l != 0);
                assert(a1[l - 1] == x);
            }
        }
        assert forall|p: int, q: int| 0 <= p < q < a1.len() implies text_less(
            #[trigger] a1[p],
            #[trigger] a1[q],
        ) by {
            assert(a1[p] == a[p + 1] && a1[q] == a[q + 1]);
        }
        assert forall|p: int, q: int| 0 <= p < q < b1.len() implies text_less(
            #[trigger] b1[p],
            #[trigger] b1[q],
        ) by {
            assert(b1[p] == b[p + 1] && b1[q] == b[q + 1]);
        }
        lemma_sorted_unique(a1, b1);
        assert(a =~= seq![a[0]] + a1);
        assert(b =~= seq![b[0]] + b1);
    }
}

/// The names of a sequence of cards.
pub open spec fn card_names(cards: Seq<&CardDefinition>) -> Seq<Seq<char>> {
    cards.map_values(|card: &CardDefinition| card.name_view())
}

pub open spec fn sorted_by_name(cards: Seq<&CardDefinition>) -> bool {
    forall|i: int, j: int|
        0 <= i < j < cards.len() ==> text_less(
            (#[trigger] cards[i]).name_view(),
            (#[trigger] cards[j]).name_view(),
        )
}

/// Inserts `card` where its name belongs; returns the position.
fn insert_by_name<'a>(cards: &mut Vec<&'a CardDefinition>, card: &'a CardDefinition) -> (position:
    usize)
    requires
        sorted_by_name(old(cards)@),
        forall|i: int|
            0 <= i < old(cards)@.len() ==> (#[trigger] old(cards)@[i]).name_view()
                != card.name_view(),
    ensures
        position <= old(cards)@.len(),
        final(cards)@ == old(cards)@.insert(position as int, card),
        sorted_by_name(final(cards)@),
{
    let mut position: usize = 0;
    while position < cards.len() && text_lt(cards[position].name(), card.name())
        invariant
            position <= cards@.len(),
            cards@ == old(cards)@,
            forall|i: int|
                0 <= i < position ==> text_less((#[trigger] cards@[i]).name_view(), card.name_view()),
        decreases cards@.len() - position,
    {
        position = position + 1;
    }
    let ghost before = cards@;
    proof {
        if position < before.len() {
            lemma_text_less_total(before[position as int].name_view(), card.name_view());
        }
    }
    cards.insert(position, card);
    proof {
        assert forall|i: int, j: int| 0 <= i < j < cards@.len() implies text_less(
            (#[trigger] cards@[i]).name_view(),
            (#[trigger] cards@[j]).name_view(),
        ) by {
            if j < position {
                assert(cards@[i] == before[i] && cards@[j] == before[j]);
            } else if j == position {
                assert(cards@[i] == before[i]);
            } else if i == position {
                assert(cards@[j] == before[j - 1]);
                if j - 1 > position {
                    lemma_text_less_transitive(
                        card.name_view(),
                        before[position as int].name_view(),
                        before[j - 1].name_view(),
                    );
                }
            } else if i < position {
                assert(cards@[i] == before[i] && cards@[j] == before[j - 1]);
                lemma_text_less_transitive(
                    before[i].name_view(),
                    card.name_view(),
                    before[position as int].name_view(),
                );
                if j - 1 > position {
                    lemma_text_less_transitive(
                        before[i].name_view(),
                        before[position as int].name_view(),
                        before[j - 1].name_view(),
                    );
                }
            } else {
                assert(cards@[i] == before[i - 1] && cards@[j] == before[j - 1]);
            }
        }
    }
    position
}

/// The bindings after putting `card` back: unchanged when its name is taken.
pub open spec fn restored(
    bindings: Map<Seq<char>, CardDefinition>,
    card: CardDefinition,
) -> Map<Seq<char>, CardDefinition> {
    if bindings.contains_key(card.name_view()) {
        bindings
    } else {
        bindings.insert(card.name_view(), card)
    }
}

} // verus!
