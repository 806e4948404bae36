use vstd::prelude::*;

use crate::language::{
    operator_symbol, operator_type, Expr, Operator, Type, TypeScheme, Value,
};
use crate::text::{push_signed_decimal, signed_decimal};

verus! {

broadcast use vstd::string::group_string_axioms;

/// Persistent identity of a card definition in a library.
#[derive(Debug, Clone, Copy, PartialEq, Eq, Hash, Structural)]
pub struct CardId(u32);

impl CardId {
    /// The number behind the identity.
    pub closed spec fn index(self) -> u32 {
        self.0
    }

    pub fn value(self) -> (v: u32)
        ensures
            v == self.index(),
    {
        self.0
    }
}

/// What a card stands for in an expression.
#[derive(Debug, Clone, PartialEq, Eq)]
pub enum CardTerm {
    Literal(Value),
    Operator(Operator),
    Binding(Expr),
    Definition(Expr),
}

/// The category shown on a card, named after its term's variant.
pub open spec fn category_text(term: CardTerm) -> Seq<char> {
    match term {
        CardTerm::Literal(_) => "Literal"@,
        CardTerm::Operator(_) => "Operator"@,
        CardTerm::Binding(_) => "Binding"@,
        CardTerm::Definition(_) => "Definition"@,
    }
}

impl CardTerm {
    pub fn category(&self) -> (s: &'static str)
        ensures
            s@ == category_text(*self),
    {
        match self {
            CardTerm::Literal(_) => "Literal",
            CardTerm::Operator(_) => "Operator",
            CardTerm::Binding(_) => "Binding",
            CardTerm::Definition(_) => "Definition",
        }
    }
}

/// Shared card metadata: a display name, a term and its type scheme.
#[derive(Debug, Clone, PartialEq, Eq)]
pub struct CardDefinition {
    name: String,
    term: CardTerm,
    scheme: TypeScheme,
}

impl CardDefinition {
    /// The display name.
    pub closed spec fn name_view(self) -> Seq<char> {
        self.name@
    }

    /// The term the card stands for.
    pub closed spec fn term_view(self) -> CardTerm {
        self.term
    }

    /// The card's type scheme.
    pub closed spec fn scheme_view(self) -> TypeScheme {
        self.scheme
    }

    /// Whether the card has exactly this name, term and monomorphic type.
    pub open spec fn describes(self, name: Seq<char>, term: CardTerm, typ: Type) -> bool {
        &&& self.name_view() == name
        &&& self.term_view() == term
        &&& self.scheme_view().quantified@.len() == 0
        &&& self.scheme_view().typ == typ
    }

    pub(crate) fn new(name: String, term: CardTerm, scheme: TypeScheme) -> (card: Self)
        ensures
            card.name_view() == name@,
            card.term_view() == term,
            card.scheme_view() == scheme,
    {
        CardDefinition { name, term, scheme }
    }

    pub fn name(&self) -> (s: &str)
        ensures
            s@ == self.name_view(),
    {
        self.name.as_str()
    }

    /// Whether the card's name is exactly `name`.
    pub(crate) fn is_named(&self, name: &String) -> (b: bool)
        ensures
            b == (self.name_view() == name@),
    {
        self.name == *name
    }

    pub fn term(&self) -> (t: &CardTerm)
        ensures
            *t == self.term_view(),
    {
        &self.term
    }

    pub fn scheme(&self) -> (s: &TypeScheme)
        ensures
            *s == self.scheme_view(),
    {
        &self.scheme
    }
}

/// Why the persistent library refused a definition.
#[derive(Debug, Clone, PartialEq, Eq, Structural)]
pub enum CardRegistrationError {
    BindingMustBeTurnLocal,
}

/// Persistent card templates. The definition with identity `n` is the
/// `n`-th one registered; nothing is ever removed.
#[derive(Debug)]
pub struct CardLibrary {
    definitions: Vec<CardDefinition>,
}

impl View for CardLibrary {
    type V = Seq<CardDefinition>;

    closed spec fn view(&self) -> Seq<CardDefinition> {
        self.definitions@
    }
}

impl CardLibrary {
    /// Identities fit in `u32`, and turn-local bindings never become persistent.
    pub open spec fn wf(self) -> bool {
        &&& self@.len() <= u32::MAX
        &&& forall|i: int| 0 <= i < self@.len() ==> !(#[trigger] self@[i].term_view() is Binding)
    }

    /// The definition that an identity refers to, if any.
    pub open spec fn lookup(self, id: CardId) -> Option<CardDefinition> {
        if 1 <= id.index() && id.index() <= self@.len() {
            Some(self@[id.index() - 1])
        } else {
            None
        }
    }

    pub fn new() -> (library: Self)
        ensures
            library.wf(),
            library@ == Seq::<CardDefinition>::empty(),
    {
        CardLibrary { definitions: Vec::new() }
    }

    /// Adds a persistent definition under the next identity. A turn-local
    /// binding is refused, and then nothing changes.
    pub fn register(&mut self, name: &str, term: CardTerm, scheme: TypeScheme) -> (r: Result<
        CardId,
        CardRegistrationError,
    >)
        requires
            old(self).wf(),
            term is Binding || old(self)@.len() < u32::MAX,
        ensures
            final(self).wf(),
            term is Binding ==> r == Err::<CardId, CardRegistrationError>(
                CardRegistrationError::BindingMustBeTurnLocal,
            ) && final(self)@ == old(self)@,
            !(term is Binding) ==> r is Ok && r->Ok_0.index() == old(self)@.len() + 1
                && final(self)@.len() == old(self)@.len() + 1
                && final(self)@.take(old(self)@.len() as int) == old(self)@
                && final(self)@.last().name_view() == name@
                && final(self)@.last().term_view() == term
                && final(self)@.last().scheme_view() == scheme,
    {
        if let CardTerm::Binding(_) = term {
            return Err(CardRegistrationError::BindingMustBeTurnLocal);
        }
        let id = CardId(self.definitions.len() as u32 + 1);
        self.definitions.push(CardDefinition::new(String::from_str(name), term, scheme));
        assert(self@.take(old(self)@.len() as int) =~= old(self)@);
        Ok(id)
    }

    /// Registers the integer literal `value`, named by its decimal notation.
    pub fn register_integer_literal(&mut self, value: i64) -> (id: CardId)
        requires
            old(self).wf(),
            old(self)@.len() < u32::MAX,
        ensures
            final(self).wf(),
            id.index() == old(self)@.len() + 1,
            final(self)@.len() == old(self)@.len() + 1,
            final(self)@.take(old(self)@.len() as int) == old(self)@,
            final(self)@.last().describes(
                signed_decimal(value as int),
                CardTerm::Literal(Value::Int(value)),
                Type::Int,
            ),
    {
        let mut name = String::new();
        push_signed_decimal(&mut name, value);
        let r = self.register(
            name.as_str(),
            CardTerm::Literal(Value::Int(value)),
            TypeScheme::monomorphic(Type::Int),
        );
        match r {
            Ok(id) => id,
            Err(_) => {
                assert(false);
                CardId(0)
            },
        }
    }

    /// Registers an operator, named by its symbol and typed by its declared type.
    pub fn register_operator(&mut self, operator: Operator) -> (id: CardId)
        requires
            old(self).wf(),
            old(self)@.len() < u32::MAX,
        ensures
            final(self).wf(),
            id.index() == old(self)@.len() + 1,
            final(self)@.len() == old(self)@.len() + 1,
            final(self)@.take(old(self)@.len() as int) == old(self)@,
            final(self)@.last().describes(
                operator_symbol(operator),
                CardTerm::Operator(operator),
                operator_type(operator),
            ),
    {
        let r = self.register(
            operator.symbol(),
            CardTerm::Operator(operator),
            TypeScheme::monomorphic(operator.typ()),
        );
        match r {
            Ok(id) => id,
            Err(_) => {
                assert(false);
                CardId(0)
            },
        }
    }

    pub fn get(&self, id: CardId) -> (r: Option<&CardDefinition>)
        ensures
            r is Some <==> self.lookup(id) is Some,
            r is Some ==> *r->Some_0 == self.lookup(id)->Some_0,
    {
        if 1 <= id.0 && (id.0 as usize) <= self.definitions.len() {
            Some(&self.definitions[(id.0 - 1) as usize])
        } else {
            None
        }
    }

    /// Whether some persistent definition carries this display name.
    pub fn contains_name(&self, name: &str) -> (b: bool)
        ensures
            b == exists|i: int| 0 <= i < self@.len() && #[trigger] self@[i].name_view() == name@,
    {
        let target = String::from_str(name);
        let n = self.definitions.len();
        for i in 0..n
            invariant
                n == self@.len(),
                target@ == name@,
                forall|j: int| 0 <= j < i ==> #[trigger] self@[j].name_view() != name@,
        {
            if self.definitions[i].name == target {
                assert(self@[i as int].name_view() == name@);
                return true;
            }
        }
        false
    }

    pub fn len(&self) -> (n: usize)
        ensures
            n == self@.len(),
    {
        self.definitions.len()
    }

    pub fn is_empty(&self) -> (b: bool)
        ensures
            b == (self@.len() == 0),
    {
        self.definitions.len() == 0
    }
}

impl Default for CardLibrary {
    fn default() -> (library: Self)
        ensures
            library.wf(),
            library@ == Seq::<CardDefinition>::empty(),
    {
        CardLibrary::new()
    }
}

/// One copy of a card in a deck, referring to its persistent definition.
#[derive(Debug, Clone, Copy, PartialEq, Eq, Structural)]
pub struct CardInstance {
    definition: CardId,
}

impl CardInstance {
    /// The identity of the instance's definition.
    pub closed spec fn definition_id(self) -> CardId {
        self.definition
    }

    pub fn new(definition: CardId) -> (card: Self)
        ensures
            card.definition_id() == definition,
    {
        CardInstance { definition }
    }

    pub fn definition(&self) -> (id: CardId)
        ensures
            id == self.definition_id(),
    {
        self.definition
    }
}

/// An ordered collection of card instances.
#[derive(Debug)]
pub struct Deck {
    cards: Vec<CardInstance>,
}

impl View for Deck {
    type V = Seq<CardInstance>;

    closed spec fn view(&self) -> Seq<CardInstance> {
        self.cards@
    }
}

impl Deck {
    pub fn new(cards: Vec<CardInstance>) -> (deck: Self)
        ensures
            deck@ == cards@,
    {
        Deck { cards }
    }

    /// Puts an instance at the end of the deck.
    pub fn add(&mut self, card: CardInstance)
        ensures
            final(self)@ == old(self)@.push(card),
    {
        self.cards.push(card);
    }

    /// Takes out the instance at `index`, keeping the order of the others.
    pub fn remove(&mut self, index: usize) -> (r: Option<CardInstance>)
        ensures
            index < old(self)@.len() ==> r == Some(old(self)@[index as int]) && final(self)@
                == old(self)@.remove(index as int),
            index >= old(self)@.len() ==> r is None && final(self)@ == old(self)@,
    {
        if index < self.cards.len() {
            Some(self.cards.remove(index))
        } else {
            None
        }
    }

    /// Whether some instance refers to the definition `id`.
    pub fn contains(&self, id: CardId) -> (b: bool)
        ensures
            b == exists|i: int| 0 <= i < self@.len() && #[trigger] self@[i].definition_id() == id,
    {
        let n = self.cards.len();
        for i in 0..n
            invariant
                n == self@.len(),
                forall|j: int| 0 <= j < i ==> #[trigger] self@[j].definition_id() != id,
        {
            if self.cards[i].definition == id {
                assert(self@[i as int].definition_id() == id);
                return true;
            }
        }
        false
    }

    pub fn cards(&self) -> (s: &[CardInstance])
        ensures
            s@ == self@,
    {
        self.cards.as_slice()
    }

    pub fn is_empty(&self) -> (b: bool)
        ensures
            b == (self@.len() == 0),
    {
        self.cards.len() == 0
    }
}

impl Default for Deck {
    fn default() -> (deck: Self)
        ensures
            deck@ == Seq::<CardInstance>::empty(),
    {
        Deck { cards: Vec::new() }
    }
}

/// The starter library holds the literals 1, 2 and 5 and the operator `+`,
/// with identities 1 to 4; the deck holds one instance of each, in that order.
pub open spec fn is_starter(library: CardLibrary, deck: Deck) -> bool {
    &&& library.wf()
    &&& library@.len() == 4
    &&& library@[0].describes(signed_decimal(1), CardTerm::Literal(Value::Int(1)), Type::Int)
    &&& library@[1].describes(signed_decimal(2), CardTerm::Literal(Value::Int(2)), Type::Int)
    &&& library@[2].describes(signed_decimal(5), CardTerm::Literal(Value::Int(5)), Type::Int)
    &&& library@[3].describes(
        operator_symbol(Operator::Add),
        CardTerm::Operator(Operator::Add),
        operator_type(Operator::Add),
    )
    &&& deck@.len() == 4
    &&& forall|i: int| 0 <= i < 4 ==> (#[trigger] deck@[i]).definition_id().index() == i + 1
}

pub fn starter_cards() -> (r: (CardLibrary, Deck))
    ensures
        is_starter(r.0, r.1),
{
    let mut library = CardLibrary::new();
    let one = library.register_integer_literal(1);
    let two = library.register_integer_literal(2);
    let five = library.register_integer_literal(5);
    let add = library.register_operator(Operator::Add);
    let mut instances: Vec<CardInstance> = Vec::new();
    instances.push(CardInstance::new(one));
    instances.push(CardInstance::new(two));
    instances.push(CardInstance::new(five));
    instances.push(CardInstance::new(add));
    let deck = Deck::new(instances);
    proof {
        assert(library@[0] == library@.take(3)[0]);
        assert(library@[1] == library@.take(3)[1]);
        assert(library@[2] == library@.take(3)[2]);
        assert(library@.take(3)[0] == library@.take(3).take(2)[0]);
        assert(library@.take(3)[1] == library@.take(3).take(2)[1]);
        assert(library@.take(3).take(2)[0] == library@.take(3).take(2).take(1)[0]);
    }
    (library, deck)
}

} // verus!
