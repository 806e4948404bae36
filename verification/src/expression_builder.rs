use vstd::prelude::*;

use crate::cards::{CardDefinition, CardId, CardInstance, CardLibrary, CardTerm, Deck};
use crate::language::{operator_precedence, Expr, Operator};
use crate::player::{restored, TurnState};
use crate::text::{debug_str_text, decimal, push_char, push_debug_str, push_decimal};

verus! {

broadcast use vstd::string::group_string_axioms;

/// The expression `left op right`, that is `((op) left) right`.
pub open spec fn binary(op: Operator, left: Expr, right: Expr) -> Expr {
    Expr::Apply(
        Box::new(Expr::Apply(Box::new(Expr::Operator(op)), Box::new(left))),
        Box::new(right),
    )
}

/// The position of the operator that binds loosest: the rightmost one of
/// lowest precedence. It becomes the root, which makes operators of equal
/// precedence associate to the left.
pub open spec fn split_index(ops: Seq<Operator>) -> int
    decreases ops.len(),
{
    if ops.len() <= 1 {
        0
    } else {
        let k = split_index(ops.drop_last());
        if operator_precedence(ops.last()) <= operator_precedence(ops[k]) {
            ops.len() - 1
        } else {
            k
        }
    }
}

/// `split_index` picks an operator of lowest precedence with only operators
/// of strictly higher precedence to its right.
pub proof fn lemma_split_index(ops: Seq<Operator>)
    requires
        ops.len() > 0,
    ensures
        0 <= split_index(ops) < ops.len(),
        forall|j: int|
            0 <= j < split_index(ops) ==> operator_precedence(#[trigger] ops[j])
                >= operator_precedence(ops[split_index(ops)]),
        forall|j: int|
            split_index(ops) < j < ops.len() ==> operator_precedence(#[trigger] ops[j])
                > operator_precedence(ops[split_index(ops)]),
    decreases ops.len(),
{
    if ops.len() > 1 {
        let init = ops.drop_last();
        lemma_split_index(init);
        let k = split_index(init);
        assert forall|j: int| 0 <= j < init.len() implies #[trigger] init[j] == ops[j] by {}
        let s = split_index(ops);
        if operator_precedence(ops.last()) <= operator_precedence(ops[k]) {
            assert(s == ops.len() - 1);
            assert forall|j: int| 0 <= j < s implies operator_precedence(#[trigger] ops[j])
                >= operator_precedence(ops[s]) by {
                assert(init[j] == ops[j]);
                assert(init[k] == ops[k]);
            }
        } else {
            assert(s == k);
            assert forall|j: int| s < j < ops.len() implies operator_precedence(#[trigger] ops[j])
                > operator_precedence(ops[s]) by {
                if j < ops.len() - 1 {
                    assert(init[j] == ops[j]);
                }
                assert(init[k] == ops[k]);
            }
            assert forall|j: int| 0 <= j < s implies operator_precedence(#[trigger] ops[j])
                >= operator_precedence(ops[s]) by {
                assert(init[j] == ops[j]);
                assert(init[k] == ops[k]);
            }
        }
    }
}

/// Any operator of lowest precedence with only operators of strictly higher
/// precedence to its right is the one `split_index` picks.
pub proof fn lemma_split_index_unique(ops: Seq<Operator>, k: int)
    requires
        0 <= k < ops.len(),
        forall|j: int|
            0 <= j < k ==> operator_precedence(#[trigger] ops[j]) >= operator_precedence(ops[k]),
        forall|j: int|
            k < j < ops.len() ==> operator_precedence(#[trigger] ops[j]) > operator_precedence(
                ops[k],
            ),
    ensures
        split_index(ops) == k,
{
    lemma_split_index(ops);
    let s = split_index(ops);
    if s < k {
        assert(operator_precedence(ops[k]) > operator_precedence(ops[s]));
        assert(operator_precedence(ops[s]) >= operator_precedence(ops[k]));
    } else if k < s {
        assert(operator_precedence(ops[s]) > operator_precedence(ops[k]));
        assert(operator_precedence(ops[k]) >= operator_precedence(ops[s]));
    }
}

/// The expression tree of an infix sequence `xs[0] ops[0] xs[1] ... xs[n]`,
/// built by precedence with left associativity.
pub open spec fn infix_tree(xs: Seq<Expr>, ops: Seq<Operator>) -> Expr
    decreases ops.len(),
{
    if ops.len() == 0 {
        xs[0]
    } else {
        let k = split_index(ops);
        proof {
            lemma_split_index(ops);
        }
        binary(
            ops[k],
            infix_tree(xs.take(k + 1), ops.take(k)),
            infix_tree(xs.skip(k + 1), ops.skip(k + 1)),
        )
    }
}

/// The tree of the operands `lo..=hi` and the operators between them.
pub open spec fn segment_tree(xs: Seq<Expr>, ops: Seq<Operator>, lo: int, hi: int) -> Expr {
    infix_tree(xs.subrange(lo, hi + 1), ops.subrange(lo, hi))
}

proof fn lemma_segment_single(xs: Seq<Expr>, ops: Seq<Operator>, lo: int)
    requires
        0 <= lo < xs.len(),
        lo <= ops.len(),
    ensures
        segment_tree(xs, ops, lo, lo) == xs[lo],
{
    assert(ops.subrange(lo, lo).len() == 0);
}

/// Splitting a segment at an operator of lowest precedence with only higher
/// ones to its right gives the segment's tree.
proof fn lemma_segment_merge(xs: Seq<Expr>, ops: Seq<Operator>, lo: int, p: int, hi: int)
    requires
        0 <= lo <= p < hi,
        hi < xs.len(),
        hi <= ops.len(),
        forall|t: int|
            lo <= t < p ==> operator_precedence(#[trigger] ops[t]) >= operator_precedence(ops[p]),
        forall|t: int|
            p < t < hi ==> operator_precedence(#[trigger] ops[t]) > operator_precedence(ops[p]),
    ensures
        segment_tree(xs, ops, lo, hi) == binary(
            ops[p],
            segment_tree(xs, ops, lo, p),
            segment_tree(xs, ops, p + 1, hi),
        ),
{
    let sub = ops.subrange(lo, hi);
    let k = p - lo;
    assert forall|j: int| 0 <= j < k implies operator_precedence(#[trigger] sub[j])
        >= operator_precedence(sub[k]) by {
        assert(sub[j] == ops[lo + j]);
    }
    assert forall|j: int| k < j < sub.len() implies operator_precedence(#[trigger] sub[j])
        > operator_precedence(sub[k]) by {
        assert(sub[j] == ops[lo + j]);
    }
    lemma_split_index_unique(sub, k);
    let subx = xs.subrange(lo, hi + 1);
    assert(subx.take(k + 1) =~= xs.subrange(lo, p + 1));
    assert(sub.take(k) =~= ops.subrange(lo, p));
    assert(subx.skip(k + 1) =~= xs.subrange(p + 1, hi + 1));
    assert(sub.skip(k + 1) =~= ops.subrange(p + 1, hi));
}


/// Start of the `i`-th stack segment, in operand positions.
pub open spec fn seg_start(pos: Seq<int>, i: int) -> int {
    if i == 0 {
        0
    } else {
        pos[i - 1] + 1
    }
}

/// End (inclusive) of the `i`-th stack segment, in operand positions.
pub open spec fn seg_end(pos: Seq<int>, i: int, last: int) -> int {
    if i < pos.len() {
        pos[i]
    } else {
        last
    }
}

/// The operators inside segment `i` bind tighter than the stacked operator
/// on its left, and at least as tight as the stacked operator on its right.
pub open spec fn segment_bounds(
    ops: Seq<Operator>,
    operators: Seq<Operator>,
    pos: Seq<int>,
    last: int,
    i: int,
) -> bool {
    forall|t: int|
        seg_start(pos, i) <= t < seg_end(pos, i, last) ==> (i > 0 ==> operator_precedence(
            #[trigger] ops[t],
        ) > operator_precedence(operators[i - 1])) && (i < pos.len() ==> operator_precedence(ops[t])
            >= operator_precedence(operators[i]))
}

/// Every operator of the top segment has precedence at least `bound`.
pub open spec fn top_at_least(ops: Seq<Operator>, pos: Seq<int>, last: int, bound: u8) -> bool {
    forall|t: int|
        seg_start(pos, pos.len() as int) <= t < last ==> operator_precedence(#[trigger] ops[t])
            >= bound
}

/// The two stacks of the infix reduction after reading the operands `0..=last`:
/// the operand stack holds the trees of consecutive segments, separated by the
/// stacked operators (at operator positions `pos`), whose precedences increase.
pub open spec fn stacks_ok(
    xs: Seq<Expr>,
    ops: Seq<Operator>,
    operands: Seq<Expr>,
    operators: Seq<Operator>,
    pos: Seq<int>,
    last: int,
) -> bool {
    &&& operators.len() == pos.len()
    &&& operands.len() == pos.len() + 1
    &&& 0 <= last < xs.len()
    &&& last <= ops.len()
    &&& forall|i: int| 0 <= i < pos.len() ==> operators[i] == ops[#[trigger] pos[i]]
    &&& forall|i: int| 0 <= i < pos.len() ==> seg_start(pos, i) <= #[trigger] pos[i]
    &&& pos.len() > 0 ==> pos.last() < last
    &&& forall|i: int, j: int|
        0 <= i < j < pos.len() ==> operator_precedence(#[trigger] operators[i])
            < operator_precedence(#[trigger] operators[j])
    &&& forall|i: int|
        0 <= i <= pos.len() ==> #[trigger] operands[i] == segment_tree(
            xs,
            ops,
            seg_start(pos, i),
            seg_end(pos, i, last),
        )
    &&& forall|i: int| 0 <= i <= pos.len() ==> #[trigger] segment_bounds(ops, operators, pos, last, i)
}

/// The stacks right after the operator at position `c - 1` was pushed.
pub open spec fn pending_ok(
    xs: Seq<Expr>,
    ops: Seq<Operator>,
    operands: Seq<Expr>,
    operators: Seq<Operator>,
    pos: Seq<int>,
    c: int,
) -> bool {
    if c == 0 {
        operands.len() == 0 && operators.len() == 0 && pos.len() == 0
    } else {
        &&& pos.len() >= 1
        &&& operators.len() == pos.len()
        &&& pos.last() == c - 1
        &&& c - 1 < ops.len()
        &&& operators.last() == ops[c - 1]
        &&& stacks_ok(xs, ops, operands, operators.drop_last(), pos.drop_last(), c - 1)
        &&& top_at_least(ops, pos.drop_last(), c - 1, operator_precedence(ops[c - 1]))
        &&& pos.len() >= 2 ==> operator_precedence(operators[pos.len() - 2])
            < operator_precedence(operators.last())
    }
}

proof fn lemma_push_operand(
    xs: Seq<Expr>,
    ops: Seq<Operator>,
    operands: Seq<Expr>,
    operators: Seq<Operator>,
    pos: Seq<int>,
    c: int,
)
    requires
        pending_ok(xs, ops, operands, operators, pos, c),
        0 <= c < xs.len(),
        c <= ops.len(),
    ensures
        stacks_ok(xs, ops, operands.push(xs[c]), operators, pos, c),
{
    let new_operands = operands.push(xs[c]);
    lemma_segment_single(xs, ops, c);
    if c > 0 {
        let m = pos.len() - 1;
        let opd = operators.drop_last();
        let pd = pos.drop_last();
        assert forall|i: int| 0 <= i < pos.len() implies operators[i] == ops[#[trigger] pos[i]] by {
            if i < m {
                assert(opd[i] == operators[i] && pd[i] == pos[i]);
            }
        }
        assert forall|i: int| 0 <= i < pos.len() implies seg_start(pos, i) <= #[trigger] pos[i] by {
            if i < m {
                assert(pd[i] == pos[i]);
                if i > 0 {
                    assert(pd[i - 1] == pos[i - 1]);
                }
            } else if i > 0 {
                assert(pd[i - 1] == pos[i - 1]);
                assert(pd.last() < c - 1);
            }
        }
        assert forall|i: int, j: int| 0 <= i < j < pos.len() implies operator_precedence(
            #[trigger] operators[i],
        ) < operator_precedence(#[trigger] operators[j]) by {
            if j < m {
                assert(opd[i] == operators[i] && opd[j] == operators[j]);
            } else {
                if i < m - 1 {
                    assert(opd[i] == operators[i] && opd[m - 1] == operators[m - 1]);
                }
            }
        }
        assert forall|i: int| 0 <= i <= pos.len() implies #[trigger] new_operands[i]
            == segment_tree(xs, ops, seg_start(pos, i), seg_end(pos, i, c)) by {
            if i < m {
                assert(new_operands[i] == operands[i]);
                assert(pd[i] == pos[i]);
                if i > 0 {
                    assert(pd[i - 1] == pos[i - 1]);
                }
            } else if i == m {
                assert(new_operands[i] == operands[i]);
                if i > 0 {
                    assert(pd[i - 1] == pos[i - 1]);
                }
            }
        }
        assert forall|i: int| 0 <= i <= pos.len() implies #[trigger] segment_bounds(
            ops,
            operators,
            pos,
            c,
            i,
        ) by {
            assert(segment_bounds(ops, opd, pd, c - 1, i) || i > m);
            if i < m {
                assert(pd[i] == pos[i] && opd[i] == operators[i]);
                if i > 0 {
                    assert(pd[i - 1] == pos[i - 1] && opd[i - 1] == operators[i - 1]);
                }
            } else if i == m {
                if i > 0 {
                    assert(pd[i - 1] == pos[i - 1] && opd[i - 1] == operators[i - 1]);
                }
                assert forall|t: int| seg_start(pos, i) <= t < seg_end(pos, i, c) implies (i > 0
                    ==> operator_precedence(#[trigger] ops[t]) > operator_precedence(
                    operators[i - 1],
                )) && (i < pos.len() ==> operator_precedence(ops[t]) >= operator_precedence(
                    operators[i],
                )) by {
                    assert(top_at_least(ops, pd, c - 1, operator_precedence(ops[c - 1])));
                }
            }
        }
    } else {
        assert(new_operands[0] == xs[0]);
    }
}

proof fn lemma_reduce(
    xs: Seq<Expr>,
    ops: Seq<Operator>,
    operands: Seq<Expr>,
    operators: Seq<Operator>,
    pos: Seq<int>,
    last: int,
    bound: u8,
)
    requires
        stacks_ok(xs, ops, operands, operators, pos, last),
        pos.len() >= 1,
    ensures
        ({
            let m = pos.len() - 1;
            let merged = operands.take(m).push(binary(operators[m], operands[m], operands[m + 1]));
            &&& stacks_ok(xs, ops, merged, operators.drop_last(), pos.drop_last(), last)
            &&& top_at_least(ops, pos, last, bound) && operator_precedence(operators[m]) >= bound
                ==> top_at_least(ops, pos.drop_last(), last, bound)
        }),
{
    let m = pos.len() - 1;
    let merged = operands.take(m).push(binary(operators[m], operands[m], operands[m + 1]));
    let opd = operators.drop_last();
    let pd = pos.drop_last();
    let p = pos[m];
    let lo = seg_start(pos, m);
    assert(segment_bounds(ops, operators, pos, last, m));
    assert(segment_bounds(ops, operators, pos, last, m + 1));
    assert(seg_start(pos, m) <= pos[m]);
    lemma_segment_merge(xs, ops, lo, p, last);
    assert(operands[m] == segment_tree(xs, ops, lo, p));
    assert(operands[m + 1] == segment_tree(xs, ops, p + 1, last));
    assert forall|i: int| 0 <= i < pd.len() implies opd[i] == ops[#[trigger] pd[i]] by {
        assert(operators[i] == ops[pos[i]]);
    }
    assert forall|i: int| 0 <= i < pd.len() implies seg_start(pd, i) <= #[trigger] pd[i] by {
        assert(seg_start(pos, i) <= pos[i]);
    }
    assert forall|i: int, j: int| 0 <= i < j < pd.len() implies operator_precedence(
        #[trigger] opd[i],
    ) < operator_precedence(#[trigger] opd[j]) by {
        assert(operator_precedence(operators[i]) < operator_precedence(operators[j]));
    }
    if m > 0 {
        assert(seg_start(pos, m) <= pos[m]);
        assert(pd.last() == pos[m - 1]);
    }
    assert forall|i: int| 0 <= i <= pd.len() implies #[trigger] merged[i] == segment_tree(
        xs,
        ops,
        seg_start(pd, i),
        seg_end(pd, i, last),
    ) by {
        if i < m {
            assert(merged[i] == operands[i]);
        }
    }
    assert forall|i: int| 0 <= i <= pd.len() implies #[trigger] segment_bounds(
        ops,
        opd,
        pd,
        last,
        i,
    ) by {
        if i < m {
            assert(segment_bounds(ops, operators, pos, last, i));
        } else {
            assert forall|t: int| seg_start(pd, i) <= t < seg_end(pd, i, last) implies (i > 0
                ==> operator_precedence(#[trigger] ops[t]) > operator_precedence(opd[i - 1])) && (i
                < pd.len() ==> operator_precedence(ops[t]) >= operator_precedence(opd[i])) by {
                if i > 0 {
                    assert(operator_precedence(operators[i - 1]) < operator_precedence(
                        operators[m],
                    ));
                    if t == p {
                        assert(ops[t] == operators[m]);
                    }
                }
            }
        }
    }
    if top_at_least(ops, pos, last, bound) && operator_precedence(operators[m]) >= bound {
        assert forall|t: int| seg_start(pd, pd.len() as int) <= t < last implies operator_precedence(
            #[trigger] ops[t],
        ) >= bound by {
            if t == p {
                assert(ops[t] == operators[m]);
            }
        }
    }
}


/// What a selected card contributes to the expression.
#[derive(Debug)]
pub enum ExpressionPart {
    Operand(Expr),
    Operator(Operator),
}

/// Where a selected card came from, so that clearing can give it back.
#[derive(Debug)]
pub enum SelectedSource {
    Deck(CardInstance),
    Binding(CardDefinition),
}

/// A selected card: its source and its part of the expression.
#[derive(Debug)]
pub struct SelectedCard {
    pub source: SelectedSource,
    pub part: ExpressionPart,
}

/// The expression part of a card term: literals and stored expressions are
/// operands, operators are operators.
pub open spec fn term_part(term: CardTerm) -> ExpressionPart {
    match term {
        CardTerm::Literal(v) => ExpressionPart::Operand(Expr::Literal(v)),
        CardTerm::Operator(op) => ExpressionPart::Operator(op),
        CardTerm::Binding(e) => ExpressionPart::Operand(e),
        CardTerm::Definition(e) => ExpressionPart::Operand(e),
    }
}

/// The display text after selecting a card named `name`: names separated by spaces.
pub open spec fn extend_text(text: Seq<char>, name: Seq<char>) -> Seq<char> {
    if text.len() == 0 {
        name
    } else {
        text + seq![' '] + name
    }
}

/// Whether a selected card is a binding card of this name.
pub open spec fn is_binding_named(card: SelectedCard, name: Seq<char>) -> bool {
    match card.source {
        SelectedSource::Binding(c) => c.name_view() == name,
        SelectedSource::Deck(_) => false,
    }
}

/// The expression parts of a selection, in order.
pub open spec fn parts_of(selection: Seq<SelectedCard>) -> Seq<ExpressionPart> {
    selection.map_values(|card: SelectedCard| card.part)
}

/// Operands alternate with operators, starting with an operand.
pub open spec fn in_place(parts: Seq<ExpressionPart>, i: int) -> bool {
    (i % 2 == 0) == (parts[i] is Operand)
}

/// The first position before `n` that breaks the alternation, if any.
pub open spec fn misplaced_before(parts: Seq<ExpressionPart>, n: int) -> Option<int>
    decreases n,
{
    if n <= 0 {
        None
    } else {
        match misplaced_before(parts, n - 1) {
            Some(i) => Some(i),
            None => if in_place(parts, n - 1) {
                None
            } else {
                Some(n - 1)
            },
        }
    }
}

proof fn lemma_misplaced_stable(parts: Seq<ExpressionPart>, n: int, m: int)
    requires
        misplaced_before(parts, n) is Some,
        n <= m,
    ensures
        misplaced_before(parts, m) == misplaced_before(parts, n),
    decreases m - n,
{
    if n < m {
        lemma_misplaced_stable(parts, n, m - 1);
    }
}

/// The operands of an alternating sequence of parts.
pub open spec fn operand_seq(parts: Seq<ExpressionPart>) -> Seq<Expr> {
    Seq::new(((parts.len() + 1) / 2) as nat, |k: int| parts[2 * k]->Operand_0)
}

/// The operators of an alternating sequence of parts.
pub open spec fn operator_seq(parts: Seq<ExpressionPart>) -> Seq<Operator> {
    Seq::new((parts.len() / 2) as nat, |k: int| parts[2 * k + 1]->Operator_0)
}

/// The result of building: the parts must be nonempty, alternate between
/// operands and operators (the first misplaced card is reported, counting
/// from 1) and end with an operand; then the expression is their infix tree.
pub open spec fn build_spec(parts: Seq<ExpressionPart>) -> Result<Expr, ExpressionBuildError> {
    if parts.len() == 0 {
        Err(ExpressionBuildError::EmptyExpression)
    } else {
        match misplaced_before(parts, parts.len() as int) {
            Some(i) => if parts[i] is Operator {
                Err(ExpressionBuildError::ExpectedOperand((i + 1) as usize))
            } else {
                Err(ExpressionBuildError::ExpectedOperator((i + 1) as usize))
            },
            None => if parts.len() % 2 == 0 {
                Err(ExpressionBuildError::TrailingOperator)
            } else {
                Ok(infix_tree(operand_seq(parts), operator_seq(parts)))
            },
        }
    }
}

/// The deck instances of a selection, in selection order.
pub open spec fn returned_instances(selection: Seq<SelectedCard>) -> Seq<CardInstance>
    decreases selection.len(),
{
    if selection.len() == 0 {
        Seq::empty()
    } else {
        let rest = returned_instances(selection.drop_last());
        match selection.last().source {
            SelectedSource::Deck(instance) => rest.push(instance),
            SelectedSource::Binding(_) => rest,
        }
    }
}

/// The bindings after restoring the binding cards of a selection in order.
pub open spec fn restore_all(
    bindings: Map<Seq<char>, CardDefinition>,
    selection: Seq<SelectedCard>,
) -> Map<Seq<char>, CardDefinition>
    decreases selection.len(),
{
    if selection.len() == 0 {
        bindings
    } else {
        let rest = restore_all(bindings, selection.drop_last());
        match selection.last().source {
            SelectedSource::Deck(_) => rest,
            SelectedSource::Binding(card) => restored(rest, card),
        }
    }
}

/// Why an expression could not be selected or built.
#[derive(Debug, Clone, PartialEq, Eq)]
pub enum ExpressionBuildError {
    EmptyExpression,
    InvalidDeckIndex(usize),
    UnknownCard(CardId),
    UnknownBinding(String),
    ExpectedOperand(usize),
    ExpectedOperator(usize),
    TrailingOperator,
    MalformedExpression,
}

/// The message shown for a build error.
pub open spec fn build_error_text(error: ExpressionBuildError) -> Seq<char> {
    match error {
        ExpressionBuildError::EmptyExpression => "expression is empty"@,
        ExpressionBuildError::InvalidDeckIndex(_) => "selected card is not in the deck"@,
        ExpressionBuildError::UnknownCard(id) => "card "@ + decimal(id.index() as nat)
            + " is missing"@,
        ExpressionBuildError::UnknownBinding(name) => "binding "@ + debug_str_text(name@)
            + " is missing from this turn"@,
        ExpressionBuildError::ExpectedOperand(position) => "expected a value at card "@
            + decimal(position as nat),
        ExpressionBuildError::ExpectedOperator(position) => "expected an operator at card "@
            + decimal(position as nat),
        ExpressionBuildError::TrailingOperator => "expression cannot end with an operator"@,
        ExpressionBuildError::MalformedExpression => "expression is malformed"@,
    }
}

impl ExpressionBuildError {
    /// The message for the error, as `Display` would show it.
    pub fn to_string(&self) -> (s: String)
        ensures
            s@ == build_error_text(*self),
    {
        let mut s = String::new();
        match self {
            ExpressionBuildError::EmptyExpression => s.append("expression is empty"),
            ExpressionBuildError::InvalidDeckIndex(_) => s.append(
                "selected card is not in the deck",
            ),
            ExpressionBuildError::UnknownCard(id) => {
                s.append("card ");
                push_decimal(&mut s, id.value() as u64);
                s.append(" is missing");
            },
            ExpressionBuildError::UnknownBinding(name) => {
                s.append("binding ");
                push_debug_str(&mut s, name.as_str());
                s.append(" is missing from this turn");
            },
            ExpressionBuildError::ExpectedOperand(position) => {
                s.append("expected a value at card ");
                push_decimal(&mut s, *position as u64);
            },
            ExpressionBuildError::ExpectedOperator(position) => {
                s.append("expected an operator at card ");
                push_decimal(&mut s, *position as u64);
            },
            ExpressionBuildError::TrailingOperator => s.append(
                "expression cannot end with an operator",
            ),
            ExpressionBuildError::MalformedExpression => s.append("expression is malformed"),
        }
        assert(s@ =~= build_error_text(*self));
        s
    }
}

fn reduce_once(operands: &mut Vec<Expr>, operators: &mut Vec<Operator>) -> (r: Result<
    (),
    ExpressionBuildError,
>)
    ensures
        old(operators)@.len() >= 1 && old(operands)@.len() >= 2 ==> r is Ok && final(operators)@
            == old(operators)@.drop_last() && final(operands)@ == old(operands)@.take(
            old(operands)@.len() - 2,
        ).push(
            binary(
                old(operators)@.last(),
                old(operands)@[old(operands)@.len() - 2],
                old(operands)@.last(),
            ),
        ),
        r is Err ==> r == Err::<(), ExpressionBuildError>(
            ExpressionBuildError::MalformedExpression,
        ),
{
    let operator = match operators.pop() {
        Some(operator) => operator,
        None => {
            return Err(ExpressionBuildError::MalformedExpression);
        },
    };
    let right = match operands.pop() {
        Some(right) => right,
        None => {
            return Err(ExpressionBuildError::MalformedExpression);
        },
    };
    let left = match operands.pop() {
        Some(left) => left,
        None => {
            return Err(ExpressionBuildError::MalformedExpression);
        },
    };
    operands.push(
        Expr::Apply(
            Box::new(Expr::Apply(Box::new(Expr::Operator(operator)), Box::new(left))),
            Box::new(right),
        ),
    );
    assert(operands@ =~= old(operands)@.take(old(operands)@.len() - 2).push(
        binary(operator, left, right),
    ));
    Ok(())
}


/// The cards selected so far, in order, with their display text.
#[derive(Debug)]
pub struct ExpressionBuilder {
    current_expr: String,
    selected_cards: Vec<SelectedCard>,
}

impl ExpressionBuilder {
    /// The display text: the selected names separated by spaces.
    pub closed spec fn text(self) -> Seq<char> {
        self.current_expr@
    }

    /// The selected cards, in order.
    pub closed spec fn selection(self) -> Seq<SelectedCard> {
        self.selected_cards@
    }

    /// A selected binding card contributes the expression it stores.
    pub open spec fn wf(self) -> bool {
        forall|i: int|
            0 <= i < self.selection().len() ==> match (#[trigger] self.selection()[i]).source {
                SelectedSource::Binding(card) => card.term_view() is Binding
                    && self.selection()[i].part == ExpressionPart::Operand(
                    card.term_view()->Binding_0,
                ),
                SelectedSource::Deck(_) => true,
            }
    }

    pub fn new() -> (builder: Self)
        ensures
            builder.wf(),
            builder.text() == Seq::<char>::empty(),
            builder.selection() == Seq::<SelectedCard>::empty(),
    {
        ExpressionBuilder { current_expr: String::new(), selected_cards: Vec::new() }
    }

    pub fn current_expr(&self) -> (s: &str)
        ensures
            s@ == self.text(),
    {
        self.current_expr.as_str()
    }

    fn push_name(&mut self, name: &str)
        ensures
            final(self).text() == extend_text(old(self).text(), name@),
            final(self).selection() == old(self).selection(),
    {
        if !self.current_expr.as_str().is_empty() {
            push_char(&mut self.current_expr, ' ');
        }
        self.current_expr.append(name);
        assert(self.current_expr@ =~= extend_text(old(self).text(), name@));
    }

    /// Moves the deck card at `deck_index` into the selection. A missing
    /// index or definition is refused, and then nothing changes.
    pub fn select(&mut self, deck_index: usize, deck: &mut Deck, library: &CardLibrary) -> (r:
        Result<(), ExpressionBuildError>)
        requires
            old(self).wf(),
        ensures
            final(self).wf(),
            deck_index >= old(deck)@.len() ==> r == Err::<(), ExpressionBuildError>(
                ExpressionBuildError::InvalidDeckIndex(deck_index),
            ),
            deck_index < old(deck)@.len() && library.lookup(
                old(deck)@[deck_index as int].definition_id(),
            ) is None ==> r == Err::<(), ExpressionBuildError>(
                ExpressionBuildError::UnknownCard(old(deck)@[deck_index as int].definition_id()),
            ),
            r is Ok <==> deck_index < old(deck)@.len() && library.lookup(
                old(deck)@[deck_index as int].definition_id(),
            ) is Some,
            r is Err ==> *final(self) == *old(self) && *final(deck) == *old(deck),
            r is Ok ==> ({
                let instance = old(deck)@[deck_index as int];
                let definition = library.lookup(instance.definition_id())->Some_0;
                &&& final(deck)@ == old(deck)@.remove(deck_index as int)
                &&& final(self).selection() == old(self).selection().push(
                    SelectedCard {
                        source: SelectedSource::Deck(instance),
                        part: term_part(definition.term_view()),
                    },
                )
                &&& final(self).text() == extend_text(old(self).text(), definition.name_view())
            }),
    {
        if deck_index >= deck.cards().len() {
            return Err(ExpressionBuildError::InvalidDeckIndex(deck_index));
        }
        let instance = deck.cards()[deck_index];
        let definition = match library.get(instance.definition()) {
            Some(definition) => definition,
            None => {
                return Err(ExpressionBuildError::UnknownCard(instance.definition()));
            },
        };
        let part = match definition.term() {
            CardTerm::Literal(value) => ExpressionPart::Operand(Expr::Literal(*value)),
            CardTerm::Binding(expression) => ExpressionPart::Operand(expression.duplicate()),
            CardTerm::Definition(expression) => ExpressionPart::Operand(expression.duplicate()),
            CardTerm::Operator(operator) => ExpressionPart::Operator(*operator),
        };
        let removed = deck.remove(deck_index);
        self.push_name(definition.name());
        self.selected_cards.push(SelectedCard { source: SelectedSource::Deck(instance), part });
        assert forall|i: int| 0 <= i < self.selection().len() implies match (
        #[trigger] self.selection()[i]).source {
            SelectedSource::Binding(card) => card.term_view() is Binding
                && self.selection()[i].part == ExpressionPart::Operand(
                card.term_view()->Binding_0,
            ),
            SelectedSource::Deck(_) => true,
        } by {
            if i < old(self).selection().len() {
                assert(self.selection()[i] == old(self).selection()[i]);
            }
        }
        Ok(())
    }

    /// Reserves the binding `name`: it leaves the turn and joins the
    /// selection until the selection is committed or cleared. An unknown
    /// name is refused, and then nothing changes.
    pub fn select_binding(&mut self, name: &str, turn: &mut TurnState) -> (r: Result<
        (),
        ExpressionBuildError,
    >)
        requires
            old(self).wf(),
            old(turn).wf(),
        ensures
            final(self).wf(),
            final(turn).wf(),
            final(turn).energy() == old(turn).energy(),
            !old(turn)@.contains_key(name@) ==> (r matches Err(
                ExpressionBuildError::UnknownBinding(shown),
            ) && shown@ == name@) && *final(self) == *old(self) && *final(turn) == *old(turn),
            old(turn)@.contains_key(name@) ==> ({
                let card = old(turn)@[name@];
                &&& r is Ok
                &&& final(turn)@ == old(turn)@.remove(name@)
                &&& final(turn).binding_count() == old(turn).binding_count() - 1
                &&& card.term_view() is Binding
                &&& final(self).selection() == old(self).selection().push(
                    SelectedCard {
                        source: SelectedSource::Binding(card),
                        part: ExpressionPart::Operand(card.term_view()->Binding_0),
                    },
                )
                &&& final(self).text() == extend_text(old(self).text(), name@)
            }),
    {
        let card = match turn.take_binding(name) {
            Some(card) => card,
            None => {
                return Err(ExpressionBuildError::UnknownBinding(String::from_str(name)));
            },
        };
        let expression = match card.term() {
            CardTerm::Binding(expression) => expression.duplicate(),
            _ => {
                assert(false);
                turn.restore_binding(card);
                return Err(ExpressionBuildError::UnknownBinding(String::from_str(name)));
            },
        };
        self.push_name(name);
        self.selected_cards.push(
            SelectedCard {
                source: SelectedSource::Binding(card),
                part: ExpressionPart::Operand(expression),
            },
        );
        assert forall|i: int| 0 <= i < self.selection().len() implies match (
        #[trigger] self.selection()[i]).source {
            SelectedSource::Binding(card) => card.term_view() is Binding
                && self.selection()[i].part == ExpressionPart::Operand(
                card.term_view()->Binding_0,
            ),
            SelectedSource::Deck(_) => true,
        } by {
            if i < old(self).selection().len() {
                assert(self.selection()[i] == old(self).selection()[i]);
            }
        }
        Ok(())
    }

    /// Whether a binding card of this name is among the selected cards.
    pub fn has_selected_binding(&self, name: &str) -> (b: bool)
        ensures
            b == exists|i: int|
                0 <= i < self.selection().len() && is_binding_named(
                    #[trigger] self.selection()[i],
                    name@,
                ),
    {
        let target = String::from_str(name);
        let n = self.selected_cards.len();
        for i in 0..n
            invariant
                n == self.selection().len(),
                target@ == name@,
                forall|j: int|
                    0 <= j < i ==> !is_binding_named(#[trigger] self.selection()[j], name@),
        {
            match &self.selected_cards[i].source {
                SelectedSource::Binding(card) => {
                    if card.is_named(&target) {
                        assert(is_binding_named(self.selection()[i as int], name@));
                        return true;
                    }
                },
                SelectedSource::Deck(_) => {},
            }
        }
        false
    }

    /// Gives every selected card back to its owner, in selection order: deck
    /// instances go to the end of the deck, binding cards back to the turn
    /// unless a newer binding of the same name exists. No energy is spent.
    pub fn clear(&mut self, deck: &mut Deck, turn: &mut TurnState)
        requires
            old(self).wf(),
            old(turn).wf(),
        ensures
            final(self).wf(),
            final(self).text() == Seq::<char>::empty(),
            final(self).selection() == Seq::<SelectedCard>::empty(),
            final(deck)@ == old(deck)@ + returned_instances(old(self).selection()),
            final(turn).wf(),
            final(turn).energy() == old(turn).energy(),
            final(turn)@ == restore_all(old(turn)@, old(self).selection()),
    {
        let ghost selection = self.selection();
        let mut selected: Vec<SelectedCard> = Vec::new();
        std::mem::swap(&mut selected, &mut self.selected_cards);
        assert(selection.take(0) =~= Seq::<SelectedCard>::empty());
        assert(deck@ =~= old(deck)@ + returned_instances(selection.take(0)));
        for card in it: selected.into_iter()
            invariant
                it.seq() == selection,
                forall|i: int|
                    0 <= i < selection.len() ==> match (#[trigger] selection[i]).source {
                        SelectedSource::Binding(card) => card.term_view() is Binding
                            && selection[i].part == ExpressionPart::Operand(
                            card.term_view()->Binding_0,
                        ),
                        SelectedSource::Deck(_) => true,
                    },
                deck@ == old(deck)@ + returned_instances(selection.take(it.index() as int)),
                turn.wf(),
                turn.energy() == old(turn).energy(),
                turn@ == restore_all(old(turn)@, selection.take(it.index() as int)),
        {
            let ghost k = it.index();
            assert(card == selection[k as int]);
            assert(selection.take(k + 1).drop_last() =~= selection.take(k as int));
            assert(selection.take(k + 1).last() == selection[k as int]);
            match card.source {
                SelectedSource::Deck(instance) => {
                    deck.add(instance);
                    assert(deck@ =~= old(deck)@ + returned_instances(selection.take(k + 1)));
                },
                SelectedSource::Binding(binding) => {
                    turn.restore_binding(binding);
                },
            }
        }
        assert(selection.take(selection.len() as int) =~= selection);
        self.current_expr = String::new();
    }

    /// Builds the expression of the selection: operands and operators must
    /// alternate, starting and ending with an operand; operators group by
    /// precedence and associate to the left.
    pub fn build(&self) -> (r: Result<Expr, ExpressionBuildError>)
        ensures
            r == build_spec(parts_of(self.selection())),
    {
        let ghost parts = parts_of(self.selection());
        let ghost xs = operand_seq(parts);
        let ghost ops = operator_seq(parts);
        let n = self.selected_cards.len();
        if n == 0 {
            return Err(ExpressionBuildError::EmptyExpression);
        }
        let mut operands: Vec<Expr> = Vec::new();
        let mut operators: Vec<Operator> = Vec::new();
        let mut expects_operand = true;
        let ghost mut pos: Seq<int> = Seq::empty();
        for index in 0..n
            invariant
                n == parts.len(),
                n > 0,
                parts == parts_of(self.selection()),
                xs == operand_seq(parts),
                ops == operator_seq(parts),
                misplaced_before(parts, index as int) is None,
                expects_operand == (index % 2 == 0),
                expects_operand ==> pending_ok(
                    xs,
                    ops,
                    operands@,
                    operators@,
                    pos,
                    (index / 2) as int,
                ),
                !expects_operand ==> stacks_ok(
                    xs,
                    ops,
                    operands@,
                    operators@,
                    pos,
                    (index / 2) as int,
                ),
                !expects_operand ==> seg_start(pos, pos.len() as int) == index / 2,
        {
            let ghost c = (index / 2) as int;
            assert(parts[index as int] == self.selection()[index as int].part);
            match (&self.selected_cards[index].part, expects_operand) {
                (ExpressionPart::Operand(expression), true) => {
                    proof {
                        assert(index as int == 2 * c);
                        assert(xs[c] == *expression);
                        lemma_push_operand(xs, ops, operands@, operators@, pos, c);
                        if c > 0 {
                            assert(pos.last() == c - 1);
                        }
                    }
                    operands.push(expression.duplicate());
                    expects_operand = false;
                },
                (ExpressionPart::Operator(operator), false) => {
                    let q = *operator;
                    proof {
                        assert(index as int == 2 * c + 1);
                        assert(ops[c] == q);
                    }
                    while operators.len() > 0 && operators[operators.len() - 1].precedence()
                        >= q.precedence()
                        invariant
                            stacks_ok(xs, ops, operands@, operators@, pos, c),
                            top_at_least(ops, pos, c, operator_precedence(q)),
                            0 <= c < ops.len(),
                            ops[c] == q,
                        decreases operators@.len(),
                    {
                        proof {
                            lemma_reduce(
                                xs,
                                ops,
                                operands@,
                                operators@,
                                pos,
                                c,
                                operator_precedence(q),
                            );
                        }
                        let reduced = reduce_once(&mut operands, &mut operators);
                        proof {
                            pos = pos.drop_last();
                        }
                    }
                    let ghost before = operators@;
                    let ghost pos_before = pos;
                    operators.push(q);
                    proof {
                        pos = pos.push(c);
                        assert(operators@.drop_last() =~= before);
                        assert(pos.drop_last() =~= pos_before);
                        if pos.len() >= 2 {
                            assert(operators@[pos.len() - 2] == before.last());
                        }
                        assert(pending_ok(xs, ops, operands@, operators@, pos, c + 1));
                    }
                    expects_operand = true;
                },
                (ExpressionPart::Operator(_), true) => {
                    proof {
                        lemma_misplaced_stable(parts, index + 1, n as int);
                    }
                    return Err(ExpressionBuildError::ExpectedOperand(index + 1));
                },
                (ExpressionPart::Operand(_), false) => {
                    proof {
                        lemma_misplaced_stable(parts, index + 1, n as int);
                    }
                    return Err(ExpressionBuildError::ExpectedOperator(index + 1));
                },
            }
        }
        if expects_operand {
            return Err(ExpressionBuildError::TrailingOperator);
        }
        let ghost total = (n / 2) as int;
        while operators.len() > 0
            invariant
                stacks_ok(xs, ops, operands@, operators@, pos, total),
            decreases operators@.len(),
        {
            proof {
                lemma_reduce(xs, ops, operands@, operators@, pos, total, 0);
            }
            let reduced = reduce_once(&mut operands, &mut operators);
            proof {
                pos = pos.drop_last();
            }
        }
        proof {
            assert(operands@[0] == segment_tree(xs, ops, 0, total));
            assert(xs.subrange(0, total + 1) =~= xs);
            assert(ops.subrange(0, total) =~= ops);
        }
        match operands.pop() {
            Some(expression) => Ok(expression),
            None => Err(ExpressionBuildError::EmptyExpression),
        }
    }

    /// Consumes the selection after a successful action.
    pub fn commit(&mut self)
        ensures
            final(self).wf(),
            final(self).text() == Seq::<char>::empty(),
            final(self).selection() == Seq::<SelectedCard>::empty(),
    {
        self.selected_cards = Vec::new();
        self.current_expr = String::new();
    }
}

impl Default for ExpressionBuilder {
    fn default() -> (builder: Self)
        ensures
            builder.wf(),
            builder.text() == Seq::<char>::empty(),
            builder.selection() == Seq::<SelectedCard>::empty(),
    {
        ExpressionBuilder::new()
    }
}


proof fn lemma_infix_single(a: Expr, b: Expr, p: Operator)
    ensures
        infix_tree(seq![a, b], seq![p]) == binary(p, a, b),
{
    let xs = seq![a, b];
    let ops = seq![p];
    assert(split_index(ops) == 0);
    assert(ops.take(0).len() == 0);
    assert(ops.skip(1).len() == 0);
    assert(infix_tree(xs.take(1), ops.take(0)) == xs.take(1)[0]);
    assert(infix_tree(xs.skip(1), ops.skip(1)) == xs.skip(1)[0]);
    assert(xs.take(1)[0] == a);
    assert(xs.skip(1)[0] == b);
}

/// Operators of equal precedence associate to the left:
/// `a p b q c` is `(a p b) q c`.
pub proof fn lemma_equal_precedence_associates_left(
    a: Expr,
    b: Expr,
    c: Expr,
    p: Operator,
    q: Operator,
)
    requires
        operator_precedence(p) == operator_precedence(q),
    ensures
        infix_tree(seq![a, b, c], seq![p, q]) == binary(q, binary(p, a, b), c),
{
    let xs = seq![a, b, c];
    let ops = seq![p, q];
    assert(ops.drop_last() =~= seq![p]);
    assert(split_index(seq![p]) == 0);
    assert(split_index(ops) == 1);
    assert(xs.take(2) =~= seq![a, b]);
    assert(ops.take(1) =~= seq![p]);
    assert(ops.skip(2).len() == 0);
    assert(infix_tree(xs.skip(2), ops.skip(2)) == xs.skip(2)[0]);
    assert(xs.skip(2)[0] == c);
    lemma_infix_single(a, b, p);
}

/// An operator of higher precedence binds tighter, on either side:
/// `a p b q c` groups around the operator of lower precedence.
pub proof fn lemma_higher_precedence_binds_tighter(
    a: Expr,
    b: Expr,
    c: Expr,
    p: Operator,
    q: Operator,
)
    requires
        operator_precedence(p) != operator_precedence(q),
    ensures
        operator_precedence(p) < operator_precedence(q) ==> infix_tree(seq![a, b, c], seq![p, q])
            == binary(p, a, binary(q, b, c)),
        operator_precedence(p) > operator_precedence(q) ==> infix_tree(seq![a, b, c], seq![p, q])
            == binary(q, binary(p, a, b), c),
{
    let xs = seq![a, b, c];
    let ops = seq![p, q];
    assert(ops.drop_last() =~= seq![p]);
    assert(split_index(seq![p]) == 0);
    if operator_precedence(p) < operator_precedence(q) {
        assert(split_index(ops) == 0);
        assert(ops.take(0).len() == 0);
        assert(infix_tree(xs.take(1), ops.take(0)) == xs.take(1)[0]);
        assert(xs.take(1)[0] == a);
        assert(xs.skip(1) =~= seq![b, c]);
        assert(ops.skip(1) =~= seq![q]);
        lemma_infix_single(b, c, q);
    } else {
        assert(split_index(ops) == 1);
        assert(xs.take(2) =~= seq![a, b]);
        assert(ops.take(1) =~= seq![p]);
        assert(ops.skip(2).len() == 0);
        assert(infix_tree(xs.skip(2), ops.skip(2)) == xs.skip(2)[0]);
        assert(xs.skip(2)[0] == c);
        lemma_infix_single(a, b, p);
    }
}

proof fn lemma_restore_all_without(
    bindings: Map<Seq<char>, CardDefinition>,
    selection: Seq<SelectedCard>,
    name: Seq<char>,
)
    requires
        bindings.contains_key(name),
        forall|i: int| 0 <= i < selection.len() ==> !is_binding_named(#[trigger] selection[i], name),
    ensures
        restore_all(bindings.remove(name), selection) == restore_all(bindings, selection).remove(
            name,
        ),
        restore_all(bindings, selection).contains_key(name),
        restore_all(bindings, selection)[name] == bindings[name],
    decreases selection.len(),
{
    if selection.len() > 0 {
        let init = selection.drop_last();
        assert forall|i: int| 0 <= i < init.len() implies !is_binding_named(
            #[trigger] init[i],
            name,
        ) by {
            assert(init[i] == selection[i]);
        }
        lemma_restore_all_without(bindings, init, name);
        assert(!is_binding_named(selection[selection.len() - 1], name));
        let rest = restore_all(bindings, init);
        match selection.last().source {
            SelectedSource::Deck(_) => {},
            SelectedSource::Binding(card) => {
                assert(card.name_view() != name);
                assert(restored(rest.remove(name), card) =~= restored(rest, card).remove(name));
            },
        }
    }
}

/// Selecting a binding and then clearing gives the turn its binding back:
/// whatever was selected before (no other card of that name), clearing
/// after the selection leaves the bindings as clearing before it would.
pub proof fn lemma_select_binding_then_clear_restores(
    bindings: Map<Seq<char>, CardDefinition>,
    selection: Seq<SelectedCard>,
    name: Seq<char>,
    part: ExpressionPart,
)
    requires
        bindings.contains_key(name),
        bindings[name].name_view() == name,
        forall|i: int| 0 <= i < selection.len() ==> !is_binding_named(#[trigger] selection[i], name),
    ensures
        restore_all(
            bindings.remove(name),
            selection.push(
                SelectedCard { source: SelectedSource::Binding(bindings[name]), part },
            ),
        ) == restore_all(bindings, selection),
{
    let card = SelectedCard { source: SelectedSource::Binding(bindings[name]), part };
    let longer = selection.push(card);
    assert(longer.drop_last() =~= selection);
    lemma_restore_all_without(bindings, selection, name);
    let all = restore_all(bindings, selection);
    assert(all.remove(name).insert(name, bindings[name]) =~= all);
}

/// A binding can be selected only once: after a successful selection the
/// turn no longer holds the name, which is exactly when `select_binding`
/// refuses it.
pub proof fn lemma_binding_selected_once(
    before: Map<Seq<char>, CardDefinition>,
    after: Map<Seq<char>, CardDefinition>,
    name: Seq<char>,
)
    requires
        before.contains_key(name),
        after == before.remove(name),
    ensures
        !after.contains_key(name),
{
}

/// Clearing never overwrites a binding the turn holds: every binding present
/// before the clear keeps its card, and each binding card of the selection
/// is back under its name afterwards (the newest card wins when the name was
/// bound again meanwhile).
pub proof fn lemma_clear_keeps_newer_bindings(
    bindings: Map<Seq<char>, CardDefinition>,
    selection: Seq<SelectedCard>,
)
    ensures
        forall|name: Seq<char>|
            #[trigger] bindings.contains_key(name) ==> restore_all(bindings, selection).contains_key(
                name,
            ) && restore_all(bindings, selection)[name] == bindings[name],
        forall|i: int|
            0 <= i < selection.len() && (#[trigger] selection[i]).source is Binding
                ==> restore_all(bindings, selection).contains_key(
                selection[i].source->Binding_0.name_view(),
            ),
    decreases selection.len(),
{
    if selection.len() > 0 {
        let init = selection.drop_last();
        lemma_clear_keeps_newer_bindings(bindings, init);
        assert forall|i: int|
            0 <= i < selection.len() && (#[trigger] selection[i]).source is Binding implies restore_all(
            bindings,
            selection,
        ).contains_key(selection[i].source->Binding_0.name_view()) by {
            if i < init.len() {
                assert(init[i] == selection[i]);
            }
        }
    }
}

/// Selecting a deck card and then clearing neither loses nor duplicates a
/// deck instance: the deck holds the same instances (the card comes back
/// at the end).
pub proof fn lemma_select_card_then_clear_keeps_instances(
    deck: Seq<CardInstance>,
    selection: Seq<SelectedCard>,
    index: int,
    part: ExpressionPart,
)
    requires
        0 <= index < deck.len(),
    ensures
        (deck.remove(index) + returned_instances(
            selection.push(SelectedCard { source: SelectedSource::Deck(deck[index]), part }),
        )).to_multiset() == (deck + returned_instances(selection)).to_multiset(),
{
    broadcast use vstd::seq_lib::group_to_multiset_ensures;

    let card = SelectedCard { source: SelectedSource::Deck(deck[index]), part };
    let longer = selection.push(card);
    assert(longer.drop_last() =~= selection);
    let back = returned_instances(selection);
    assert(returned_instances(longer) == back.push(deck[index]));
    vstd::seq_lib::lemma_multiset_commutative(deck.remove(index), back.push(deck[index]));
    vstd::seq_lib::lemma_multiset_commutative(deck, back);
    assert(deck.remove(index) + back.push(deck[index]) =~= (deck.remove(index) + back).push(
        deck[index],
    ));
    vstd::seq_lib::lemma_multiset_commutative(deck.remove(index), back);
    assert((deck.remove(index) + back).push(deck[index]).to_multiset() == (deck.remove(index)
        + back).to_multiset().insert(deck[index]));
    assert(deck.remove(index).to_multiset() == deck.to_multiset().remove(deck[index]));
    assert(deck.to_multiset().count(deck[index]) > 0) by {
        assert(deck.contains(deck[index]));
    }
    assert((deck.remove(index) + back).to_multiset() =~= deck.remove(index).to_multiset().add(
        back.to_multiset(),
    ));
    assert((deck + back).to_multiset() =~= deck.to_multiset().add(back.to_multiset()));
    assert(deck.to_multiset().remove(deck[index]).add(back.to_multiset()).insert(deck[index])
        =~= deck.to_multiset().add(back.to_multiset()));
}

} // verus!
