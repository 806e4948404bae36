use vstd::prelude::*;

use crate::text::{
    decimal, push_char, push_debug_str, push_decimal, push_signed_decimal, signed_decimal,
    debug_str_text,
};

verus! {

broadcast use vstd::string::group_string_axioms;

/// Identifies a type variable.
#[derive(Debug, Clone, Copy, PartialEq, Eq, Hash, Structural)]
pub struct TypeVarId(u32);

impl TypeVarId {
    pub fn new(value: u32) -> (id: Self)
        ensures
            id.index() == value,
    {
        TypeVarId(value)
    }

    /// The number that identifies the variable.
    pub closed spec fn index(self) -> u32 {
        self.0
    }
}

/// Monomorphic types; arrows are curried and associate to the right.
#[derive(Debug, PartialEq, Eq)]
pub enum Type {
    Int,
    Bool,
    Var(TypeVarId),
    Arrow(Box<Type>, Box<Type>),
}

/// The function type from `input` to `output`.
pub open spec fn arrow_type(input: Type, output: Type) -> Type {
    Type::Arrow(Box::new(input), Box::new(output))
}

/// Name of a type variable: `a` to `z` for the first 26, `t` and the number after that.
pub open spec fn type_variable_text(id: u32) -> Seq<char> {
    if id <= 25 {
        seq![((97 + id) as u32) as char]
    } else {
        seq!['t'] + decimal(id as nat)
    }
}

/// Surface notation of a type. An arrow on the left of another arrow is
/// put in parentheses (when `parenthesize_arrow` holds).
pub open spec fn type_text(t: Type, parenthesize_arrow: bool) -> Seq<char>
    decreases t,
{
    match t {
        Type::Int => "Int"@,
        Type::Bool => "Bool"@,
        Type::Var(id) => seq!['\''] + type_variable_text(id.index()),
        Type::Arrow(input, output) => {
            let inner = type_text(*input, true) + " -> "@ + type_text(*output, false);
            if parenthesize_arrow {
                seq!['('] + inner + seq![')']
            } else {
                inner
            }
        },
    }
}

impl Type {
    pub fn arrow(input: Type, output: Type) -> (t: Self)
        ensures
            t == arrow_type(input, output),
    {
        Type::Arrow(Box::new(input), Box::new(output))
    }

    fn write_with_precedence(&self, out: &mut String, parenthesize_arrow: bool)
        ensures
            final(out)@ == old(out)@ + type_text(*self, parenthesize_arrow),
        decreases self,
    {
        match self {
            Type::Int => {
                out.append("Int");
            },
            Type::Bool => {
                out.append("Bool");
            },
            Type::Var(id) => {
                push_char(out, '\'');
                push_type_variable_name(out, id.0);
                assert(out@ =~= old(out)@ + type_text(*self, parenthesize_arrow));
            },
            Type::Arrow(input, output) => {
                if parenthesize_arrow {
                    push_char(out, '(');
                }
                let ghost before = out@;
                input.write_with_precedence(out, true);
                out.append(" -> ");
                output.write_with_precedence(out, false);
                if parenthesize_arrow {
                    push_char(out, ')');
                }
                assert(out@ =~= old(out)@ + type_text(*self, parenthesize_arrow));
            },
        }
    }

    /// The surface notation, such as `Int -> Int -> Bool`.
    pub fn to_string(&self) -> (s: String)
        ensures
            s@ == type_text(*self, false),
    {
        let mut s = String::new();
        self.write_with_precedence(&mut s, false);
        assert(s@ =~= type_text(*self, false));
        s
    }

    /// The same type, as a new value.
    pub fn duplicate(&self) -> (t: Type)
        ensures
            t == *self,
        decreases self,
    {
        match self {
            Type::Int => Type::Int,
            Type::Bool => Type::Bool,
            Type::Var(id) => Type::Var(*id),
            Type::Arrow(input, output) => Type::Arrow(
                Box::new(input.duplicate()),
                Box::new(output.duplicate()),
            ),
        }
    }
}

impl Clone for Type {
    fn clone(&self) -> (t: Self)
        ensures
            t == *self,
    {
        self.duplicate()
    }
}

/// Appends the name of a type variable.
fn push_type_variable_name(out: &mut String, id: u32)
    ensures
        final(out)@ == old(out)@ + type_variable_text(id),
{
    if id <= 25 {
        let c: char = (97u8 + (id as u8)) as char;
        push_char(out, c);
        assert(out@ =~= old(out)@ + type_variable_text(id));
    } else {
        push_char(out, 't');
        push_decimal(out, id as u64);
        assert(out@ =~= old(out)@ + type_variable_text(id));
    }
}

/// Structural equality of two types.
pub fn types_equal(a: &Type, b: &Type) -> (r: bool)
    ensures
        r == (*a == *b),
    decreases a,
{
    match (a, b) {
        (Type::Int, Type::Int) => true,
        (Type::Bool, Type::Bool) => true,
        (Type::Var(x), Type::Var(y)) => x.0 == y.0,
        (Type::Arrow(i1, o1), Type::Arrow(i2, o2)) => types_equal(i1, i2) && types_equal(o1, o2),
        _ => false,
    }
}


/// A type together with the type variables it quantifies over.
#[derive(Debug, Clone, PartialEq, Eq)]
pub struct TypeScheme {
    pub quantified: Vec<TypeVarId>,
    pub typ: Type,
}

/// Names of quantified variables, separated by single spaces.
pub open spec fn quantified_names_text(vars: Seq<TypeVarId>) -> Seq<char>
    decreases vars.len(),
{
    if vars.len() == 0 {
        Seq::empty()
    } else if vars.len() == 1 {
        type_variable_text(vars[0].index())
    } else {
        quantified_names_text(vars.drop_last()) + seq![' '] + type_variable_text(
            vars.last().index(),
        )
    }
}

/// Surface notation of a scheme: the bare type when nothing is quantified,
/// otherwise `∀a b. type`.
pub open spec fn scheme_text(scheme: TypeScheme) -> Seq<char> {
    if scheme.quantified@.len() == 0 {
        type_text(scheme.typ, false)
    } else {
        "∀"@ + quantified_names_text(scheme.quantified@) + ". "@ + type_text(scheme.typ, false)
    }
}

impl TypeScheme {
    pub fn monomorphic(typ: Type) -> (scheme: Self)
        ensures
            scheme.quantified@ == Seq::<TypeVarId>::empty(),
            scheme.typ == typ,
    {
        TypeScheme { quantified: Vec::new(), typ }
    }

    /// The surface notation, such as `Int` or `∀a. 'a -> 'a`.
    pub fn to_string(&self) -> (s: String)
        ensures
            s@ == scheme_text(*self),
    {
        let mut s = String::new();
        if self.quantified.len() == 0 {
            self.typ.write_with_precedence(&mut s, false);
            assert(s@ =~= scheme_text(*self));
            return s;
        }
        s.append("∀");
        let n = self.quantified.len();
        for index in 0..n
            invariant
                n == self.quantified@.len(),
                n > 0,
                s@ == "∀"@ + quantified_names_text(self.quantified@.take(index as int)),
        {
            let ghost prefix = self.quantified@.take(index as int);
            if index > 0 {
                push_char(&mut s, ' ');
            }
            push_type_variable_name(&mut s, self.quantified[index].0);
            proof {
                let next = self.quantified@.take(index + 1);
                assert(next.drop_last() =~= prefix);
                assert(next.last() == self.quantified@[index as int]);
                if index == 0 {
                    assert(prefix =~= Seq::<TypeVarId>::empty());
                    assert(next.len() == 1);
                    assert(next[0] == self.quantified@[0]);
                }
                assert(s@ =~= "∀"@ + quantified_names_text(next));
            }
        }
        assert(self.quantified@.take(n as int) =~= self.quantified@);
        s.append(". ");
        self.typ.write_with_precedence(&mut s, false);
        assert(s@ =~= scheme_text(*self));
        s
    }
}

/// Values of the language.
#[derive(Debug, Copy, Clone, PartialEq, Eq, Structural)]
pub enum Value {
    Int(i64),
    Bool(bool),
}

/// Surface notation of a value.
pub open spec fn value_text(v: Value) -> Seq<char> {
    match v {
        Value::Int(n) => signed_decimal(n as int),
        Value::Bool(b) => if b {
            "true"@
        } else {
            "false"@
        },
    }
}

/// How `{:?}` renders a value.
pub open spec fn value_debug_text(v: Value) -> Seq<char> {
    match v {
        Value::Int(n) => "Int("@ + signed_decimal(n as int) + ")"@,
        Value::Bool(b) => "Bool("@ + (if b {
            "true"@
        } else {
            "false"@
        }) + ")"@,
    }
}

impl Value {
    fn write(&self, out: &mut String)
        ensures
            final(out)@ == old(out)@ + value_text(*self),
    {
        match self {
            Value::Int(n) => push_signed_decimal(out, *n),
            Value::Bool(b) => if *b {
                out.append("true");
            } else {
                out.append("false");
            },
        }
    }

    /// The surface notation, such as `-3` or `true`.
    pub fn to_string(&self) -> (s: String)
        ensures
            s@ == value_text(*self),
    {
        let mut s = String::new();
        self.write(&mut s);
        assert(s@ =~= value_text(*self));
        s
    }

    /// The text that `{:?}` gives, such as `Int(3)`.
    pub fn debug_text(&self) -> (s: String)
        ensures
            s@ == value_debug_text(*self),
    {
        let mut s = String::new();
        match self {
            Value::Int(n) => {
                s.append("Int(");
                push_signed_decimal(&mut s, *n);
            },
            Value::Bool(b) => {
                s.append("Bool(");
                if *b {
                    s.append("true");
                } else {
                    s.append("false");
                }
            },
        }
        s.append(")");
        assert(s@ =~= value_debug_text(*self));
        s
    }
}

/// Binary operators; each is a curried function of two integers.
#[derive(Debug, Clone, Copy, PartialEq, Eq, Structural)]
pub enum Operator {
    Add,
    Subtract,
    Multiply,
    Equal,
    GreaterThan,
    GreaterThanOrEqual,
    LessThan,
    LessThanOrEqual,
}

/// The surface symbol of an operator.
pub open spec fn operator_symbol(op: Operator) -> Seq<char> {
    match op {
        Operator::Add => "+"@,
        Operator::Subtract => "-"@,
        Operator::Multiply => "*"@,
        Operator::Equal => "=="@,
        Operator::GreaterThan => ">"@,
        Operator::GreaterThanOrEqual => ">="@,
        Operator::LessThan => "<"@,
        Operator::LessThanOrEqual => "<="@,
    }
}

/// Whether an operator is arithmetic (its result is an integer).
pub open spec fn is_arithmetic(op: Operator) -> bool {
    op == Operator::Add || op == Operator::Subtract || op == Operator::Multiply
}

/// The type of an operator's result once both arguments are given.
pub open spec fn operator_result_type(op: Operator) -> Type {
    if is_arithmetic(op) {
        Type::Int
    } else {
        Type::Bool
    }
}

/// The declared type of an operator: `Int -> Int -> Int` for arithmetic,
/// `Int -> Int -> Bool` for comparisons.
pub open spec fn operator_type(op: Operator) -> Type {
    arrow_type(Type::Int, arrow_type(Type::Int, operator_result_type(op)))
}

/// Binding strength: comparisons 1, `+` and `-` 2, `*` 3.
pub open spec fn operator_precedence(op: Operator) -> u8 {
    if op == Operator::Multiply {
        3
    } else if op == Operator::Add || op == Operator::Subtract {
        2
    } else {
        1
    }
}

impl Operator {
    pub fn symbol(self) -> (s: &'static str)
        ensures
            s@ == operator_symbol(self),
    {
        match self {
            Operator::Add => "+",
            Operator::Subtract => "-",
            Operator::Multiply => "*",
            Operator::Equal => "==",
            Operator::GreaterThan => ">",
            Operator::GreaterThanOrEqual => ">=",
            Operator::LessThan => "<",
            Operator::LessThanOrEqual => "<=",
        }
    }

    pub fn typ(self) -> (t: Type)
        ensures
            t == operator_type(self),
    {
        let result = match self {
            Operator::Add | Operator::Subtract | Operator::Multiply => Type::Int,
            Operator::Equal
            | Operator::GreaterThan
            | Operator::GreaterThanOrEqual
            | Operator::LessThan
            | Operator::LessThanOrEqual => Type::Bool,
        };
        Type::arrow(Type::Int, Type::arrow(Type::Int, result))
    }

    pub fn precedence(self) -> (p: u8)
        ensures
            p == operator_precedence(self),
    {
        match self {
            Operator::Equal
            | Operator::GreaterThan
            | Operator::GreaterThanOrEqual
            | Operator::LessThan
            | Operator::LessThanOrEqual => 1,
            Operator::Add | Operator::Subtract => 2,
            Operator::Multiply => 3,
        }
    }

    /// The symbol as an owned string.
    pub fn to_string(self) -> (s: String)
        ensures
            s@ == operator_symbol(self),
    {
        String::from_str(self.symbol())
    }
}


/// Expressions; operators are curried functions, so `1 + 2` is `((+) 1) 2`.
#[derive(Debug, PartialEq, Eq)]
pub enum Expr {
    Literal(Value),
    Variable(String),
    Lambda { parameter: String, body: Box<Expr> },
    Apply(Box<Expr>, Box<Expr>),
    Operator(Operator),
}

/// Surface notation of an expression. A fully applied operator is written
/// infix in parentheses, any other application as `(function argument)`.
pub open spec fn expr_text(e: Expr) -> Seq<char>
    decreases e,
{
    match e {
        Expr::Literal(v) => value_text(v),
        Expr::Variable(name) => name@,
        Expr::Lambda { parameter, body } => "fun "@ + parameter@ + " -> "@ + expr_text(*body),
        Expr::Apply(function, right) => {
            if let Expr::Apply(operator, left) = *function {
                if let Expr::Operator(op) = *operator {
                    "("@ + expr_text(*left) + " "@ + operator_symbol(op) + " "@ + expr_text(*right)
                        + ")"@
                } else {
                    "("@ + expr_text(*function) + " "@ + expr_text(*right) + ")"@
                }
            } else {
                "("@ + expr_text(*function) + " "@ + expr_text(*right) + ")"@
            }
        },
        Expr::Operator(op) => operator_symbol(op),
    }
}

impl Expr {
    /// The same expression, as a new value.
    pub fn duplicate(&self) -> (e: Expr)
        ensures
            e == *self,
        decreases self,
    {
        match self {
            Expr::Literal(v) => Expr::Literal(*v),
            Expr::Variable(name) => Expr::Variable(name.clone()),
            Expr::Lambda { parameter, body } => Expr::Lambda {
                parameter: parameter.clone(),
                body: Box::new(body.duplicate()),
            },
            Expr::Apply(function, argument) => Expr::Apply(
                Box::new(function.duplicate()),
                Box::new(argument.duplicate()),
            ),
            Expr::Operator(op) => Expr::Operator(*op),
        }
    }

    fn write(&self, out: &mut String)
        ensures
            final(out)@ == old(out)@ + expr_text(*self),
        decreases self,
    {
        match self {
            Expr::Literal(v) => v.write(out),
            Expr::Variable(name) => out.append(name.as_str()),
            Expr::Lambda { parameter, body } => {
                out.append("fun ");
                out.append(parameter.as_str());
                out.append(" -> ");
                body.write(out);
                assert(out@ =~= old(out)@ + expr_text(*self));
            },
            Expr::Apply(function, right) => {
                let mut infix = false;
                if let Expr::Apply(operator, left) = &**function {
                    if let Expr::Operator(op) = &**operator {
                        infix = true;
                        out.append("(");
                        left.write(out);
                        out.append(" ");
                        out.append(op.symbol());
                        out.append(" ");
                        right.write(out);
                        out.append(")");
                        assert(out@ =~= old(out)@ + expr_text(*self));
                    }
                }
                if !infix {
                    out.append("(");
                    function.write(out);
                    out.append(" ");
                    right.write(out);
                    out.append(")");
                    assert(out@ =~= old(out)@ + expr_text(*self));
                }
            },
            Expr::Operator(op) => out.append(op.symbol()),
        }
    }

    /// The surface notation, such as `(1 + 2)`.
    pub fn to_string(&self) -> (s: String)
        ensures
            s@ == expr_text(*self),
    {
        let mut s = String::new();
        self.write(&mut s);
        assert(s@ =~= expr_text(*self));
        s
    }
}

impl Clone for Expr {
    fn clone(&self) -> (e: Self)
        ensures
            e == *self,
    {
        self.duplicate()
    }
}

/// A character that may start a variable name: an ASCII letter or `_`.
pub open spec fn is_name_start(c: char) -> bool {
    (65 <= c as u32 && c as u32 <= 90) || (97 <= c as u32 && c as u32 <= 122) || c == '_'
}

/// A character that may continue a variable name: an ASCII letter, digit or `_`.
pub open spec fn is_name_continue(c: char) -> bool {
    is_name_start(c) || (48 <= c as u32 && c as u32 <= 57)
}

/// Identifier rule of the language: a letter or `_`, then letters, digits or `_`.
pub open spec fn valid_variable_name(name: Seq<char>) -> bool {
    &&& name.len() > 0
    &&& is_name_start(name[0])
    &&& forall|i: int| 1 <= i < name.len() ==> is_name_continue(#[trigger] name[i])
}

fn name_start(c: char) -> (b: bool)
    ensures
        b == is_name_start(c),
{
    let u = c as u32;
    (65 <= u && u <= 90) || (97 <= u && u <= 122) || c == '_'
}

fn name_continue(c: char) -> (b: bool)
    ensures
        b == is_name_continue(c),
{
    let u = c as u32;
    name_start(c) || (48 <= u && u <= 57)
}

pub fn is_valid_variable_name(name: &str) -> (b: bool)
    ensures
        b == valid_variable_name(name@),
{
    let chars = crate::text::chars_of(name);
    if chars.len() == 0 {
        return false;
    }
    if !name_start(chars[0]) {
        return false;
    }
    let n = chars.len();
    for i in 1..n
        invariant
            n == chars@.len(),
            chars@ == name@,
            forall|j: int| 1 <= j < i ==> is_name_continue(#[trigger] chars@[j]),
    {
        if !name_continue(chars[i]) {
            return false;
        }
    }
    true
}

/// Reasons why a type cannot be inferred.
#[derive(Debug, Clone, PartialEq, Eq)]
pub enum TypeInferenceError {
    NotImplemented(&'static str),
    NotAFunction(Type),
    TypeMismatch { expected: Type, actual: Type },
}

/// Monomorphic inference: literals have their own type, operators their
/// declared type, and an application of `A -> B` to an argument of type
/// exactly `A` has type `B`. Variables and lambdas are not supported.
pub open spec fn infer_spec(e: Expr) -> Result<Type, TypeInferenceError>
    decreases e,
{
    match e {
        Expr::Literal(Value::Int(_)) => Ok(Type::Int),
        Expr::Literal(Value::Bool(_)) => Ok(Type::Bool),
        Expr::Variable(_) => Err(
            TypeInferenceError::NotImplemented("variable type inference is not implemented"),
        ),
        Expr::Lambda { .. } => Err(
            TypeInferenceError::NotImplemented("lambda type inference is not implemented"),
        ),
        Expr::Apply(function, argument) => match infer_spec(*function) {
            Err(error) => Err(error),
            Ok(function_type) => match infer_spec(*argument) {
                Err(error) => Err(error),
                Ok(argument_type) => match function_type {
                    Type::Arrow(expected, result) => if *expected == argument_type {
                        Ok(*result)
                    } else {
                        Err(
                            TypeInferenceError::TypeMismatch {
                                expected: *expected,
                                actual: argument_type,
                            },
                        )
                    },
                    _ => Err(TypeInferenceError::NotAFunction(function_type)),
                },
            },
        },
        Expr::Operator(op) => Ok(operator_type(op)),
    }
}

/// Infers monomorphic types for the expression forms supported by the demo.
pub fn infer_monomorphic(expression: &Expr) -> (r: Result<Type, TypeInferenceError>)
    ensures
        r == infer_spec(*expression),
    decreases expression,
{
    match expression {
        Expr::Literal(Value::Int(_)) => Ok(Type::Int),
        Expr::Literal(Value::Bool(_)) => Ok(Type::Bool),
        Expr::Variable(_) => Err(
            TypeInferenceError::NotImplemented("variable type inference is not implemented"),
        ),
        Expr::Lambda { .. } => Err(
            TypeInferenceError::NotImplemented("lambda type inference is not implemented"),
        ),
        Expr::Apply(function, argument) => {
            let function_type = infer_monomorphic(function)?;
            let argument_type = infer_monomorphic(argument)?;
            match function_type {
                Type::Arrow(expected_argument, result) => {
                    if !types_equal(&expected_argument, &argument_type) {
                        return Err(
                            TypeInferenceError::TypeMismatch {
                                expected: *expected_argument,
                                actual: argument_type,
                            },
                        );
                    }
                    Ok(*result)
                },
                _ => Err(TypeInferenceError::NotAFunction(function_type)),
            }
        },
        Expr::Operator(op) => Ok(op.typ()),
    }
}

/// Reasons why an expression cannot be evaluated.
#[derive(Debug, Clone, PartialEq, Eq)]
pub enum EvaluationError {
    NotSupported(&'static str),
    ExpectedInteger(Value),
    IntegerOverflow,
}

/// The result of a binary operator on two integers; arithmetic that leaves
/// the range of `i64` is an overflow error, never a wrapped value.
pub open spec fn apply_operator_spec(op: Operator, left: i64, right: i64) -> Result<
    Value,
    EvaluationError,
> {
    let exact: int = match op {
        Operator::Add => left + right,
        Operator::Subtract => left - right,
        _ => left * right,
    };
    match op {
        Operator::Add | Operator::Subtract | Operator::Multiply => if i64::MIN <= exact
            <= i64::MAX {
            Ok(Value::Int(exact as i64))
        } else {
            Err(EvaluationError::IntegerOverflow)
        },
        Operator::Equal => Ok(Value::Bool(left == right)),
        Operator::GreaterThan => Ok(Value::Bool(left > right)),
        Operator::GreaterThanOrEqual => Ok(Value::Bool(left >= right)),
        Operator::LessThan => Ok(Value::Bool(left < right)),
        Operator::LessThanOrEqual => Ok(Value::Bool(left <= right)),
    }
}

/// Evaluation of the supported forms: literals, and operators applied to
/// two arguments that evaluate to integers (left argument first).
pub open spec fn evaluate_spec(e: Expr) -> Result<Value, EvaluationError>
    decreases e,
{
    match e {
        Expr::Literal(v) => Ok(v),
        Expr::Variable(_) => Err(
            EvaluationError::NotSupported("variable evaluation is currently not supported"),
        ),
        Expr::Lambda { .. } => Err(
            EvaluationError::NotSupported("lambda evaluation is currently not supported"),
        ),
        Expr::Apply(function, right) => match *function {
            Expr::Apply(operator, left) => match *operator {
                Expr::Operator(op) => match evaluate_spec(*left) {
                    Err(error) => Err(error),
                    Ok(Value::Bool(b)) => Err(EvaluationError::ExpectedInteger(Value::Bool(b))),
                    Ok(Value::Int(l)) => match evaluate_spec(*right) {
                        Err(error) => Err(error),
                        Ok(Value::Bool(b)) => Err(
                            EvaluationError::ExpectedInteger(Value::Bool(b)),
                        ),
                        Ok(Value::Int(r)) => apply_operator_spec(op, l, r),
                    },
                },
                _ => Err(
                    EvaluationError::NotSupported(
                        "function evaluation is currently not implemented",
                    ),
                ),
            },
            _ => Err(
                EvaluationError::NotSupported("partially applied functions cannot be evaluated yet"),
            ),
        },
        Expr::Operator(_) => Err(
            EvaluationError::NotSupported("operator evaluation is currently not supported"),
        ),
    }
}

/// Evaluates the expression forms supported by the demo.
pub fn evaluate(expression: &Expr) -> (r: Result<Value, EvaluationError>)
    ensures
        r == evaluate_spec(*expression),
    decreases expression,
{
    match expression {
        Expr::Literal(value) => Ok(*value),
        Expr::Variable(_) => Err(
            EvaluationError::NotSupported("variable evaluation is currently not supported"),
        ),
        Expr::Lambda { .. } => Err(
            EvaluationError::NotSupported("lambda evaluation is currently not supported"),
        ),
        Expr::Apply(function, right) => {
            let (operator, left) = match &**function {
                Expr::Apply(operator, left) => (operator, left),
                _ => {
                    return Err(
                        EvaluationError::NotSupported(
                            "partially applied functions cannot be evaluated yet",
                        ),
                    );
                },
            };
            let op = match &**operator {
                Expr::Operator(op) => *op,
                _ => {
                    return Err(
                        EvaluationError::NotSupported(
                            "function evaluation is currently not implemented",
                        ),
                    );
                },
            };
            let left = expect_integer(evaluate(left)?)?;
            let right = expect_integer(evaluate(right)?)?;
            apply_operator(op, left, right)
        },
        Expr::Operator(_) => Err(
            EvaluationError::NotSupported("operator evaluation is currently not supported"),
        ),
    }
}

fn apply_operator(op: Operator, left: i64, right: i64) -> (r: Result<Value, EvaluationError>)
    ensures
        r == apply_operator_spec(op, left, right),
{
    match op {
        Operator::Add => match left.checked_add(right) {
            Some(v) => Ok(Value::Int(v)),
            None => Err(EvaluationError::IntegerOverflow),
        },
        Operator::Subtract => match left.checked_sub(right) {
            Some(v) => Ok(Value::Int(v)),
            None => Err(EvaluationError::IntegerOverflow),
        },
        Operator::Multiply => match left.checked_mul(right) {
            Some(v) => Ok(Value::Int(v)),
            None => Err(EvaluationError::IntegerOverflow),
        },
        Operator::Equal => Ok(Value::Bool(left == right)),
        Operator::GreaterThan => Ok(Value::Bool(left > right)),
        Operator::GreaterThanOrEqual => Ok(Value::Bool(left >= right)),
        Operator::LessThan => Ok(Value::Bool(left < right)),
        Operator::LessThanOrEqual => Ok(Value::Bool(left <= right)),
    }
}

fn expect_integer(value: Value) -> (r: Result<i64, EvaluationError>)
    ensures
        r == match value {
            Value::Int(n) => Ok::<i64, EvaluationError>(n),
            Value::Bool(b) => Err(EvaluationError::ExpectedInteger(value)),
        },
{
    match value {
        Value::Int(n) => Ok(n),
        value => Err(EvaluationError::ExpectedInteger(value)),
    }
}


/// How `{:?}` renders a type, such as `Arrow(Int, Bool)`.
pub open spec fn type_debug_text(t: Type) -> Seq<char>
    decreases t,
{
    match t {
        Type::Int => "Int"@,
        Type::Bool => "Bool"@,
        Type::Var(id) => "Var(TypeVarId("@ + decimal(id.index() as nat) + "))"@,
        Type::Arrow(input, output) => "Arrow("@ + type_debug_text(*input) + ", "@
            + type_debug_text(*output) + ")"@,
    }
}

/// How `{:?}` renders an inference error.
pub open spec fn inference_error_debug_text(e: TypeInferenceError) -> Seq<char> {
    match e {
        TypeInferenceError::NotImplemented(message) => "NotImplemented("@ + debug_str_text(
            message@,
        ) + ")"@,
        TypeInferenceError::NotAFunction(t) => "NotAFunction("@ + type_debug_text(t) + ")"@,
        TypeInferenceError::TypeMismatch { expected, actual } => "TypeMismatch { expected: "@
            + type_debug_text(expected) + ", actual: "@ + type_debug_text(actual) + " }"@,
    }
}

/// How `{:?}` renders an evaluation error.
pub open spec fn evaluation_error_debug_text(e: EvaluationError) -> Seq<char> {
    match e {
        EvaluationError::NotSupported(message) => "NotSupported("@ + debug_str_text(message@)
            + ")"@,
        EvaluationError::ExpectedInteger(v) => "ExpectedInteger("@ + value_debug_text(v) + ")"@,
        EvaluationError::IntegerOverflow => "IntegerOverflow"@,
    }
}

impl Type {
    fn write_debug(&self, out: &mut String)
        ensures
            final(out)@ == old(out)@ + type_debug_text(*self),
        decreases self,
    {
        match self {
            Type::Int => out.append("Int"),
            Type::Bool => out.append("Bool"),
            Type::Var(id) => {
                out.append("Var(TypeVarId(");
                push_decimal(out, id.0 as u64);
                out.append("))");
                assert(out@ =~= old(out)@ + type_debug_text(*self));
            },
            Type::Arrow(input, output) => {
                out.append("Arrow(");
                input.write_debug(out);
                out.append(", ");
                output.write_debug(out);
                out.append(")");
                assert(out@ =~= old(out)@ + type_debug_text(*self));
            },
        }
    }

    /// The text that `{:?}` gives, such as `Arrow(Int, Int)`.
    pub fn debug_text(&self) -> (s: String)
        ensures
            s@ == type_debug_text(*self),
    {
        let mut s = String::new();
        self.write_debug(&mut s);
        assert(s@ =~= type_debug_text(*self));
        s
    }
}

impl TypeInferenceError {
    /// The text that `{:?}` gives, such as `NotAFunction(Int)`.
    pub fn debug_text(&self) -> (s: String)
        ensures
            s@ == inference_error_debug_text(*self),
    {
        let mut s = String::new();
        match self {
            TypeInferenceError::NotImplemented(message) => {
                s.append("NotImplemented(");
                push_debug_str(&mut s, message);
                s.append(")");
            },
            TypeInferenceError::NotAFunction(t) => {
                s.append("NotAFunction(");
                t.write_debug(&mut s);
                s.append(")");
            },
            TypeInferenceError::TypeMismatch { expected, actual } => {
                s.append("TypeMismatch { expected: ");
                expected.write_debug(&mut s);
                s.append(", actual: ");
                actual.write_debug(&mut s);
                s.append(" }");
            },
        }
        assert(s@ =~= inference_error_debug_text(*self));
        s
    }
}

impl EvaluationError {
    /// The text that `{:?}` gives, such as `IntegerOverflow`.
    pub fn debug_text(&self) -> (s: String)
        ensures
            s@ == evaluation_error_debug_text(*self),
    {
        let mut s = String::new();
        match self {
            EvaluationError::NotSupported(message) => {
                s.append("NotSupported(");
                push_debug_str(&mut s, message);
                s.append(")");
            },
            EvaluationError::ExpectedInteger(v) => {
                s.append("ExpectedInteger(");
                let inner = v.debug_text();
                s.append(inner.as_str());
                s.append(")");
            },
            EvaluationError::IntegerOverflow => s.append("IntegerOverflow"),
        }
        assert(s@ =~= evaluation_error_debug_text(*self));
        s
    }
}

/// The type of a value.
pub open spec fn value_type(v: Value) -> Type {
    match v {
        Value::Int(_) => Type::Int,
        Value::Bool(_) => Type::Bool,
    }
}

/// Types whose values are plain data rather than functions.
pub open spec fn is_first_order(t: Type) -> bool {
    t == Type::Int || t == Type::Bool
}

/// Every type that inference can produce: a first-order type, or an
/// operator's type with zero or one argument supplied.
pub open spec fn inferable_type(t: Type) -> bool {
    ||| is_first_order(t)
    ||| (exists|r: Type| is_first_order(r) && t == #[trigger] arrow_type(Type::Int, r))
    ||| (exists|r: Type|
        is_first_order(r) && t == #[trigger] arrow_type(Type::Int, arrow_type(Type::Int, r)))
}

proof fn lemma_inferred_types_are_inferable(e: Expr)
    requires
        infer_spec(e) is Ok,
    ensures
        inferable_type(infer_spec(e)->Ok_0),
    decreases e,
{
    match e {
        Expr::Apply(function, argument) => {
            lemma_inferred_types_are_inferable(*function);
            let ft = infer_spec(*function)->Ok_0;
            if is_first_order(ft) {
            } else if exists|r: Type| is_first_order(r) && ft == #[trigger] arrow_type(Type::Int, r) {
                let r = choose|r: Type| is_first_order(r) && ft == #[trigger] arrow_type(Type::Int, r);
                assert(infer_spec(e)->Ok_0 == r);
            } else {
                let r = choose|r: Type|
                    is_first_order(r) && ft == #[trigger] arrow_type(
                        Type::Int,
                        arrow_type(Type::Int, r),
                    );
                assert(infer_spec(e)->Ok_0 == arrow_type(Type::Int, r));
            }
        },
        Expr::Operator(op) => {
            assert(is_first_order(operator_result_type(op)));
        },
        _ => {},
    }
}

/// Type preservation: when an expression has a type and evaluates to a
/// value, the value has that type.
pub proof fn lemma_evaluation_preserves_type(e: Expr)
    requires
        infer_spec(e) is Ok,
        evaluate_spec(e) is Ok,
    ensures
        value_type(evaluate_spec(e)->Ok_0) == infer_spec(e)->Ok_0,
    decreases e,
{
    match e {
        Expr::Apply(function, right) => {
            if let Expr::Apply(operator, left) = *function {
                if let Expr::Operator(op) = *operator {
                    assert(infer_spec(*operator) == Ok::<Type, TypeInferenceError>(
                        operator_type(op),
                    ));
                    assert(infer_spec(*function) == Ok::<Type, TypeInferenceError>(
                        arrow_type(Type::Int, operator_result_type(op)),
                    ));
                }
            }
        },
        _ => {},
    }
}

/// Progress: an expression whose type is `Int` or `Bool` evaluates to a
/// value, unless integer arithmetic overflows.
pub proof fn lemma_well_typed_data_evaluates(e: Expr)
    requires
        infer_spec(e) is Ok,
        is_first_order(infer_spec(e)->Ok_0),
    ensures
        evaluate_spec(e) is Ok || evaluate_spec(e) == Err::<Value, EvaluationError>(
            EvaluationError::IntegerOverflow,
        ),
    decreases e,
{
    match e {
        Expr::Apply(function, right) => {
            let ft = infer_spec(*function)->Ok_0;
            match *function {
                Expr::Apply(operator, left) => {
                    lemma_inferred_types_are_inferable(*operator);
                    let ot = infer_spec(*operator)->Ok_0;
                    match *operator {
                        Expr::Operator(op) => {
                            assert(infer_spec(*left) == Ok::<Type, TypeInferenceError>(Type::Int));
                            assert(infer_spec(*right) == Ok::<Type, TypeInferenceError>(
                                Type::Int,
                            ));
                            lemma_well_typed_data_evaluates(*left);
                            lemma_well_typed_data_evaluates(*right);
                            if evaluate_spec(*left) is Ok {
                                lemma_evaluation_preserves_type(*left);
                            }
                            if evaluate_spec(*right) is Ok {
                                lemma_evaluation_preserves_type(*right);
                            }
                        },
                        Expr::Apply(inner, x) => {
                            lemma_inferred_types_are_inferable(*inner);
                            assert(false);
                        },
                        _ => {
                            assert(false);
                        },
                    }
                },
                Expr::Operator(op) => {
                    assert(false);
                },
                _ => {
                    assert(false);
                },
            }
        },
        Expr::Operator(op) => {
            assert(false);
        },
        _ => {},
    }
}

/// The expression `x op y` on two integer literals.
pub open spec fn applied_to_literals(op: Operator, x: i64, y: i64) -> Expr {
    Expr::Apply(
        Box::new(Expr::Apply(Box::new(Expr::Operator(op)), Box::new(Expr::Literal(Value::Int(x))))),
        Box::new(Expr::Literal(Value::Int(y))),
    )
}

/// Each operator computes its mathematical meaning on the left operand and
/// the right one: the comparisons give the truth of `x == y`, `x > y`,
/// `x >= y`, `x < y` and `x <= y`; `+`, `-` and `*` give the exact sum,
/// difference and product when it fits in `i64`, and an overflow error when
/// it does not.
pub proof fn lemma_operators_compute_their_meaning(x: i64, y: i64)
    ensures
        evaluate_spec(applied_to_literals(Operator::Equal, x, y)) == Ok::<Value, EvaluationError>(
            Value::Bool(x == y),
        ),
        evaluate_spec(applied_to_literals(Operator::GreaterThan, x, y)) == Ok::<
            Value,
            EvaluationError,
        >(Value::Bool(x > y)),
        evaluate_spec(applied_to_literals(Operator::GreaterThanOrEqual, x, y)) == Ok::<
            Value,
            EvaluationError,
        >(Value::Bool(x >= y)),
        evaluate_spec(applied_to_literals(Operator::LessThan, x, y)) == Ok::<Value, EvaluationError>(
            Value::Bool(x < y),
        ),
        evaluate_spec(applied_to_literals(Operator::LessThanOrEqual, x, y)) == Ok::<
            Value,
            EvaluationError,
        >(Value::Bool(x <= y)),
        i64::MIN <= x + y <= i64::MAX ==> evaluate_spec(applied_to_literals(Operator::Add, x, y))
            == Ok::<Value, EvaluationError>(Value::Int((x + y) as i64)),
        !(i64::MIN <= x + y <= i64::MAX) ==> evaluate_spec(
            applied_to_literals(Operator::Add, x, y),
        ) == Err::<Value, EvaluationError>(EvaluationError::IntegerOverflow),
        i64::MIN <= x - y <= i64::MAX ==> evaluate_spec(
            applied_to_literals(Operator::Subtract, x, y),
        ) == Ok::<Value, EvaluationError>(Value::Int((x - y) as i64)),
        !(i64::MIN <= x - y <= i64::MAX) ==> evaluate_spec(
            applied_to_literals(Operator::Subtract, x, y),
        ) == Err::<Value, EvaluationError>(EvaluationError::IntegerOverflow),
        i64::MIN <= x * y <= i64::MAX ==> evaluate_spec(
            applied_to_literals(Operator::Multiply, x, y),
        ) == Ok::<Value, EvaluationError>(Value::Int((x * y) as i64)),
        !(i64::MIN <= x * y <= i64::MAX) ==> evaluate_spec(
            applied_to_literals(Operator::Multiply, x, y),
        ) == Err::<Value, EvaluationError>(EvaluationError::IntegerOverflow),
{
    reveal_with_fuel(evaluate_spec, 2);
}

/// The comparisons agree with one another: `<=` is the negation of `>`,
/// `>=` the negation of `<`, swapping the operands turns `<` into `>` and
/// `<=` into `>=`, `==` is symmetric, and every integer is `<=` and `>=`
/// itself but not `<` or `>` itself.
pub proof fn lemma_comparisons_are_consistent(x: i64, y: i64)
    ensures
        evaluate_spec(applied_to_literals(Operator::LessThanOrEqual, x, y)) is Ok,
        evaluate_spec(applied_to_literals(Operator::LessThanOrEqual, x, y)) == match evaluate_spec(
            applied_to_literals(Operator::GreaterThan, x, y),
        ) {
            Ok(Value::Bool(b)) => Ok::<Value, EvaluationError>(Value::Bool(!b)),
            other => other,
        },
        evaluate_spec(applied_to_literals(Operator::GreaterThanOrEqual, x, y)) == match evaluate_spec(
            applied_to_literals(Operator::LessThan, x, y),
        ) {
            Ok(Value::Bool(b)) => Ok::<Value, EvaluationError>(Value::Bool(!b)),
            other => other,
        },
        evaluate_spec(applied_to_literals(Operator::LessThan, x, y)) == evaluate_spec(
            applied_to_literals(Operator::GreaterThan, y, x),
        ),
        evaluate_spec(applied_to_literals(Operator::LessThanOrEqual, x, y)) == evaluate_spec(
            applied_to_literals(Operator::GreaterThanOrEqual, y, x),
        ),
        evaluate_spec(applied_to_literals(Operator::Equal, x, y)) == evaluate_spec(
            applied_to_literals(Operator::Equal, y, x),
        ),
        evaluate_spec(applied_to_literals(Operator::LessThanOrEqual, x, x)) == Ok::<
            Value,
            EvaluationError,
        >(Value::Bool(true)),
        evaluate_spec(applied_to_literals(Operator::GreaterThanOrEqual, x, x)) == Ok::<
            Value,
            EvaluationError,
        >(Value::Bool(true)),
        evaluate_spec(applied_to_literals(Operator::LessThan, x, x)) == Ok::<Value, EvaluationError>(
            Value::Bool(false),
        ),
        evaluate_spec(applied_to_literals(Operator::GreaterThan, x, x)) == Ok::<
            Value,
            EvaluationError,
        >(Value::Bool(false)),
{
    lemma_operators_compute_their_meaning(x, y);
    lemma_operators_compute_their_meaning(y, x);
    lemma_operators_compute_their_meaning(x, x);
}

/// Whether `c` lies between `lo` and `hi` (inclusive), by code point.
pub open spec fn char_between(c: char, lo: char, hi: char) -> bool {
    (lo as u32) <= (c as u32) && (c as u32) <= (hi as u32)
}

/// Variable names are the nonempty texts of ASCII letters, digits and
/// underscores that do not start with a digit; any other character, anywhere,
/// makes a name invalid.
pub proof fn lemma_identifier_rule(name: Seq<char>)
    ensures
        valid_variable_name(name) <==> (name.len() > 0 && !char_between(name[0], '0', '9')
            && forall|i: int|
            0 <= i < name.len() ==> char_between(#[trigger] name[i], 'a', 'z') || char_between(
                name[i],
                'A',
                'Z',
            ) || char_between(name[i], '0', '9') || name[i] == '_'),
{
    if valid_variable_name(name) {
        assert forall|i: int| 0 <= i < name.len() implies char_between(#[trigger] name[i], 'a', 'z')
            || char_between(name[i], 'A', 'Z') || char_between(name[i], '0', '9') || name[i]
            == '_' by {
            if i == 0 {
                assert(is_name_start(name[0]));
            } else {
                assert(is_name_continue(name[i]));
            }
        }
    }
}

} // verus!
