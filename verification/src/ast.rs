//! The expression AST: literals, binary operators, expressions, the visitor
//! protocol, and the fully parenthesized inline formatter.

use vstd::prelude::*;

use crate::decimal::{append_i64, dec_int};

verus! {

/// 64-bit wrapping addition, as a spec-level function.
pub open spec fn wrap_add(a: i64, b: i64) -> i64 {
    vstd::wrapping::i64_specs::wrapping_add(a, b)
}

/// 64-bit wrapping subtraction, as a spec-level function.
pub open spec fn wrap_sub(a: i64, b: i64) -> i64 {
    vstd::wrapping::i64_specs::wrapping_sub(a, b)
}

/// 64-bit wrapping multiplication, as a spec-level function.
pub open spec fn wrap_mul(a: i64, b: i64) -> i64 {
    vstd::wrapping::i64_specs::wrapping_mul(a, b)
}

/// 64-bit wrapping absolute value: the magnitude, except that the minimum
/// value maps to itself.
pub open spec fn wrap_abs(a: i64) -> i64 {
    if a == i64::MIN {
        i64::MIN
    } else if a < 0 {
        (-a) as i64
    } else {
        a
    }
}

/// 64-bit wrapping negation: the opposite value, except that the minimum
/// value maps to itself.
pub open spec fn wrap_neg(a: i64) -> i64 {
    if a == i64::MIN {
        i64::MIN
    } else {
        (-a) as i64
    }
}

/// A range literal: an inclusive start point, an inclusive end point, and an
/// optional step magnitude (default 1 when absent).
///
/// The range may ascend (`start <= end`) or descend (`start > end`); the sign
/// of the step is forced to match that direction. Enumeration begins at
/// `start`, advances by wrapping addition, and stops before any value that
/// would overshoot `end` or fail to move strictly toward it.
#[derive(Debug, Clone, Copy, PartialEq, Eq)]
pub struct RangeLiteral {
    /// The start of the range, inclusive.
    pub start: i64,
    /// The end of the range, inclusive.
    pub end: i64,
    /// The step of the range. If `None`, defaults to 1.
    pub step: Option<i64>,
}

/// Whether enumeration stops after `cur`, given the wrapping successor
/// `next`: `next` overshoots `end`, or fails to move strictly in the range's
/// direction (which also covers wraparound).
pub open spec fn range_stops(cur: i64, next: i64, end: i64, inc: bool) -> bool {
    if inc {
        next > end || next <= cur
    } else {
        next < end || next >= cur
    }
}

/// The values enumerated from `cur` toward `end` by wrapping steps of `step`.
pub open spec fn range_seq(cur: i64, end: i64, step: i64, inc: bool) -> Seq<i64>
    decreases (if inc { end - cur } else { cur - end }),
        when (if inc { cur <= end } else { cur >= end })
{
    let next = wrap_add(cur, step);
    if range_stops(cur, next, end, inc) {
        seq![cur]
    } else {
        seq![cur] + range_seq(next, end, step, inc)
    }
}

impl RangeLiteral {
    /// Whether the range ascends.
    pub open spec fn ascending(self) -> bool {
        self.end >= self.start
    }

    /// The step magnitude: `|step|` under wrapping negation, or 1 when absent.
    pub open spec fn step_mag(self) -> i64 {
        match self.step {
            Some(s) => wrap_abs(s),
            None => 1,
        }
    }

    /// The signed effective step: the magnitude, negated for descending
    /// ranges.
    pub open spec fn eff_step(self) -> i64 {
        if self.ascending() {
            self.step_mag()
        } else {
            wrap_neg(self.step_mag())
        }
    }

    /// The full sequence of values this range enumerates.
    pub open spec fn seq(self) -> Seq<i64> {
        range_seq(self.start, self.end, self.eff_step(), self.ascending())
    }

    /// Collects the range into a vector of its enumerated values.
    pub fn to_vec(&self) -> (v: Vec<i64>)
        ensures
            v@ == self.seq(),
    {
        let inc = self.end >= self.start;
        let mag: i64 = match self.step {
            Some(s) => {
                if s == i64::MIN {
                    i64::MIN
                } else if s < 0 {
                    -s
                } else {
                    s
                }
            },
            None => 1,
        };
        let step: i64 = if inc {
            mag
        } else {
            if mag == i64::MIN {
                i64::MIN
            } else {
                -mag
            }
        };
        let mut v: Vec<i64> = Vec::new();
        let mut cur: i64 = self.start;
        proof {
            assert(self.seq() =~= v@ + range_seq(cur, self.end, step, inc));
        }
        loop
            invariant_except_break
                inc == self.ascending(),
                step == self.eff_step(),
                if inc { cur <= self.end } else { cur >= self.end },
                self.seq() == v@ + range_seq(cur, self.end, step, inc),
            ensures
                v@ == self.seq(),
            decreases (if inc { self.end - cur } else { cur - self.end }),
        {
            v.push(cur);
            let next = cur.wrapping_add(step);
            if (inc && (next > self.end || next <= cur)) || (!inc && (next < self.end
                || next >= cur)) {
                proof {
                    assert(range_seq(cur, self.end, step, inc) =~= seq![cur]);
                    assert(v@ =~= self.seq());
                }
                break;
            }
            proof {
                assert(range_seq(cur, self.end, step, inc) =~= seq![cur] + range_seq(
                    next,
                    self.end,
                    step,
                    inc,
                ));
                assert(self.seq() =~= v@ + range_seq(next, self.end, step, inc));
            }
            cur = next;
        }
        v
    }
}

/// The sequence a range enumerates is never empty; it always begins with
/// `start`.
pub proof fn lemma_range_seq_first(r: RangeLiteral)
    ensures
        r.seq().len() >= 1,
        r.seq()[0] == r.start,
{
    assert(r.seq() == range_seq(r.start, r.end, r.eff_step(), r.ascending()));
    let next = wrap_add(r.start, r.eff_step());
    if range_stops(r.start, next, r.end, r.ascending()) {
        assert(r.seq() =~= seq![r.start]);
    } else {
        assert(r.seq() =~= seq![r.start] + range_seq(next, r.end, r.eff_step(), r.ascending()));
    }
}

/// The signed effective step for a given magnitude and direction.
pub open spec fn signed_step(mag: i64, inc: bool) -> i64 {
    if inc {
        mag
    } else {
        (-mag) as i64
    }
}

/// Helper induction for [`lemma_range_monotonic`]: with a non-negative step
/// magnitude, enumeration never wraps, stays between the current point and
/// the end, and advances by exactly the magnitude each step.
proof fn lemma_range_seq_props(cur: i64, end: i64, mag: i64, inc: bool)
    requires
        0 <= mag,
        inc ==> cur <= end,
        !inc ==> cur >= end,
    ensures
        range_seq(cur, end, signed_step(mag, inc), inc).len() >= 1,
        range_seq(cur, end, signed_step(mag, inc), inc)[0] == cur,
        forall|i: int|
            0 <= i < range_seq(cur, end, signed_step(mag, inc), inc).len() ==> (if inc {
                cur <= #[trigger] range_seq(cur, end, signed_step(mag, inc), inc)[i] <= end
            } else {
                end <= range_seq(cur, end, signed_step(mag, inc), inc)[i] <= cur
            }),
        forall|i: int|
            0 <= i < range_seq(cur, end, signed_step(mag, inc), inc).len() - 1
                ==> #[trigger] range_seq(cur, end, signed_step(mag, inc), inc)[i + 1] == range_seq(
                cur,
                end,
                signed_step(mag, inc),
                inc,
            )[i] + (if inc {
                mag as int
            } else {
                -mag as int
            }),
    decreases (if inc { end - cur } else { cur - end }),
{
    let step = signed_step(mag, inc);
    let next = wrap_add(cur, step);
    let s = range_seq(cur, end, step, inc);
    if range_stops(cur, next, end, inc) {
        assert(s =~= seq![cur]);
    } else {
        assert(next == cur + (if inc { mag as int } else { -mag as int }));
        lemma_range_seq_props(next, end, mag, inc);
        let rest = range_seq(next, end, step, inc);
        assert(s =~= seq![cur] + rest);
        assert(s[0] == cur);
        assert forall|i: int| 0 <= i < s.len() implies (if inc {
            cur <= #[trigger] s[i] <= end
        } else {
            end <= s[i] <= cur
        }) by {
            if i >= 1 {
                assert(s[i] == rest[i - 1]);
            }
        }
        assert forall|i: int| 0 <= i < s.len() - 1 implies #[trigger] s[i + 1] == s[i] + (if inc {
            mag as int
        } else {
            -mag as int
        }) by {
            if i == 0 {
                assert(s[1] == rest[0]);
            } else {
                assert(s[i + 1] == rest[i]);
                assert(s[i] == rest[i - 1]);
                assert(rest[(i - 1) + 1] == rest[i - 1] + (if inc {
                    mag as int
                } else {
                    -mag as int
                }));
            }
        }
    }
}

/// For any range whose step is not the minimum 64-bit value, the enumerated
/// sequence starts at `start`, is monotonic in the direction of `end - start`,
/// never passes `end` in that direction, and consecutive values differ by
/// exactly the step magnitude (1 when the step is absent).
pub proof fn lemma_range_monotonic(r: RangeLiteral)
    requires
        r.step matches Some(s) ==> s != i64::MIN,
    ensures
        r.seq().len() >= 1,
        r.seq()[0] == r.start,
        forall|i: int|
            0 <= i < r.seq().len() ==> (if r.ascending() {
                r.start <= #[trigger] r.seq()[i] <= r.end
            } else {
                r.end <= r.seq()[i] <= r.start
            }),
        forall|i: int|
            0 <= i < r.seq().len() - 1 ==> #[trigger] r.seq()[i + 1] == r.seq()[i] + (
            if r.ascending() {
                r.step_mag() as int
            } else {
                -r.step_mag() as int
            }),
{
    let mag = r.step_mag();
    let inc = r.ascending();
    assert(mag >= 0);
    assert(r.eff_step() == signed_step(mag, inc));
    lemma_range_seq_props(r.start, r.end, mag, inc);
    let s = range_seq(r.start, r.end, signed_step(mag, inc), inc);
    assert(r.seq() == s);
    assert forall|i: int| 0 <= i < r.seq().len() implies (if r.ascending() {
        r.start <= #[trigger] r.seq()[i] <= r.end
    } else {
        r.end <= r.seq()[i] <= r.start
    }) by {
        assert(r.seq()[i] == s[i]);
    }
    assert forall|i: int| 0 <= i < r.seq().len() - 1 implies #[trigger] r.seq()[i + 1] == r.seq()[i]
        + (if r.ascending() {
        r.step_mag() as int
    } else {
        -r.step_mag() as int
    }) by {
        assert(r.seq()[i + 1] == s[i + 1]);
        assert(r.seq()[i] == s[i]);
    }
}

/// A literal value in an expression.
#[derive(Debug, Clone, PartialEq, Eq)]
pub enum Literal {
    /// An integer literal.
    Int(i64),
    /// An explicit list literal, e.g. `{1, 2, 3}`.
    List(Vec<i64>),
    /// A range list literal, e.g. `[1, 5, 2]`.
    Range(RangeLiteral),
}

/// A binary operator of the expression language.
#[derive(Debug, Copy, Clone, PartialEq, Eq)]
pub enum BinaryOperator {
    /// The dice roll operator `d`.
    DiceRoll,
    /// The keep highest operator `kh`.
    KeepHighest,
    /// The keep lowest operator `kl`.
    KeepLowest,
    /// The drop highest operator `dh`.
    DropHighest,
    /// The drop lowest operator `dl`.
    DropLowest,
    /// The multiplication operator `*`.
    Multiplication,
    /// The addition operator `+`.
    Addition,
    /// The subtraction operator `-`.
    Subtraction,
    /// The equal operator `==`.
    Equal,
    /// The not equal operator `!=`.
    NotEqual,
    /// The less than operator `<`.
    LessThan,
    /// The less than or equal operator `<=`.
    LessEqual,
    /// The greater than operator `>`.
    GreaterThan,
    /// The greater than or equal operator `>=`.
    GreaterEqual,
}

/// The fixed precedence of each operator: dice roll binds tightest, then the
/// keep/drop family, then multiplication, then addition and subtraction, then
/// the comparisons.
pub open spec fn op_precedence(op: BinaryOperator) -> u16 {
    match op {
        BinaryOperator::DiceRoll => 150,
        BinaryOperator::KeepHighest => 130,
        BinaryOperator::KeepLowest => 130,
        BinaryOperator::DropHighest => 130,
        BinaryOperator::DropLowest => 130,
        BinaryOperator::Multiplication => 90,
        BinaryOperator::Addition => 70,
        BinaryOperator::Subtraction => 70,
        BinaryOperator::Equal => 50,
        BinaryOperator::NotEqual => 50,
        BinaryOperator::LessThan => 50,
        BinaryOperator::LessEqual => 50,
        BinaryOperator::GreaterThan => 50,
        BinaryOperator::GreaterEqual => 50,
    }
}

/// Whether an operator associates to the right; only the dice roll does.
pub open spec fn op_right_assoc(op: BinaryOperator) -> bool {
    op is DiceRoll
}

/// The display token of each operator.
pub open spec fn op_token(op: BinaryOperator) -> Seq<char> {
    match op {
        BinaryOperator::DiceRoll => "d"@,
        BinaryOperator::KeepHighest => "kh"@,
        BinaryOperator::KeepLowest => "kl"@,
        BinaryOperator::DropHighest => "dh"@,
        BinaryOperator::DropLowest => "dl"@,
        BinaryOperator::Multiplication => "*"@,
        BinaryOperator::Addition => "+"@,
        BinaryOperator::Subtraction => "-"@,
        BinaryOperator::Equal => "=="@,
        BinaryOperator::NotEqual => "!="@,
        BinaryOperator::LessThan => "<"@,
        BinaryOperator::LessEqual => "<="@,
        BinaryOperator::GreaterThan => ">"@,
        BinaryOperator::GreaterEqual => ">="@,
    }
}

/// The human-readable description of each operator.
pub open spec fn op_desc(op: BinaryOperator) -> Seq<char> {
    match op {
        BinaryOperator::DiceRoll => "Dice Roll"@,
        BinaryOperator::KeepHighest => "Keep Highest"@,
        BinaryOperator::KeepLowest => "Keep Lowest"@,
        BinaryOperator::DropHighest => "Drop Highest"@,
        BinaryOperator::DropLowest => "Drop Lowest"@,
        BinaryOperator::Multiplication => "Multiplication"@,
        BinaryOperator::Addition => "Addition"@,
        BinaryOperator::Subtraction => "Subtraction"@,
        BinaryOperator::Equal => "Equal"@,
        BinaryOperator::NotEqual => "Not Equal"@,
        BinaryOperator::LessThan => "Less Than"@,
        BinaryOperator::LessEqual => "Less or Equal"@,
        BinaryOperator::GreaterThan => "Greater Than"@,
        BinaryOperator::GreaterEqual => "Greater or Equal"@,
    }
}

impl BinaryOperator {
    /// Returns the precedence of the operator; a higher value binds tighter.
    pub fn precedence(&self) -> (p: u16)
        ensures
            p == op_precedence(*self),
    {
        match self {
            BinaryOperator::DiceRoll => 150,
            BinaryOperator::KeepHighest => 130,
            BinaryOperator::KeepLowest => 130,
            BinaryOperator::DropHighest => 130,
            BinaryOperator::DropLowest => 130,
            BinaryOperator::Multiplication => 90,
            BinaryOperator::Addition => 70,
            BinaryOperator::Subtraction => 70,
            BinaryOperator::Equal => 50,
            BinaryOperator::NotEqual => 50,
            BinaryOperator::LessThan => 50,
            BinaryOperator::LessEqual => 50,
            BinaryOperator::GreaterThan => 50,
            BinaryOperator::GreaterEqual => 50,
        }
    }

    /// Returns the display token of the operator.
    pub fn to_str(&self) -> (r: &'static str)
        ensures
            r@ == op_token(*self),
    {
        match self {
            BinaryOperator::DiceRoll => "d",
            BinaryOperator::KeepHighest => "kh",
            BinaryOperator::KeepLowest => "kl",
            BinaryOperator::DropHighest => "dh",
            BinaryOperator::DropLowest => "dl",
            BinaryOperator::Multiplication => "*",
            BinaryOperator::Addition => "+",
            BinaryOperator::Subtraction => "-",
            BinaryOperator::Equal => "==",
            BinaryOperator::NotEqual => "!=",
            BinaryOperator::LessThan => "<",
            BinaryOperator::LessEqual => "<=",
            BinaryOperator::GreaterThan => ">",
            BinaryOperator::GreaterEqual => ">=",
        }
    }

    /// Returns a description of the operator.
    pub fn desc(&self) -> (r: &'static str)
        ensures
            r@ == op_desc(*self),
    {
        match self {
            BinaryOperator::DiceRoll => "Dice Roll",
            BinaryOperator::KeepHighest => "Keep Highest",
            BinaryOperator::KeepLowest => "Keep Lowest",
            BinaryOperator::DropHighest => "Drop Highest",
            BinaryOperator::DropLowest => "Drop Lowest",
            BinaryOperator::Multiplication => "Multiplication",
            BinaryOperator::Addition => "Addition",
            BinaryOperator::Subtraction => "Subtraction",
            BinaryOperator::Equal => "Equal",
            BinaryOperator::NotEqual => "Not Equal",
            BinaryOperator::LessThan => "Less Than",
            BinaryOperator::LessEqual => "Less or Equal",
            BinaryOperator::GreaterThan => "Greater Than",
            BinaryOperator::GreaterEqual => "Greater or Equal",
        }
    }
}

/// An expression: an AST node for one of the expression forms of the
/// language. Trees are built once by the parser and are immutable thereafter.
#[derive(Debug, PartialEq, Eq)]
pub enum Expr {
    /// A literal value.
    Literal(Literal),
    /// A binary operation.
    BinaryOp {
        /// The left operand of the binary operation.
        left: Box<Expr>,
        /// The binary operator.
        op: BinaryOperator,
        /// The right operand of the binary operation.
        right: Box<Expr>,
    },
    /// A function call.
    FunctionCall {
        /// The name of the function.
        name: String,
        /// The arguments of the function.
        args: Vec<Expr>,
    },
    /// A strong list: its child stays a list through arithmetic instead of
    /// collapsing to a sum.
    StrongList(Box<Expr>),
}

/// A literal as a mathematical value: like [`Literal`], with a sequence in
/// place of the vector.
pub enum SpecLiteral {
    /// An integer literal.
    Int(i64),
    /// An explicit list literal.
    List(Seq<i64>),
    /// A range list literal.
    Range(RangeLiteral),
}

/// An expression as a mathematical value: like [`Expr`], with sequences in
/// place of vectors and strings. The spec-level grammar of the parser
/// produces values of this type, and [`expr_view`] maps each parsed tree to
/// its model.
pub enum SpecExpr {
    /// A literal value.
    Literal(SpecLiteral),
    /// A binary operation.
    BinaryOp {
        /// The left operand.
        left: Box<SpecExpr>,
        /// The operator.
        op: BinaryOperator,
        /// The right operand.
        right: Box<SpecExpr>,
    },
    /// A function call.
    FunctionCall {
        /// The name of the function.
        name: Seq<char>,
        /// The arguments of the call.
        args: Seq<SpecExpr>,
    },
    /// A strong list.
    StrongList(Box<SpecExpr>),
}

/// The mathematical model of a literal.
pub open spec fn lit_view(l: Literal) -> SpecLiteral {
    match l {
        Literal::Int(n) => SpecLiteral::Int(n),
        Literal::List(v) => SpecLiteral::List(v@),
        Literal::Range(r) => SpecLiteral::Range(r),
    }
}

/// The mathematical model of an expression tree.
pub open spec fn expr_view(e: Expr) -> SpecExpr
    decreases e,
{
    match e {
        Expr::Literal(l) => SpecExpr::Literal(lit_view(l)),
        Expr::BinaryOp { left, op, right } => SpecExpr::BinaryOp {
            left: Box::new(expr_view(*left)),
            op,
            right: Box::new(expr_view(*right)),
        },
        Expr::FunctionCall { name, args } => SpecExpr::FunctionCall {
            name: name@,
            args: args_view(args@),
        },
        Expr::StrongList(inner) => SpecExpr::StrongList(Box::new(expr_view(*inner))),
    }
}

/// The models of a sequence of expressions, elementwise.
pub open spec fn args_view(s: Seq<Expr>) -> Seq<SpecExpr>
    decreases s,
{
    if s.len() == 0 {
        Seq::empty()
    } else {
        seq![expr_view(s[0])] + args_view(s.drop_first())
    }
}

/// Appending one expression extends the elementwise model by its view.
pub proof fn lemma_args_view_push(s: Seq<Expr>, x: Expr)
    ensures
        args_view(s.push(x)) == args_view(s).push(expr_view(x)),
    decreases s.len(),
{
    let pushed = s.push(x);
    if s.len() == 0 {
        assert(pushed[0] == x);
        assert(pushed.drop_first() =~= Seq::<Expr>::empty());
        assert(args_view(pushed) == seq![expr_view(x)] + args_view(pushed.drop_first()));
        assert(args_view(pushed.drop_first()) =~= Seq::<SpecExpr>::empty());
        assert(args_view(s) =~= Seq::<SpecExpr>::empty());
        assert(args_view(pushed) =~= args_view(s).push(expr_view(x)));
    } else {
        assert(pushed[0] == s[0]);
        assert(pushed.drop_first() =~= s.drop_first().push(x));
        lemma_args_view_push(s.drop_first(), x);
        assert(seq![expr_view(s[0])] + args_view(s.drop_first()).push(expr_view(x)) =~= (seq![
            expr_view(s[0]),
        ] + args_view(s.drop_first())).push(expr_view(x)));
    }
}

/// The elementwise model agrees position by position.
pub proof fn lemma_args_view_index(s: Seq<Expr>, i: int)
    ensures
        args_view(s).len() == s.len(),
        0 <= i < s.len() ==> args_view(s)[i] == expr_view(s[i]),
    decreases s.len(),
{
    if s.len() > 0 {
        lemma_args_view_index(s.drop_first(), i - 1);
        if 0 < i < s.len() {
            assert(args_view(s)[i] == args_view(s.drop_first())[i - 1]);
            assert(s.drop_first()[i - 1] == s[i]);
        }
    }
}

/// The rendering of the integers of an explicit list, separated by `", "`.
pub open spec fn spec_fmt_ints(items: Seq<i64>) -> Seq<char>
    decreases items.len(),
{
    if items.len() == 0 {
        Seq::empty()
    } else if items.len() == 1 {
        dec_int(items[0] as int)
    } else {
        dec_int(items[0] as int) + ", "@ + spec_fmt_ints(items.drop_first())
    }
}

/// The inline rendering of a literal: a bare decimal for an integer, `{a, b}`
/// for a list, `[start, end]` or `[start, end, step]` for a range.
pub open spec fn spec_fmt_literal(l: Literal) -> Seq<char> {
    match l {
        Literal::Int(n) => dec_int(n as int),
        Literal::List(items) => "{"@ + spec_fmt_ints(items@) + "}"@,
        Literal::Range(r) => match r.step {
            Some(s) => "["@ + dec_int(r.start as int) + ", "@ + dec_int(r.end as int) + ", "@
                + dec_int(s as int) + "]"@,
            None => "["@ + dec_int(r.start as int) + ", "@ + dec_int(r.end as int) + "]"@,
        },
    }
}

/// The fully parenthesized single-line rendering of an expression.
pub open spec fn spec_fmt_expr(e: Expr) -> Seq<char>
    decreases e,
{
    match e {
        Expr::Literal(l) => spec_fmt_literal(l),
        Expr::BinaryOp { left, op, right } => "("@ + spec_fmt_expr(*left) + " "@ + op_token(op)
            + " "@ + spec_fmt_expr(*right) + ")"@,
        Expr::FunctionCall { name, args } => name@ + "("@ + spec_fmt_args(args@) + ")"@,
        Expr::StrongList(inner) => "{"@ + spec_fmt_expr(*inner) + "}"@,
    }
}

/// The renderings of a call's arguments, separated by `", "`.
pub open spec fn spec_fmt_args(args: Seq<Expr>) -> Seq<char>
    decreases args,
{
    if args.len() == 0 {
        Seq::empty()
    } else if args.len() == 1 {
        spec_fmt_expr(args[0])
    } else {
        spec_fmt_expr(args[0]) + ", "@ + spec_fmt_args(args.drop_first())
    }
}

impl Expr {
    /// Formats this expression in a single line, with parentheses to indicate
    /// precedence. A wrapper around [`InlineFormatter`].
    pub fn format_inline(&self) -> (s: String)
        ensures
            s@ == spec_fmt_expr(*self),
    {
        let mut formatter = InlineFormatter;
        formatter.fmt_expr(self)
    }
}

/// Trait for visitors traversing expressions using the visitor pattern.
///
/// `visit_expr` is the dispatcher: implementations pattern-match the
/// expression and route to the matching operation.
pub trait ExprVisitor {
    /// The output type of the visitor.
    type Output;

    /// Visits a literal.
    fn visit_literal(&mut self, literal: &Literal) -> Self::Output;

    /// Visits a binary operation.
    fn visit_binary_op(&mut self, left: &Expr, op: &BinaryOperator, right: &Expr) -> Self::Output;

    /// Visits a function call.
    fn visit_function_call(&mut self, name: &str, args: &[Expr]) -> Self::Output;

    /// Visits a strong list.
    fn visit_strong_list(&mut self, expr: &Expr) -> Self::Output;

    /// Visits an expression, dispatching on its form.
    fn visit_expr(&mut self, expr: &Expr) -> Self::Output;
}

/// Appending one more integer extends the joined rendering by a separator
/// (when anything precedes it) and the integer's digits.
proof fn lemma_fmt_ints_push(items: Seq<i64>, x: i64)
    ensures
        items.len() == 0 ==> spec_fmt_ints(items.push(x)) == dec_int(x as int),
        items.len() >= 1 ==> spec_fmt_ints(items.push(x)) == spec_fmt_ints(items) + ", "@ + dec_int(
            x as int,
        ),
    decreases items.len(),
{
    let pushed = items.push(x);
    if items.len() == 0 {
        assert(pushed.len() == 1);
        assert(pushed[0] == x);
    } else if items.len() == 1 {
        assert(pushed.len() == 2);
        assert(pushed[0] == items[0]);
        assert(pushed.drop_first() =~= items.drop_first().push(x));
        assert(items.drop_first().len() == 0);
        lemma_fmt_ints_push(items.drop_first(), x);
        assert(spec_fmt_ints(items) == dec_int(items[0] as int));
    } else {
        assert(pushed[0] == items[0]);
        assert(pushed.drop_first() =~= items.drop_first().push(x));
        lemma_fmt_ints_push(items.drop_first(), x);
        assert(spec_fmt_ints(pushed) == dec_int(items[0] as int) + ", "@ + spec_fmt_ints(
            pushed.drop_first(),
        ));
        assert((dec_int(items[0] as int) + ", "@ + spec_fmt_ints(items.drop_first())) + ", "@
            + dec_int(x as int) =~= dec_int(items[0] as int) + ", "@ + (spec_fmt_ints(
            items.drop_first(),
        ) + ", "@ + dec_int(x as int)));
    }
}

/// Appending one more argument extends the joined rendering by a separator
/// (when anything precedes it) and that argument's rendering.
proof fn lemma_fmt_args_push(args: Seq<Expr>, x: Expr)
    ensures
        args.len() == 0 ==> spec_fmt_args(args.push(x)) == spec_fmt_expr(x),
        args.len() >= 1 ==> spec_fmt_args(args.push(x)) == spec_fmt_args(args) + ", "@
            + spec_fmt_expr(x),
    decreases args.len(),
{
    let pushed = args.push(x);
    if args.len() == 0 {
        assert(pushed.len() == 1);
        assert(pushed[0] == x);
    } else if args.len() == 1 {
        assert(pushed[0] == args[0]);
        assert(pushed.drop_first() =~= args.drop_first().push(x));
        lemma_fmt_args_push(args.drop_first(), x);
    } else {
        assert(pushed[0] == args[0]);
        assert(pushed.drop_first() =~= args.drop_first().push(x));
        lemma_fmt_args_push(args.drop_first(), x);
        assert((spec_fmt_expr(args[0]) + ", "@ + spec_fmt_args(args.drop_first())) + ", "@
            + spec_fmt_expr(x) =~= spec_fmt_expr(args[0]) + ", "@ + (spec_fmt_args(
            args.drop_first(),
        ) + ", "@ + spec_fmt_expr(x)));
    }
}

/// A formatter that renders expressions in a single line, with parentheses to
/// indicate precedence.
pub struct InlineFormatter;

impl InlineFormatter {
    /// Renders a literal.
    pub fn fmt_literal(&mut self, literal: &Literal) -> (s: String)
        ensures
            s@ == spec_fmt_literal(*literal),
    {
        match literal {
            Literal::Int(n) => {
                let mut s = String::new();
                append_i64(&mut s, *n);
                s
            },
            Literal::List(items) => {
                let mut s = String::new();
                s.append("{");
                let mut i: usize = 0;
                while i < items.len()
                    invariant
                        i <= items@.len(),
                        s@ == "{"@ + spec_fmt_ints(items@.take(i as int)),
                    decreases items@.len() - i,
                {
                    if i > 0 {
                        s.append(", ");
                    }
                    append_i64(&mut s, items[i]);
                    proof {
                        assert(items@.take(i + 1 as int) =~= items@.take(i as int).push(
                            items@[i as int],
                        ));
                        lemma_fmt_ints_push(items@.take(i as int), items@[i as int]);
                    }
                    i = i + 1;
                }
                proof {
                    assert(items@.take(items@.len() as int) =~= items@);
                }
                s.append("}");
                s
            },
            Literal::Range(r) => {
                let mut s = String::new();
                s.append("[");
                append_i64(&mut s, r.start);
                s.append(", ");
                append_i64(&mut s, r.end);
                match r.step {
                    Some(st) => {
                        s.append(", ");
                        append_i64(&mut s, st);
                    },
                    None => {},
                }
                s.append("]");
                s
            },
        }
    }

    /// Renders an expression recursively.
    pub fn fmt_expr(&mut self, e: &Expr) -> (s: String)
        ensures
            s@ == spec_fmt_expr(*e),
        decreases *e,
    {
        match e {
            Expr::Literal(l) => self.fmt_literal(l),
            Expr::BinaryOp { left, op, right } => {
                let mut s = String::new();
                s.append("(");
                let left_str = self.fmt_expr(left);
                s.append(left_str.as_str());
                s.append(" ");
                s.append(op.to_str());
                s.append(" ");
                let right_str = self.fmt_expr(right);
                s.append(right_str.as_str());
                s.append(")");
                s
            },
            Expr::FunctionCall { name, args } => {
                let mut s = String::new();
                s.append(name.as_str());
                s.append("(");
                let mut i: usize = 0;
                while i < args.len()
                    invariant
                        i <= args@.len(),
                        s@ == name@ + "("@ + spec_fmt_args(args@.take(i as int)),
                        *e == (Expr::FunctionCall { name: *name, args: *args }),
                    decreases args@.len() - i,
                {
                    if i > 0 {
                        s.append(", ");
                    }
                    proof {
                        assert(decreases_to!(*e => (*e)->FunctionCall_args));
                        assert((*e)->FunctionCall_args == *args);
                        assert(decreases_to!(*args => args@));
                        assert(decreases_to!(args@ => args@[i as int]));
                        assert(decreases_to!(*e => args@[i as int]));
                    }
                    let arg_str = self.fmt_expr(&args[i]);
                    s.append(arg_str.as_str());
                    proof {
                        assert(args@.take(i + 1 as int) =~= args@.take(i as int).push(
                            args@[i as int],
                        ));
                        lemma_fmt_args_push(args@.take(i as int), args@[i as int]);
                    }
                    i = i + 1;
                }
                proof {
                    assert(args@.take(args@.len() as int) =~= args@);
                }
                s.append(")");
                s
            },
            Expr::StrongList(inner) => {
                let mut s = String::new();
                s.append("{");
                let inner_str = self.fmt_expr(inner);
                s.append(inner_str.as_str());
                s.append("}");
                s
            },
        }
    }
}

impl ExprVisitor for InlineFormatter {
    type Output = String;

    fn visit_literal(&mut self, literal: &Literal) -> Self::Output {
        self.fmt_literal(literal)
    }

    fn visit_binary_op(&mut self, left: &Expr, op: &BinaryOperator, right: &Expr) -> Self::Output {
        let mut s = String::new();
        s.append("(");
        let left_str = self.fmt_expr(left);
        s.append(left_str.as_str());
        s.append(" ");
        s.append(op.to_str());
        s.append(" ");
        let right_str = self.fmt_expr(right);
        s.append(right_str.as_str());
        s.append(")");
        s
    }

    fn visit_function_call(&mut self, name: &str, args: &[Expr]) -> Self::Output {
        let mut s = String::new();
        s.append(name);
        s.append("(");
        let mut i: usize = 0;
        while i < args.len()
            invariant
                i <= args@.len(),
            decreases args@.len() - i,
        {
            if i > 0 {
                s.append(", ");
            }
            let arg_str = self.fmt_expr(&args[i]);
            s.append(arg_str.as_str());
            i = i + 1;
        }
        s.append(")");
        s
    }

    fn visit_strong_list(&mut self, expr: &Expr) -> Self::Output {
        let mut s = String::new();
        s.append("{");
        let inner_str = self.fmt_expr(expr);
        s.append(inner_str.as_str());
        s.append("}");
        s
    }

    fn visit_expr(&mut self, expr: &Expr) -> Self::Output {
        self.fmt_expr(expr)
    }
}

} // verus!
