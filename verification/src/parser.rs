//! The expression parser: a recursive-descent grammar for atoms combined
//! with a precedence-climbing layer for the binary operators, over the bytes
//! of the source text.
//!
//! Errors are collected, not thrown: integer-literal overflow and malformed
//! brace contents are reported and parsing continues with a placeholder;
//! any other syntax error terminates the attempt. A parse either fully
//! succeeds or returns at least one error.

use vstd::prelude::*;
use vstd::string::StringSliceAdditionalSpecFns;

use crate::ast::{
    args_view, expr_view, lemma_args_view_index, lemma_args_view_push, op_precedence,
    op_right_assoc, BinaryOperator, Expr, Literal, RangeLiteral, SpecExpr, SpecLiteral,
};

verus! {

/// A structured parse error: a byte-offset span into the source text and a
/// message.
#[derive(Debug, Clone, PartialEq, Eq)]
pub struct ParseError {
    /// The start of the span, as a byte offset.
    pub start: usize,
    /// The end of the span, as a byte offset.
    pub end: usize,
    /// The error message.
    pub message: String,
}

/// Whether a byte is ASCII whitespace.
pub open spec fn is_space(b: u8) -> bool {
    b == 32 || (9 <= b <= 13)
}

/// Whether a byte is an ASCII decimal digit.
pub open spec fn is_digit(b: u8) -> bool {
    48 <= b <= 57
}

/// Whether a byte can start an identifier: a letter or an underscore.
pub open spec fn is_ident_start(b: u8) -> bool {
    (65 <= b <= 90) || (97 <= b <= 122) || b == 95
}

/// Whether a byte can continue an identifier.
pub open spec fn is_ident_char(b: u8) -> bool {
    is_ident_start(b) || is_digit(b)
}

/// The first position at or after `i` holding no whitespace.
pub open spec fn spec_ws_end(s: Seq<u8>, i: int) -> int
    decreases s.len() - i,
        when 0 <= i <= s.len()
{
    if i < s.len() && is_space(s[i]) {
        spec_ws_end(s, i + 1)
    } else {
        i
    }
}

/// The first position at or after `i` holding no digit.
pub open spec fn spec_digits_end(s: Seq<u8>, i: int) -> int
    decreases s.len() - i,
        when 0 <= i <= s.len()
{
    if i < s.len() && is_digit(s[i]) {
        spec_digits_end(s, i + 1)
    } else {
        i
    }
}

/// The value of a run of decimal digits, most significant first.
pub open spec fn digits_val(s: Seq<u8>) -> int
    decreases s.len(),
{
    if s.len() == 0 {
        0
    } else {
        digits_val(s.drop_last()) * 10 + (s.last() - 48)
    }
}

/// Whether the integer token at `start` carries a leading minus sign.
pub open spec fn int_token_neg(s: Seq<u8>, start: int) -> bool {
    start < s.len() && s[start] == 45
}

/// Where the digits of the integer token at `start` begin.
pub open spec fn int_token_dstart(s: Seq<u8>, start: int) -> int {
    if int_token_neg(s, start) {
        start + 1
    } else {
        start
    }
}

/// Where the digits of the integer token at `start` end.
pub open spec fn int_token_end(s: Seq<u8>, start: int) -> int {
    spec_digits_end(s, int_token_dstart(s, start))
}

/// Whether an integer token starts at `start`: an optional minus sign
/// followed by at least one digit.
pub open spec fn int_token_ok(s: Seq<u8>, start: int) -> bool {
    int_token_end(s, start) > int_token_dstart(s, start)
}

/// The mathematical value of the integer token at `start`.
pub open spec fn int_token_val(s: Seq<u8>, start: int) -> int {
    let mag = digits_val(s.subrange(int_token_dstart(s, start), int_token_end(s, start)));
    if int_token_neg(s, start) {
        -mag
    } else {
        mag
    }
}

/// The value denoted when the whole input is one integer literal surrounded
/// by whitespace, regardless of 64-bit range.
pub open spec fn int_literal_value(s: Seq<u8>) -> Option<int> {
    let start = spec_ws_end(s, 0);
    if int_token_ok(s, start) && spec_ws_end(s, int_token_end(s, start)) == s.len() {
        Some(int_token_val(s, start))
    } else {
        None
    }
}

/// Whether the input at `pos` starts, after whitespace, with an integer
/// token whose value fits the signed 64-bit range.
pub open spec fn int_atom_at(s: Seq<u8>, pos: int) -> bool {
    let start = spec_ws_end(s, pos);
    int_token_ok(s, start) && i64::MIN <= int_token_val(s, start) <= i64::MAX
}

/// The integer-literal expression that such an atom denotes.
pub open spec fn int_atom_expr(s: Seq<u8>, pos: int) -> Expr {
    Expr::Literal(Literal::Int(int_token_val(s, spec_ws_end(s, pos)) as i64))
}

/// The position after such an atom.
pub open spec fn int_atom_end(s: Seq<u8>, pos: int) -> int {
    int_token_end(s, spec_ws_end(s, pos))
}

/// Whether the input from `pos` is exactly one in-range integer literal
/// followed by nothing but whitespace.
pub open spec fn whole_input_int(s: Seq<u8>, pos: int) -> bool {
    int_atom_at(s, pos) && spec_ws_end(s, int_atom_end(s, pos)) == s.len()
}

/// A parse error as a mathematical value: a byte span and a message.
pub struct SpecErr {
    /// The start of the span.
    pub start: int,
    /// The end of the span.
    pub end: int,
    /// The message.
    pub message: Seq<char>,
}

/// Whether a recorded error carries exactly the modelled span and message.
pub open spec fn err_matches(e: ParseError, m: SpecErr) -> bool {
    e.start == m.start && e.end == m.end && e.message@ == m.message
}

/// Whether `new_es` is `old_es` extended by exactly the modelled errors.
pub open spec fn errs_extended(
    old_es: Seq<ParseError>,
    new_es: Seq<ParseError>,
    m: Seq<SpecErr>,
) -> bool {
    &&& new_es.len() == old_es.len() + m.len()
    &&& (forall|i: int| 0 <= i < old_es.len() ==> #[trigger] new_es[i] == old_es[i])
    &&& (forall|i: int| 0 <= i < m.len() ==> err_matches(#[trigger] new_es[old_es.len() + i], m[i]))
}

/// Extending by nothing changes nothing.
proof fn lemma_errs_refl(es: Seq<ParseError>)
    ensures
        errs_extended(es, es, Seq::empty()),
{
}

/// Two extensions in sequence extend by the concatenation.
proof fn lemma_errs_trans(
    a: Seq<ParseError>,
    b: Seq<ParseError>,
    c: Seq<ParseError>,
    m1: Seq<SpecErr>,
    m2: Seq<SpecErr>,
)
    requires
        errs_extended(a, b, m1),
        errs_extended(b, c, m2),
    ensures
        errs_extended(a, c, m1 + m2),
{
    assert forall|i: int| 0 <= i < (m1 + m2).len() implies err_matches(
        #[trigger] c[a.len() + i],
        (m1 + m2)[i],
    ) by {
        if i < m1.len() {
            assert(c[a.len() + i] == b[a.len() + i]);
        } else {
            assert(c[a.len() + i] == c[b.len() + (i - m1.len())]);
        }
    }
}

/// The first position at or after `i` holding no identifier character.
pub open spec fn spec_ident_end(s: Seq<u8>, i: int) -> int
    decreases s.len() - i,
        when 0 <= i <= s.len()
{
    if i < s.len() && is_ident_char(s[i]) {
        spec_ident_end(s, i + 1)
    } else {
        i
    }
}

/// The modelled integer scan at `start`: the value (0 after an overflow
/// report), the position after the digits, and the reported errors.
pub open spec fn sp_scan_int(s: Seq<u8>, start: int) -> (Option<i64>, int, Seq<SpecErr>) {
    if !int_token_ok(s, start) {
        (None, int_token_dstart(s, start), Seq::empty())
    } else {
        let dend = int_token_end(s, start);
        let v = int_token_val(s, start);
        if i64::MIN <= v <= i64::MAX {
            (Some(v as i64), dend, Seq::empty())
        } else {
            (
                Some(0),
                dend,
                seq![
                    SpecErr { start, end: dend, message: "illegal integer literal: out of range"@ },
                ],
            )
        }
    }
}

/// The modelled integer parse with leading whitespace skipped; a missing
/// literal is reported.
pub open spec fn sp_int_ws(s: Seq<u8>, pos: int) -> (Option<i64>, int, Seq<SpecErr>) {
    let p = spec_ws_end(s, pos);
    let m = sp_scan_int(s, p);
    match m.0 {
        Some(v) => (Some(v), m.1, m.2),
        None => (
            None,
            m.1,
            m.2 + seq![SpecErr { start: p, end: s.len() as int, message: "expected an integer"@ }],
        ),
    }
}

/// The modelled expectation of one byte with leading whitespace skipped.
pub open spec fn sp_expect(s: Seq<u8>, pos: int, b: u8, msg: Seq<char>) -> (
    bool,
    int,
    Seq<SpecErr>,
) {
    let p = spec_ws_end(s, pos);
    if p < s.len() && s[p] == b {
        (true, p + 1, Seq::empty())
    } else {
        (false, p, seq![SpecErr { start: p, end: s.len() as int, message: msg }])
    }
}

/// The modelled operator token at `pos`, longest token first.
pub open spec fn sp_peek_op(s: Seq<u8>, pos: int) -> Option<(BinaryOperator, int)> {
    if !(0 <= pos < s.len()) {
        None
    } else {
        let b = s[pos];
        let b2 = if pos + 1 < s.len() {
            s[pos + 1]
        } else {
            0
        };
        if pos + 1 < s.len() && b == 107 && b2 == 104 {
            Some((BinaryOperator::KeepHighest, pos + 2))
        } else if pos + 1 < s.len() && b == 107 && b2 == 108 {
            Some((BinaryOperator::KeepLowest, pos + 2))
        } else if pos + 1 < s.len() && b == 100 && b2 == 104 {
            Some((BinaryOperator::DropHighest, pos + 2))
        } else if pos + 1 < s.len() && b == 100 && b2 == 108 {
            Some((BinaryOperator::DropLowest, pos + 2))
        } else if pos + 1 < s.len() && b == 61 && b2 == 61 {
            Some((BinaryOperator::Equal, pos + 2))
        } else if pos + 1 < s.len() && b == 33 && b2 == 61 {
            Some((BinaryOperator::NotEqual, pos + 2))
        } else if pos + 1 < s.len() && b == 60 && b2 == 61 {
            Some((BinaryOperator::LessEqual, pos + 2))
        } else if pos + 1 < s.len() && b == 62 && b2 == 61 {
            Some((BinaryOperator::GreaterEqual, pos + 2))
        } else if b == 100 {
            Some((BinaryOperator::DiceRoll, pos + 1))
        } else if b == 42 {
            Some((BinaryOperator::Multiplication, pos + 1))
        } else if b == 43 {
            Some((BinaryOperator::Addition, pos + 1))
        } else if b == 45 {
            Some((BinaryOperator::Subtraction, pos + 1))
        } else if b == 60 {
            Some((BinaryOperator::LessThan, pos + 1))
        } else if b == 62 {
            Some((BinaryOperator::GreaterThan, pos + 1))
        } else {
            None
        }
    }
}

/// Whether every modelled brace element is a bare integer literal.
pub open spec fn sp_all_ints(items: Seq<SpecExpr>) -> bool {
    forall|i: int|
        0 <= i < items.len() ==> (#[trigger] items[i]) matches SpecExpr::Literal(
            SpecLiteral::Int(_),
        )
}

/// The integer values of modelled brace elements that are integer literals.
pub open spec fn sp_int_values(items: Seq<SpecExpr>) -> Seq<i64> {
    Seq::new(
        items.len(),
        |i: int|
            match items[i] {
                SpecExpr::Literal(SpecLiteral::Int(v)) => v,
                _ => 0,
            },
    )
}

/// The modelled function-call atom at the identifier's first byte.
pub open spec fn sp_call_atom(s: Seq<u8>, p: int) -> (Option<SpecExpr>, int, Seq<SpecErr>)
    decreases s.len() - p, 0int,
        when 0 <= p < s.len()
{
    let j = spec_ident_end(s, p + 1);
    if !(p + 1 <= j <= s.len()) {
        (None, p, Seq::empty())
    } else {
        let name = Seq::new((j - p) as nat, |i: int| s[p + i] as char);
        let ex = sp_expect(s, j, 40, "expected '(' after function name"@);
        if !ex.0 {
            (None, ex.1, ex.2)
        } else if !(p < ex.1 <= s.len()) {
            (None, ex.1, ex.2)
        } else {
            let lst = sp_list(s, ex.1, 41);
            match lst.0 {
                Some(items) => (Some(SpecExpr::FunctionCall { name, args: items }), lst.1, lst.2),
                None => (None, lst.1, lst.2),
            }
        }
    }
}

/// The modelled range-literal atom at the opening bracket.
pub open spec fn sp_range_atom(s: Seq<u8>, p: int) -> (Option<SpecExpr>, int, Seq<SpecErr>) {
    let m1 = sp_int_ws(s, p + 1);
    match m1.0 {
        None => (None, m1.1, m1.2),
        Some(start_val) => {
            let c1 = sp_expect(s, m1.1, 44, "expected ',' in range literal"@);
            if !c1.0 {
                (None, c1.1, m1.2 + c1.2)
            } else {
                let m2 = sp_int_ws(s, c1.1);
                match m2.0 {
                    None => (None, m2.1, m1.2 + m2.2),
                    Some(end_val) => {
                        let q = spec_ws_end(s, m2.1);
                        if 0 <= q < s.len() && s[q] == 44 {
                            let m3 = sp_int_ws(s, q + 1);
                            match m3.0 {
                                None => (None, m3.1, m1.2 + m2.2 + m3.2),
                                Some(step_val) => {
                                    let c2 = sp_expect(
                                        s,
                                        m3.1,
                                        93,
                                        "expected ']' in range literal"@,
                                    );
                                    if !c2.0 {
                                        (None, c2.1, m1.2 + m2.2 + m3.2 + c2.2)
                                    } else {
                                        (
                                            Some(
                                                SpecExpr::Literal(
                                                    SpecLiteral::Range(
                                                        RangeLiteral {
                                                            start: start_val,
                                                            end: end_val,
                                                            step: Some(step_val),
                                                        },
                                                    ),
                                                ),
                                            ),
                                            c2.1,
                                            m1.2 + m2.2 + m3.2,
                                        )
                                    }
                                },
                            }
                        } else if 0 <= q < s.len() && s[q] == 93 {
                            (
                                Some(
                                    SpecExpr::Literal(
                                        SpecLiteral::Range(
                                            RangeLiteral {
                                                start: start_val,
                                                end: end_val,
                                                step: None,
                                            },
                                        ),
                                    ),
                                ),
                                q + 1,
                                m1.2 + m2.2,
                            )
                        } else {
                            (
                                None,
                                q,
                                m1.2 + m2.2 + seq![
                                    SpecErr {
                                        start: q,
                                        end: s.len() as int,
                                        message: "expected ',' or ']' in range literal"@,
                                    },
                                ],
                            )
                        }
                    },
                }
            }
        },
    }
}

/// The modelled brace atom at the opening brace: an all-integer list, a
/// single-expression strong list, or the reported malformed-braces error
/// with an empty list as the placeholder.
pub open spec fn sp_brace_atom(s: Seq<u8>, p: int) -> (Option<SpecExpr>, int, Seq<SpecErr>)
    decreases s.len() - p, 0int,
        when 0 <= p < s.len()
{
    let lst = sp_list(s, p + 1, 125);
    match lst.0 {
        None => (None, lst.1, lst.2),
        Some(items) => if sp_all_ints(items) && items.len() > 0 {
            (Some(SpecExpr::Literal(SpecLiteral::List(sp_int_values(items)))), lst.1, lst.2)
        } else if items.len() == 1 {
            (Some(SpecExpr::StrongList(Box::new(items[0]))), lst.1, lst.2)
        } else {
            (
                Some(SpecExpr::Literal(SpecLiteral::List(Seq::empty()))),
                lst.1,
                lst.2 + seq![
                    SpecErr {
                        start: p,
                        end: lst.1,
                        message: "elements inside braces must be all integers (a list) or a single expression (a strong list)"@,
                    },
                ],
            )
        },
    }
}

/// The modelled bare integer-literal atom.
pub open spec fn sp_int_atom(s: Seq<u8>, p: int) -> (Option<SpecExpr>, int, Seq<SpecErr>) {
    let m = sp_scan_int(s, p);
    match m.0 {
        Some(v) => (Some(SpecExpr::Literal(SpecLiteral::Int(v))), m.1, m.2),
        None => (
            None,
            m.1,
            m.2 + seq![
                SpecErr { start: p, end: s.len() as int, message: "expected an integer"@ },
            ],
        ),
    }
}

/// The modelled parenthesized sub-expression at the opening parenthesis.
pub open spec fn sp_paren_atom(s: Seq<u8>, p: int) -> (Option<SpecExpr>, int, Seq<SpecErr>)
    decreases s.len() - p, 0int,
        when 0 <= p < s.len()
{
    let m = sp_pratt(s, p + 1, 0);
    match m.0 {
        None => (None, m.1, m.2),
        Some(e) => {
            let c = sp_expect(s, m.1, 41, "expected ')'"@);
            if !c.0 {
                (None, c.1, m.2 + c.2)
            } else {
                (Some(e), c.1, m.2)
            }
        },
    }
}

/// The modelled atom at `pos`: whitespace, then a dispatch on the first
/// byte to a function call, a range literal, a brace list, a bare integer,
/// or a parenthesized sub-expression.
pub open spec fn sp_atom(s: Seq<u8>, pos: int) -> (Option<SpecExpr>, int, Seq<SpecErr>)
    decreases s.len() - pos, 1int,
        when 0 <= pos <= s.len()
{
    let p = spec_ws_end(s, pos);
    if !(pos <= p <= s.len()) {
        (None, pos, Seq::empty())
    } else if p >= s.len() {
        (
            None,
            p,
            seq![SpecErr { start: p, end: s.len() as int, message: "expected an expression"@ }],
        )
    } else {
        let b = s[p];
        if is_ident_start(b) {
            sp_call_atom(s, p)
        } else if b == 91 {
            sp_range_atom(s, p)
        } else if b == 123 {
            sp_brace_atom(s, p)
        } else if b == 45 || is_digit(b) {
            sp_int_atom(s, p)
        } else if b == 40 {
            sp_paren_atom(s, p)
        } else {
            (None, p, seq![SpecErr { start: p, end: p + 1, message: "unexpected character"@ }])
        }
    }
}

/// The modelled comma-separated, trailing-comma-tolerant expression items up
/// to the closer, starting at the first item.
pub open spec fn sp_items(s: Seq<u8>, cur: int, closer: u8) -> (
    Option<Seq<SpecExpr>>,
    int,
    Seq<SpecErr>,
)
    decreases s.len() - cur, 3int,
        when 0 <= cur <= s.len()
{
    let m = sp_pratt(s, cur, 0);
    match m.0 {
        None => (None, m.1, m.2),
        Some(e) => {
            let q = spec_ws_end(s, m.1);
            if 0 <= q < s.len() && s[q] == 44 {
                let q2 = spec_ws_end(s, q + 1);
                if 0 <= q2 < s.len() && s[q2] == closer {
                    (Some(seq![e]), q2 + 1, m.2)
                } else if cur < q2 <= s.len() {
                    let rest = sp_items(s, q2, closer);
                    match rest.0 {
                        None => (None, rest.1, m.2 + rest.2),
                        Some(rs) => (Some(seq![e] + rs), rest.1, m.2 + rest.2),
                    }
                } else {
                    (None, cur, Seq::empty())
                }
            } else if 0 <= q < s.len() && s[q] == closer {
                (Some(seq![e]), q + 1, m.2)
            } else {
                (
                    None,
                    q,
                    m.2 + seq![
                        SpecErr {
                            start: q,
                            end: s.len() as int,
                            message: "expected ',' or a closing delimiter"@,
                        },
                    ],
                )
            }
        },
    }
}

/// The modelled expression list with its delimiters: empty if the closer
/// comes first, else the items.
pub open spec fn sp_list(s: Seq<u8>, pos: int, closer: u8) -> (
    Option<Seq<SpecExpr>>,
    int,
    Seq<SpecErr>,
)
    decreases s.len() - pos, 4int,
        when 0 <= pos <= s.len()
{
    let first = spec_ws_end(s, pos);
    if !(pos <= first <= s.len()) {
        (None, pos, Seq::empty())
    } else if first < s.len() && s[first] == closer {
        (Some(Seq::empty()), first + 1, Seq::empty())
    } else {
        sp_items(s, first, closer)
    }
}

/// The modelled precedence climb from a parsed left operand: each operator
/// token whose precedence reaches `min_prec` extends the tree, a
/// left-associative operator climbing with a higher bound than a
/// right-associative one.
pub open spec fn sp_climb(s: Seq<u8>, lhs: SpecExpr, cur: int, min_prec: int) -> (
    Option<SpecExpr>,
    int,
    Seq<SpecErr>,
)
    decreases s.len() - cur, 5int,
        when 0 <= cur <= s.len()
{
    let q = spec_ws_end(s, cur);
    if !(cur <= q <= s.len()) {
        (Some(lhs), cur, Seq::empty())
    } else {
        match sp_peek_op(s, q) {
            None => (Some(lhs), cur, Seq::empty()),
            Some((op, after)) => {
                if op_precedence(op) < min_prec {
                    (Some(lhs), cur, Seq::empty())
                } else if cur < after <= s.len() {
                    let next_min: int = if op_right_assoc(op) {
                        op_precedence(op) as int
                    } else {
                        op_precedence(op) + 1
                    };
                    let m = sp_pratt(s, after, next_min);
                    match m.0 {
                        None => (None, m.1, m.2),
                        Some(re) => if cur < m.1 <= s.len() {
                            let combined = SpecExpr::BinaryOp {
                                left: Box::new(lhs),
                                op,
                                right: Box::new(re),
                            };
                            let r2 = sp_climb(s, combined, m.1, min_prec);
                            (r2.0, r2.1, m.2 + r2.2)
                        } else {
                            (None, cur, Seq::empty())
                        },
                    }
                } else {
                    (None, cur, Seq::empty())
                }
            },
        }
    }
}

/// The modelled expression at `pos`: an atom extended by the precedence
/// climb.
pub open spec fn sp_pratt(s: Seq<u8>, pos: int, min_prec: int) -> (
    Option<SpecExpr>,
    int,
    Seq<SpecErr>,
)
    decreases s.len() - pos, 2int,
        when 0 <= pos <= s.len()
{
    let a = sp_atom(s, pos);
    match a.0 {
        None => (None, a.1, a.2),
        Some(lhs) => {
            if pos < a.1 <= s.len() {
                let c = sp_climb(s, lhs, a.1, min_prec);
                (c.0, c.1, a.2 + c.2)
            } else {
                (None, pos, Seq::empty())
            }
        },
    }
}

/// The modelled whole-input parse: the expression tree when the grammar
/// accepts the input, and the errors collected along the way; trailing
/// non-whitespace input is reported. The source text parses successfully
/// exactly when this model collects no errors.
pub open spec fn sp_parse(s: Seq<u8>) -> (Option<SpecExpr>, Seq<SpecErr>) {
    let m = sp_pratt(s, 0, 0);
    match m.0 {
        None => (None, m.2),
        Some(e) => {
            let p2 = spec_ws_end(s, m.1);
            if 0 <= p2 < s.len() {
                (
                    Some(e),
                    m.2 + seq![
                        SpecErr {
                            start: p2,
                            end: s.len() as int,
                            message: "unexpected trailing input"@,
                        },
                    ],
                )
            } else {
                (Some(e), m.2)
            }
        },
    }
}

/// Bounds of the digit scan.
proof fn lemma_digits_end(s: Seq<u8>, i: int)
    requires
        0 <= i <= s.len(),
    ensures
        i <= spec_digits_end(s, i) <= s.len(),
        forall|t: int| i <= t < spec_digits_end(s, i) ==> is_digit(s[t]),
    decreases s.len() - i,
{
    if i < s.len() && is_digit(s[i]) {
        lemma_digits_end(s, i + 1);
    }
}

/// Skips whitespace from `pos`.
fn skip_ws(s: &[u8], pos: usize) -> (r: usize)
    requires
        pos <= s@.len(),
    ensures
        r == spec_ws_end(s@, pos as int),
        pos <= r <= s@.len(),
{
    let mut i = pos;
    while i < s.len() && (s[i] == 32 || (9 <= s[i] && s[i] <= 13))
        invariant
            pos <= i <= s@.len(),
            spec_ws_end(s@, pos as int) == spec_ws_end(s@, i as int),
        decreases s@.len() - i,
    {
        proof {
            assert(spec_ws_end(s@, i as int) == spec_ws_end(s@, i + 1 as int));
        }
        i = i + 1;
    }
    proof {
        assert(spec_ws_end(s@, i as int) == i);
    }
    i
}

/// Appends one parse error.
fn push_err(errs: &mut Vec<ParseError>, start: usize, end: usize, msg: &str)
    ensures
        final(errs)@.len() == old(errs)@.len() + 1,
        errs_extended(
            old(errs)@,
            final(errs)@,
            seq![SpecErr { start: start as int, end: end as int, message: msg@ }],
        ),
{
    let message = String::from_str(msg);
    errs.push(ParseError { start, end, message });
}

/// Scans the integer token at `start` (no whitespace handling): an optional
/// minus sign, then one or more digits. Returns the position after the
/// token and its value; a value outside the signed 64-bit range is reported
/// as an error and replaced by 0 so that parsing can continue. When no
/// token is present, nothing is consumed or reported.
fn scan_int(s: &[u8], start: usize, errs: &mut Vec<ParseError>) -> (r: (usize, Option<i64>))
    requires
        start <= s@.len(),
    ensures
        start <= r.0 <= s@.len(),
        final(errs)@.len() >= old(errs)@.len(),
        !int_token_ok(s@, start as int) ==> (r.1 matches None && final(errs)@ == old(errs)@),
        int_token_ok(s@, start as int) ==> r.0 == int_token_end(s@, start as int),
        int_token_ok(s@, start as int) && i64::MIN <= int_token_val(s@, start as int) <= i64::MAX
            ==> (r.1 matches Some(x) && x == int_token_val(s@, start as int) && final(errs)@ == old(
            errs,
        )@),
        int_token_ok(s@, start as int) && !(i64::MIN <= int_token_val(s@, start as int)
            <= i64::MAX) ==> (r.1 matches Some(x) && (x == 0 && final(errs)@.len() == old(
            errs,
        )@.len() + 1)),
        r.0 == sp_scan_int(s@, start as int).1,
        r.1 == sp_scan_int(s@, start as int).0,
        errs_extended(old(errs)@, final(errs)@, sp_scan_int(s@, start as int).2),
{
    let mut j = start;
    let neg = j < s.len() && s[j] == 45;
    if neg {
        j = j + 1;
    }
    let dstart = j;
    proof {
        assert(dstart == int_token_dstart(s@, start as int));
        lemma_digits_end(s@, dstart as int);
    }
    let mut mag: u64 = 0;
    let mut over = false;
    while j < s.len() && 48 <= s[j] && s[j] <= 57
        invariant
            start <= dstart <= j <= s@.len(),
            dstart == int_token_dstart(s@, start as int),
            neg == int_token_neg(s@, start as int),
            spec_digits_end(s@, dstart as int) == spec_digits_end(s@, j as int),
            digits_val(s@.subrange(dstart as int, j as int)) >= 0,
            !over ==> mag == digits_val(s@.subrange(dstart as int, j as int)),
            over ==> digits_val(s@.subrange(dstart as int, j as int)) > u64::MAX,
        decreases s@.len() - j,
    {
        let d: u8 = s[j] - 48;
        let ghost prev = digits_val(s@.subrange(dstart as int, j as int));
        proof {
            assert(s@.subrange(dstart as int, j + 1 as int).drop_last() =~= s@.subrange(
                dstart as int,
                j as int,
            ));
            assert(s@.subrange(dstart as int, j + 1 as int).last() == s@[j as int]);
            assert(digits_val(s@.subrange(dstart as int, j + 1 as int)) == prev * 10 + d);
            assert(spec_digits_end(s@, j as int) == spec_digits_end(s@, j + 1 as int));
        }
        if mag > 1844674407370955161u64 || (mag == 1844674407370955161u64 && d > 5) {
            proof {
                if !over {
                    assert(prev * 10 + d > u64::MAX);
                } else {
                    assert(prev > u64::MAX);
                    assert(prev * 10 + d > u64::MAX);
                }
            }
            over = true;
        } else {
            proof {
                if over {
                    assert(prev > u64::MAX);
                    assert(prev * 10 + d > u64::MAX);
                }
            }
            if !over {
                mag = mag * 10 + (d as u64);
            }
        }
        j = j + 1;
    }
    proof {
        assert(spec_digits_end(s@, j as int) == j);
    }
    let dend = j;
    if dend == dstart {
        return (dend, None);
    }
    if neg {
        if over || mag > 9223372036854775808u64 {
            push_err(errs, start, dend, "illegal integer literal: out of range");
            (dend, Some(0))
        } else if mag == 9223372036854775808u64 {
            (dend, Some(i64::MIN))
        } else {
            (dend, Some(-(mag as i64)))
        }
    } else {
        if over || mag > 9223372036854775807u64 {
            push_err(errs, start, dend, "illegal integer literal: out of range");
            (dend, Some(0))
        } else {
            (dend, Some(mag as i64))
        }
    }
}

/// Parses a whole input as one integer literal with optional surrounding
/// whitespace: the overflow-checked literal grammar on its own.
pub fn parse_integer(input: &str) -> (res: Result<i64, Vec<ParseError>>)
    ensures
        match int_literal_value(input.spec_bytes()) {
            Some(v) => if i64::MIN <= v <= i64::MAX {
                res matches Ok(x) && x == v
            } else {
                res matches Err(es) && es@.len() == 1
            },
            None => res matches Err(es) && es@.len() >= 1,
        },
{
    let s = input.as_bytes();
    let mut errs: Vec<ParseError> = Vec::new();
    let p = skip_ws(s, 0);
    let (end, val) = scan_int(s, p, &mut errs);
    match val {
        None => {
            push_err(&mut errs, p, s.len(), "expected an integer");
            Err(errs)
        },
        Some(v) => {
            let p2 = skip_ws(s, end);
            if p2 < s.len() {
                push_err(&mut errs, p2, s.len(), "unexpected trailing input");
                return Err(errs);
            }
            if errs.len() > 0 {
                Err(errs)
            } else {
                Ok(v)
            }
        },
    }
}

/// Relies on `String::from_utf8_lossy`: ASCII bytes decode to the same
/// characters, one per byte.
#[verifier::external_body]
fn ascii_to_string(bytes: &[u8]) -> (s: String)
    requires
        forall|i: int| 0 <= i < bytes@.len() ==> bytes@[i] < 128,
    ensures
        s@.len() == bytes@.len(),
        forall|i: int| 0 <= i < bytes@.len() ==> s@[i] == bytes@[i] as char,
{
    String::from_utf8_lossy(bytes).into_owned()
}

/// Copies the bytes of `s` in `lo..hi` into a fresh vector.
fn slice_range_vec(s: &[u8], lo: usize, hi: usize) -> (out: Vec<u8>)
    requires
        lo <= hi <= s@.len(),
    ensures
        out@ == s@.subrange(lo as int, hi as int),
{
    let mut out: Vec<u8> = Vec::new();
    let mut i = lo;
    while i < hi
        invariant
            lo <= i <= hi <= s@.len(),
            out@ == s@.subrange(lo as int, i as int),
        decreases hi - i,
    {
        out.push(s[i]);
        proof {
            assert(s@.subrange(lo as int, i + 1 as int) =~= s@.subrange(lo as int, i as int).push(
                s@[i as int],
            ));
        }
        i = i + 1;
    }
    out
}

/// Recognizes the binary operator token at `pos` (no whitespace handling),
/// longest token first; returns the operator and the position after it.
fn peek_op(s: &[u8], pos: usize) -> (r: Option<(BinaryOperator, usize)>)
    requires
        pos <= s@.len(),
    ensures
        r matches Some(p) ==> pos < p.1 <= s@.len(),
        pos >= s@.len() ==> r matches None,
        match r {
            Some(p) => sp_peek_op(s@, pos as int) == Some((p.0, p.1 as int)),
            None => sp_peek_op(s@, pos as int) is None,
        },
{
    if pos >= s.len() {
        return None;
    }
    let b = s[pos];
    if pos + 1 < s.len() {
        let b2 = s[pos + 1];
        if b == 107 && b2 == 104 {
            return Some((BinaryOperator::KeepHighest, pos + 2));  // kh
        }
        if b == 107 && b2 == 108 {
            return Some((BinaryOperator::KeepLowest, pos + 2));  // kl
        }
        if b == 100 && b2 == 104 {
            return Some((BinaryOperator::DropHighest, pos + 2));  // dh
        }
        if b == 100 && b2 == 108 {
            return Some((BinaryOperator::DropLowest, pos + 2));  // dl
        }
        if b == 61 && b2 == 61 {
            return Some((BinaryOperator::Equal, pos + 2));  // ==
        }
        if b == 33 && b2 == 61 {
            return Some((BinaryOperator::NotEqual, pos + 2));  // !=
        }
        if b == 60 && b2 == 61 {
            return Some((BinaryOperator::LessEqual, pos + 2));  // <=
        }
        if b == 62 && b2 == 61 {
            return Some((BinaryOperator::GreaterEqual, pos + 2));  // >=
        }
    }
    if b == 100 {
        return Some((BinaryOperator::DiceRoll, pos + 1));  // d
    }
    if b == 42 {
        return Some((BinaryOperator::Multiplication, pos + 1));  // *
    }
    if b == 43 {
        return Some((BinaryOperator::Addition, pos + 1));  // +
    }
    if b == 45 {
        return Some((BinaryOperator::Subtraction, pos + 1));  // -
    }
    if b == 60 {
        return Some((BinaryOperator::LessThan, pos + 1));  // <
    }
    if b == 62 {
        return Some((BinaryOperator::GreaterThan, pos + 1));  // >
    }
    None
}

/// Parses an integer literal with leading whitespace skipped; a missing
/// literal is reported as an error.
fn parse_int_ws(s: &[u8], pos: usize, errs: &mut Vec<ParseError>) -> (r: (Option<i64>, usize))
    requires
        pos <= s@.len(),
    ensures
        pos <= r.1 <= s@.len(),
        final(errs)@.len() >= old(errs)@.len(),
        r.0 matches None ==> final(errs)@.len() > old(errs)@.len(),
        r.0 == sp_int_ws(s@, pos as int).0,
        r.1 == sp_int_ws(s@, pos as int).1,
        errs_extended(old(errs)@, final(errs)@, sp_int_ws(s@, pos as int).2),
{
    let ghost e0 = errs@;
    let p = skip_ws(s, pos);
    let (end, val) = scan_int(s, p, errs);
    match val {
        Some(v) => (Some(v), end),
        None => {
            let ghost e1 = errs@;
            push_err(errs, p, s.len(), "expected an integer");
            proof {
                lemma_errs_trans(
                    e0,
                    e1,
                    errs@,
                    sp_scan_int(s@, p as int).2,
                    seq![
                        SpecErr {
                            start: p as int,
                            end: s@.len() as int,
                            message: "expected an integer"@,
                        },
                    ],
                );
            }
            (None, end)
        },
    }
}

/// Expects one specific byte, with leading whitespace skipped.
fn expect_byte(s: &[u8], pos: usize, b: u8, what: &str, errs: &mut Vec<ParseError>) -> (r: (
    bool,
    usize,
))
    requires
        pos <= s@.len(),
    ensures
        pos <= r.1 <= s@.len(),
        final(errs)@.len() >= old(errs)@.len(),
        !r.0 ==> final(errs)@.len() > old(errs)@.len(),
        r.0 ==> pos < r.1,
        r.0 == sp_expect(s@, pos as int, b, what@).0,
        r.1 == sp_expect(s@, pos as int, b, what@).1,
        errs_extended(old(errs)@, final(errs)@, sp_expect(s@, pos as int, b, what@).2),
{
    let p = skip_ws(s, pos);
    if p < s.len() && s[p] == b {
        (true, p + 1)
    } else {
        push_err(errs, p, s.len(), what);
        (false, p)
    }
}

/// Parses a function call whose identifier begins at `p`.
fn parse_call_atom(s: &[u8], p: usize, errs: &mut Vec<ParseError>) -> (r: (Option<Expr>, usize))
    requires
        p < s@.len(),
        is_ident_start(s@[p as int]),
    ensures
        r.1 <= s@.len(),
        r.0 matches Some(_) ==> p < r.1,
        final(errs)@.len() >= old(errs)@.len(),
        r.0 matches None ==> final(errs)@.len() > old(errs)@.len(),
        r.1 == sp_call_atom(s@, p as int).1,
        match r.0 {
            Some(e) => sp_call_atom(s@, p as int).0 == Some(expr_view(e)),
            None => sp_call_atom(s@, p as int).0 is None,
        },
        errs_extended(old(errs)@, final(errs)@, sp_call_atom(s@, p as int).2),
    decreases s@.len() - p, 0int,
{
    let ghost e0 = errs@;
    let n = s.len();
    proof {
        lemma_errs_refl(e0);
        assert(p < n);
    }
    let mut j = p + 1;
    while j < s.len() && ((65 <= s[j] && s[j] <= 90) || (97 <= s[j] && s[j] <= 122) || s[j] == 95
        || (48 <= s[j] && s[j] <= 57))
        invariant
            p < j <= s@.len(),
            forall|t: int| p < t < j ==> is_ident_char(#[trigger] s@[t]),
            spec_ident_end(s@, (p + 1) as int) == spec_ident_end(s@, j as int),
        decreases s@.len() - j,
    {
        proof {
            assert(spec_ident_end(s@, j as int) == spec_ident_end(s@, j + 1 as int));
        }
        j = j + 1;
    }
    proof {
        assert(spec_ident_end(s@, j as int) == j);
        assert(forall|t: int| p < t < j ==> #[trigger] s@[t] < 128);
    }
    let name_bytes = slice_range_vec(s, p, j);
    proof {
        assert(s@[p as int] < 128);
        assert(forall|i: int| 0 <= i < name_bytes@.len() ==> name_bytes@[i] < 128);
    }
    let name = ascii_to_string(name_bytes.as_slice());
    proof {
        assert(name@ =~= Seq::new((j - p) as nat, |i: int| s@[p + i] as char));
    }
    let (open_ok, p2) = expect_byte(s, j, 40, "expected '(' after function name", errs);
    if !open_ok {
        return (None, p2);
    }
    let ghost e1 = errs@;
    proof {
        assert(errs_extended(e0, e1, Seq::empty()));
    }
    let (items, p3) = parse_expr_list(s, p2, 41, errs);
    proof {
        lemma_errs_trans(e0, e1, errs@, Seq::empty(), sp_list(s@, p2 as int, 41).2);
        assert(Seq::<SpecErr>::empty() + sp_list(s@, p2 as int, 41).2 =~= sp_list(
            s@,
            p2 as int,
            41,
        ).2);
    }
    match items {
        Some(args) => (Some(Expr::FunctionCall { name, args }), p3),
        None => (None, p3),
    }
}

/// Parses a range literal whose opening bracket is at `p`.
fn parse_range_atom(s: &[u8], p: usize, errs: &mut Vec<ParseError>) -> (r: (Option<Expr>, usize))
    requires
        p < s@.len(),
    ensures
        r.1 <= s@.len(),
        r.0 matches Some(_) ==> p < r.1,
        final(errs)@.len() >= old(errs)@.len(),
        r.0 matches None ==> final(errs)@.len() > old(errs)@.len(),
        r.1 == sp_range_atom(s@, p as int).1,
        match r.0 {
            Some(e) => sp_range_atom(s@, p as int).0 == Some(expr_view(e)),
            None => sp_range_atom(s@, p as int).0 is None,
        },
        errs_extended(old(errs)@, final(errs)@, sp_range_atom(s@, p as int).2),
{
    let ghost e0 = errs@;
    let n = s.len();
    proof {
        assert(p < n);
    }
    let (v1, p2) = parse_int_ws(s, p + 1, errs);
    let ghost m1e = sp_int_ws(s@, (p + 1) as int).2;
    let start_val = match v1 {
        Some(v) => v,
        None => {
            return (None, p2);
        },
    };
    let ghost e1 = errs@;
    let (c1, p3) = expect_byte(s, p2, 44, "expected ',' in range literal", errs);
    proof {
        lemma_errs_trans(e0, e1, errs@, m1e, sp_expect(
            s@,
            p2 as int,
            44,
            "expected ',' in range literal"@,
        ).2);
    }
    if !c1 {
        return (None, p3);
    }
    let ghost e2 = errs@;
    proof {
        assert(m1e + Seq::<SpecErr>::empty() =~= m1e);
        assert(errs_extended(e0, e2, m1e));
    }
    let (v2, p4) = parse_int_ws(s, p3, errs);
    let ghost m2e = sp_int_ws(s@, p3 as int).2;
    proof {
        lemma_errs_trans(e0, e2, errs@, m1e, m2e);
    }
    let end_val = match v2 {
        Some(v) => v,
        None => {
            return (None, p4);
        },
    };
    let q = skip_ws(s, p4);
    if q < s.len() && s[q] == 44 {
        let ghost e3 = errs@;
        let (v3, p5) = parse_int_ws(s, q + 1, errs);
        let ghost m3e = sp_int_ws(s@, (q + 1) as int).2;
        proof {
            lemma_errs_trans(e0, e3, errs@, m1e + m2e, m3e);
        }
        let step_val = match v3 {
            Some(v) => v,
            None => {
                return (None, p5);
            },
        };
        let ghost e4 = errs@;
        let (c2, p6) = expect_byte(s, p5, 93, "expected ']' in range literal", errs);
        proof {
            lemma_errs_trans(e0, e4, errs@, m1e + m2e + m3e, sp_expect(
                s@,
                p5 as int,
                93,
                "expected ']' in range literal"@,
            ).2);
        }
        if !c2 {
            return (None, p6);
        }
        proof {
            assert((m1e + m2e + m3e) + Seq::<SpecErr>::empty() =~= m1e + m2e + m3e);
        }
        (
            Some(
                Expr::Literal(
                    Literal::Range(
                        RangeLiteral { start: start_val, end: end_val, step: Some(step_val) },
                    ),
                ),
            ),
            p6,
        )
    } else if q < s.len() && s[q] == 93 {
        (
            Some(Expr::Literal(Literal::Range(RangeLiteral { start: start_val, end: end_val, step: None }))),
            q + 1,
        )
    } else {
        let ghost e3 = errs@;
        push_err(errs, q, s.len(), "expected ',' or ']' in range literal");
        proof {
            lemma_errs_trans(
                e0,
                e3,
                errs@,
                m1e + m2e,
                seq![
                    SpecErr {
                        start: q as int,
                        end: s@.len() as int,
                        message: "expected ',' or ']' in range literal"@,
                    },
                ],
            );
        }
        (None, q)
    }
}

/// Parses a brace list or strong list whose opening brace is at `p`.
fn parse_brace_atom(s: &[u8], p: usize, errs: &mut Vec<ParseError>) -> (r: (Option<Expr>, usize))
    requires
        p < s@.len(),
    ensures
        r.1 <= s@.len(),
        r.0 matches Some(_) ==> p < r.1,
        final(errs)@.len() >= old(errs)@.len(),
        r.0 matches None ==> final(errs)@.len() > old(errs)@.len(),
        r.1 == sp_brace_atom(s@, p as int).1,
        match r.0 {
            Some(e) => sp_brace_atom(s@, p as int).0 == Some(expr_view(e)),
            None => sp_brace_atom(s@, p as int).0 is None,
        },
        errs_extended(old(errs)@, final(errs)@, sp_brace_atom(s@, p as int).2),
    decreases s@.len() - p, 0int,
{
    let ghost e0 = errs@;
    let n = s.len();
    proof {
        assert(p < n);
    }
    let (items, p2) = parse_expr_list(s, p + 1, 125, errs);
    let ghost spec_items_res = sp_list(s@, (p + 1) as int, 125);
    let mut exprs = match items {
        Some(es) => es,
        None => {
            return (None, p2);
        },
    };
    let ghost spec_items = spec_items_res.0->Some_0;
    proof {
        assert(spec_items == args_view(exprs@));
        lemma_args_view_index(exprs@, 0);
        assert(spec_items.len() == exprs@.len());
    }
    let mut ints: Vec<i64> = Vec::new();
    let mut all_ints = true;
    let mut i: usize = 0;
    while i < exprs.len()
        invariant
            i <= exprs@.len(),
            spec_items == args_view(exprs@),
            spec_items.len() == exprs@.len(),
            all_ints == (forall|t: int|
                0 <= t < i ==> (#[trigger] spec_items[t]) matches SpecExpr::Literal(
                    SpecLiteral::Int(_),
                )),
            all_ints ==> ints@.len() == i,
            all_ints ==> (forall|t: int|
                0 <= t < i ==> #[trigger] ints@[t] == sp_int_values(spec_items)[t]),
        decreases exprs@.len() - i,
    {
        proof {
            lemma_args_view_index(exprs@, i as int);
        }
        match &exprs[i] {
            Expr::Literal(Literal::Int(v)) => {
                ints.push(*v);
            },
            _ => {
                all_ints = false;
            },
        }
        i = i + 1;
    }
    if all_ints && exprs.len() > 0 {
        proof {
            assert(sp_all_ints(spec_items));
            assert(ints@ =~= sp_int_values(spec_items));
        }
        (Some(Expr::Literal(Literal::List(ints))), p2)
    } else if exprs.len() == 1 {
        let ghost pre = exprs@;
        let inner = exprs.remove(0);
        proof {
            lemma_args_view_index(pre, 0);
            assert(spec_items[0] == expr_view(inner));
            assert(spec_items.len() == 1);
            assert(!(sp_all_ints(spec_items) && spec_items.len() > 0));
        }
        (Some(Expr::StrongList(Box::new(inner))), p2)
    } else {
        let ghost e1 = errs@;
        push_err(
            errs,
            p,
            p2,
            "elements inside braces must be all integers (a list) or a single expression (a strong list)",
        );
        proof {
            lemma_errs_trans(
                e0,
                e1,
                errs@,
                spec_items_res.2,
                seq![
                    SpecErr {
                        start: p as int,
                        end: p2 as int,
                        message: "elements inside braces must be all integers (a list) or a single expression (a strong list)"@,
                    },
                ],
            );
            assert(!(sp_all_ints(spec_items) && spec_items.len() > 0));
            assert(spec_items.len() != 1);
        }
        let empty: Vec<i64> = Vec::new();
        proof {
            assert(empty@ =~= Seq::<i64>::empty());
        }
        (Some(Expr::Literal(Literal::List(empty))), p2)
    }
}

/// Parses an atom: a function call, a range literal, a brace list or strong
/// list, a bare integer literal, or a parenthesized sub-expression. The
/// result, the position after it, and the recorded errors are exactly those
/// of the modelled atom [`sp_atom`].
fn parse_atom(s: &[u8], pos: usize, errs: &mut Vec<ParseError>) -> (r: (Option<Expr>, usize))
    requires
        pos <= s@.len(),
    ensures
        r.1 <= s@.len(),
        r.0 matches Some(_) ==> pos < r.1,
        final(errs)@.len() >= old(errs)@.len(),
        r.0 matches None ==> final(errs)@.len() > old(errs)@.len(),
        int_atom_at(s@, pos as int) ==> (r.0 matches Some(e) && (e == int_atom_expr(s@, pos as int)
            && r.1 == int_atom_end(s@, pos as int) && final(errs)@ == old(errs)@)),
        r.1 == sp_atom(s@, pos as int).1,
        match r.0 {
            Some(e) => sp_atom(s@, pos as int).0 == Some(expr_view(e)),
            None => sp_atom(s@, pos as int).0 is None,
        },
        errs_extended(old(errs)@, final(errs)@, sp_atom(s@, pos as int).2),
    decreases s@.len() - pos, 1int,
{
    let ghost e0 = errs@;
    let p = skip_ws(s, pos);
    proof {
        if int_atom_at(s@, pos as int) {
            let start = spec_ws_end(s@, pos as int);
            assert(int_token_ok(s@, start));
            if !int_token_neg(s@, start) {
                assert(spec_digits_end(s@, start) > start);
                assert(is_digit(s@[start]));
            }
        }
        lemma_errs_refl(e0);
    }
    if p >= s.len() {
        push_err(errs, p, s.len(), "expected an expression");
        return (None, p);
    }
    let b = s[p];
    if (65 <= b && b <= 90) || (97 <= b && b <= 122) || b == 95 {
        parse_call_atom(s, p, errs)
    } else if b == 91 {
        parse_range_atom(s, p, errs)
    } else if b == 123 {
        parse_brace_atom(s, p, errs)
    } else if b == 45 || (48 <= b && b <= 57) {
        // a bare integer literal
        let (end, val) = scan_int(s, p, errs);
        match val {
            Some(v) => (Some(Expr::Literal(Literal::Int(v))), end),
            None => {
                let ghost e1 = errs@;
                push_err(errs, p, s.len(), "expected an integer");
                proof {
                    lemma_errs_trans(e0, e1, errs@, sp_scan_int(s@, p as int).2, seq![
                        SpecErr {
                            start: p as int,
                            end: s@.len() as int,
                            message: "expected an integer"@,
                        },
                    ]);
                }
                (None, end)
            },
        }
    } else if b == 40 {
        // '(' a parenthesized sub-expression
        let (inner, p2) = parse_pratt(s, p + 1, 0, errs);
        let e = match inner {
            Some(e) => e,
            None => {
                return (None, p2);
            },
        };
        let ghost e1 = errs@;
        let (c, p3) = expect_byte(s, p2, 41, "expected ')'", errs);
        proof {
            lemma_errs_trans(e0, e1, errs@, sp_pratt(s@, (p + 1) as int, 0).2, sp_expect(
                s@,
                p2 as int,
                41,
                "expected ')'"@,
            ).2);
            assert(sp_pratt(s@, (p + 1) as int, 0).2 + Seq::<SpecErr>::empty() =~= sp_pratt(
                s@,
                (p + 1) as int,
                0,
            ).2);
        }
        if !c {
            return (None, p3);
        }
        (Some(e), p3)
    } else {
        push_err(errs, p, p + 1, "unexpected character");
        (None, p)
    }
}

/// Parses a comma-separated, trailing-comma-tolerant list of expressions up
/// to the closing byte, and consumes the closer; the items, position and
/// errors are exactly those of the modelled list [`sp_list`].
fn parse_expr_list(s: &[u8], pos: usize, closer: u8, errs: &mut Vec<ParseError>) -> (r: (
    Option<Vec<Expr>>,
    usize,
))
    requires
        pos <= s@.len(),
    ensures
        r.1 <= s@.len(),
        r.0 matches Some(_) ==> pos < r.1,
        final(errs)@.len() >= old(errs)@.len(),
        r.0 matches None ==> final(errs)@.len() > old(errs)@.len(),
        r.1 == sp_list(s@, pos as int, closer).1,
        match r.0 {
            Some(v) => sp_list(s@, pos as int, closer).0 == Some(args_view(v@)),
            None => sp_list(s@, pos as int, closer).0 is None,
        },
        errs_extended(old(errs)@, final(errs)@, sp_list(s@, pos as int, closer).2),
    decreases s@.len() - pos, 3int,
{
    let ghost e0 = errs@;
    let mut items: Vec<Expr> = Vec::new();
    let first = skip_ws(s, pos);
    proof {
        lemma_errs_refl(e0);
    }
    if first < s.len() && s[first] == closer {
        proof {
            assert(args_view(items@) =~= Seq::<SpecExpr>::empty());
        }
        return (Some(items), first + 1);
    }
    let mut cur = first;
    let ghost mut m_acc: Seq<SpecErr> = Seq::empty();
    proof {
        assert(args_view(items@) =~= Seq::<SpecExpr>::empty());
        match sp_items(s@, cur as int, closer).0 {
            Some(rs) => {
                assert(args_view(items@) + rs =~= rs);
            },
            None => {},
        }
        assert(m_acc + sp_items(s@, cur as int, closer).2 =~= sp_items(s@, cur as int, closer).2);
    }
    loop
        invariant
            pos <= first <= s@.len(),
            first == spec_ws_end(s@, pos as int),
            !(first < s@.len() && s@[first as int] == closer),
            first <= cur <= s@.len(),
            errs_extended(e0, errs@, m_acc),
            e0 == old(errs)@,
            sp_list(s@, pos as int, closer).0 == (match sp_items(s@, cur as int, closer).0 {
                None => None,
                Some(rs) => Some(args_view(items@) + rs),
            }),
            sp_list(s@, pos as int, closer).1 == sp_items(s@, cur as int, closer).1,
            sp_list(s@, pos as int, closer).2 == m_acc + sp_items(s@, cur as int, closer).2,
        decreases s@.len() - cur,
    {
        let ghost it = sp_items(s@, cur as int, closer);
        let ghost ea = errs@;
        let (item, p2) = parse_pratt(s, cur, 0, errs);
        let ghost me = sp_pratt(s@, cur as int, 0).2;
        proof {
            lemma_errs_trans(e0, ea, errs@, m_acc, me);
        }
        let e = match item {
            Some(e) => e,
            None => {
                return (None, p2);
            },
        };
        let ghost pre_items = items@;
        items.push(e);
        proof {
            lemma_args_view_push(pre_items, e);
            assert(args_view(items@) =~= args_view(pre_items) + seq![expr_view(e)]);
        }
        let q = skip_ws(s, p2);
        if q < s.len() && s[q] == 44 {
            let q2 = skip_ws(s, q + 1);
            if q2 < s.len() && s[q2] == closer {
                proof {
                    assert(it.0 == Some(seq![expr_view(e)]));
                    assert(args_view(pre_items) + seq![expr_view(e)] =~= args_view(items@));
                }
                return (Some(items), q2 + 1);
            }
            proof {
                let rest = sp_items(s@, q2 as int, closer);
                assert(it.0 == (match rest.0 {
                    None => None,
                    Some(rs) => Some(seq![expr_view(e)] + rs),
                }));
                assert(it.1 == rest.1);
                assert(it.2 == me + rest.2);
                match rest.0 {
                    None => {},
                    Some(rs) => {
                        assert(args_view(pre_items) + (seq![expr_view(e)] + rs) =~= args_view(
                            items@,
                        ) + rs);
                    },
                }
                assert((m_acc + me) + rest.2 =~= m_acc + (me + rest.2));
                m_acc = m_acc + me;
            }
            cur = q2;
        } else if q < s.len() && s[q] == closer {
            proof {
                assert(it.0 == Some(seq![expr_view(e)]));
                assert(args_view(pre_items) + seq![expr_view(e)] =~= args_view(items@));
            }
            return (Some(items), q + 1);
        } else {
            let ghost eb = errs@;
            push_err(errs, q, s.len(), "expected ',' or a closing delimiter");
            proof {
                let one = seq![
                    SpecErr {
                        start: q as int,
                        end: s@.len() as int,
                        message: "expected ',' or a closing delimiter"@,
                    },
                ];
                lemma_errs_trans(e0, eb, errs@, m_acc + me, one);
                assert((m_acc + me) + one =~= m_acc + (me + one));
            }
            return (None, q);
        }
    }
}

/// Combines atoms over the binary operators by precedence climbing: each
/// operator whose precedence reaches `min_prec` extends the tree, a
/// left-associative operator climbing with a higher bound than a
/// right-associative one. The result, position and errors are exactly those
/// of the modelled expression [`sp_pratt`].
fn parse_pratt(s: &[u8], pos: usize, min_prec: u16, errs: &mut Vec<ParseError>) -> (r: (
    Option<Expr>,
    usize,
))
    requires
        pos <= s@.len(),
    ensures
        r.1 <= s@.len(),
        r.0 matches Some(_) ==> pos < r.1,
        final(errs)@.len() >= old(errs)@.len(),
        r.0 matches None ==> final(errs)@.len() > old(errs)@.len(),
        whole_input_int(s@, pos as int) ==> (r.0 matches Some(e) && (e == int_atom_expr(
            s@,
            pos as int,
        ) && r.1 == int_atom_end(s@, pos as int) && final(errs)@ == old(errs)@)),
        r.1 == sp_pratt(s@, pos as int, min_prec as int).1,
        match r.0 {
            Some(e) => sp_pratt(s@, pos as int, min_prec as int).0 == Some(expr_view(e)),
            None => sp_pratt(s@, pos as int, min_prec as int).0 is None,
        },
        errs_extended(old(errs)@, final(errs)@, sp_pratt(s@, pos as int, min_prec as int).2),
    decreases s@.len() - pos, 2int,
{
    let ghost e0 = errs@;
    let (atom, start_pos) = parse_atom(s, pos, errs);
    let ghost ae = sp_atom(s@, pos as int).2;
    let mut lhs = match atom {
        Some(e) => e,
        None => {
            return (None, start_pos);
        },
    };
    let mut cur = start_pos;
    let ghost mut m_acc: Seq<SpecErr> = ae;
    loop
        invariant
            pos < cur <= s@.len(),
            errs_extended(e0, errs@, m_acc),
            e0 == old(errs)@,
            whole_input_int(s@, pos as int) ==> (lhs == int_atom_expr(s@, pos as int) && cur
                == int_atom_end(s@, pos as int) && errs@ == old(errs)@),
            sp_pratt(s@, pos as int, min_prec as int).0 == sp_climb(
                s@,
                expr_view(lhs),
                cur as int,
                min_prec as int,
            ).0,
            sp_pratt(s@, pos as int, min_prec as int).1 == sp_climb(
                s@,
                expr_view(lhs),
                cur as int,
                min_prec as int,
            ).1,
            sp_pratt(s@, pos as int, min_prec as int).2 == m_acc + sp_climb(
                s@,
                expr_view(lhs),
                cur as int,
                min_prec as int,
            ).2,
        decreases s@.len() - cur,
    {
        let ghost c = sp_climb(s@, expr_view(lhs), cur as int, min_prec as int);
        let q = skip_ws(s, cur);
        match peek_op(s, q) {
            None => {
                proof {
                    assert(c.0 == Some(expr_view(lhs)) && c.1 == cur && c.2
                        =~= Seq::<SpecErr>::empty());
                    assert(m_acc + c.2 =~= m_acc);
                }
                return (Some(lhs), cur);
            },
            Some((op, after)) => {
                let prec = op.precedence();
                proof {
                    assert(prec <= 150);
                }
                if prec < min_prec {
                    proof {
                        assert(c.0 == Some(expr_view(lhs)) && c.1 == cur && c.2
                            =~= Seq::<SpecErr>::empty());
                        assert(m_acc + c.2 =~= m_acc);
                    }
                    return (Some(lhs), cur);
                }
                let next_min = match op {
                    BinaryOperator::DiceRoll => prec,
                    _ => prec + 1,
                };
                proof {
                    assert(next_min as int == if op_right_assoc(op) {
                        op_precedence(op) as int
                    } else {
                        op_precedence(op) + 1
                    });
                }
                let ghost ea = errs@;
                let (rhs, p3) = parse_pratt(s, after, next_min, errs);
                let ghost me = sp_pratt(s@, after as int, next_min as int).2;
                proof {
                    lemma_errs_trans(e0, ea, errs@, m_acc, me);
                }
                let re = match rhs {
                    Some(e) => e,
                    None => {
                        return (None, p3);
                    },
                };
                let ghost pre_lhs = expr_view(lhs);
                lhs = Expr::BinaryOp { left: Box::new(lhs), op, right: Box::new(re) };
                proof {
                    assert(expr_view(lhs) == SpecExpr::BinaryOp {
                        left: Box::new(pre_lhs),
                        op,
                        right: Box::new(expr_view(re)),
                    });
                    let r2 = sp_climb(s@, expr_view(lhs), p3 as int, min_prec as int);
                    assert(c.0 == r2.0 && c.1 == r2.1 && c.2 == me + r2.2);
                    assert((m_acc + me) + r2.2 =~= m_acc + (me + r2.2));
                    m_acc = m_acc + me;
                }
                cur = p3;
            },
        }
    }
}

/// Parses an expression from source text: the completed tree, or the
/// non-empty list of collected errors. The whole input must be consumed.
///
/// The contract is complete: success, the tree, and every recorded error
/// with its span and message are exactly those of the modelled grammar
/// [`sp_parse`], so the result is a function of the input text alone.
pub fn parse(input: &str) -> (res: Result<Expr, Vec<ParseError>>)
    ensures
        res matches Err(es) ==> es@.len() > 0,
        match int_literal_value(input.spec_bytes()) {
            Some(v) => i64::MIN <= v <= i64::MAX ==> res == Result::<Expr, Vec<ParseError>>::Ok(
                Expr::Literal(Literal::Int(v as i64)),
            ),
            None => true,
        },
        ({
            let m = sp_parse(input.spec_bytes());
            match res {
                Ok(e) => m.1.len() == 0 && m.0 == Some(expr_view(e)),
                Err(es) => m.1.len() > 0 && errs_extended(Seq::empty(), es@, m.1),
            }
        }),
{
    let s = input.as_bytes();
    let mut errs: Vec<ParseError> = Vec::new();
    proof {
        assert(errs@ =~= Seq::<ParseError>::empty());
        match int_literal_value(s@) {
            Some(v) => {
                if i64::MIN <= v <= i64::MAX {
                    assert(spec_ws_end(s@, 0) == spec_ws_end(s@, 0 as int));
                    assert(whole_input_int(s@, 0));
                }
            },
            None => {},
        }
    }
    let (opt, p) = parse_pratt(s, 0, 0, &mut errs);
    let ghost pe = sp_pratt(s@, 0 as int, 0 as int).2;
    match opt {
        Some(e) => {
            let p2 = skip_ws(s, p);
            if p2 < s.len() {
                let ghost e1 = errs@;
                push_err(&mut errs, p2, s.len(), "unexpected trailing input");
                proof {
                    lemma_errs_trans(Seq::empty(), e1, errs@, pe, seq![
                        SpecErr {
                            start: p2 as int,
                            end: s@.len() as int,
                            message: "unexpected trailing input"@,
                        },
                    ]);
                }
            }
            if errs.len() > 0 {
                Err(errs)
            } else {
                Ok(e)
            }
        },
        None => Err(errs),
    }
}

} // verus!

