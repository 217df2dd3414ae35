//! The evaluator: value representations, the error taxonomy, and the
//! recursive evaluation of expression trees driven by a random source.

use vstd::multiset::Multiset;
use vstd::prelude::*;

use crate::ast::{
    lemma_range_seq_first, range_seq, range_stops, signed_step, wrap_add, wrap_mul, wrap_sub,
    BinaryOperator, Expr, Literal, RangeLiteral,
};
use crate::decimal::{append_i64, append_usize, dec_int, dec_nat};
use crate::rng::{RandomSource, ThreadRandom};

verus! {

/// The 64-bit wrapping sum of a sequence of integers.
pub open spec fn wrap_sum(s: Seq<i64>) -> i64
    decreases s.len(),
{
    if s.len() == 0 {
        0
    } else {
        wrap_add(wrap_sum(s.drop_last()), s.last())
    }
}

/// The result of evaluating an expression: either an integer or a list of
/// integers. The strong/weak distinction of the evaluator's internal values
/// is erased on this boundary.
#[derive(Debug, Clone, PartialEq, Eq)]
pub enum Value {
    /// An integer.
    Integer(i64),
    /// A list of integers.
    List(Vec<i64>),
}

/// Sums a vector of integers with wrapping addition.
fn sum_vec(v: &Vec<i64>) -> (r: i64)
    ensures
        r == wrap_sum(v@),
{
    let mut acc: i64 = 0;
    let mut i: usize = 0;
    while i < v.len()
        invariant
            i <= v@.len(),
            acc == wrap_sum(v@.take(i as int)),
        decreases v@.len() - i,
    {
        acc = acc.wrapping_add(v[i]);
        proof {
            assert(v@.take(i + 1 as int).drop_last() =~= v@.take(i as int));
            assert(v@.take(i + 1 as int).last() == v@[i as int]);
        }
        i = i + 1;
    }
    proof {
        assert(v@.take(v@.len() as int) =~= v@);
    }
    acc
}

/// Copies a vector of integers.
fn copy_vec(v: &Vec<i64>) -> (r: Vec<i64>)
    ensures
        r@ == v@,
{
    let mut out: Vec<i64> = Vec::new();
    let mut i: usize = 0;
    while i < v.len()
        invariant
            i <= v@.len(),
            out@ == v@.take(i as int),
        decreases v@.len() - i,
    {
        out.push(v[i]);
        proof {
            assert(v@.take(i + 1 as int) =~= v@.take(i as int).push(v@[i as int]));
        }
        i = i + 1;
    }
    proof {
        assert(v@.take(v@.len() as int) =~= v@);
    }
    out
}

impl Value {
    /// Returns `true` if the value is an integer.
    pub fn is_integer(&self) -> (r: bool)
        ensures
            r == (self matches Value::Integer(_)),
    {
        match self {
            Value::Integer(_) => true,
            _ => false,
        }
    }

    /// Returns `true` if the value is a list.
    pub fn is_list(&self) -> (r: bool)
        ensures
            r == (self matches Value::List(_)),
    {
        match self {
            Value::List(_) => true,
            _ => false,
        }
    }

    /// Converts the value into a list. An integer becomes a single-element
    /// list containing that integer.
    pub fn into_list(self) -> (r: Vec<i64>)
        ensures
            match self {
                Value::List(lst) => r@ == lst@,
                Value::Integer(i) => r@ =~= seq![i],
            },
    {
        match self {
            Value::List(lst) => lst,
            Value::Integer(i) => {
                let mut v: Vec<i64> = Vec::new();
                v.push(i);
                v
            },
        }
    }

    /// The sum of all elements of the value, with wrapping addition; an
    /// integer is its own sum.
    pub fn sum(&self) -> (r: i64)
        ensures
            match *self {
                Value::Integer(i) => r == i,
                Value::List(lst) => r == wrap_sum(lst@),
            },
    {
        match self {
            Value::Integer(i) => *i,
            Value::List(lst) => sum_vec(lst),
        }
    }

    /// Renders the value: a bare decimal for an integer, `{a, b, c}` for a
    /// list.
    pub fn render(&self) -> (s: String)
        ensures
            match *self {
                Value::Integer(i) => s@ == dec_int(i as int),
                Value::List(lst) => s@ == crate::ast::spec_fmt_literal(Literal::List(lst)),
            },
    {
        match self {
            Value::Integer(i) => crate::decimal::i64_to_string(*i),
            Value::List(lst) => {
                let mut f = crate::ast::InlineFormatter;
                let copied = copy_vec(lst);
                proof {
                    assert(copied@ =~= lst@);
                }
                let lit = Literal::List(copied);
                let s = f.fmt_literal(&lit);
                proof {
                    assert(crate::ast::spec_fmt_literal(lit) == crate::ast::spec_fmt_literal(
                        Literal::List(*lst),
                    ));
                }
                s
            },
        }
    }
}

/// The internal representation of a list during evaluation: either a
/// materialized vector, or a range kept unmaterialized until enumeration or
/// sampling is required.
#[derive(Debug, Clone)]
pub enum ListInner {
    /// A concrete list of integers.
    List(Vec<i64>),
    /// A range defined by start, end, and optional step.
    Range(RangeLiteral),
}

/// The wrapping sum of a concatenation folds the left part first.
proof fn lemma_wrap_sum_append(a: Seq<i64>, b: Seq<i64>)
    ensures
        wrap_sum(a + b) == (if b.len() == 0 {
            wrap_sum(a)
        } else {
            wrap_add(wrap_sum(a + b.drop_last()), b.last())
        }),
{
    if b.len() == 0 {
        assert(a + b =~= a);
    } else {
        assert((a + b).drop_last() =~= a + b.drop_last());
        assert((a + b).last() == b.last());
    }
}

/// Sums a range along its enumeration, with wrapping addition, without
/// materializing it.
fn range_sum(range: &RangeLiteral) -> (r: i64)
    ensures
        r == wrap_sum(range.seq()),
{
    let inc = range.end >= range.start;
    let mag: i64 = match range.step {
        Some(s) => {
            if s == i64::MIN {
                i64::MIN
            } else if s < 0 {
                -s
            } else {
                s
            }
        },
        None => 1,
    };
    let step: i64 = if inc {
        mag
    } else {
        if mag == i64::MIN {
            i64::MIN
        } else {
            -mag
        }
    };
    let mut acc: i64 = 0;
    let mut cur: i64 = range.start;
    let ghost mut done: Seq<i64> = Seq::empty();
    proof {
        assert(range.seq() =~= done + range_seq(cur, range.end, step, inc));
    }
    loop
        invariant_except_break
            inc == range.ascending(),
            step == range.eff_step(),
            if inc { cur <= range.end } else { cur >= range.end },
            range.seq() == done + range_seq(cur, range.end, step, inc),
            acc == wrap_sum(done),
        ensures
            acc == wrap_sum(range.seq()),
        decreases (if inc { range.end - cur } else { cur - range.end }),
    {
        let ghost prev_done = done;
        acc = acc.wrapping_add(cur);
        proof {
            lemma_wrap_sum_append(prev_done, seq![cur]);
            assert(seq![cur].drop_last() =~= Seq::<i64>::empty());
            assert(prev_done + seq![cur].drop_last() =~= prev_done);
            assert(seq![cur].last() == cur);
            done = prev_done.push(cur);
            assert(done =~= prev_done + seq![cur]);
            assert(acc == wrap_sum(done));
        }
        let next = cur.wrapping_add(step);
        if (inc && (next > range.end || next <= cur)) || (!inc && (next < range.end || next
            >= cur)) {
            proof {
                assert(range_seq(cur, range.end, step, inc) =~= seq![cur]);
                assert(range.seq() =~= done);
            }
            break;
        }
        proof {
            assert(range_seq(cur, range.end, step, inc) =~= seq![cur] + range_seq(
                next,
                range.end,
                step,
                inc,
            ));
            assert(prev_done + (seq![cur] + range_seq(next, range.end, step, inc)) =~= done
                + range_seq(next, range.end, step, inc));
            assert(range.seq() =~= done + range_seq(next, range.end, step, inc));
        }
        cur = next;
    }
    acc
}

impl ListInner {
    /// The sequence of integers this list stands for.
    pub open spec fn seq(self) -> Seq<i64> {
        match self {
            ListInner::List(lst) => lst@,
            ListInner::Range(r) => r.seq(),
        }
    }

    /// The wrapping sum of all elements of the list; a range is summed along
    /// its enumeration without being materialized.
    pub fn sum(&self) -> (r: i64)
        ensures
            r == wrap_sum(self.seq()),
    {
        match self {
            ListInner::List(lst) => sum_vec(lst),
            ListInner::Range(range) => range_sum(range),
        }
    }

    /// Copies the list into a concrete vector.
    pub fn clone_vec(&self) -> (r: Vec<i64>)
        ensures
            r@ == self.seq(),
    {
        match self {
            ListInner::List(lst) => copy_vec(lst),
            ListInner::Range(range) => range.to_vec(),
        }
    }

    /// Converts the list into a concrete vector.
    pub fn into_vec(self) -> (r: Vec<i64>)
        ensures
            r@ == self.seq(),
    {
        match self {
            ListInner::List(lst) => lst,
            ListInner::Range(range) => range.to_vec(),
        }
    }

    /// Whether the list stands for no elements at all; a range always
    /// enumerates at least its start.
    fn is_empty_list(&self) -> (r: bool)
        ensures
            r == (self.seq().len() == 0),
    {
        match self {
            ListInner::List(lst) => lst.len() == 0,
            ListInner::Range(r) => {
                proof {
                    crate::ast::lemma_range_seq_first(*r);
                }
                false
            },
        }
    }
}

/// The internal representation of a value during evaluation: an integer, or
/// a list carrying the strong/weak flag.
#[derive(Debug, Clone)]
pub enum InnerValue {
    /// An integer value.
    Integer(i64),
    /// A list value; `strong` records whether it must stay a list through
    /// arithmetic instead of collapsing to its sum.
    List {
        /// Whether the list is strong.
        strong: bool,
        /// The list's representation.
        inner: ListInner,
    },
}

impl InnerValue {
    /// How the value reduces toward an integer: an integer is itself, a weak
    /// list is its wrapping sum, and a strong list refuses and stays the
    /// sequence of its elements.
    pub open spec fn spec_reduced(self) -> Result<i64, Seq<i64>> {
        match self {
            InnerValue::Integer(i) => Ok(i),
            InnerValue::List { strong, inner } => if strong {
                Err(inner.seq())
            } else {
                Ok(wrap_sum(inner.seq()))
            },
        }
    }

    /// Asserts that the value is an integer and returns it, or reports
    /// [`EvalError::IntegerExpected`].
    pub fn assert_integer(self) -> (r: Result<i64, EvalError>)
        ensures
            match self {
                InnerValue::Integer(i) => r == Result::<i64, EvalError>::Ok(i),
                InnerValue::List { .. } => r == Result::<i64, EvalError>::Err(
                    EvalError::IntegerExpected,
                ),
            },
    {
        match self {
            InnerValue::Integer(i) => Ok(i),
            _ => Err(EvalError::IntegerExpected),
        }
    }

    /// Asserts that the value is a list and returns its strength and inner
    /// representation, or reports [`EvalError::ListExpected`].
    pub fn assert_list(self) -> (r: Result<(bool, ListInner), EvalError>)
        ensures
            match self {
                InnerValue::Integer(_) => r == Result::<(bool, ListInner), EvalError>::Err(
                    EvalError::ListExpected,
                ),
                InnerValue::List { strong, inner } => r matches Ok((s, l)) && s == strong && l
                    == inner,
            },
    {
        match self {
            InnerValue::List { strong, inner } => Ok((strong, inner)),
            _ => Err(EvalError::ListExpected),
        }
    }

    /// Tries to reduce the value to an integer; a strong list refuses and
    /// hands back its inner representation instead.
    pub fn try_into_integer(self) -> (r: Result<i64, ListInner>)
        ensures
            match r {
                Ok(i) => self.spec_reduced() == Result::<i64, Seq<i64>>::Ok(i),
                Err(inner) => self.spec_reduced() == Result::<i64, Seq<i64>>::Err(inner.seq()),
            },
    {
        match self {
            InnerValue::Integer(i) => Ok(i),
            InnerValue::List { strong: false, inner } => Ok(inner.sum()),
            InnerValue::List { strong: true, inner } => Err(inner),
        }
    }

    /// Converts the internal value into the public [`Value`], materializing
    /// any remaining lazy range and discarding the strong/weak flag.
    fn into_public(self) -> (r: Value)
        ensures
            match self {
                InnerValue::Integer(i) => r == Value::Integer(i),
                InnerValue::List { strong, inner } => r matches Value::List(v) && v@ == inner.seq(),
            },
    {
        match self {
            InnerValue::Integer(i) => Value::Integer(i),
            InnerValue::List { strong: _, inner } => Value::List(inner.into_vec()),
        }
    }
}

/// Errors that can occur during evaluation. Any error short-circuits the
/// remaining traversal; no partial value is returned.
#[derive(Debug, Clone, Copy, PartialEq, Eq, Structural)]
pub enum EvalError {
    /// An integer was expected but a list was found.
    IntegerExpected,
    /// A list was expected but an integer was found.
    ListExpected,
    /// Tried to keep more elements than available in the list.
    KeepTooMany {
        /// How many elements the list has.
        available: usize,
        /// How many elements were requested.
        requested: i64,
    },
    /// Tried to drop more elements than available in the list.
    DropTooMany {
        /// How many elements the list has.
        available: usize,
        /// How many elements were requested.
        requested: i64,
    },
    /// Tried to keep a negative number of elements.
    KeepTooLess {
        /// The negative requested count.
        requested: i64,
    },
    /// Tried to drop a negative number of elements.
    DropTooLess {
        /// The negative requested count.
        requested: i64,
    },
    /// The lengths of two strong lists did not match in an elementwise
    /// operation.
    ListMismatch {
        /// The length of the left list.
        left_len: usize,
        /// The length of the right list.
        right_len: usize,
    },
    /// A dice roll drew from an empty face set.
    EmptyFaceSet,
    /// The grammar accepts function calls, but the evaluator does not yet
    /// resolve any function.
    FunctionCallUnsupported,
}

/// The rendering of each evaluation error as a human-readable message.
pub open spec fn spec_describe(e: EvalError) -> Seq<char> {
    match e {
        EvalError::IntegerExpected => "Expected an integer, but got a list"@,
        EvalError::ListExpected => "Expected a list, but got an integer"@,
        EvalError::KeepTooMany { available, requested } => "Cannot keep "@ + dec_int(
            requested as int,
        ) + " elements from a list of "@ + dec_nat(available as nat) + " elements"@,
        EvalError::DropTooMany { available, requested } => "Cannot drop "@ + dec_int(
            requested as int,
        ) + " elements from a list of "@ + dec_nat(available as nat) + " elements"@,
        EvalError::KeepTooLess { requested } => "Cannot keep "@ + dec_int(requested as int)
            + " elements (must be non-negative)"@,
        EvalError::DropTooLess { requested } => "Cannot drop "@ + dec_int(requested as int)
            + " elements (must be non-negative)"@,
        EvalError::ListMismatch { left_len, right_len } => "List length mismatch: left has "@
            + dec_nat(left_len as nat) + " elements, right has "@ + dec_nat(right_len as nat)
            + " elements"@,
        EvalError::EmptyFaceSet => "Cannot roll dice from an empty face set"@,
        EvalError::FunctionCallUnsupported => "Function calls are not supported yet"@,
    }
}

impl EvalError {
    /// Renders the error as a human-readable message.
    pub fn describe(&self) -> (s: String)
        ensures
            s@ == spec_describe(*self),
    {
        let mut s = String::new();
        match self {
            EvalError::IntegerExpected => {
                s.append("Expected an integer, but got a list");
            },
            EvalError::ListExpected => {
                s.append("Expected a list, but got an integer");
            },
            EvalError::KeepTooMany { available, requested } => {
                s.append("Cannot keep ");
                append_i64(&mut s, *requested);
                s.append(" elements from a list of ");
                append_usize(&mut s, *available);
                s.append(" elements");
            },
            EvalError::DropTooMany { available, requested } => {
                s.append("Cannot drop ");
                append_i64(&mut s, *requested);
                s.append(" elements from a list of ");
                append_usize(&mut s, *available);
                s.append(" elements");
            },
            EvalError::KeepTooLess { requested } => {
                s.append("Cannot keep ");
                append_i64(&mut s, *requested);
                s.append(" elements (must be non-negative)");
            },
            EvalError::DropTooLess { requested } => {
                s.append("Cannot drop ");
                append_i64(&mut s, *requested);
                s.append(" elements (must be non-negative)");
            },
            EvalError::ListMismatch { left_len, right_len } => {
                s.append("List length mismatch: left has ");
                append_usize(&mut s, *left_len);
                s.append(" elements, right has ");
                append_usize(&mut s, *right_len);
                s.append(" elements");
            },
            EvalError::EmptyFaceSet => {
                s.append("Cannot roll dice from an empty face set");
            },
            EvalError::FunctionCallUnsupported => {
                s.append("Function calls are not supported yet");
            },
        }
        s
    }
}

/// The order used when sorting for keep/drop: ascending or descending.
pub open spec fn leq_for(asc: bool) -> spec_fn(i64, i64) -> bool {
    if asc {
        |a: i64, b: i64| a <= b
    } else {
        |a: i64, b: i64| a >= b
    }
}

/// The sequence sorted in the requested direction.
pub open spec fn sorted_for(s: Seq<i64>, asc: bool) -> Seq<i64> {
    s.sort_by(leq_for(asc))
}

/// Both sorting orders are total orderings.
proof fn lemma_leq_total(asc: bool)
    ensures
        vstd::relations::total_ordering(leq_for(asc)),
{
    let leq = leq_for(asc);
    assert forall|x: i64| #[trigger] leq(x, x) by {}
    assert forall|x: i64, y: i64| #[trigger] leq(x, y) && #[trigger] leq(y, x) implies x == y by {}
    assert forall|x: i64, y: i64, z: i64| #[trigger] leq(x, y) && #[trigger] leq(y, z) implies leq(
        x,
        z,
    ) by {}
    assert forall|x: i64, y: i64| #[trigger] leq(x, y) || #[trigger] leq(y, x) by {}
}

/// What each sorting order means, pointwise.
proof fn lemma_leq_unfold(asc: bool)
    ensures
        forall|a: i64, b: i64| #[trigger] leq_for(asc)(a, b) <==> (if asc {
            a <= b
        } else {
            a >= b
        }),
{
}

/// Sorts a vector of integers ascending or descending; the result is exactly
/// the spec-level sort in that direction.
fn sort_vec(v: Vec<i64>, asc: bool) -> (out: Vec<i64>)
    ensures
        out@ == sorted_for(v@, asc),
        out@.len() == v@.len(),
{
    broadcast use vstd::seq_lib::group_to_multiset_ensures;
    broadcast use vstd::multiset::group_multiset_axioms;

    proof {
        lemma_leq_unfold(asc);
    }
    let ghost orig = v@;
    let mut rest = v;
    let mut out: Vec<i64> = Vec::new();
    while rest.len() > 0
        invariant
            out@.to_multiset().add(rest@.to_multiset()) == orig.to_multiset(),
            out@.len() + rest@.len() == orig.len(),
            vstd::relations::sorted_by(out@, leq_for(asc)),
            forall|i: int, j: int|
                0 <= i < out@.len() && 0 <= j < rest@.len() ==> #[trigger] leq_for(asc)(
                    out@[i],
                    rest@[j],
                ),
        decreases rest.len(),
    {
        proof {
            lemma_leq_unfold(asc);
        }
        let mut best: usize = 0;
        let mut k: usize = 1;
        while k < rest.len()
            invariant
                rest@.len() >= 1,
                best < k,
                1 <= k <= rest@.len(),
                forall|j: int| 0 <= j < k ==> #[trigger] leq_for(asc)(rest@[best as int], rest@[j]),
            decreases rest@.len() - k,
        {
            let ghost prev_best = best as int;
            let take_it = if asc {
                rest[k] < rest[best]
            } else {
                rest[k] > rest[best]
            };
            if take_it {
                best = k;
            }
            k = k + 1;
            proof {
                assert forall|j: int| 0 <= j < k implies #[trigger] leq_for(asc)(
                    rest@[best as int],
                    rest@[j],
                ) by {
                    assert(leq_for(asc)(rest@[best as int], rest@[best as int]));
                    if j < k - 1 {
                        assert(leq_for(asc)(rest@[prev_best], rest@[j]));
                    }
                }
            }
        }
        let ghost old_out = out@;
        let ghost old_rest = rest@;
        let x = rest.remove(best);
        out.push(x);
        proof {
            lemma_leq_unfold(asc);
            assert(old_rest[best as int] == x);
            assert(old_rest.contains(x));
            old_rest.to_multiset_ensures();
            old_out.to_multiset_ensures();
            assert(old_rest.to_multiset().count(x) > 0);
            assert(old_out.push(x).to_multiset() =~= old_out.to_multiset().insert(x));
            assert(out@ == old_out.push(x));
            assert(out@.to_multiset() =~= old_out.to_multiset().insert(x));
            assert(old_rest.remove(best as int).to_multiset() =~= old_rest.to_multiset().remove(
                old_rest[best as int],
            ));
            assert(rest@ == old_rest.remove(best as int));
            assert(rest@.to_multiset() =~= old_rest.to_multiset().remove(x));
            assert(out@.to_multiset().add(rest@.to_multiset()) =~= old_out.to_multiset().add(
                old_rest.to_multiset(),
            ));
            assert forall|i: int, j: int|
                0 <= i < out@.len() && 0 <= j < rest@.len() implies #[trigger] leq_for(asc)(
                out@[i],
                rest@[j],
            ) by {
                if i < out@.len() - 1 {
                    if j < best {
                        assert(rest@[j] == old_rest[j]);
                    } else {
                        assert(rest@[j] == old_rest[j + 1]);
                    }
                } else {
                    assert(out@[i] == x);
                    if j < best {
                        assert(rest@[j] == old_rest[j]);
                    } else {
                        assert(rest@[j] == old_rest[j + 1]);
                    }
                }
            }
            assert(vstd::relations::sorted_by(out@, leq_for(asc))) by {
                assert forall|i: int, j: int| 0 <= i < j < out@.len() implies #[trigger] leq_for(
                    asc,
                )(out@[i], out@[j]) by {
                    if j < out@.len() - 1 {
                        assert(out@[i] == old_out[i] && out@[j] == old_out[j]);
                    } else {
                        assert(out@[j] == x);
                        assert(old_rest[best as int] == x);
                        assert(leq_for(asc)(old_out[i], old_rest[best as int]));
                    }
                }
            }
        }
    }
    proof {
        assert(rest@ =~= Seq::<i64>::empty());
        assert(rest@.to_multiset() =~= Multiset::<i64>::empty());
        assert(out@.to_multiset() =~= orig.to_multiset());
        lemma_leq_total(asc);
        orig.lemma_sort_by_ensures(leq_for(asc));
        vstd::seq_lib::lemma_sorted_unique(out@, orig.sort_by(leq_for(asc)), leq_for(asc));
        assert(out@ =~= sorted_for(orig, asc));
    }
    out
}

/// Permutes a vector into an order chosen by the random source; the
/// multiset of elements is preserved.
fn shuffle_vec<R: RandomSource>(v: Vec<i64>, rng: &mut R) -> (out: Vec<i64>)
    ensures
        out@.to_multiset() == v@.to_multiset(),
        out@.len() == v@.len(),
{
    broadcast use vstd::seq_lib::group_to_multiset_ensures;
    broadcast use vstd::multiset::group_multiset_axioms;

    let ghost orig = v@;
    let mut rest = v;
    let mut out: Vec<i64> = Vec::new();
    while rest.len() > 0
        invariant
            out@.to_multiset().add(rest@.to_multiset()) == orig.to_multiset(),
            out@.len() + rest@.len() == orig.len(),
        decreases rest.len(),
    {
        let ghost old_out = out@;
        let ghost old_rest = rest@;
        let idx = rng.pick_index(rest.len());
        let x = rest.remove(idx);
        out.push(x);
        proof {
            assert(old_rest[idx as int] == x);
            assert(old_rest.contains(x));
            old_rest.to_multiset_ensures();
            old_out.to_multiset_ensures();
            assert(old_rest.to_multiset().count(x) > 0);
            assert(old_out.push(x).to_multiset() =~= old_out.to_multiset().insert(x));
            assert(out@.to_multiset() =~= old_out.to_multiset().insert(x));
            assert(old_rest.remove(idx as int).to_multiset() =~= old_rest.to_multiset().remove(
                old_rest[idx as int],
            ));
            assert(rest@.to_multiset() =~= old_rest.to_multiset().remove(x));
            assert(out@.to_multiset().add(rest@.to_multiset()) =~= old_out.to_multiset().add(
                old_rest.to_multiset(),
            ));
        }
    }
    proof {
        assert(rest@ =~= Seq::<i64>::empty());
        assert(rest@.to_multiset() =~= Multiset::<i64>::empty());
        assert(out@.to_multiset() =~= orig.to_multiset());
    }
    out
}

/// Every value lying between the bounds of a unit-step enumeration is
/// enumerated.
proof fn lemma_unit_range_seq_contains(cur: i64, end: i64, inc: bool, v: i64)
    requires
        inc ==> cur <= v <= end,
        !inc ==> end <= v <= cur,
    ensures
        range_seq(cur, end, signed_step(1, inc), inc).contains(v),
    decreases (if inc { end - cur } else { cur - end }),
{
    let step = signed_step(1, inc);
    let next = wrap_add(cur, step);
    let s = range_seq(cur, end, step, inc);
    if v == cur {
        if range_stops(cur, next, end, inc) {
            assert(s =~= seq![cur]);
            assert(s[0] == v);
        } else {
            assert(s =~= seq![cur] + range_seq(next, end, step, inc));
            assert(s[0] == v);
        }
    } else {
        if inc {
            assert(cur < end);
            assert(next == cur + 1);
        } else {
            assert(cur > end);
            assert(next == cur - 1);
        }
        assert(!range_stops(cur, next, end, inc));
        lemma_unit_range_seq_contains(next, end, inc, v);
        let rest = range_seq(next, end, step, inc);
        assert(s =~= seq![cur] + rest);
        let j = choose|j: int| 0 <= j < rest.len() && rest[j] == v;
        assert(s[j + 1] == v);
    }
}

/// A range with step magnitude 1 enumerates every value between its bounds.
pub proof fn lemma_unit_range_contains(r: RangeLiteral, v: i64)
    requires
        r.step_mag() == 1,
        r.ascending() ==> r.start <= v <= r.end,
        !r.ascending() ==> r.end <= v <= r.start,
    ensures
        r.seq().contains(v),
{
    assert(r.eff_step() == signed_step(1, r.ascending()));
    lemma_unit_range_seq_contains(r.start, r.end, r.ascending(), v);
}

impl ListInner {
    /// Samples `count` values, independently and with replacement, from the
    /// list's elements using the random source; a non-positive count yields
    /// an empty result. A unit-step contiguous range is sampled directly
    /// from its numeric bounds without materializing it.
    pub fn sample<R: RandomSource>(&self, rng: &mut R, count: i64) -> (out: Vec<i64>)
        requires
            count > 0 ==> self.seq().len() > 0,
        ensures
            out@.len() == (if count > 0 { count as int } else { 0 }),
            forall|i: int| 0 <= i < out@.len() ==> self.seq().contains(#[trigger] out@[i]),
    {
        let mut out: Vec<i64> = Vec::new();
        if count <= 0 {
            return out;
        }
        match self {
            ListInner::List(lst) => {
                let mut n: i64 = 0;
                while n < count
                    invariant
                        0 <= n <= count,
                        lst@.len() > 0,
                        self.seq() == lst@,
                        out@.len() == n,
                        forall|i: int| 0 <= i < out@.len() ==> self.seq().contains(#[trigger] out@[i]),
                    decreases count - n,
                {
                    let idx = rng.pick_index(lst.len());
                    out.push(lst[idx]);
                    proof {
                        assert(self.seq()[idx as int] == lst@[idx as int]);
                        assert(self.seq().contains(lst@[idx as int]));
                    }
                    n = n + 1;
                }
                out
            },
            ListInner::Range(r) => {
                let unit = match r.step {
                    None => true,
                    Some(s) => s == 1 || s == -1,
                };
                if unit {
                    let lo = if r.end >= r.start {
                        r.start
                    } else {
                        r.end
                    };
                    let hi = if r.end >= r.start {
                        r.end
                    } else {
                        r.start
                    };
                    let mut n: i64 = 0;
                    while n < count
                        invariant
                            0 <= n <= count,
                            self.seq() == r.seq(),
                            r.step_mag() == 1,
                            r.ascending() ==> lo == r.start && hi == r.end,
                            !r.ascending() ==> lo == r.end && hi == r.start,
                            lo <= hi,
                            out@.len() == n,
                            forall|i: int| 0 <= i < out@.len() ==> self.seq().contains(#[trigger] out@[i]),
                        decreases count - n,
                    {
                        let x = rng.pick_range(lo, hi);
                        proof {
                            lemma_unit_range_contains(*r, x);
                        }
                        out.push(x);
                        n = n + 1;
                    }
                    out
                } else {
                    let values = self.clone_vec();
                    let mut n: i64 = 0;
                    while n < count
                        invariant
                            0 <= n <= count,
                            values@.len() > 0,
                            values@ == self.seq(),
                            out@.len() == n,
                            forall|i: int| 0 <= i < out@.len() ==> self.seq().contains(#[trigger] out@[i]),
                        decreases count - n,
                    {
                        let idx = rng.pick_index(values.len());
                        out.push(values[idx]);
                        proof {
                            assert(self.seq()[idx as int] == values@[idx as int]);
                            assert(self.seq().contains(values@[idx as int]));
                        }
                        n = n + 1;
                    }
                    out
                }
            },
        }
    }
}

/// An evaluator-internal value as a mathematical model: an integer, or a
/// list with its strength and the sequence of its elements.
pub enum SpecInner {
    /// An integer value.
    Integer(i64),
    /// A list value with its strength.
    List {
        /// Whether the list is strong.
        strong: bool,
        /// The elements of the list.
        elems: Seq<i64>,
    },
}

/// The mathematical model of an internal value.
pub open spec fn inner_view(v: InnerValue) -> SpecInner {
    match v {
        InnerValue::Integer(i) => SpecInner::Integer(i),
        InnerValue::List { strong, inner } => SpecInner::List { strong, elems: inner.seq() },
    }
}

/// The model of an evaluation outcome.
pub open spec fn res_view(r: Result<InnerValue, EvalError>) -> Result<SpecInner, EvalError> {
    match r {
        Ok(v) => Ok(inner_view(v)),
        Err(e) => Err(e),
    }
}

/// Whether a public value is the erasure of a model value: the integer
/// itself, or the same elements with the strength discarded.
pub open spec fn value_matches(v: Value, iv: SpecInner) -> bool {
    match (v, iv) {
        (Value::Integer(a), SpecInner::Integer(b)) => a == b,
        (Value::List(vec), SpecInner::List { strong: _, elems }) => vec@ == elems,
        _ => false,
    }
}

/// How a model value reduces toward an integer: an integer is itself, a
/// weak list is its wrapping sum, a strong list refuses and stays its
/// element sequence.
pub open spec fn spec_reduce(v: SpecInner) -> Result<i64, Seq<i64>> {
    match v {
        SpecInner::Integer(i) => Ok(i),
        SpecInner::List { strong, elems } => if strong {
            Err(elems)
        } else {
            Ok(wrap_sum(elems))
        },
    }
}

/// How many elements a keep or drop of `k` retains from a list of `len`
/// elements.
pub open spec fn kept_count(len: int, keep: bool, k: int) -> int {
    if keep {
        k
    } else {
        len - k
    }
}

/// The elements a keep or drop retains, before the final random reordering:
/// the list sorted toward the selected extreme, truncated to the retained
/// count.
pub open spec fn kept_seq(s: Seq<i64>, keep: bool, highest: bool, k: int) -> Seq<i64> {
    sorted_for(s, keep != highest).take(kept_count(s.len() as int, keep, k))
}

/// The retained elements of a keep or drop form a sub-multiset of the input
/// list, and number exactly the retained count.
pub proof fn lemma_kept_submultiset(s: Seq<i64>, keep: bool, highest: bool, k: int)
    requires
        0 <= kept_count(s.len() as int, keep, k) <= s.len(),
    ensures
        kept_seq(s, keep, highest, k).len() == kept_count(s.len() as int, keep, k),
        forall|x: i64|
            #[trigger] kept_seq(s, keep, highest, k).to_multiset().count(x) <= s.to_multiset().count(
                x,
            ),
{
    broadcast use vstd::seq_lib::group_to_multiset_ensures;
    broadcast use vstd::multiset::group_multiset_axioms;

    let asc = keep != highest;
    let cnt = kept_count(s.len() as int, keep, k);
    lemma_leq_total(asc);
    s.lemma_sort_by_ensures(leq_for(asc));
    let sorted = sorted_for(s, asc);
    assert(sorted.to_multiset().len() == s.to_multiset().len());
    assert(sorted.len() == s.len());
    assert(sorted =~= sorted.take(cnt) + sorted.skip(cnt));
    vstd::seq_lib::lemma_multiset_commutative(sorted.take(cnt), sorted.skip(cnt));
    assert forall|x: i64| #[trigger] kept_seq(s, keep, highest, k).to_multiset().count(x)
        <= s.to_multiset().count(x) by {
        assert(sorted.to_multiset().count(x) == sorted.take(cnt).to_multiset().count(x)
            + sorted.skip(cnt).to_multiset().count(x));
    }
}

/// Evaluates a keep or drop operation: the left operand must be a list, the
/// right an integer count; the list is sorted toward the selected extreme,
/// truncated, and the retained elements are returned in random order with
/// the input list's strength preserved.
pub fn eval_keep_drop_op<R: RandomSource>(
    left: InnerValue,
    right: InnerValue,
    keep: bool,
    highest: bool,
    rng: &mut R,
) -> (res: Result<InnerValue, EvalError>)
    ensures
        left matches InnerValue::Integer(_) ==> res == Result::<InnerValue, EvalError>::Err(
            EvalError::ListExpected,
        ),
        left matches InnerValue::List { .. } ==> right matches InnerValue::List { .. }
            ==> res == Result::<InnerValue, EvalError>::Err(EvalError::IntegerExpected),
        left matches InnerValue::List { strong, inner } ==> right matches InnerValue::Integer(req)
            ==> {
            &&& req < 0 ==> res == Result::<InnerValue, EvalError>::Err(
                if keep {
                    EvalError::KeepTooLess { requested: req }
                } else {
                    EvalError::DropTooLess { requested: req }
                },
            )
            &&& req >= 0 && req > inner.seq().len() ==> (res matches Err(e) && (if keep {
                e matches EvalError::KeepTooMany { available, requested } && available
                    == inner.seq().len() && requested == req
            } else {
                e matches EvalError::DropTooMany { available, requested } && available
                    == inner.seq().len() && requested == req
            }))
            &&& 0 <= req <= inner.seq().len() ==> (res matches Ok(v) && (v matches InnerValue::List {
                strong: s2,
                inner: out_inner,
            } && (s2 == strong && (out_inner matches ListInner::List(outv) && (outv@.len()
                == kept_count(inner.seq().len() as int, keep, req as int) && outv@.to_multiset()
                == kept_seq(inner.seq(), keep, highest, req as int).to_multiset())))))
        },
        keep_drop_outcome(inner_view(left), inner_view(right), keep, highest, res_view(res)),
        res matches Err(_) ==> *final(rng) == *old(rng),
{
    let (strong, list) = match left.assert_list() {
        Ok(p) => p,
        Err(e) => {
            return Err(e);
        },
    };
    let vec = list.into_vec();
    let requested = match right.assert_integer() {
        Ok(i) => i,
        Err(e) => {
            return Err(e);
        },
    };
    let available = vec.len();
    if requested < 0 {
        return if keep {
            Err(EvalError::KeepTooLess { requested })
        } else {
            Err(EvalError::DropTooLess { requested })
        };
    }
    if (requested as u64) > (available as u64) {
        return if keep {
            Err(EvalError::KeepTooMany { available, requested })
        } else {
            Err(EvalError::DropTooMany { available, requested })
        };
    }
    let asc = keep != highest;
    let sorted = sort_vec(vec, asc);
    let cnt: usize = if keep {
        requested as usize
    } else {
        available - (requested as usize)
    };
    let mut kept = sorted;
    kept.truncate(cnt);
    proof {
        assert(kept@ =~= kept_seq(list.seq(), keep, highest, requested as int));
    }
    let out = shuffle_vec(kept, rng);
    Ok(InnerValue::List { strong, inner: ListInner::List(out) })
}

/// Whether an operator is one of the arithmetic or comparison operators.
pub open spec fn is_arith_cmp(op: BinaryOperator) -> bool {
    match op {
        BinaryOperator::Multiplication => true,
        BinaryOperator::Addition => true,
        BinaryOperator::Subtraction => true,
        BinaryOperator::Equal => true,
        BinaryOperator::NotEqual => true,
        BinaryOperator::LessThan => true,
        BinaryOperator::LessEqual => true,
        BinaryOperator::GreaterThan => true,
        BinaryOperator::GreaterEqual => true,
        _ => false,
    }
}

/// The scalar meaning of each arithmetic or comparison operator: wrapping
/// 64-bit arithmetic, and 1/0 for true/false comparisons. The dice and
/// keep/drop operators are not scalar operators and map to 0.
pub open spec fn spec_apply_op(op: BinaryOperator, a: i64, b: i64) -> i64 {
    match op {
        BinaryOperator::Multiplication => wrap_mul(a, b),
        BinaryOperator::Addition => wrap_add(a, b),
        BinaryOperator::Subtraction => wrap_sub(a, b),
        BinaryOperator::Equal => if a == b {
            1
        } else {
            0
        },
        BinaryOperator::NotEqual => if a != b {
            1
        } else {
            0
        },
        BinaryOperator::LessThan => if a < b {
            1
        } else {
            0
        },
        BinaryOperator::LessEqual => if a <= b {
            1
        } else {
            0
        },
        BinaryOperator::GreaterThan => if a > b {
            1
        } else {
            0
        },
        BinaryOperator::GreaterEqual => if a >= b {
            1
        } else {
            0
        },
        _ => 0,
    }
}

/// Applies a scalar arithmetic or comparison operator.
fn apply_op(op: BinaryOperator, a: i64, b: i64) -> (r: i64)
    ensures
        r == spec_apply_op(op, a, b),
{
    match op {
        BinaryOperator::Multiplication => a.wrapping_mul(b),
        BinaryOperator::Addition => a.wrapping_add(b),
        BinaryOperator::Subtraction => a.wrapping_sub(b),
        BinaryOperator::Equal => if a == b {
            1
        } else {
            0
        },
        BinaryOperator::NotEqual => if a != b {
            1
        } else {
            0
        },
        BinaryOperator::LessThan => if a < b {
            1
        } else {
            0
        },
        BinaryOperator::LessEqual => if a <= b {
            1
        } else {
            0
        },
        BinaryOperator::GreaterThan => if a > b {
            1
        } else {
            0
        },
        BinaryOperator::GreaterEqual => if a >= b {
            1
        } else {
            0
        },
        _ => 0,
    }
}

/// Applies the operator between a scalar and every element of a list; the
/// scalar stands on the left when `scalar_left` holds.
fn map_scalar(scalar: i64, v: Vec<i64>, op: BinaryOperator, scalar_left: bool) -> (out: Vec<i64>)
    ensures
        out@.len() == v@.len(),
        forall|i: int|
            0 <= i < v@.len() ==> #[trigger] out@[i] == (if scalar_left {
                spec_apply_op(op, scalar, v@[i])
            } else {
                spec_apply_op(op, v@[i], scalar)
            }),
{
    let mut out: Vec<i64> = Vec::new();
    let mut i: usize = 0;
    while i < v.len()
        invariant
            i <= v@.len(),
            out@.len() == i,
            forall|j: int|
                0 <= j < i ==> #[trigger] out@[j] == (if scalar_left {
                    spec_apply_op(op, scalar, v@[j])
                } else {
                    spec_apply_op(op, v@[j], scalar)
                }),
        decreases v@.len() - i,
    {
        let x = if scalar_left {
            apply_op(op, scalar, v[i])
        } else {
            apply_op(op, v[i], scalar)
        };
        out.push(x);
        i = i + 1;
    }
    out
}

/// Applies the operator elementwise between two lists of equal length.
fn map_zip(a: Vec<i64>, b: Vec<i64>, op: BinaryOperator) -> (out: Vec<i64>)
    requires
        a@.len() == b@.len(),
    ensures
        out@.len() == a@.len(),
        forall|i: int|
            0 <= i < a@.len() ==> #[trigger] out@[i] == spec_apply_op(op, a@[i], b@[i]),
{
    let mut out: Vec<i64> = Vec::new();
    let mut i: usize = 0;
    while i < a.len()
        invariant
            a@.len() == b@.len(),
            i <= a@.len(),
            out@.len() == i,
            forall|j: int| 0 <= j < i ==> #[trigger] out@[j] == spec_apply_op(op, a@[j], b@[j]),
        decreases a@.len() - i,
    {
        let x = apply_op(op, a[i], b[i]);
        out.push(x);
        i = i + 1;
    }
    out
}

/// Evaluates an arithmetic or comparison operator. Each side first reduces
/// toward an integer (an integer is itself, a weak list is its wrapping sum,
/// a strong list refuses): two integers give a scalar result; a scalar and a
/// strong list broadcast elementwise into a new strong list; two strong
/// lists combine by position, or fail when their lengths differ.
pub fn eval_arith_cmp_op(left: InnerValue, right: InnerValue, op: BinaryOperator) -> (res: Result<
    InnerValue,
    EvalError,
>)
    ensures
        left.spec_reduced() matches Ok(l) ==> right.spec_reduced() matches Ok(r) ==> res
            == Result::<InnerValue, EvalError>::Ok(InnerValue::Integer(spec_apply_op(op, l, r))),
        left.spec_reduced() matches Ok(l) ==> right.spec_reduced() matches Err(rs) ==> (res matches
            Ok(v) && (v matches InnerValue::List { strong: st, inner } && (st && (inner matches
            ListInner::List(outv) && (outv@.len() == rs.len() && (forall|i: int|
            0 <= i < rs.len() ==> #[trigger] outv@[i] == spec_apply_op(op, l, rs[i]))))))),
        left.spec_reduced() matches Err(ls) ==> right.spec_reduced() matches Ok(r) ==> (res matches
            Ok(v) && (v matches InnerValue::List { strong: st, inner } && (st && (inner matches
            ListInner::List(outv) && (outv@.len() == ls.len() && (forall|i: int|
            0 <= i < ls.len() ==> #[trigger] outv@[i] == spec_apply_op(op, ls[i], r))))))),
        left.spec_reduced() matches Err(ls) ==> right.spec_reduced() matches Err(rs) ==> {
            &&& ls.len() != rs.len() ==> (res matches Err(e) && e matches EvalError::ListMismatch {
                left_len,
                right_len,
            } && left_len == ls.len() && right_len == rs.len())
            &&& ls.len() == rs.len() ==> (res matches Ok(v) && (v matches InnerValue::List {
                strong: st,
                inner,
            } && (st && (inner matches ListInner::List(outv) && (outv@.len() == ls.len() && (
            forall|i: int|
                0 <= i < ls.len() ==> #[trigger] outv@[i] == spec_apply_op(op, ls[i], rs[i])))))))
        },
        res_view(res) == spec_arith(op, inner_view(left), inner_view(right)),
{
    proof {
        assert(spec_reduce(inner_view(left)) == left.spec_reduced());
        assert(spec_reduce(inner_view(right)) == right.spec_reduced());
    }
    match (left.try_into_integer(), right.try_into_integer()) {
        (Ok(l), Ok(r)) => Ok(InnerValue::Integer(apply_op(op, l, r))),
        (Ok(l), Err(list)) => {
            let vec = list.into_vec();
            let out = map_scalar(l, vec, op, true);
            proof {
                let rs = list.seq();
                assert(out@ =~= Seq::new(rs.len(), |i: int| spec_apply_op(op, l, rs[i])));
            }
            Ok(InnerValue::List { strong: true, inner: ListInner::List(out) })
        },
        (Err(list), Ok(r)) => {
            let vec = list.into_vec();
            let out = map_scalar(r, vec, op, false);
            proof {
                let ls = list.seq();
                assert(out@ =~= Seq::new(ls.len(), |i: int| spec_apply_op(op, ls[i], r)));
            }
            Ok(InnerValue::List { strong: true, inner: ListInner::List(out) })
        },
        (Err(llist), Err(rlist)) => {
            let lvec = llist.into_vec();
            let rvec = rlist.into_vec();
            if lvec.len() != rvec.len() {
                return Err(
                    EvalError::ListMismatch { left_len: lvec.len(), right_len: rvec.len() },
                );
            }
            let out = map_zip(lvec, rvec, op);
            proof {
                let ls = llist.seq();
                let rs = rlist.seq();
                assert(out@ =~= Seq::new(ls.len(), |i: int| spec_apply_op(op, ls[i], rs[i])));
            }
            Ok(InnerValue::List { strong: true, inner: ListInner::List(out) })
        },
    }
}

/// The one possible outcome of an arithmetic or comparison operator on two
/// evaluated operands: each side reduces toward an integer; two integers
/// give a scalar, a scalar against a strong list broadcasts, two strong
/// lists combine by position or fail on a length mismatch.
pub open spec fn spec_arith(op: BinaryOperator, lv: SpecInner, rv: SpecInner) -> Result<
    SpecInner,
    EvalError,
> {
    match (spec_reduce(lv), spec_reduce(rv)) {
        (Ok(l), Ok(r)) => Ok(SpecInner::Integer(spec_apply_op(op, l, r))),
        (Ok(l), Err(rs)) => Ok(
            SpecInner::List { strong: true, elems: Seq::new(rs.len(), |i: int| spec_apply_op(op, l, rs[i])) },
        ),
        (Err(ls), Ok(r)) => Ok(
            SpecInner::List { strong: true, elems: Seq::new(ls.len(), |i: int| spec_apply_op(op, ls[i], r)) },
        ),
        (Err(ls), Err(rs)) => if ls.len() != rs.len() {
            Err(EvalError::ListMismatch { left_len: ls.len() as usize, right_len: rs.len() as usize })
        } else {
            Ok(
                SpecInner::List {
                    strong: true,
                    elems: Seq::new(ls.len(), |i: int| spec_apply_op(op, ls[i], rs[i])),
                },
            )
        },
    }
}

/// The possible outcomes of a keep or drop on two evaluated operands: the
/// exact error cases, and otherwise some list holding exactly the retained
/// multiset with the input list's strength.
pub open spec fn keep_drop_outcome(
    lv: SpecInner,
    rv: SpecInner,
    keep: bool,
    highest: bool,
    out: Result<SpecInner, EvalError>,
) -> bool {
    match lv {
        SpecInner::Integer(_) => out == Result::<SpecInner, EvalError>::Err(
            EvalError::ListExpected,
        ),
        SpecInner::List { strong, elems } => match rv {
            SpecInner::List { .. } => out == Result::<SpecInner, EvalError>::Err(
                EvalError::IntegerExpected,
            ),
            SpecInner::Integer(req) => if req < 0 {
                out == Result::<SpecInner, EvalError>::Err(
                    if keep {
                        EvalError::KeepTooLess { requested: req }
                    } else {
                        EvalError::DropTooLess { requested: req }
                    },
                )
            } else if req > elems.len() {
                out == Result::<SpecInner, EvalError>::Err(
                    if keep {
                        EvalError::KeepTooMany { available: elems.len() as usize, requested: req }
                    } else {
                        EvalError::DropTooMany { available: elems.len() as usize, requested: req }
                    },
                )
            } else {
                out matches Ok(sv) && (sv matches SpecInner::List { strong: s2, elems: es } && (s2
                    == strong && es.len() == kept_count(elems.len() as int, keep, req as int)
                    && es.to_multiset() == kept_seq(elems, keep, highest, req as int).to_multiset()))
            },
        },
    }
}

/// The possible outcomes of a dice roll on two evaluated operands: the left
/// must be an integer count; an integer right denotes the faces `1..=n`, a
/// list its elements; an empty face set with a positive count fails, and
/// otherwise some weak list of exactly the count of values drawn from the
/// faces comes out.
pub open spec fn dice_outcome(lv: SpecInner, rv: SpecInner, out: Result<SpecInner, EvalError>) -> bool {
    match lv {
        SpecInner::List { .. } => out == Result::<SpecInner, EvalError>::Err(
            EvalError::IntegerExpected,
        ),
        SpecInner::Integer(count) => {
            let faces: Seq<i64> = match rv {
                SpecInner::Integer(n) => (RangeLiteral { start: 1, end: n, step: None }).seq(),
                SpecInner::List { strong: _, elems } => elems,
            };
            if count > 0 && faces.len() == 0 {
                out == Result::<SpecInner, EvalError>::Err(EvalError::EmptyFaceSet)
            } else {
                out matches Ok(sv) && (sv matches SpecInner::List { strong, elems } && (!strong
                    && elems.len() == (if count > 0 {
                    count as int
                } else {
                    0
                }) && (forall|i: int| 0 <= i < elems.len() ==> faces.contains(#[trigger] elems[i]))))
            }
        },
    }
}

/// The one outcome of the strong-list wrapper on an evaluated child: an
/// integer becomes a weak one-element list, a list keeps its elements and
/// becomes strong.
pub open spec fn strong_outcome(iv: SpecInner) -> SpecInner {
    match iv {
        SpecInner::Integer(i) => SpecInner::List { strong: false, elems: seq![i] },
        SpecInner::List { strong: _, elems } => SpecInner::List { strong: true, elems },
    }
}

/// The one outcome of a literal: an integer is itself; an explicit list is
/// strong exactly when it has more than one element; a range is a weak list
/// of its enumeration.
pub open spec fn literal_outcome(l: Literal) -> SpecInner {
    match l {
        Literal::Int(n) => SpecInner::Integer(n),
        Literal::List(v) => SpecInner::List { strong: v@.len() > 1, elems: v@ },
        Literal::Range(r) => SpecInner::List { strong: false, elems: r.seq() },
    }
}

/// The possible outcomes of one operator on two evaluated operands.
pub open spec fn op_outcome(
    op: BinaryOperator,
    lv: SpecInner,
    rv: SpecInner,
    out: Result<SpecInner, EvalError>,
) -> bool {
    match op {
        BinaryOperator::DiceRoll => dice_outcome(lv, rv, out),
        BinaryOperator::KeepHighest => keep_drop_outcome(lv, rv, true, true, out),
        BinaryOperator::KeepLowest => keep_drop_outcome(lv, rv, true, false, out),
        BinaryOperator::DropHighest => keep_drop_outcome(lv, rv, false, true, out),
        BinaryOperator::DropLowest => keep_drop_outcome(lv, rv, false, false, out),
        _ => out == spec_arith(op, lv, rv),
    }
}

/// How a binary operation continues once its left child has produced a
/// value: a failing right child decides the outcome, and two values combine
/// by the operator's rule.
pub open spec fn op_continuation(
    op: BinaryOperator,
    lv: SpecInner,
    rres: Result<SpecInner, EvalError>,
    out: Result<SpecInner, EvalError>,
) -> bool {
    match rres {
        Err(er) => out == Result::<SpecInner, EvalError>::Err(er),
        Ok(rv) => op_outcome(op, lv, rv, out),
    }
}

/// The evaluation relation: whether `out` is a possible outcome of
/// evaluating `e`, for some draws of the random source. Literals and
/// function calls have one outcome; a binary operation evaluates its left
/// child, then its right, short-circuiting on the first error, and combines
/// the results by the operator's rule; the strong-list wrapper transforms
/// its child's outcome. Every random draw is covered by the dice and
/// keep/drop outcome predicates, so the relation holds of every run.
pub open spec fn eval_rel(e: Expr, out: Result<SpecInner, EvalError>) -> bool
    decreases e,
{
    match e {
        Expr::Literal(l) => out == Result::<SpecInner, EvalError>::Ok(literal_outcome(l)),
        Expr::FunctionCall { .. } => out == Result::<SpecInner, EvalError>::Err(
            EvalError::FunctionCallUnsupported,
        ),
        Expr::StrongList(inner) => {
            ||| (out matches Err(er) && eval_rel(*inner, Err(er)))
            ||| (exists|iv: SpecInner|
                eval_rel(*inner, Ok(iv)) && out == Result::<SpecInner, EvalError>::Ok(
                    #[trigger] strong_outcome(iv),
                ))
        },
        Expr::BinaryOp { left, op, right } => {
            ||| (out matches Err(er) && eval_rel(*left, Err(er)))
            ||| (exists|lv: SpecInner, rres: Result<SpecInner, EvalError>|
                #[trigger] op_continuation(op, lv, rres, out) && eval_rel(*left, Ok(lv))
                    && eval_rel(*right, rres))
        },
    }
}

/// A failing left child decides a binary operation's outcome.
proof fn lemma_rel_bin_err_left(l: Box<Expr>, op: BinaryOperator, r: Box<Expr>, er: EvalError)
    requires
        eval_rel(*l, Err(er)),
    ensures
        eval_rel(Expr::BinaryOp { left: l, op, right: r }, Err(er)),
{
    let e = Expr::BinaryOp { left: l, op, right: r };
    let out = Result::<SpecInner, EvalError>::Err(er);
    assert(e->BinaryOp_left == l);
    assert(eval_rel(*(e->BinaryOp_left), Err(er)));
    assert(eval_rel(e, out));
}

/// Once the left child has produced a value, the right child's outcome and
/// the operator's rule decide a binary operation's outcome.
proof fn lemma_rel_bin_continue(
    l: Box<Expr>,
    op: BinaryOperator,
    r: Box<Expr>,
    lv: SpecInner,
    rres: Result<SpecInner, EvalError>,
    out: Result<SpecInner, EvalError>,
)
    requires
        eval_rel(*l, Ok(lv)),
        eval_rel(*r, rres),
        op_continuation(op, lv, rres, out),
    ensures
        eval_rel(Expr::BinaryOp { left: l, op, right: r }, out),
{
    let e = Expr::BinaryOp { left: l, op, right: r };
    assert(e->BinaryOp_left == l && e->BinaryOp_right == r && e->BinaryOp_op == op);
    assert(eval_rel(*(e->BinaryOp_left), Ok(lv)));
    assert(eval_rel(*(e->BinaryOp_right), rres));
    assert(op_continuation(e->BinaryOp_op, lv, rres, out));
    assert(eval_rel(e, out));
}

/// A failing child decides a strong-list wrapper's outcome.
proof fn lemma_rel_strong_err(inner: Box<Expr>, er: EvalError)
    requires
        eval_rel(*inner, Err(er)),
    ensures
        eval_rel(Expr::StrongList(inner), Err(er)),
{
    let e = Expr::StrongList(inner);
    let out = Result::<SpecInner, EvalError>::Err(er);
    assert(e->StrongList_0 == inner);
    assert(eval_rel(*(e->StrongList_0), Err(er)));
    assert(eval_rel(e, out));
}

/// A successful child decides a strong-list wrapper's outcome.
proof fn lemma_rel_strong_ok(inner: Box<Expr>, iv: SpecInner)
    requires
        eval_rel(*inner, Ok(iv)),
    ensures
        eval_rel(Expr::StrongList(inner), Ok(strong_outcome(iv))),
{
    let e = Expr::StrongList(inner);
    let so = strong_outcome(iv);
    let out = Result::<SpecInner, EvalError>::Ok(so);
    assert(e->StrongList_0 == inner);
    assert(eval_rel(*(e->StrongList_0), Ok(iv)));
    assert(eval_rel(e, out));
}

/// Evaluates an expression depth-first, left child before right, threading/// Evaluates an expression depth-first, left child before right, threading
/// the random source. Literals and function calls have fixed results: an
/// explicit list literal is strong exactly when it has more than one
/// element, a range literal is weak. A strong-list wrapper always yields a
/// list; a dice roll between two integer literals yields a weak list of
/// exactly the requested count of values from the faces `1..=sides`.
fn eval_expr<R: RandomSource>(e: &Expr, rng: &mut R) -> (res: Result<InnerValue, EvalError>)
    ensures
        *e matches Expr::Literal(Literal::Int(n)) ==> res == Result::<InnerValue, EvalError>::Ok(
            InnerValue::Integer(n),
        ),
        *e matches Expr::Literal(Literal::List(l)) ==> (res matches Ok(v) && (v
            matches InnerValue::List { strong, inner } && (strong == (l@.len() > 1) && inner.seq()
            == l@))),
        *e matches Expr::Literal(Literal::Range(r)) ==> res == Result::<InnerValue, EvalError>::Ok(
            InnerValue::List { strong: false, inner: ListInner::Range(r) },
        ),
        *e matches Expr::FunctionCall { .. } ==> res == Result::<InnerValue, EvalError>::Err(
            EvalError::FunctionCallUnsupported,
        ),
        *e matches Expr::StrongList(_) ==> res matches Ok(v) ==> v matches InnerValue::List { .. },
        *e matches Expr::StrongList(inner_e) ==> *inner_e matches Expr::Literal(Literal::Int(n))
            ==> (res matches Ok(v) && (v matches InnerValue::List { strong, inner } && (!strong
            && inner.seq() == seq![n]))),
        *e matches Expr::StrongList(inner_e) ==> *inner_e matches Expr::Literal(Literal::List(l))
            ==> (res matches Ok(v) && (v matches InnerValue::List { strong, inner } && (strong
            && inner.seq() == l@))),
        *e matches Expr::BinaryOp { left, op, right } ==> *left matches Expr::Literal(
            Literal::Int(n),
        ) ==> *right matches Expr::Literal(Literal::Int(m)) ==> (op == BinaryOperator::DiceRoll
            ==> (res matches Ok(v) && (v matches InnerValue::List { strong, inner } && (!strong && (
        inner matches ListInner::List(outv) && (outv@.len() == (if n > 0 {
            n as int
        } else {
            0
        }) && (forall|i: int|
            0 <= i < outv@.len() ==> (RangeLiteral { start: 1, end: m, step: None }).seq().contains(
                #[trigger] outv@[i],
            )))))))),
        *e matches Expr::BinaryOp { left, op, right } ==> *left matches Expr::Literal(
            Literal::Int(n),
        ) ==> *right matches Expr::Literal(Literal::Int(m)) ==> (is_arith_cmp(op) ==> res
            == Result::<InnerValue, EvalError>::Ok(InnerValue::Integer(spec_apply_op(op, n, m)))),
        *e matches Expr::BinaryOp { left, op, right } ==> *left matches Expr::Literal(
            Literal::List(l),
        ) ==> *right matches Expr::Literal(Literal::Int(k)) ==> (op == BinaryOperator::KeepHighest
            ==> {
            &&& k < 0 ==> res == Result::<InnerValue, EvalError>::Err(
                EvalError::KeepTooLess { requested: k },
            )
            &&& k >= 0 && k > l@.len() ==> (res matches Err(er)
                && er matches EvalError::KeepTooMany { available, requested } && (available
                == l@.len() && requested == k))
            &&& 0 <= k <= l@.len() ==> (res matches Ok(v) && (v matches InnerValue::List {
                strong,
                inner,
            } && (inner matches ListInner::List(outv) && (outv@.len() == k && outv@.to_multiset()
                == kept_seq(l@, true, true, k as int).to_multiset()))))
        }),
        eval_rel(*e, res_view(res)),
    decreases *e,
{
    match e {
        Expr::Literal(lit) => match lit {
            Literal::Int(n) => Ok(InnerValue::Integer(*n)),
            Literal::List(lst) => {
                let strong = lst.len() > 1;
                Ok(InnerValue::List { strong, inner: ListInner::List(copy_vec(lst)) })
            },
            Literal::Range(r) => Ok(InnerValue::List { strong: false, inner: ListInner::Range(*r) }),
        },
        Expr::BinaryOp { left, op, right } => {
            let lv = match eval_expr(left, rng) {
                Ok(v) => v,
                Err(err) => {
                    proof {
                        lemma_rel_bin_err_left(*left, *op, *right, err);
                    }
                    return Err(err);
                },
            };
            let ghost lvv = inner_view(lv);
            proof {
                assert(eval_rel(*(*left), Ok(lvv)));
            }
            let rv = match eval_expr(right, rng) {
                Ok(v) => v,
                Err(err) => {
                    proof {
                        lemma_rel_bin_continue(*left, *op, *right, lvv, Err(err), Err(err));
                    }
                    return Err(err);
                },
            };
            let ghost rvv = inner_view(rv);
            proof {
                assert(eval_rel(*(*right), Ok(rvv)));
            }
            let result = match op {
                BinaryOperator::DiceRoll => {
                    let count = match lv.assert_integer() {
                        Ok(i) => i,
                        Err(err) => {
                            proof {
                                assert(dice_outcome(lvv, rvv, Err(err)));
                                lemma_rel_bin_continue(*left, *op, *right, lvv, Ok(rvv), Err(err));
                            }
                            return Err(err);
                        },
                    };
                    let sides: ListInner = match rv {
                        InnerValue::Integer(n) => ListInner::Range(
                            RangeLiteral { start: 1, end: n, step: None },
                        ),
                        InnerValue::List { strong: _, inner } => inner,
                    };
                    if count > 0 && sides.is_empty_list() {
                        proof {
                            assert(dice_outcome(lvv, rvv, Err(EvalError::EmptyFaceSet)));
                            lemma_rel_bin_continue(
                                *left,
                                *op,
                                *right,
                                lvv,
                                Ok(rvv),
                                Err(EvalError::EmptyFaceSet),
                            );
                        }
                        return Err(EvalError::EmptyFaceSet);
                    }
                    let rolled = sides.sample(rng, count);
                    let out = Ok(InnerValue::List { strong: false, inner: ListInner::List(rolled) });
                    proof {
                        assert(dice_outcome(lvv, rvv, res_view(out)));
                    }
                    out
                },
                BinaryOperator::KeepHighest => eval_keep_drop_op(lv, rv, true, true, rng),
                BinaryOperator::KeepLowest => eval_keep_drop_op(lv, rv, true, false, rng),
                BinaryOperator::DropHighest => eval_keep_drop_op(lv, rv, false, true, rng),
                BinaryOperator::DropLowest => eval_keep_drop_op(lv, rv, false, false, rng),
                _ => eval_arith_cmp_op(lv, rv, *op),
            };
            proof {
                assert(op_outcome(*op, lvv, rvv, res_view(result)));
                lemma_rel_bin_continue(*left, *op, *right, lvv, Ok(rvv), res_view(result));
            }
            result
        },
        Expr::FunctionCall { name: _, args: _ } => Err(EvalError::FunctionCallUnsupported),
        Expr::StrongList(inner_expr) => {
            let inner_val = match eval_expr(inner_expr, rng) {
                Ok(v) => v,
                Err(err) => {
                    proof {
                        lemma_rel_strong_err(*inner_expr, err);
                    }
                    return Err(err);
                },
            };
            let ghost ivv = inner_view(inner_val);
            proof {
                assert(eval_rel(*(*inner_expr), Ok(ivv)));
                lemma_rel_strong_ok(*inner_expr, ivv);
            }
            match inner_val {
                InnerValue::Integer(i) => {
                    let mut v: Vec<i64> = Vec::new();
                    v.push(i);
                    proof {
                        assert(v@ =~= seq![i]);
                        assert(strong_outcome(ivv) == SpecInner::List {
                            strong: false,
                            elems: seq![i],
                        });
                    }
                    Ok(InnerValue::List { strong: false, inner: ListInner::List(v) })
                },
                InnerValue::List { strong: _, inner } => Ok(
                    InnerValue::List { strong: true, inner },
                ),
            }
        },
    }
}

/// Evaluates an expression with the provided random source; the final value
/// is reduced to the public [`Value`], materializing any remaining lazy
/// range and erasing the strong/weak flag. Every result is an outcome the
/// evaluation relation [`eval_rel`] admits for the tree, which pins the
/// rules of every operator for every operand, however deeply nested.
pub fn eval_with<R: RandomSource>(expr: &Expr, rng: &mut R) -> (res: Result<Value, EvalError>)
    ensures
        *expr matches Expr::Literal(Literal::Int(n)) ==> res == Result::<Value, EvalError>::Ok(
            Value::Integer(n),
        ),
        *expr matches Expr::Literal(Literal::List(l)) ==> (res matches Ok(v) && (v
            matches Value::List(out) && out@ == l@)),
        *expr matches Expr::Literal(Literal::Range(r)) ==> (res matches Ok(v) && (v
            matches Value::List(out) && out@ == r.seq())),
        *expr matches Expr::FunctionCall { .. } ==> res == Result::<Value, EvalError>::Err(
            EvalError::FunctionCallUnsupported,
        ),
        *expr matches Expr::StrongList(_) ==> res matches Ok(v) ==> v matches Value::List(_),
        *expr matches Expr::BinaryOp { left, op, right } ==> *left matches Expr::Literal(
            Literal::Int(n),
        ) ==> *right matches Expr::Literal(Literal::Int(m)) ==> (op == BinaryOperator::DiceRoll
            ==> (res matches Ok(v) && (v matches Value::List(outv) && (outv@.len() == (if n > 0 {
            n as int
        } else {
            0
        }) && (forall|i: int|
            0 <= i < outv@.len() ==> (RangeLiteral { start: 1, end: m, step: None }).seq().contains(
                #[trigger] outv@[i],
            )))))),
        *expr matches Expr::BinaryOp { left, op, right } ==> *left matches Expr::Literal(
            Literal::Int(n),
        ) ==> *right matches Expr::Literal(Literal::Int(m)) ==> (is_arith_cmp(op) ==> res
            == Result::<Value, EvalError>::Ok(Value::Integer(spec_apply_op(op, n, m)))),
        *expr matches Expr::BinaryOp { left, op, right } ==> *left matches Expr::Literal(
            Literal::List(l),
        ) ==> *right matches Expr::Literal(Literal::Int(k)) ==> (op == BinaryOperator::KeepHighest
            ==> {
            &&& k < 0 ==> res == Result::<Value, EvalError>::Err(
                EvalError::KeepTooLess { requested: k },
            )
            &&& k >= 0 && k > l@.len() ==> (res matches Err(er)
                && er matches EvalError::KeepTooMany { available, requested } && (available
                == l@.len() && requested == k))
            &&& 0 <= k <= l@.len() ==> (res matches Ok(v) && (v matches Value::List(outv) && (
            outv@.len() == k && outv@.to_multiset() == kept_seq(l@, true, true, k as int).to_multiset())))
        }),
        match res {
            Ok(v) => exists|iv: SpecInner|
                eval_rel(*expr, Ok(iv)) && #[trigger] value_matches(v, iv),
            Err(er) => eval_rel(*expr, Err(er)),
        },
{
    match eval_expr(expr, rng) {
        Ok(v) => {
            let ghost iv = inner_view(v);
            let out = v.into_public();
            proof {
                assert(value_matches(out, iv));
            }
            Ok(out)
        },
        Err(e) => Err(e),
    }
}

/// Evaluates an expression with the process-level random source, under the
/// same contract as [`eval_with`].
pub fn eval(expr: &Expr) -> (res: Result<Value, EvalError>)
    ensures
        *expr matches Expr::Literal(Literal::Int(n)) ==> res == Result::<Value, EvalError>::Ok(
            Value::Integer(n),
        ),
        *expr matches Expr::Literal(Literal::List(l)) ==> (res matches Ok(v) && (v
            matches Value::List(out) && out@ == l@)),
        *expr matches Expr::Literal(Literal::Range(r)) ==> (res matches Ok(v) && (v
            matches Value::List(out) && out@ == r.seq())),
        *expr matches Expr::FunctionCall { .. } ==> res == Result::<Value, EvalError>::Err(
            EvalError::FunctionCallUnsupported,
        ),
        *expr matches Expr::StrongList(_) ==> res matches Ok(v) ==> v matches Value::List(_),
        *expr matches Expr::BinaryOp { left, op, right } ==> *left matches Expr::Literal(
            Literal::Int(n),
        ) ==> *right matches Expr::Literal(Literal::Int(m)) ==> (op == BinaryOperator::DiceRoll
            ==> (res matches Ok(v) && (v matches Value::List(outv) && (outv@.len() == (if n > 0 {
            n as int
        } else {
            0
        }) && (forall|i: int|
            0 <= i < outv@.len() ==> (RangeLiteral { start: 1, end: m, step: None }).seq().contains(
                #[trigger] outv@[i],
            )))))),
        *expr matches Expr::BinaryOp { left, op, right } ==> *left matches Expr::Literal(
            Literal::Int(n),
        ) ==> *right matches Expr::Literal(Literal::Int(m)) ==> (is_arith_cmp(op) ==> res
            == Result::<Value, EvalError>::Ok(Value::Integer(spec_apply_op(op, n, m)))),
        *expr matches Expr::BinaryOp { left, op, right } ==> *left matches Expr::Literal(
            Literal::List(l),
        ) ==> *right matches Expr::Literal(Literal::Int(k)) ==> (op == BinaryOperator::KeepHighest
            ==> {
            &&& k < 0 ==> res == Result::<Value, EvalError>::Err(
                EvalError::KeepTooLess { requested: k },
            )
            &&& k >= 0 && k > l@.len() ==> (res matches Err(er)
                && er matches EvalError::KeepTooMany { available, requested } && (available
                == l@.len() && requested == k))
            &&& 0 <= k <= l@.len() ==> (res matches Ok(v) && (v matches Value::List(outv) && (
            outv@.len() == k && outv@.to_multiset() == kept_seq(l@, true, true, k as int).to_multiset())))
        }),
        match res {
            Ok(v) => exists|iv: SpecInner|
                eval_rel(*expr, Ok(iv)) && #[trigger] value_matches(v, iv),
            Err(er) => eval_rel(*expr, Err(er)),
        },
{
    let mut rng = ThreadRandom::new();
    eval_with(expr, &mut rng)
}

} // verus!
