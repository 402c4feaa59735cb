//! The value conversion layer: strict string-to-value conversion for each
//! declared field type.  A conversion succeeds only if it consumes the entire
//! candidate text; text-typed fields accept any candidate unchanged.

use vstd::prelude::*;
use vstd::slice::slice_to_vec;

verus! {

/// The value type a schema field is declared with.
#[derive(Clone, Copy, Debug, PartialEq, Eq, Structural)]
pub enum FieldTy {
    Int,
    Text,
}

/// A converted field value.
#[derive(Debug, PartialEq, Eq)]
pub enum Value {
    Int(i64),
    Text(Vec<char>),
}

/// The mathematical content of a [`Value`].
pub enum ValueView {
    Int(int),
    Text(Seq<char>),
}

impl View for Value {
    type V = ValueView;

    open spec fn view(&self) -> ValueView {
        match self {
            Value::Int(x) => ValueView::Int(*x as int),
            Value::Text(t) => ValueView::Text(t@),
        }
    }
}

/// A decimal digit.
pub open spec fn is_digit(c: char) -> bool {
    48 <= c as u32 <= 57  // '0' through '9'
}

/// Numeric value of a decimal digit.
pub open spec fn digit_val(c: char) -> int {
    c as u32 - 48
}

/// Every character of `s` is a decimal digit.
pub open spec fn all_digits(s: Seq<char>) -> bool {
    forall|i: int| 0 <= i < s.len() ==> is_digit(s[i])
}

/// Value of a sequence of decimal digits read in base ten.
pub open spec fn digits_val(s: Seq<char>) -> int
    decreases s.len(),
{
    if s.len() == 0 {
        0
    } else {
        10 * digits_val(s.drop_last()) + digit_val(s.last())
    }
}

/// `s` begins with an explicit sign character.
pub open spec fn int_signed(s: Seq<char>) -> bool {
    s.len() > 0 && (s[0] == '-' || s[0] == '+')
}

/// The digits of an integer text: everything after an optional sign.
pub open spec fn int_body(s: Seq<char>) -> Seq<char> {
    if int_signed(s) {
        s.drop_first()
    } else {
        s
    }
}

/// `s` denotes a negative number.
pub open spec fn int_negative(s: Seq<char>) -> bool {
    s.len() > 0 && s[0] == '-'
}

/// `s` is an optional sign followed by one or more digits and nothing else.
pub open spec fn int_grammar_ok(s: Seq<char>) -> bool {
    int_body(s).len() > 0 && all_digits(int_body(s))
}

/// The signed value denoted by `s` (meaningful when the grammar holds).
pub open spec fn int_val(s: Seq<char>) -> int {
    if int_negative(s) {
        -digits_val(int_body(s))
    } else {
        digits_val(int_body(s))
    }
}

/// `s` converts, whole, to a 64-bit signed integer.
pub open spec fn int_ok(s: Seq<char>) -> bool {
    int_grammar_ok(s) && i64::MIN <= int_val(s) <= i64::MAX
}

/// What conversion of `raw` to a value of type `ty` yields, if anything:
/// integer fields take exactly the strict integer texts, text fields take
/// every candidate unchanged.
pub open spec fn spec_convert(ty: FieldTy, raw: Seq<char>) -> Option<ValueView> {
    match ty {
        FieldTy::Int => if int_ok(raw) {
            Some(ValueView::Int(int_val(raw)))
        } else {
            None
        },
        FieldTy::Text => Some(ValueView::Text(raw)),
    }
}

/// A sequence of digits has a nonnegative value.
pub proof fn lemma_digits_val_nonneg(s: Seq<char>)
    requires
        all_digits(s),
    ensures
        digits_val(s) >= 0,
    decreases s.len(),
{
    if s.len() > 0 {
        assert(all_digits(s.drop_last()));
        lemma_digits_val_nonneg(s.drop_last());
    }
}

/// Extending a digit sequence can only grow its value.
pub proof fn lemma_digits_val_prefix(s: Seq<char>, k: int)
    requires
        all_digits(s),
        0 <= k <= s.len(),
    ensures
        digits_val(s.subrange(0, k)) <= digits_val(s),
    decreases s.len() - k,
{
    assert(all_digits(s.subrange(0, k)));
    if k < s.len() {
        lemma_digits_val_nonneg(s.subrange(0, k));
        assert(s.subrange(0, k + 1).drop_last() =~= s.subrange(0, k));
        assert(digits_val(s.subrange(0, k + 1))
            == 10 * digits_val(s.subrange(0, k)) + digit_val(s[k]));
        lemma_digits_val_prefix(s, k + 1);
    } else {
        assert(s.subrange(0, k) =~= s);
    }
}

/// Whole-string strictness of the integer conversion: appending anything that
/// starts with a non-digit to a well-formed integer text breaks it.
pub proof fn lemma_int_rejects_trailing(t: Seq<char>, e: Seq<char>)
    requires
        int_grammar_ok(t),
        e.len() > 0,
        !is_digit(e[0]),
    ensures
        !int_ok(t + e),
{
    let u = t + e;
    assert(u[0] == t[0]);
    if int_signed(t) {
        assert(u.drop_first() =~= t.drop_first() + e);
        assert(int_body(u)[int_body(t).len() as int] == e[0]);
    } else {
        assert(int_body(u)[int_body(t).len() as int] == e[0]);
    }
    assert(!all_digits(int_body(u)));
}

/// Strict whole-string conversion of `raw` to a 64-bit signed integer: it
/// succeeds exactly on the texts that `int_ok` describes, with the value that
/// `int_val` gives.
pub fn parse_int(raw: &[char]) -> (r: Option<i64>)
    ensures
        match r {
            Some(v) => int_ok(raw@) && v == int_val(raw@),
            None => !int_ok(raw@),
        },
{
    let n = raw.len();
    let mut start: usize = 0;
    let mut neg: bool = false;
    if n > 0 && (raw[0] == '-' || raw[0] == '+') {
        neg = raw[0] == '-';
        start = 1;
    }
    proof {
        assert(raw@.subrange(start as int, n as int) =~= int_body(raw@));
        assert(neg == int_negative(raw@));
    }
    if start >= n {
        return None;
    }
    let limit: u64 = if neg {
        9223372036854775808u64  // magnitude of i64::MIN
    } else {
        9223372036854775807u64  // i64::MAX
    };
    let mut mag: u64 = 0;
    let mut i: usize = start;
    while i < n
        invariant
            start <= i <= n,
            n == raw@.len(),
            start <= 1,
            neg == int_negative(raw@),
            raw@.subrange(start as int, n as int) == int_body(raw@),
            limit == if neg { 9223372036854775808u64 } else { 9223372036854775807u64 },
            all_digits(raw@.subrange(start as int, i as int)),
            mag == digits_val(raw@.subrange(start as int, i as int)),
            mag <= limit,
        decreases n - i,
    {
        let c = raw[i];
        let u = c as u32;
        if u < 48 || u > 57 {
            proof {
                assert(int_body(raw@)[i - start] == raw@[i as int]);
                assert(!is_digit(raw@[i as int]));
            }
            return None;
        }
        let d: u64 = (u - 48) as u64;
        proof {
            assert(is_digit(raw@[i as int]));
            assert(d == digit_val(raw@[i as int]));
            assert(d <= 9);
        }
        if mag > (limit - d) / 10 {
            proof {
                let body = int_body(raw@);
                let q = ((limit - d) / 10) as int;
                vstd::arithmetic::div_mod::lemma_fundamental_div_mod(limit - d, 10);
                assert(mag * 10 >= (q + 1) * 10);
                assert(mag * 10 + d > limit);
                assert(raw@.subrange(start as int, i as int + 1).drop_last()
                    =~= raw@.subrange(start as int, i as int));
                assert(digits_val(raw@.subrange(start as int, i as int + 1))
                    == 10 * mag + digit_val(raw@[i as int]));
                if all_digits(body) {
                    assert(raw@.subrange(start as int, i as int + 1)
                        =~= body.subrange(0, i - start + 1));
                    lemma_digits_val_prefix(body, i - start + 1);
                    assert(digits_val(body) > limit);
                    if neg {
                        assert(int_val(raw@) < i64::MIN);
                    } else {
                        assert(int_val(raw@) > i64::MAX);
                    }
                }
            }
            return None;
        }
        proof {
            let q = ((limit - d) / 10) as int;
            vstd::arithmetic::div_mod::lemma_fundamental_div_mod(limit - d, 10);
            assert(mag * 10 <= q * 10);
            assert(mag * 10 + d <= limit);
            assert(raw@.subrange(start as int, i as int + 1).drop_last()
                =~= raw@.subrange(start as int, i as int));
        }
        mag = mag * 10 + d;
        i = i + 1;
    }
    proof {
        assert(raw@.subrange(start as int, n as int) =~= int_body(raw@));
        assert(mag == digits_val(int_body(raw@)));
        assert(int_grammar_ok(raw@));
    }
    if neg {
        if mag == 9223372036854775808u64 {
            Some(i64::MIN)
        } else {
            Some(-(mag as i64))
        }
    } else {
        Some(mag as i64)
    }
}

/// Strict whole-string conversion of `raw` to a value of type `ty`, exactly
/// as `spec_convert` describes.
pub fn convert(ty: FieldTy, raw: &[char]) -> (r: Option<Value>)
    ensures
        match r {
            Some(v) => spec_convert(ty, raw@) == Some(v@),
            None => spec_convert(ty, raw@) is None,
        },
{
    match ty {
        FieldTy::Int => match parse_int(raw) {
            Some(x) => Some(Value::Int(x)),
            None => None,
        },
        FieldTy::Text => Some(Value::Text(slice_to_vec(raw))),
    }
}

/// An owned copy of a value, equal in view.
pub fn clone_value(v: &Value) -> (r: Value)
    ensures
        r@ == v@,
{
    match v {
        Value::Int(x) => Value::Int(*x),
        Value::Text(t) => Value::Text(slice_to_vec(t.as_slice())),
    }
}

} // verus!

