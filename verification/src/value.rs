//! Operations on `Value`: kind tests, arithmetic, comparison and the
//! literal parser that turns a bare token into a value.
use vstd::prelude::*;
use vstd::string::StrSliceExecFns;
use crate::structs::{Value, ValueV};
use crate::text::{str_eq, str_lt, seq_str_lt, lemma_seq_str_lt_trichotomy};
use crate::ValidationError;

verus! {

/// Whether two values are of the identical kind.  `Null` is intentionally
/// excluded from comparability, even against another `Null`.
pub open spec fn same_type_v(a: ValueV, b: ValueV) -> bool {
    match (a, b) {
        (ValueV::Bool(_), ValueV::Bool(_)) => true,
        (ValueV::Number(_), ValueV::Number(_)) => true,
        (ValueV::Str(_), ValueV::Str(_)) => true,
        _ => false,
    }
}

/// Structural equality of two values.
pub open spec fn val_eq(a: ValueV, b: ValueV) -> bool {
    match (a, b) {
        (ValueV::Null, ValueV::Null) => true,
        (ValueV::Str(x), ValueV::Str(y)) => x == y,
        (ValueV::Number(x), ValueV::Number(y)) => x == y,
        (ValueV::Bool(x), ValueV::Bool(y)) => x == y,
        _ => false,
    }
}

/// Strict order between values of the identical kind: numeric order,
/// lexicographic order, `false < true`.  Differing kinds are never ordered.
pub open spec fn val_lt(a: ValueV, b: ValueV) -> bool {
    match (a, b) {
        (ValueV::Str(x), ValueV::Str(y)) => seq_str_lt(x, y),
        (ValueV::Number(x), ValueV::Number(y)) => x < y,
        (ValueV::Bool(x), ValueV::Bool(y)) => !x && y,
        _ => false,
    }
}

/// The sum of two values: defined only for two numbers; any other pairing
/// leaves the left operand unchanged.
pub open spec fn add_v(a: ValueV, b: ValueV) -> ValueV {
    match (a, b) {
        (ValueV::Number(x), ValueV::Number(y)) => ValueV::Number(x + y),
        _ => a,
    }
}

/// The difference of two values: defined only for two numbers; any other
/// pairing resets the left operand to `Null`.
pub open spec fn sub_v(a: ValueV, b: ValueV) -> ValueV {
    match (a, b) {
        (ValueV::Number(x), ValueV::Number(y)) => ValueV::Number(x - y),
        _ => ValueV::Null,
    }
}

/// Whether the sum of two values stays within the machine number range.
pub open spec fn add_fits(a: ValueV, b: ValueV) -> bool {
    match (a, b) {
        (ValueV::Number(x), ValueV::Number(y)) => i64::MIN <= x + y <= i64::MAX,
        _ => true,
    }
}

/// Whether the difference of two values stays within the machine number
/// range.
pub open spec fn sub_fits(a: ValueV, b: ValueV) -> bool {
    match (a, b) {
        (ValueV::Number(x), ValueV::Number(y)) => i64::MIN <= x - y <= i64::MAX,
        _ => true,
    }
}

/// For values of the identical kind the order is total: exactly one of
/// `a < b`, `a == b` (structurally), `b < a` holds.
pub proof fn lemma_same_kind_order_total(a: ValueV, b: ValueV)
    requires
        same_type_v(a, b),
    ensures
        val_lt(a, b) || val_eq(a, b) || val_lt(b, a),
        val_lt(a, b) ==> !val_eq(a, b) && !val_lt(b, a),
        val_eq(a, b) ==> !val_lt(a, b) && !val_lt(b, a),
{
    match (a, b) {
        (ValueV::Str(x), ValueV::Str(y)) => {
            lemma_seq_str_lt_trichotomy(x, y);
        },
        _ => {},
    }
}

/// Values of differing kinds are never ordered, in either direction.
pub proof fn lemma_differing_kind_not_ordered(a: ValueV, b: ValueV)
    requires
        !same_type_v(a, b),
    ensures
        !val_lt(a, b),
        !val_lt(b, a),
{
}

/// Whether `c` is a decimal digit.
pub open spec fn is_digit(c: char) -> bool {
    48 <= c as u32 <= 57
}

/// Whether every character of `s` from position `from` on is a digit.
pub open spec fn all_digits(s: Seq<char>, from: int) -> bool {
    forall|j: int| from <= j < s.len() ==> is_digit(#[trigger] s[j])
}

/// The numeric value of the first `k` digits of `s`.
pub open spec fn digits_val(s: Seq<char>, k: int) -> int
    decreases k,
{
    if k <= 0 {
        0
    } else {
        digits_val(s, k - 1) * 10 + (s[k - 1] as u32 - 48)
    }
}

/// Ten to the `k`th power.
pub open spec fn pow10(k: int) -> int
    decreases k,
{
    if k <= 0 {
        1
    } else {
        10 * pow10(k - 1)
    }
}

/// A numeric literal: an optional leading minus sign, then at most
/// eighteen digits, so that its value always fits the machine number.
pub open spec fn is_num_token(s: Seq<char>) -> bool {
    if s.len() > 0 && s[0] == '-' {
        2 <= s.len() <= 19 && all_digits(s, 1)
    } else {
        1 <= s.len() <= 18 && all_digits(s, 0)
    }
}

/// The value of a numeric literal.
pub open spec fn num_token_val(s: Seq<char>) -> int {
    if s.len() > 0 && s[0] == '-' {
        -digits_val(s.skip(1), s.len() - 1)
    } else {
        digits_val(s, s.len() as int)
    }
}

/// The model of the value a literal token denotes: the boolean keywords,
/// then a numeric literal, then a bare string.
pub open spec fn parse_value_v(s: Seq<char>) -> ValueV {
    if s == "true"@ {
        ValueV::Bool(true)
    } else if s == "false"@ {
        ValueV::Bool(false)
    } else if is_num_token(s) {
        ValueV::Number(num_token_val(s))
    } else {
        ValueV::Str(s)
    }
}

/// A digit string's value is nonnegative and below ten to its length.
proof fn lemma_digits_val_bound(s: Seq<char>, k: int)
    requires
        0 <= k <= s.len(),
        forall|j: int| 0 <= j < k ==> is_digit(#[trigger] s[j]),
    ensures
        0 <= digits_val(s, k) < pow10(k),
    decreases k,
{
    if k > 0 {
        lemma_digits_val_bound(s, k - 1);
        assert(digits_val(s, k - 1) * 10 <= (pow10(k - 1) - 1) * 10) by (nonlinear_arith)
            requires
                digits_val(s, k - 1) <= pow10(k - 1) - 1,
        ;
    }
}

/// Ten to the eighteenth fits the machine number range.
proof fn lemma_pow10_18()
    ensures
        pow10(18) == 1000000000000000000int,
{
    reveal_with_fuel(pow10, 19);
}

impl Value {
    /// Whether both values are of the identical kind; `Null` matches
    /// nothing, including another `Null`.
    pub fn same_type(&self, rhs: &Value) -> (r: bool)
        ensures
            r == same_type_v(self@, rhs@),
    {
        match (self, rhs) {
            (Value::Bool(_), Value::Bool(_)) => true,
            (Value::Number(_), Value::Number(_)) => true,
            (Value::Str(_), Value::Str(_)) => true,
            _ => false,
        }
    }

    /// An owned copy of this value.
    pub fn duplicate(&self) -> (r: Value)
        ensures
            r@ == self@,
    {
        match self {
            Value::Null => Value::Null,
            Value::Str(s) => Value::Str(s.clone()),
            Value::Number(n) => Value::Number(*n),
            Value::Bool(b) => Value::Bool(*b),
        }
    }

    /// Adds `rhs` in place; a no-op unless both values are numbers.
    pub fn add_assign(&mut self, rhs: &Value)
        requires
            add_fits(old(self)@, rhs@),
        ensures
            final(self)@ == add_v(old(self)@, rhs@),
    {
        match (&*self, rhs) {
            (Value::Number(n1), Value::Number(n2)) => {
                let sum = *n1 + *n2;
                *self = Value::Number(sum);
            },
            _ => {},
        }
    }

    /// Subtracts `rhs` in place; any pairing other than two numbers resets
    /// this value to `Null`.
    pub fn sub_assign(&mut self, rhs: &Value)
        requires
            sub_fits(old(self)@, rhs@),
        ensures
            final(self)@ == sub_v(old(self)@, rhs@),
    {
        match (&*self, rhs) {
            (Value::Number(n1), Value::Number(n2)) => {
                let diff = *n1 - *n2;
                *self = Value::Number(diff);
            },
            _ => {
                *self = Value::Null;
            },
        }
    }

    /// Structural equality of two values.
    pub fn value_eq(&self, rhs: &Value) -> (r: bool)
        ensures
            r == val_eq(self@, rhs@),
    {
        match (self, rhs) {
            (Value::Null, Value::Null) => true,
            (Value::Str(x), Value::Str(y)) => str_eq(x.as_str(), y.as_str()),
            (Value::Number(x), Value::Number(y)) => *x == *y,
            (Value::Bool(x), Value::Bool(y)) => *x == *y,
            _ => false,
        }
    }

    /// Whether this value comes strictly before `rhs`; defined only within
    /// one kind.
    pub fn value_lt(&self, rhs: &Value) -> (r: bool)
        ensures
            r == val_lt(self@, rhs@),
    {
        match (self, rhs) {
            (Value::Str(x), Value::Str(y)) => str_lt(x.as_str(), y.as_str()),
            (Value::Number(x), Value::Number(y)) => *x < *y,
            (Value::Bool(x), Value::Bool(y)) => !*x && *y,
            _ => false,
        }
    }

    /// Parses a literal token: the boolean keywords first, then a numeric
    /// literal, then a bare string, so that every token denotes a value.
    pub fn parse(text: &str) -> (r: Result<Value, ValidationError>)
        ensures
            r is Ok,
            r matches Ok(v) ==> v@ == parse_value_v(text@),
    {
        if str_eq(text, "true") {
            return Ok(Value::Bool(true));
        }
        if str_eq(text, "false") {
            return Ok(Value::Bool(false));
        }
        let len = text.unicode_len();
        let neg = len > 0 && text.get_char(0) == '-';
        let dstart: usize = if neg {
            1
        } else {
            0
        };
        if len > dstart && len - dstart <= 18 {
            let ghost digits = text@.skip(dstart as int);
            let mut n: i64 = 0;
            let mut idx: usize = dstart;
            proof {
                lemma_pow10_18();
            }
            while idx < len
                invariant
                    len == text@.len(),
                    dstart <= idx <= len,
                    0 < len - dstart <= 18,
                    dstart == 1 ==> text@[0] == '-',
                    dstart == 0 ==> text@[0] != '-',
                    text@ != "true"@,
                    text@ != "false"@,
                    digits == text@.skip(dstart as int),
                    forall|j: int| dstart <= j < idx ==> is_digit(#[trigger] text@[j]),
                    0 <= n < pow10(idx - dstart),
                    n == digits_val(digits, idx - dstart),
                    pow10(18) == 1000000000000000000int,
                decreases len - idx,
            {
                let c = text.get_char(idx);
                let code = c as u32;
                if code < 48 || code > 57 {
                    proof {
                        assert(!is_digit(text@[idx as int]));
                        assert(!all_digits(text@, dstart as int)) by {
                            assert(dstart <= idx < text@.len());
                            assert(!is_digit(text@[idx as int]));
                        }
                        if dstart == 0 {
                            assert(!all_digits(text@, 0));
                        } else {
                            assert(!all_digits(text@, 1));
                        }
                        assert(!is_num_token(text@));
                    }
                    return Ok(Value::Str(text.to_owned()));
                }
                proof {
                    lemma_digits_val_bound(digits, idx - dstart as int);
                    assert(n * 10 <= (pow10(idx - dstart) - 1) * 10) by (nonlinear_arith)
                        requires
                            n <= pow10(idx - dstart) - 1,
                    ;
                    assert(pow10(idx + 1 - dstart) == 10 * pow10(idx - dstart));
                    assert(pow10(idx + 1 - dstart) <= pow10(18)) by {
                        lemma_pow10_mono(idx + 1 - dstart as int, 18);
                    }
                    assert(digits[idx - dstart as int] == text@[idx as int]);
                }
                n = n * 10 + ((code - 48) as i64);
                idx += 1;
            }
            proof {
                assert(digits.len() == len - dstart);
                assert(all_digits(digits, 0));
                if neg {
                    assert(is_num_token(text@));
                    assert(num_token_val(text@) == -digits_val(digits, digits.len() as int));
                } else {
                    assert(digits =~= text@);
                    assert(is_num_token(text@));
                }
                assert(text@ != "true"@ && text@ != "false"@);
            }
            if neg {
                return Ok(Value::Number(-n));
            }
            return Ok(Value::Number(n));
        }
        proof {
            if text@.len() > 0 && text@[0] == '-' {
                assert(!(2 <= text@.len() <= 19 && all_digits(text@, 1)));
            } else {
                assert(!(1 <= text@.len() <= 18 && all_digits(text@, 0)));
            }
            assert(!is_num_token(text@));
        }
        Ok(Value::Str(text.to_owned()))
    }
}

/// Powers of ten grow with the exponent.
proof fn lemma_pow10_mono(a: int, b: int)
    requires
        0 <= a <= b,
    ensures
        pow10(a) <= pow10(b),
    decreases b - a,
{
    if a < b {
        lemma_pow10_mono(a, b - 1);
        assert(pow10(b) == 10 * pow10(b - 1));
        lemma_pow10_pos(b - 1);
    }
}

/// Powers of ten are positive.
proof fn lemma_pow10_pos(k: int)
    ensures
        pow10(k) >= 1,
    decreases k,
{
    if k > 0 {
        lemma_pow10_pos(k - 1);
    }
}

} // verus!
