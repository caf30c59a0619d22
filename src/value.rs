use vstd::prelude::*;

verus! {

/// Floating-point arithmetic supplied by the host.
///
/// A float value is carried through the library as the bit pattern of an
/// IEEE-754 binary64 number. Equality, ordering, negation and the zero test
/// are decided on those bits here; rounding arithmetic, the conversion of an
/// integer to a float and the decimal text of a float are asked of the host.
/// Nothing is assumed of the answers: the library only passes them on.
pub trait FloatArith {
    /// The float nearest to `i`.
    fn widen(&self, i: i64) -> u64;

    fn sum(&self, a: u64, b: u64) -> u64;

    fn difference(&self, a: u64, b: u64) -> u64;

    fn product(&self, a: u64, b: u64) -> u64;

    fn quotient(&self, a: u64, b: u64) -> u64;

    /// The float denoted by a decimal literal `digits.digits`.
    fn parse_decimal(&self, text: &str) -> u64;

    /// The decimal text of a float.
    fn render(&self, bits: u64) -> String;
}

pub const SIGN_BIT: u64 = 0x8000_0000_0000_0000;

pub const INFINITY_BITS: u64 = 0x7FF0_0000_0000_0000;

/// The magnitude part of a float's bits (everything but the sign).
pub open spec fn float_magnitude(b: u64) -> int {
    if b >= SIGN_BIT {
        b - SIGN_BIT
    } else {
        b as int
    }
}

pub open spec fn float_is_nan(b: u64) -> bool {
    float_magnitude(b) > INFINITY_BITS
}

pub open spec fn float_is_zero(b: u64) -> bool {
    float_magnitude(b) == 0
}

/// For numbers other than NaN, this key orders floats as their values do;
/// both zeros get the key 0.
pub open spec fn float_key(b: u64) -> int {
    if b >= SIGN_BIT {
        -float_magnitude(b)
    } else {
        float_magnitude(b)
    }
}

/// Equality of floats as the language has it: two NaNs are equal (so every
/// number equals itself), and otherwise as the values compare (both zeros
/// are equal).
pub open spec fn float_eq(a: u64, b: u64) -> bool {
    (float_is_nan(a) && float_is_nan(b)) || (!float_is_nan(a) && !float_is_nan(b) && float_key(a)
        == float_key(b))
}

pub open spec fn float_lt(a: u64, b: u64) -> bool {
    !float_is_nan(a) && !float_is_nan(b) && float_key(a) < float_key(b)
}

pub open spec fn float_le(a: u64, b: u64) -> bool {
    !float_is_nan(a) && !float_is_nan(b) && float_key(a) <= float_key(b)
}

/// 2 to the power `k`.
pub open spec fn two_to(k: nat) -> nat
    decreases k,
{
    if k == 0 {
        1
    } else {
        2 * two_to((k - 1) as nat)
    }
}

pub const FRACTION_SPAN: u64 = 0x10_0000_0000_0000;

/// Whether the float with bits `b` has exactly the value of the integer `i`:
/// its significand times a power of two (a negative one for a fraction)
/// is `i`'s magnitude, and the signs agree.
pub open spec fn float_equals_int(b: u64, i: i64) -> bool {
    let e = float_magnitude(b) / (FRACTION_SPAN as int);
    let f = float_magnitude(b) % (FRACTION_SPAN as int);
    let sig = if e == 0 {
        f
    } else {
        f + FRACTION_SPAN
    };
    let shift = if e == 0 {
        1 - 1075
    } else {
        e - 1075
    };
    let mag = if i < 0 {
        -i
    } else {
        i as int
    };
    if e == 2047 {
        false
    } else if float_is_zero(b) {
        i == 0
    } else {
        &&& (b >= SIGN_BIT) == (i < 0)
        &&& if shift >= 0 {
            sig * two_to(shift as nat) == mag
        } else {
            sig == mag * two_to((-shift) as nat)
        }
    }
}

pub proof fn lemma_two_to_grows(a: nat, b: nat)
    requires
        a <= b,
    ensures
        1 <= two_to(a) <= two_to(b),
    decreases b,
{
    if b > a {
        lemma_two_to_grows(a, (b - 1) as nat);
    } else if b > 0 {
        lemma_two_to_grows(0, (b - 1) as nat);
    }
}

pub proof fn lemma_two_to_63()
    ensures
        two_to(63) == 0x8000_0000_0000_0000,
        two_to(64) == 0x1_0000_0000_0000_0000,
{
    reveal_with_fuel(two_to, 65);
}

/// `2^k` for `k < 64`.
fn power_of_two(k: u64) -> (r: u64)
    requires
        k < 64,
    ensures
        r == two_to(k as nat),
{
    let mut p: u64 = 1;
    let mut j: u64 = 0;
    while j < k
        invariant
            j <= k < 64,
            p == two_to(j as nat),
        decreases k - j,
    {
        proof {
            lemma_two_to_grows((j + 1) as nat, 63);
            lemma_two_to_63();
        }
        p = p * 2;
        j = j + 1;
    }
    p
}

/// Whether `x * 2^k == y`, for `x >= 1`.
fn times_power_equals(x: u64, k: u64, y: u64) -> (r: bool)
    requires
        x >= 1,
    ensures
        r == (x * two_to(k as nat) == y),
{
    if k > 63 {
        proof {
            lemma_two_to_grows(64, k as nat);
            lemma_two_to_63();
            assert(x * two_to(k as nat) >= two_to(k as nat)) by (nonlinear_arith)
                requires
                    x >= 1,
            ;
        }
        return false;
    }
    let p = power_of_two(k);
    proof {
        lemma_two_to_grows(k as nat, 63);
        lemma_two_to_63();
        assert(x * p < 0x1_0000_0000_0000_0000_0000_0000_0000_0000) by (nonlinear_arith)
            requires
                x < 0x1_0000_0000_0000_0000,
                p <= 0x8000_0000_0000_0000,
        ;
    }
    (x as u128) * (p as u128) == y as u128
}

/// Whether the float with bits `b` has exactly the value of `i`.
pub fn float_bits_equal_int(b: u64, i: i64) -> (r: bool)
    ensures
        r == float_equals_int(b, i),
{
    let m = float_bits_magnitude(b);
    let e = m / FRACTION_SPAN;
    let f = m % FRACTION_SPAN;
    let sig: u64 = if e == 0 {
        f
    } else {
        f + FRACTION_SPAN
    };
    if e == 2047 {
        return false;
    }
    if m == 0 {
        return i == 0;
    }
    proof {
        assert(sig >= 1);
    }
    if i == 0 {
        proof {
            if e >= 1075 {
                lemma_two_to_grows(0, (e - 1075) as nat);
                assert(sig * two_to((e - 1075) as nat) >= 1) by (nonlinear_arith)
                    requires
                        sig >= 1,
                        two_to((e - 1075) as nat) >= 1,
                ;
            }
        }
        return false;
    }
    if (b >= SIGN_BIT) != (i < 0) {
        return false;
    }
    let mag: u64 = if i < 0 {
        (0i128 - i as i128) as u64
    } else {
        i as u64
    };
    if e >= 1075 {
        times_power_equals(sig, e - 1075, mag)
    } else {
        let shift: u64 = if e == 0 {
            1074
        } else {
            1075 - e
        };
        times_power_equals(mag, shift, sig)
    }
}

pub open spec fn float_negated(b: u64) -> u64 {
    if b >= SIGN_BIT {
        (b - SIGN_BIT) as u64
    } else {
        (b + SIGN_BIT) as u64
    }
}

/// A runtime value of the language.
#[derive(Clone, Debug, PartialEq)]
pub enum Object {
    IntValue(i64),
    /// The bit pattern of an IEEE-754 binary64 number.
    FloatValue(u64),
    StringValue(String),
    True,
    False,
    Null,
}

/// The mathematical model of a runtime value.
pub enum Val {
    Int(i64),
    Float(u64),
    Str(Seq<char>),
    True,
    False,
    Null,
}

impl View for Object {
    type V = Val;

    open spec fn view(&self) -> Val {
        match self {
            Object::IntValue(i) => Val::Int(*i),
            Object::FloatValue(b) => Val::Float(*b),
            Object::StringValue(s) => Val::Str(s@),
            Object::True => Val::True,
            Object::False => Val::False,
            Object::Null => Val::Null,
        }
    }
}

pub open spec fn val_of_bool(b: bool) -> Val {
    if b {
        Val::True
    } else {
        Val::False
    }
}

pub open spec fn is_numeric(v: Val) -> bool {
    v is Int || v is Float
}

/// Truthiness: null, false, a zero number and the empty string are false.
pub open spec fn truthy(v: Val) -> bool {
    match v {
        Val::Int(i) => i != 0,
        Val::Float(b) => !float_is_zero(b),
        Val::Str(s) => s.len() > 0,
        Val::True => true,
        Val::False => false,
        Val::Null => false,
    }
}

/// The result of unary `-`.
pub open spec fn negate_val(v: Val) -> Val {
    match v {
        Val::Int(i) => Val::Int(0i64.wrapping_sub(i)),
        Val::Float(b) => Val::Float(float_negated(b)),
        _ => Val::Null,
    }
}

/// The result of unary `!`.
pub open spec fn not_val(v: Val) -> Val {
    val_of_bool(!truthy(v))
}

/// The result of `+`, or `None` where it is a float computed by the host.
pub open spec fn add_val(a: Val, b: Val) -> Option<Val> {
    match (a, b) {
        (Val::Int(x), Val::Int(y)) => Some(Val::Int(x.wrapping_add(y))),
        (Val::Str(s), Val::Str(t)) => Some(Val::Str(s + t)),
        _ => if is_numeric(a) && is_numeric(b) {
            None
        } else {
            Some(Val::Null)
        },
    }
}

/// The result of `-`, or `None` where it is a float computed by the host.
pub open spec fn sub_val(a: Val, b: Val) -> Option<Val> {
    match (a, b) {
        (Val::Int(x), Val::Int(y)) => Some(Val::Int(x.wrapping_sub(y))),
        _ => if is_numeric(a) && is_numeric(b) {
            None
        } else {
            Some(Val::Null)
        },
    }
}

/// The result of `*`, or `None` where it is a float computed by the host.
pub open spec fn mul_val(a: Val, b: Val) -> Option<Val> {
    match (a, b) {
        (Val::Int(x), Val::Int(y)) => Some(Val::Int(x.wrapping_mul(y))),
        _ => if is_numeric(a) && is_numeric(b) {
            None
        } else {
            Some(Val::Null)
        },
    }
}

/// The result of `/`: always a float computed by the host for numbers.
pub open spec fn div_val(a: Val, b: Val) -> Option<Val> {
    if is_numeric(a) && is_numeric(b) {
        None
    } else {
        Some(Val::Null)
    }
}

/// Equality of values: numbers by their exact values, strings by content,
/// `true`, `false` and `nil` only to themselves.
pub open spec fn eq_val(a: Val, b: Val) -> bool {
    match (a, b) {
        (Val::Int(x), Val::Int(y)) => x == y,
        (Val::Float(x), Val::Float(y)) => float_eq(x, y),
        (Val::Int(x), Val::Float(y)) => float_equals_int(y, x),
        (Val::Float(x), Val::Int(y)) => float_equals_int(x, y),
        (Val::Str(s), Val::Str(t)) => s == t,
        (Val::True, Val::True) => true,
        (Val::False, Val::False) => true,
        (Val::Null, Val::Null) => true,
        _ => false,
    }
}

/// `a < b` (`strict`) or `a <= b`, or `None` where an integer meets a float.
/// Values that are not both numbers are never ordered.
pub open spec fn lt_val(a: Val, b: Val, strict: bool) -> Option<bool> {
    match (a, b) {
        (Val::Int(x), Val::Int(y)) => Some(if strict { x < y } else { x <= y }),
        (Val::Float(x), Val::Float(y)) => Some(
            if strict {
                float_lt(x, y)
            } else {
                float_le(x, y)
            },
        ),
        _ => if is_numeric(a) && is_numeric(b) {
            None
        } else {
            Some(false)
        },
    }
}

fn float_bits_negated(b: u64) -> (r: u64)
    ensures
        r == float_negated(b),
{
    if b >= SIGN_BIT {
        b - SIGN_BIT
    } else {
        b + SIGN_BIT
    }
}

fn float_bits_magnitude(b: u64) -> (r: u64)
    ensures
        r == float_magnitude(b),
{
    if b >= SIGN_BIT {
        b - SIGN_BIT
    } else {
        b
    }
}

fn float_bits_key(b: u64) -> (r: i128)
    ensures
        r == float_key(b),
{
    let m = float_bits_magnitude(b) as i128;
    if b >= SIGN_BIT {
        -m
    } else {
        m
    }
}

fn float_bits_is_nan(b: u64) -> (r: bool)
    ensures
        r == float_is_nan(b),
{
    float_bits_magnitude(b) > INFINITY_BITS
}

/// Equality of two floats given by their bits (see `float_eq`).
pub fn float_bits_eq(a: u64, b: u64) -> (r: bool)
    ensures
        r == float_eq(a, b),
{
    let na = float_bits_is_nan(a);
    let nb = float_bits_is_nan(b);
    (na && nb) || (!na && !nb && float_bits_key(a) == float_bits_key(b))
}

/// IEEE-754 `a < b` (`strict`) or `a <= b` of two floats given by their bits.
pub fn float_bits_lt(a: u64, b: u64, strict: bool) -> (r: bool)
    ensures
        r == (if strict {
            float_lt(a, b)
        } else {
            float_le(a, b)
        }),
{
    if float_bits_is_nan(a) || float_bits_is_nan(b) {
        false
    } else if strict {
        float_bits_key(a) < float_bits_key(b)
    } else {
        float_bits_key(a) <= float_bits_key(b)
    }
}

/// `True` or `False` for a boolean.
pub fn bool(val: bool) -> (r: Object)
    ensures
        r@ == val_of_bool(val),
{
    if val {
        Object::True
    } else {
        Object::False
    }
}

/// The truthiness of a value as `True` or `False`.
pub fn is_truthy(object: &Object) -> (r: Object)
    ensures
        r@ == val_of_bool(truthy(object@)),
{
    match object {
        Object::Null => Object::False,
        Object::True => Object::True,
        Object::False => Object::False,
        Object::IntValue(value) => bool(*value != 0),
        Object::FloatValue(bits) => bool(float_bits_magnitude(*bits) != 0),
        Object::StringValue(s) => bool(!s.as_str().is_empty()),
    }
}

impl Object {
    /// A copy of the value.
    pub fn duplicate(&self) -> (r: Object)
        ensures
            r == *self,
            r@ == self@,
    {
        match self {
            Object::IntValue(i) => Object::IntValue(*i),
            Object::FloatValue(b) => Object::FloatValue(*b),
            Object::StringValue(s) => Object::StringValue(s.clone()),
            Object::True => Object::True,
            Object::False => Object::False,
            Object::Null => Object::Null,
        }
    }

    /// The operand as a float's bits, widening an integer through the host.
    fn as_float<F: FloatArith>(&self, host: &F) -> (r: u64)
        requires
            is_numeric(self@),
        ensures
            self@ is Float ==> r == self@->Float_0,
    {
        match self {
            Object::FloatValue(b) => *b,
            Object::IntValue(i) => host.widen(*i),
            _ => 0,
        }
    }

    /// Unary `-`.
    pub fn negate(&self) -> (r: Object)
        ensures
            r@ == negate_val(self@),
    {
        match self {
            Object::IntValue(i) => Object::IntValue(0i64.wrapping_sub(*i)),
            Object::FloatValue(b) => Object::FloatValue(float_bits_negated(*b)),
            _ => Object::Null,
        }
    }

    /// Unary `!`.
    pub fn not(&self) -> (r: Object)
        ensures
            r@ == not_val(self@),
    {
        let t = is_truthy(self);
        match t {
            Object::True => Object::False,
            _ => Object::True,
        }
    }

    /// Binary `+`: integer addition (wrapping), float addition by the host
    /// where either side is a float, string concatenation, else null.
    pub fn plus<F: FloatArith>(&self, rhs: &Object, host: &F) -> (r: Object)
        ensures
            match add_val(self@, rhs@) {
                Some(v) => r@ == v,
                None => r@ is Float,
            },
    {
        match (self, rhs) {
            (Object::IntValue(x), Object::IntValue(y)) => Object::IntValue(x.wrapping_add(*y)),
            (Object::StringValue(s), Object::StringValue(t)) => {
                let mut out = s.clone();
                out.append(t.as_str());
                Object::StringValue(out)
            },
            _ => {
                if self.is_number() && rhs.is_number() {
                    Object::FloatValue(host.sum(self.as_float(host), rhs.as_float(host)))
                } else {
                    Object::Null
                }
            },
        }
    }

    /// Binary `-`.
    pub fn minus<F: FloatArith>(&self, rhs: &Object, host: &F) -> (r: Object)
        ensures
            match sub_val(self@, rhs@) {
                Some(v) => r@ == v,
                None => r@ is Float,
            },
    {
        match (self, rhs) {
            (Object::IntValue(x), Object::IntValue(y)) => Object::IntValue(x.wrapping_sub(*y)),
            _ => {
                if self.is_number() && rhs.is_number() {
                    Object::FloatValue(host.difference(self.as_float(host), rhs.as_float(host)))
                } else {
                    Object::Null
                }
            },
        }
    }

    /// Binary `*`.
    pub fn times<F: FloatArith>(&self, rhs: &Object, host: &F) -> (r: Object)
        ensures
            match mul_val(self@, rhs@) {
                Some(v) => r@ == v,
                None => r@ is Float,
            },
    {
        match (self, rhs) {
            (Object::IntValue(x), Object::IntValue(y)) => Object::IntValue(x.wrapping_mul(*y)),
            _ => {
                if self.is_number() && rhs.is_number() {
                    Object::FloatValue(host.product(self.as_float(host), rhs.as_float(host)))
                } else {
                    Object::Null
                }
            },
        }
    }

    /// Binary `/`: a float for any two numbers, else null.
    pub fn divide<F: FloatArith>(&self, rhs: &Object, host: &F) -> (r: Object)
        ensures
            match div_val(self@, rhs@) {
                Some(v) => r@ == v,
                None => r@ is Float,
            },
    {
        if self.is_number() && rhs.is_number() {
            Object::FloatValue(host.quotient(self.as_float(host), rhs.as_float(host)))
        } else {
            Object::Null
        }
    }

    /// Whether the value is an integer or a float.
    pub fn is_number(&self) -> (r: bool)
        ensures
            r == is_numeric(self@),
    {
        match self {
            Object::IntValue(_) => true,
            Object::FloatValue(_) => true,
            _ => false,
        }
    }

    /// Equality of values (`==`).
    pub fn equals(&self, rhs: &Object) -> (r: bool)
        ensures
            r == eq_val(self@, rhs@),
    {
        match (self, rhs) {
            (Object::IntValue(x), Object::IntValue(y)) => *x == *y,
            (Object::FloatValue(x), Object::FloatValue(y)) => float_bits_eq(*x, *y),
            (Object::IntValue(x), Object::FloatValue(y)) => float_bits_equal_int(*y, *x),
            (Object::FloatValue(x), Object::IntValue(y)) => float_bits_equal_int(*x, *y),
            (Object::StringValue(s), Object::StringValue(t)) => *s == *t,
            (Object::True, Object::True) => true,
            (Object::False, Object::False) => true,
            (Object::Null, Object::Null) => true,
            _ => false,
        }
    }

    /// `self < rhs` where `strict`, else `self <= rhs`; false unless both
    /// are numbers.
    pub fn less<F: FloatArith>(&self, rhs: &Object, strict: bool, host: &F) -> (r: bool)
        ensures
            lt_val(self@, rhs@, strict) matches Some(b) ==> r == b,
            !(is_numeric(self@) && is_numeric(rhs@)) ==> !r,
    {
        match (self, rhs) {
            (Object::IntValue(x), Object::IntValue(y)) => if strict {
                *x < *y
            } else {
                *x <= *y
            },
            _ => {
                if self.is_number() && rhs.is_number() {
                    float_bits_lt(self.as_float(host), rhs.as_float(host), strict)
                } else {
                    false
                }
            },
        }
    }
}

} // verus!
