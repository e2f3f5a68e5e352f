//! What the evaluator decides on plain values: the errors it raises and
//! their messages, its integer arithmetic, the reading of numeric and string
//! literals, the shape checks of a destructuring assignment, and the string
//! form of the `~` match.

use vstd::prelude::*;

use crate::ast::AssignOp;

verus! {

/// An error raised while evaluating Scarpet code.
#[derive(Debug, Clone, Copy, PartialEq, Eq)]
pub enum VmError {
    /// A value's lock was poisoned: a thread panicked while holding it.
    PoisonedLock,
    /// The relational operators (`<`, `<=`, `>`, `>=`) met a map value.
    IncomparableMap,
    /// An arithmetic operator that coerces to a number got a non-numeric
    /// operand.
    ExpectedNumber,
    /// The modulo operator `%` was given a zero divisor.
    DivisionByZero,
    /// A map literal entry was a list whose length was not 2.
    MapEntryNotPair,
    /// The right side of `~` was not a valid regular expression.
    InvalidPattern,
    /// A call named a function that is neither a builtin nor user-defined.
    UnknownFunction,
    /// A function was called with the wrong number of arguments.
    WrongArgCount,
    /// The right-hand side of a destructuring assignment was not a list.
    ExpectedList,
    /// A destructuring assignment had more values than its pattern binds.
    TooManyValuesToUnpack,
    /// A destructuring assignment had fewer values than its pattern needs.
    TooFewValuesToUnpack,
    /// An assignment target that cannot be assigned to.
    NotAssignable,
    /// An element assignment whose base is not a container.
    NotAContainer,
    /// An element assignment into a lazy, immutable list.
    ImmutableList,
    /// An element assignment into an empty list.
    IndexOutOfRange,
    /// Writing a `print` line to the configured standard output failed.
    StdoutWrite,
}

/// The human-readable message of an evaluation error.
pub open spec fn vm_error_text(e: VmError) -> Seq<char> {
    match e {
        VmError::PoisonedLock => "a value's lock was poisoned"@,
        VmError::IncomparableMap => "cannot compare with a map value"@,
        VmError::ExpectedNumber => "operand has to be of a numeric type"@,
        VmError::DivisionByZero => "division by zero"@,
        VmError::MapEntryNotPair => "map constructor requires elements that have two items"@,
        VmError::InvalidPattern => "incorrect matching pattern"@,
        VmError::UnknownFunction => "unknown function"@,
        VmError::WrongArgCount => "wrong number of arguments for a function"@,
        VmError::ExpectedList => "right-hand side of a destructuring assignment is not a list"@,
        VmError::TooManyValuesToUnpack => "too many values to unpack"@,
        VmError::TooFewValuesToUnpack => "too few values to unpack"@,
        VmError::NotAssignable => "left-hand side is not a valid assignment target"@,
        VmError::NotAContainer => "cannot address an element of a non-container value"@,
        VmError::ImmutableList => "cannot modify an immutable list"@,
        VmError::IndexOutOfRange => "index out of range"@,
        VmError::StdoutWrite => "failed to write to standard output"@,
    }
}

impl VmError {
    /// A short, human-readable message: what a tool shows the user in place
    /// of the variant's name.
    pub fn message(&self) -> (r: String)
        ensures
            r@ == vm_error_text(*self),
    {
        let m = match self {
            VmError::PoisonedLock => "a value's lock was poisoned",
            VmError::IncomparableMap => "cannot compare with a map value",
            VmError::ExpectedNumber => "operand has to be of a numeric type",
            VmError::DivisionByZero => "division by zero",
            VmError::MapEntryNotPair => "map constructor requires elements that have two items",
            VmError::InvalidPattern => "incorrect matching pattern",
            VmError::UnknownFunction => "unknown function",
            VmError::WrongArgCount => "wrong number of arguments for a function",
            VmError::ExpectedList => "right-hand side of a destructuring assignment is not a list",
            VmError::TooManyValuesToUnpack => "too many values to unpack",
            VmError::TooFewValuesToUnpack => "too few values to unpack",
            VmError::NotAssignable => "left-hand side is not a valid assignment target",
            VmError::NotAContainer => "cannot address an element of a non-container value",
            VmError::ImmutableList => "cannot modify an immutable list",
            VmError::IndexOutOfRange => "index out of range",
            VmError::StdoutWrite => "failed to write to standard output",
        };
        String::from_str(m)
    }
}


// ====================================================================
// Integer arithmetic of the evaluator
// ====================================================================

/// The absolute value of an integer.
pub open spec fn abs(x: int) -> int {
    if x < 0 { -x } else { x }
}

/// `⌈p / q⌉` for a positive `q`.
pub open spec fn ceil_div(p: int, q: int) -> int {
    (p + q - 1) / q
}

/// Whether the progression `from, from + step, …` heads towards `to`:
/// `to` lies ahead of `from` in the direction of a non-zero `step`.
pub open spec fn range_heads_to(from: int, to: int, step: int) -> bool {
    (step > 0 && to > from) || (step < 0 && to < from)
}

/// The number of elements of `range(from, to, step)`: the terms of the
/// progression `from, from + step, …` that stay short of `to`, and none
/// when the step is zero or heads away from `to`.
pub open spec fn range_count(from: int, to: int, step: int) -> int {
    if range_heads_to(from, to, step) {
        ceil_div(abs(to - from), abs(step))
    } else {
        0
    }
}

/// The element count of an integer `range(from, to, step)` (`to`
/// exclusive), computed without overflow for any bounds and step.
pub fn int_range_len(from: i64, to: i64, step: i64) -> (n: usize)
    requires
        range_count(from as int, to as int, step as int) <= usize::MAX,
    ensures
        n == range_count(from as int, to as int, step as int),
{
    let span: i128 = to as i128 - from as i128;
    if step == 0 || (step > 0) != (span > 0) {
        return 0;
    }
    let (num, den): (u128, u128) = if step > 0 {
        (span as u128, step as u128)
    } else {
        ((-span) as u128, (-(step as i128)) as u128)
    };
    assert(num == abs(to - from) && den == abs(step as int));
    let n: u128 = (num + den - 1) / den;
    proof {
        if span == 0 {
            vstd::arithmetic::div_mod::lemma_basic_div_specific_divisor(den as int);
            assert((num + den - 1) as int / den as int == 0);
        }
    }
    assert(n == range_count(from as int, to as int, step as int));
    n as usize
}

/// The terms of `range(from, to, step)` are exactly those of the
/// progression that lie short of `to`: its last term still falls before
/// `to`, and the next one would reach or pass it.
pub proof fn lemma_range_count_bounds(from: int, to: int, step: int)
    requires
        range_heads_to(from, to, step),
    ensures
        range_count(from, to, step) >= 1,
        step > 0 ==> from + (range_count(from, to, step) - 1) * step < to
            && to <= from + range_count(from, to, step) * step,
        step < 0 ==> to < from + (range_count(from, to, step) - 1) * step
            && from + range_count(from, to, step) * step <= to,
{
    let p = abs(to - from);
    let q = abs(step);
    let n = ceil_div(p, q);
    assert(p > 0 && q > 0);
    assert(n >= 1 && (n - 1) * q < p && p <= n * q) by (nonlinear_arith)
        requires
            p > 0,
            q > 0,
            n == (p + q - 1) / q,
    ;
    if step < 0 {
        assert((n - 1) * step == -((n - 1) * q)) by (nonlinear_arith)
            requires
                q == -step,
        ;
        assert(n * step == -(n * q)) by (nonlinear_arith)
            requires
                q == -step,
        ;
    }
}

/// The term at `index` of the integer progression `from, from + step, …`,
/// wrapping around the `i64` range as the evaluator's `long` arithmetic
/// does.
pub fn int_range_term(from: i64, step: i64, index: usize) -> (r: i64)
    requires
        index <= i64::MAX,
        i64::MIN <= index * step <= i64::MAX,
    ensures
        r == vstd::wrapping::i64_specs::wrapping_add(from, (index * step) as i64),
{
    from.wrapping_add(index as i64 * step)
}

/// The remainder of `a / b` rounded toward zero, its sign following `a`
/// (Rust's `%` on signed integers).
pub open spec fn trunc_rem(a: int, b: int) -> int {
    if a >= 0 {
        a % abs(b)
    } else {
        -((-a) % abs(b))
    }
}

/// `a` modulo `b` with the sign of `b`: the `r` with `a ≡ r (mod b)` that
/// lies in `[0, b)` for a positive `b` and in `(b, 0]` for a negative one
/// (floored modulo).
pub open spec fn floor_mod(a: int, b: int) -> int {
    if b > 0 {
        a % b
    } else if a % b == 0 {
        0
    } else {
        a % b + b
    }
}

proof fn lemma_mod_shift(x: int, m: int, k: int)
    requires
        m > 0,
    ensures
        (x + k * m) % m == x % m,
{
    assert((x + k * m) % m == x % m) by (nonlinear_arith)
        requires
            m > 0,
    {
        vstd::arithmetic::div_mod::lemma_fundamental_div_mod(x, m);
        vstd::arithmetic::div_mod::lemma_fundamental_div_mod(x + k * m, m);
        vstd::arithmetic::div_mod::lemma_mod_multiples_vanish(k, x, m);
    }
}

proof fn lemma_small_rem(x: int, m: int)
    requires
        m > 0,
        0 <= x < m,
    ensures
        x % m == x,
{
    vstd::arithmetic::div_mod::lemma_small_mod(x as nat, m as nat);
}

proof fn lemma_neg_mod(x: int, m: int)
    requires
        m > 0,
    ensures
        (-x) % m == (if x % m == 0 { 0 } else { m - x % m }),
{
    vstd::arithmetic::div_mod::lemma_fundamental_div_mod(x, m);
    let q = x / m;
    let r = x % m;
    assert(-x == (-q) * m - r) by (nonlinear_arith)
        requires
            x == m * q + r,
    ;
    if r == 0 {
        lemma_mod_shift(0, m, -q);
        assert(0int % m == 0);
    } else {
        assert(-x == (m - r) + (-q - 1) * m) by (nonlinear_arith)
            requires
                -x == (-q) * m - r,
        ;
        lemma_mod_shift(m - r, m, -q - 1);
        lemma_small_rem(m - r, m);
    }
}

/// A Euclidean remainder ignores the divisor's sign.
proof fn lemma_mod_abs(a: int, b: int)
    requires
        b != 0,
    ensures
        a % b == a % abs(b),
        0 <= a % b < abs(b),
{
    let m = abs(b);
    if b < 0 {
        vstd::arithmetic::div_mod::lemma_fundamental_div_mod(a, b);
        let q = a / b;
        assert(a == (a % b) + (-q) * m) by (nonlinear_arith)
            requires
                a == b * q + a % b,
                m == -b,
        ;
        lemma_mod_shift(a % b, m, -q);
        assert(0 <= a % b < m);
        lemma_small_rem(a % b, m);
    }
    vstd::arithmetic::div_mod::lemma_mod_bound(a, m);
}

/// Floored modulo from the truncated remainder: the two agree unless the
/// truncated remainder is non-zero and its sign differs from the divisor's,
/// and then the divisor is added.
proof fn lemma_floor_mod_from_trunc_rem(a: int, b: int)
    requires
        b != 0,
    ensures
        floor_mod(a, b) == (if trunc_rem(a, b) != 0 && (trunc_rem(a, b) < 0) != (b < 0) {
            trunc_rem(a, b) + b
        } else {
            trunc_rem(a, b)
        }),
        abs(trunc_rem(a, b)) < abs(b),
{
    let m = abs(b);
    lemma_mod_abs(a, b);
    vstd::arithmetic::div_mod::lemma_mod_bound(-a, m);
    if a < 0 {
        lemma_neg_mod(-a, m);
        assert(-(-a) == a);
    }
}

/// Floored modulo takes the divisor's sign, is smaller than the divisor in
/// magnitude, and differs from `a` by a multiple of `b`.
pub proof fn lemma_floor_mod_sign(a: int, b: int)
    requires
        b != 0,
    ensures
        b > 0 ==> 0 <= floor_mod(a, b) < b,
        b < 0 ==> b < floor_mod(a, b) <= 0,
        (a - floor_mod(a, b)) % b == 0,
{
    lemma_mod_abs(a, b);
    vstd::arithmetic::div_mod::lemma_fundamental_div_mod(a, b);
    let q = a / b;
    let r = a % b;
    let f = floor_mod(a, b);
    let k = if b > 0 || r == 0 { q } else { q - 1 };
    assert(a - f == b * k) by (nonlinear_arith)
        requires
            a == b * q + r,
            k == (if b > 0 || r == 0 { q } else { q - 1 }),
            f == (if b > 0 || r == 0 { r } else { r + b }),
    ;
    lemma_mod_abs(b * k, b);
    let m = abs(b);
    let j = if b > 0 { k } else { -k };
    assert(b * k == j * m) by (nonlinear_arith)
        requires
            m == abs(b),
            j == (if b > 0 { k } else { -k }),
    ;
    vstd::arithmetic::div_mod::lemma_mod_multiples_basic(j, m);
}

/// Scarpet `%` on two integers: floored modulo, whose result takes the
/// divisor's sign; a zero divisor is an error.
pub fn int_rem(a: i64, b: i64) -> (r: Result<i64, VmError>)
    ensures
        b == 0 ==> r == Err::<i64, VmError>(VmError::DivisionByZero),
        b != 0 ==> r == Ok::<i64, VmError>(floor_mod(a as int, b as int) as i64),
{
    if b == 0 {
        return Err(VmError::DivisionByZero);
    }
    if b == -1 {
        assert(floor_mod(a as int, b as int) == 0) by {
            lemma_floor_mod_from_trunc_rem(a as int, b as int);
        }
        return Ok(0);
    }
    let t = match a.checked_rem(b) {
        Some(t) => t,
        None => return Err(VmError::DivisionByZero),
    };
    assert(t == trunc_rem(a as int, b as int));
    proof {
        lemma_floor_mod_from_trunc_rem(a as int, b as int);
    }
    if t != 0 && (t < 0) != (b < 0) {
        Ok(t + b)
    } else {
        Ok(t)
    }
}

/// A list index wrapped modulo the list's length: `-1` is the last element,
/// and indices past either end cycle rather than fail.
pub fn wrap_index(idx: i64, len: usize) -> (r: usize)
    requires
        0 < len <= i64::MAX,
    ensures
        r == (idx as int) % (len as int),
{
    let m = len as i64;
    match idx.checked_rem_euclid(m) {
        Some(r) => r as usize,
        None => 0,
    }
}

/// Whether a destructuring pattern can be assigned with `op`: `<>` cannot
/// swap with a pattern, and `+=` cannot read a pattern with a rest binder as
/// the value to add to.
pub fn destructure_op(op: AssignOp, has_rest: bool) -> (r: Result<(), VmError>)
    ensures
        r == (if op == AssignOp::Swap || (op == AssignOp::Add && has_rest) {
            Err::<(), VmError>(VmError::NotAssignable)
        } else {
            Ok(())
        }),
{
    match op {
        AssignOp::Swap => Err(VmError::NotAssignable),
        AssignOp::Add => {
            if has_rest {
                Err(VmError::NotAssignable)
            } else {
                Ok(())
            }
        },
        AssignOp::Assign => Ok(()),
    }
}

/// Where a destructuring pattern cuts the value it binds, given the number
/// of items when that value is a list (`None` when it is not): its leading
/// binders take the items before the first index, its trailing binders
/// those from the second, and its rest binder, when it has one, the items
/// between. Without a rest binder the list must have exactly as many items
/// as the pattern has binders.
pub fn destructure_split(n_items: Option<usize>, n_before: usize, n_after: Option<usize>) -> (r: Result<
    (usize, usize),
    VmError,
>)
    requires
        n_after matches Some(a) ==> n_before + a <= usize::MAX,
    ensures
        n_items is None ==> r == Err::<(usize, usize), VmError>(VmError::ExpectedList),
        n_items matches Some(n) ==> (n_after is None ==> r == (if n > n_before {
            Err::<(usize, usize), VmError>(VmError::TooManyValuesToUnpack)
        } else if n < n_before {
            Err(VmError::TooFewValuesToUnpack)
        } else {
            Ok((n_before, n))
        })),
        n_items matches Some(n) ==> (n_after matches Some(a) ==> r == (if n < n_before + a {
            Err::<(usize, usize), VmError>(VmError::TooFewValuesToUnpack)
        } else {
            Ok((n_before, (n - a) as usize))
        })),
{
    let n_items = match n_items {
        None => return Err(VmError::ExpectedList),
        Some(n) => n,
    };
    match n_after {
        None => {
            if n_items > n_before {
                Err(VmError::TooManyValuesToUnpack)
            } else if n_items < n_before {
                Err(VmError::TooFewValuesToUnpack)
            } else {
                Ok((n_before, n_items))
            }
        },
        Some(a) => {
            if n_items < n_before + a {
                Err(VmError::TooFewValuesToUnpack)
            } else {
                Ok((n_before, n_items - a))
            }
        },
    }
}

/// Whether a user function with `n_fixed` positional parameters accepts a
/// call with `n_args` arguments: exactly that many, or, when the function
/// has a `...rest` parameter, at least that many.
pub fn accepts_arg_count(n_args: usize, n_fixed: usize, has_rest: bool) -> (b: bool)
    ensures
        b == (if has_rest {
            n_args >= n_fixed
        } else {
            n_args == n_fixed
        }),
{
    if has_rest {
        n_args >= n_fixed
    } else {
        n_args == n_fixed
    }
}

// ====================================================================
// Numeric literals
// ====================================================================

/// The value of `c` as a digit of base `radix` (`0`–`9`, then `a`–`z` or
/// `A`–`Z` for ten and up), when it is one.
pub open spec fn digit_value(c: char, radix: int) -> Option<int> {
    let v = if '0' <= c <= '9' {
        c as int - '0' as int
    } else if 'a' <= c <= 'z' {
        c as int - 'a' as int + 10
    } else if 'A' <= c <= 'Z' {
        c as int - 'A' as int + 10
    } else {
        radix
    };
    if v < radix {
        Some(v)
    } else {
        None
    }
}

/// The number a non-empty run of base-`radix` digits denotes, most
/// significant digit first.
pub open spec fn digits_value(ds: Seq<char>, radix: int) -> Option<int>
    decreases ds.len(),
{
    if ds.len() == 0 {
        None
    } else if ds.len() == 1 {
        digit_value(ds[0], radix)
    } else {
        match (digits_value(ds.drop_last(), radix), digit_value(ds.last(), radix)) {
            (Some(high), Some(low)) => Some(high * radix + low),
            _ => None,
        }
    }
}

/// The integer an optional `+` or `-` sign followed by base-`radix` digits
/// denotes.
pub open spec fn signed_digits_value(s: Seq<char>, radix: int) -> Option<int> {
    if s.len() > 0 && s[0] == '-' {
        match digits_value(s.drop_first(), radix) {
            Some(v) => Some(-v),
            None => None,
        }
    } else if s.len() > 0 && s[0] == '+' {
        digits_value(s.drop_first(), radix)
    } else {
        digits_value(s, radix)
    }
}

/// What parsing `s` as an `i64` in base `radix` gives: the value of a sign
/// and digits that fits in an `i64`, and nothing otherwise.
pub open spec fn parsed_i64(s: Seq<char>, radix: int) -> Option<i64> {
    match signed_digits_value(s, radix) {
        Some(v) => if i64::MIN <= v <= i64::MAX {
            Some(v as i64)
        } else {
            None
        },
        None => None,
    }
}

/// Parses `s` as a decimal `i64`.
///
/// Trusted: calls `str::parse::<i64>`, which the standard library documents
/// as accepting an optional `+` or `-` sign followed by decimal digits, and
/// as failing on any other character, on an empty digit run and on
/// overflow.
#[verifier::external_body]
fn parse_decimal_i64(s: &str) -> (r: Option<i64>)
    ensures
        r == parsed_i64(s@, 10),
{
    s.parse::<i64>().ok()
}

/// Parses `s` as a hexadecimal `i64`.
///
/// Trusted: calls `i64::from_str_radix` with radix 16, which the standard
/// library documents as accepting an optional `+` or `-` sign followed by
/// digits `0`–`9`, `a`–`f` or `A`–`F`, and as failing on any other
/// character, on an empty digit run and on overflow.
#[verifier::external_body]
fn parse_hex_i64(s: &str) -> (r: Option<i64>)
    ensures
        r == parsed_i64(s@, 16),
{
    i64::from_str_radix(s, 16).ok()
}

/// Whether a numeric literal carries the `0x` or `0X` prefix of a
/// hexadecimal number.
pub open spec fn has_hex_prefix(s: Seq<char>) -> bool {
    s.len() >= 2 && s[0] == '0' && (s[1] == 'x' || s[1] == 'X')
}

/// The integer a numeric literal denotes, when it denotes one: `0x` or `0X`
/// and hexadecimal digits, or else decimal digits, either optionally signed
/// and in range of an `i64`.
pub open spec fn int_literal(s: Seq<char>) -> Option<i64> {
    if has_hex_prefix(s) && parsed_i64(s.skip(2), 16) is Some {
        parsed_i64(s.skip(2), 16)
    } else {
        parsed_i64(s, 10)
    }
}

/// The integer value of a numeric literal's text, or `None` for a
/// fractional or exponent form (or an integer out of the `i64` range),
/// which the evaluator reads as a floating-point number instead.
pub fn int_literal_value(s: &str) -> (r: Option<i64>)
    ensures
        r == int_literal(s@),
{
    let n = s.unicode_len();
    if n >= 2 && s.get_char(0) == '0' && (s.get_char(1) == 'x' || s.get_char(1) == 'X') {
        let digits = s.substring_char(2, n);
        assert(digits@ =~= s@.skip(2));
        if let Some(i) = parse_hex_i64(digits) {
            return Some(i);
        }
    }
    parse_decimal_i64(s)
}

// ====================================================================
// String literals
// ====================================================================

/// A string literal's body: the text between its quotes, or the whole text
/// when it is not wrapped in a pair of single quotes.
pub open spec fn strip_quotes(s: Seq<char>) -> Seq<char> {
    if s.len() >= 2 && s[0] == '\'' && s[s.len() - 1] == '\'' {
        s.subrange(1, s.len() - 1)
    } else {
        s
    }
}

/// What the character after a backslash stands for: `n` a newline, `t` a
/// tab, and any other character itself.
pub open spec fn escaped(c: char) -> char {
    if c == 'n' {
        '\n'
    } else if c == 't' {
        '\t'
    } else {
        c
    }
}

/// A literal's body with its escapes expanded: `\n` and `\t` become a
/// newline and a tab, every other `\x` is `x`, and a trailing lone
/// backslash stays.
pub open spec fn unescape(s: Seq<char>) -> Seq<char>
    decreases s.len(),
{
    if s.len() == 0 {
        seq![]
    } else if s[0] != '\\' {
        seq![s[0]] + unescape(s.drop_first())
    } else if s.len() == 1 {
        seq!['\\']
    } else {
        seq![escaped(s[1])] + unescape(s.subrange(2, s.len() as int))
    }
}

/// What is left to produce of `unescape` once a backslash has been read and
/// `rest` follows it.
spec fn unescape_after_backslash(rest: Seq<char>) -> Seq<char> {
    if rest.len() == 0 {
        seq!['\\']
    } else {
        seq![escaped(rest[0])] + unescape(rest.drop_first())
    }
}

proof fn lemma_unescape_step(s: Seq<char>)
    requires
        s.len() > 0,
    ensures
        s[0] != '\\' ==> unescape(s) == seq![s[0]] + unescape(s.drop_first()),
        s[0] == '\\' ==> unescape(s) == unescape_after_backslash(s.drop_first()),
{
    if s[0] == '\\' && s.len() > 1 {
        assert(s.drop_first().drop_first() =~= s.subrange(2, s.len() as int));
    }
}

/// Appends `c` to `s`.
///
/// Trusted: calls `String::push`, which the standard library documents as
/// appending the given `char` to the end of the string.
#[verifier::external_body]
fn push_char(s: &mut String, c: char)
    ensures
        final(s)@ == old(s)@.push(c),
{
    s.push(c);
}

/// The value of a string literal (its source text, quotes included): the
/// text between the quotes with `\n` and `\t` expanded to a newline and a
/// tab and every other `\x` kept as `x`.
pub fn string_literal_value(s: &str) -> (r: String)
    ensures
        r@ == unescape(strip_quotes(s@)),
{
    let n = s.unicode_len();
    let inner = if n >= 2 && s.get_char(0) == '\'' && s.get_char(n - 1) == '\'' {
        s.substring_char(1, n - 1)
    } else {
        s
    };
    let ghost cs = inner@;
    assert(cs == strip_quotes(s@));
    let mut out = String::new();
    let mut pending = false;
    let mut i: usize = 0;
    let m = inner.unicode_len();
    proof {
        assert(cs.skip(0) =~= cs);
        assert(out@ + unescape(cs) =~= unescape(cs));
    }
    while i < m
        invariant
            m == cs.len(),
            cs == inner@,
            0 <= i <= m,
            out@ + (if pending {
                unescape_after_backslash(cs.skip(i as int))
            } else {
                unescape(cs.skip(i as int))
            }) == unescape(cs),
        decreases m - i,
    {
        let c = inner.get_char(i);
        proof {
            lemma_unescape_step(cs.skip(i as int));
            assert(cs.skip(i as int).drop_first() =~= cs.skip(i + 1));
        }
        if pending {
            let e = if c == 'n' {
                '\n'
            } else if c == 't' {
                '\t'
            } else {
                c
            };
            push_char(&mut out, e);
            pending = false;
            assert(out@ + unescape(cs.skip(i + 1)) == unescape(cs));
        } else if c == '\\' {
            pending = true;
        } else {
            push_char(&mut out, c);
            assert(out@ + unescape(cs.skip(i + 1)) == unescape(cs));
        }
        i = i + 1;
    }
    if pending {
        push_char(&mut out, '\\');
    }
    proof {
        assert(cs.skip(m as int) =~= Seq::<char>::empty());
    }
    out
}

// ====================================================================
// Regular expression matching
// ====================================================================

/// What a regular expression search yields: `None` when `pattern` is not a
/// valid expression, `Some(None)` when it is but does not match in
/// `haystack`, and otherwise the text of each capture group of the first
/// match, in order, the whole match being group 0 and a group that took no
/// part in the match being `None`.
pub uninterp spec fn regex_captures(pattern: Seq<char>, haystack: Seq<char>) -> Option<Option<Seq<Option<Seq<char>>>>>;

/// `regex::Regex::new` on `pattern`, then `Regex::captures` on `haystack`,
/// each group's `Match::as_str` taken through `Captures::iter`. The contract
/// names the result [`regex_captures`] and adds what `Captures::len`
/// documents: a match always has at least one group, the whole match.
#[verifier::external_body]
fn captures_of(pattern: &str, haystack: &str) -> (r: Option<Option<Vec<Option<String>>>>)
    ensures
        r.deep_view() == regex_captures(pattern@, haystack@),
        r matches Some(Some(g)) ==> g.len() >= 1,
{
    regex::Regex::new(pattern).ok().map(
        |re| re.captures(haystack).map(|c| c.iter().map(|m| m.map(|m| m.as_str().to_owned())).collect()),
    )
}

/// The result of the string form of Scarpet's `~`.
#[derive(Debug, Clone, PartialEq, Eq)]
pub enum MatchOutcome {
    /// The pattern does not match.
    NoMatch,
    /// A pattern with no capture group matched: the whole match; or one with
    /// a single group: that group's text, `None` when it took no part.
    One(Option<String>),
    /// A pattern with several capture groups matched: each group's text, in
    /// order.
    Many(Vec<Option<String>>),
}

/// A [`MatchOutcome`] with its strings as character sequences.
pub enum MatchView {
    NoMatch,
    One(Option<Seq<char>>),
    Many(Seq<Option<Seq<char>>>),
}

impl View for MatchOutcome {
    type V = MatchView;

    open spec fn view(&self) -> MatchView {
        match self {
            MatchOutcome::NoMatch => MatchView::NoMatch,
            MatchOutcome::One(g) => MatchView::One(g.deep_view()),
            MatchOutcome::Many(gs) => MatchView::Many(gs.deep_view()),
        }
    }
}

/// The outcome of a match whose groups (the whole match first) are `caps`:
/// the whole match when there is no other group, the one group when there
/// is one, and else the list of groups after the whole match.
pub open spec fn groups_outcome(caps: Seq<Option<Seq<char>>>) -> MatchView {
    if caps.len() <= 1 {
        MatchView::One(caps[0])
    } else if caps.len() == 2 {
        MatchView::One(caps[1])
    } else {
        MatchView::Many(caps.skip(1))
    }
}

/// The outcome of a match from its capture groups, the whole match first.
pub fn match_groups(caps: Vec<Option<String>>) -> (r: MatchOutcome)
    requires
        caps.len() >= 1,
    ensures
        r@ == groups_outcome(caps.deep_view()),
{
    let ghost d = caps.deep_view();
    let mut caps = caps;
    let n = caps.len();
    if n <= 2 {
        let g = caps.swap_remove(n - 1);
        proof {
            assert(g.deep_view() == d[n - 1]);
        }
        MatchOutcome::One(g)
    } else {
        let rest = caps.split_off(1);
        proof {
            assert(rest.deep_view() =~= d.skip(1));
        }
        MatchOutcome::Many(rest)
    }
}

/// The string form of Scarpet's `~`: `pattern` is compiled as a regular
/// expression and searched for in `haystack`. A pattern that does not
/// compile is [`VmError::InvalidPattern`]; otherwise the outcome is
/// [`MatchOutcome::NoMatch`] or, for the first match, what
/// [`match_groups`] makes of its capture groups.
pub fn regex_match(pattern: &str, haystack: &str) -> (r: Result<MatchOutcome, VmError>)
    ensures
        match regex_captures(pattern@, haystack@) {
            None => r == Err::<MatchOutcome, VmError>(VmError::InvalidPattern),
            Some(None) => r matches Ok(o) && o@ == MatchView::NoMatch,
            Some(Some(g)) => r matches Ok(o) && o@ == groups_outcome(g),
        },
{
    match captures_of(pattern, haystack) {
        None => Err(VmError::InvalidPattern),
        Some(None) => Ok(MatchOutcome::NoMatch),
        Some(Some(caps)) => Ok(match_groups(caps)),
    }
}

} // verus!
