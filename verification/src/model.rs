//! Mathematical model of the expression language.
//!
//! A `Form` is the shape of one arithmetic expression over the input numbers:
//! the leaves are input numbers, the inner nodes the supported operators.
//! `eval` gives the checked integer semantics of a form (an operator whose
//! domain or overflow constraint is violated yields nothing), `leaves` the
//! multiset of input numbers it consumes, and `prog_of` / `tex_of` its two
//! textual renderings.
use vstd::arithmetic::power::pow;
use vstd::multiset::Multiset;
use vstd::prelude::*;

verus! {

pub open spec fn in_i32(v: int) -> bool {
    i32::MIN <= v <= i32::MAX
}

/// The value a 32-bit unsigned input number denotes: its two's-complement
/// reinterpretation as a 32-bit signed integer.
pub open spec fn i32_of_u32(n: u32) -> int {
    if n <= 0x7fff_ffff {
        n as int
    } else {
        n as int - 0x1_0000_0000
    }
}

pub open spec fn fact_nat(n: nat) -> nat
    decreases n,
{
    if n == 0 {
        1
    } else {
        n * fact_nat((n - 1) as nat)
    }
}

/// The non-negative exact square root, where one exists.
pub open spec fn sqrt_of(v: int) -> int {
    choose|s: int| 0 <= s && #[trigger] (s * s) == v
}

/// The exact base-`b` logarithm of `n`, where one exists.
pub open spec fn log_of(b: int, n: int) -> nat {
    choose|k: nat| pow(b, k) == n
}

/// The exact quotient of `a` by `b`, where one exists.
pub open spec fn div_of(a: int, b: int) -> int {
    choose|q: int| #[trigger] (b * q) == a
}

/// The division operator admits the pair: an exact, fitting quotient exists.
pub open spec fn div_ok(a: int, b: int) -> bool {
    b != 0 && (exists|q: int| #[trigger] (b * q) == a) && in_i32(div_of(a, b))
}

/// The power operator admits the pair: the exponent is non-negative and the
/// true result fits.
pub open spec fn pow_ok(a: int, e: int) -> bool {
    0 <= e && in_i32(pow(a, e as nat))
}

/// The logarithm operator admits the pair: an exact logarithm exists.
pub open spec fn log_ok(b: int, n: int) -> bool {
    b > 1 && n > 0 && (exists|k: nat| pow(b, k) == n)
}

/// The factorial operator admits the value: in domain, fitting, and the
/// result differs from the operand.
pub open spec fn fact_ok(v: int) -> bool {
    0 <= v <= 20 && in_i32(fact_nat(v as nat) as int) && fact_nat(v as nat) != v
}

/// The square-root operator admits the value: a non-negative exact root
/// exists and differs from the operand.
pub open spec fn root_ok(v: int) -> bool {
    0 <= v && (exists|s: int| 0 <= s && #[trigger] (s * s) == v) && sqrt_of(v) != v
}

pub enum Form {
    Lit { n: u32 },
    Add { l: Box<Form>, r: Box<Form> },
    Sub { l: Box<Form>, r: Box<Form> },
    Mul { l: Box<Form>, r: Box<Form> },
    Div { l: Box<Form>, r: Box<Form> },
    Pow { l: Box<Form>, r: Box<Form> },
    Log { base: Box<Form>, num: Box<Form> },
    Fact { x: Box<Form> },
    Root { x: Box<Form> },
}

/// Checked evaluation. `None` means the form is not producible: some operator
/// in it leaves its domain or its true result does not fit in 32 signed bits.
pub open spec fn eval(f: Form) -> Option<int>
    decreases f,
{
    match f {
        Form::Lit { n } => Some(i32_of_u32(n)),
        Form::Add { l, r } => match (eval(*l), eval(*r)) {
            (Some(a), Some(b)) => if in_i32(a + b) {
                Some(a + b)
            } else {
                None
            },
            _ => None,
        },
        Form::Sub { l, r } => match (eval(*l), eval(*r)) {
            (Some(a), Some(b)) => if in_i32(a - b) {
                Some(a - b)
            } else {
                None
            },
            _ => None,
        },
        Form::Mul { l, r } => match (eval(*l), eval(*r)) {
            (Some(a), Some(b)) => if in_i32(a * b) {
                Some(a * b)
            } else {
                None
            },
            _ => None,
        },
        Form::Div { l, r } => match (eval(*l), eval(*r)) {
            (Some(a), Some(b)) => if div_ok(a, b) {
                Some(div_of(a, b))
            } else {
                None
            },
            _ => None,
        },
        Form::Pow { l, r } => match (eval(*l), eval(*r)) {
            (Some(a), Some(e)) => if pow_ok(a, e) {
                Some(pow(a, e as nat))
            } else {
                None
            },
            _ => None,
        },
        Form::Log { base, num } => match (eval(*base), eval(*num)) {
            (Some(b), Some(n)) => if log_ok(b, n) {
                Some(log_of(b, n) as int)
            } else {
                None
            },
            _ => None,
        },
        Form::Fact { x } => match eval(*x) {
            Some(v) => if fact_ok(v) {
                Some(fact_nat(v as nat) as int)
            } else {
                None
            },
            None => None,
        },
        Form::Root { x } => match eval(*x) {
            Some(v) => if root_ok(v) {
                Some(sqrt_of(v))
            } else {
                None
            },
            None => None,
        },
    }
}

/// The multiset of input numbers a form consumes, each leaf counted once.
pub open spec fn leaves(f: Form) -> Multiset<u32>
    decreases f,
{
    match f {
        Form::Lit { n } => Multiset::empty().insert(n),
        Form::Add { l, r } => leaves(*l).add(leaves(*r)),
        Form::Sub { l, r } => leaves(*l).add(leaves(*r)),
        Form::Mul { l, r } => leaves(*l).add(leaves(*r)),
        Form::Div { l, r } => leaves(*l).add(leaves(*r)),
        Form::Pow { l, r } => leaves(*l).add(leaves(*r)),
        Form::Log { base, num } => leaves(*base).add(leaves(*num)),
        Form::Fact { x } => leaves(*x),
        Form::Root { x } => leaves(*x),
    }
}

pub open spec fn digit_char(d: int) -> char {
    if d == 0 {
        '0'
    } else if d == 1 {
        '1'
    } else if d == 2 {
        '2'
    } else if d == 3 {
        '3'
    } else if d == 4 {
        '4'
    } else if d == 5 {
        '5'
    } else if d == 6 {
        '6'
    } else if d == 7 {
        '7'
    } else if d == 8 {
        '8'
    } else {
        '9'
    }
}

/// Decimal rendering of a non-negative value, most significant digit first.
pub open spec fn dec_nat(n: int) -> Seq<char>
    decreases n,
{
    if n < 10 {
        seq![digit_char(n)]
    } else {
        dec_nat(n / 10).push(digit_char(n % 10))
    }
}

/// Decimal rendering of a value, with a leading minus sign when negative.
pub open spec fn dec_str(v: int) -> Seq<char> {
    if v < 0 {
        seq!['-'] + dec_nat(-v)
    } else {
        dec_nat(v)
    }
}

pub open spec fn is_digit_char(c: char) -> bool {
    48 <= c as int <= 57
}

pub open spec fn all_digits(s: Seq<char>) -> bool {
    forall|i: int| 0 <= i < s.len() ==> is_digit_char(#[trigger] s[i])
}

/// The machine-readable program rendering of a form.
pub open spec fn prog_of(f: Form) -> Seq<char>
    decreases f,
{
    match f {
        Form::Lit { n } => dec_str(i32_of_u32(n)),
        Form::Add { l, r } => "("@ + prog_of(*l) + " + "@ + prog_of(*r) + ")"@,
        Form::Sub { l, r } => "("@ + prog_of(*l) + " - "@ + prog_of(*r) + ")"@,
        Form::Mul { l, r } => "("@ + prog_of(*l) + " * "@ + prog_of(*r) + ")"@,
        Form::Div { l, r } => "("@ + prog_of(*l) + " / "@ + prog_of(*r) + ")"@,
        Form::Pow { l, r } => prog_of(*l) + " ^ "@ + prog_of(*r),
        Form::Log { base, num } => "log{"@ + prog_of(*base) + "}{"@ + prog_of(*num) + "}"@,
        Form::Fact { x } => "fact{"@ + prog_of(*x) + "}"@,
        Form::Root { x } => "sqrt{"@ + prog_of(*x) + "}"@,
    }
}

/// The LaTeX display rendering of a form. A factorial operand keeps its bang
/// bare only when its program rendering is purely decimal digits.
pub open spec fn tex_of(f: Form) -> Seq<char>
    decreases f,
{
    match f {
        Form::Lit { n } => dec_str(i32_of_u32(n)),
        Form::Add { l, r } => "("@ + tex_of(*l) + " + "@ + tex_of(*r) + ")"@,
        Form::Sub { l, r } => "("@ + tex_of(*l) + " - "@ + tex_of(*r) + ")"@,
        Form::Mul { l, r } => "("@ + tex_of(*l) + " \\times "@ + tex_of(*r) + ")"@,
        Form::Div { l, r } => "("@ + tex_of(*l) + " \\div "@ + tex_of(*r) + ")"@,
        Form::Pow { l, r } => "{"@ + tex_of(*l) + "}^{"@ + tex_of(*r) + "}"@,
        Form::Log { base, num } => "\\log_{"@ + tex_of(*base) + "}{"@ + tex_of(*num) + "}"@,
        Form::Fact { x } => if all_digits(prog_of(*x)) {
            tex_of(*x) + "!"@
        } else {
            "("@ + tex_of(*x) + ")!"@
        },
        Form::Root { x } => "\\sqrt{"@ + tex_of(*x) + "}"@,
    }
}

/// The triple (`v`, `p`, `t`) is one addition, subtraction, multiplication
/// or division candidate built from the ordered pair of sub-results
/// ((v1, p1, t1), (v2, p2, t2)), under its domain and overflow checks.
pub open spec fn arith_row(
    v: int,
    p: Seq<char>,
    t: Seq<char>,
    v1: int,
    p1: Seq<char>,
    t1: Seq<char>,
    v2: int,
    p2: Seq<char>,
    t2: Seq<char>,
) -> bool {
    ||| (in_i32(v1 + v2) && v == v1 + v2 && p == "("@ + p1 + " + "@ + p2 + ")"@ && t == "("@ + t1
        + " + "@ + t2 + ")"@)
    ||| (in_i32(v1 - v2) && v == v1 - v2 && p == "("@ + p1 + " - "@ + p2 + ")"@ && t == "("@ + t1
        + " - "@ + t2 + ")"@)
    ||| (in_i32(v2 - v1) && v == v2 - v1 && p == "("@ + p2 + " - "@ + p1 + ")"@ && t == "("@ + t2
        + " - "@ + t1 + ")"@)
    ||| (in_i32(v1 * v2) && v == v1 * v2 && p == "("@ + p1 + " * "@ + p2 + ")"@ && t == "("@ + t1
        + " \\times "@ + t2 + ")"@)
    ||| (div_ok(v1, v2) && v == div_of(v1, v2) && p == "("@ + p1 + " / "@ + p2 + ")"@ && t == "("@
        + t1 + " \\div "@ + t2 + ")"@)
    ||| (div_ok(v2, v1) && v == div_of(v2, v1) && p == "("@ + p2 + " / "@ + p1 + ")"@ && t == "("@
        + t2 + " \\div "@ + t1 + ")"@)
}

/// The triple is one power or logarithm candidate built from the ordered
/// pair of sub-results, in either operand order, under its checks.
pub open spec fn powlog_row(
    v: int,
    p: Seq<char>,
    t: Seq<char>,
    v1: int,
    p1: Seq<char>,
    t1: Seq<char>,
    v2: int,
    p2: Seq<char>,
    t2: Seq<char>,
) -> bool {
    ||| (pow_ok(v1, v2) && v == pow(v1, v2 as nat) && p == p1 + " ^ "@ + p2 && t == "{"@ + t1
        + "}^{"@ + t2 + "}"@)
    ||| (pow_ok(v2, v1) && v == pow(v2, v1 as nat) && p == p2 + " ^ "@ + p1 && t == "{"@ + t2
        + "}^{"@ + t1 + "}"@)
    ||| (log_ok(v2, v1) && v == log_of(v2, v1) as int && p == "log{"@ + p2 + "}{"@ + p1 + "}"@ && t
        == "\\log_{"@ + t2 + "}{"@ + t1 + "}"@)
    ||| (log_ok(v1, v2) && v == log_of(v1, v2) as int && p == "log{"@ + p1 + "}{"@ + p2 + "}"@ && t
        == "\\log_{"@ + t1 + "}{"@ + t2 + "}"@)
}

/// The triple is one binary operator candidate built from the ordered pair
/// of sub-results: any of the ten operator rows.
pub open spec fn binary_row(
    v: int,
    p: Seq<char>,
    t: Seq<char>,
    v1: int,
    p1: Seq<char>,
    t1: Seq<char>,
    v2: int,
    p2: Seq<char>,
    t2: Seq<char>,
) -> bool {
    arith_row(v, p, t, v1, p1, t1, v2, p2, t2) || powlog_row(v, p, t, v1, p1, t1, v2, p2, t2)
}

/// The triple (`v`, `p`, `t`) is one unary operator candidate applied to the
/// entry (v0, p0, t0): factorial, with its bang bare exactly when the
/// operand's program text is purely digits, or exact square root.
pub open spec fn unary_row(
    v: int,
    p: Seq<char>,
    t: Seq<char>,
    v0: int,
    p0: Seq<char>,
    t0: Seq<char>,
) -> bool {
    ||| (fact_ok(v0) && v == fact_nat(v0 as nat) as int && p == "fact{"@ + p0 + "}"@ && t == (
    if all_digits(p0) {
        t0 + "!"@
    } else {
        "("@ + t0 + ")!"@
    }))
    ||| (root_ok(v0) && v == sqrt_of(v0) && p == "sqrt{"@ + p0 + "}"@ && t == "\\sqrt{"@ + t0
        + "}"@)
}

/// A base entry, or a binary candidate over some contiguous split strictly
/// before `bound`: the staged form of the engine's base-and-binary entries.
pub open spec fn core_upto(s: Seq<u32>, bound: int, v: int, p: Seq<char>, t: Seq<char>) -> bool
    decreases s.len(), 0int,
{
    ||| (s.len() == 1 && v == i32_of_u32(s[0]) && p == dec_str(i32_of_u32(s[0])) && t == dec_str(
        i32_of_u32(s[0]),
    ))
    ||| (exists|i: int, v1: int, p1: Seq<char>, t1: Seq<char>, v2: int, p2: Seq<char>, t2: Seq<
        char,
    >|
        #![trigger s.subrange(0, i), binary_row(v, p, t, v1, p1, t1, v2, p2, t2)]
        1 <= i < bound && i < s.len() && derived_entry(s.subrange(0, i), v1, p1, t1)
            && derived_entry(s.subrange(i, s.len() as int), v2, p2, t2) && binary_row(
            v,
            p,
            t,
            v1,
            p1,
            t1,
            v2,
            p2,
            t2,
        ))
}

/// The triple is a base or binary entry of the engine's map for the ordered
/// sequence `s`: the decimal literal for a single number, or a binary row
/// over entries of the two sides of some contiguous split.
pub open spec fn core_entry(s: Seq<u32>, v: int, p: Seq<char>, t: Seq<char>) -> bool
    decreases s.len(), 1int,
{
    core_upto(s, s.len() as int, v, p, t)
}

/// The triple is an entry of the engine's finished map for the ordered
/// sequence `s`: a base or binary entry, or one unary application to such an
/// entry — unary outputs are never fed into another unary application.
pub open spec fn derived_entry(s: Seq<u32>, v: int, p: Seq<char>, t: Seq<char>) -> bool
    decreases s.len(), 2int,
{
    ||| core_entry(s, v, p, t)
    ||| (exists|v0: int, p0: Seq<char>, t0: Seq<char>|
        #![trigger unary_row(v, p, t, v0, p0, t0)]
        core_entry(s, v0, p0, t0) && unary_row(v, p, t, v0, p0, t0))
}

/// The pair (`prog`, `tex`) is one valid way to reach `value` from the numbers
/// in `ms`, each used exactly once, under the checked operator semantics.
pub open spec fn describes(ms: Multiset<u32>, value: int, prog: Seq<char>, tex: Seq<char>) -> bool {
    exists|f: Form|
        eval(f) == Some(value) && leaves(f) == ms && prog_of(f) == prog && tex_of(f) == tex
}

/// The value of the left-nested sum of the numbers of `s`, in order.
pub open spec fn chain_sum(s: Seq<u32>) -> int
    decreases s.len(),
{
    if s.len() <= 1 {
        i32_of_u32(s[0])
    } else {
        chain_sum(s.drop_last()) + i32_of_u32(s.last())
    }
}

/// Every partial value of the left-nested sum of `s` fits in 32 signed bits.
pub open spec fn chain_ok(s: Seq<u32>) -> bool
    decreases s.len(),
{
    if s.len() <= 1 {
        true
    } else {
        chain_ok(s.drop_last()) && in_i32(chain_sum(s))
    }
}

/// The rendering of the left-nested sum of `s`, the same in both forms.
pub open spec fn chain_text(s: Seq<u32>) -> Seq<char>
    decreases s.len(),
{
    if s.len() <= 1 {
        dec_str(i32_of_u32(s[0]))
    } else {
        "("@ + chain_text(s.drop_last()) + " + "@ + dec_str(i32_of_u32(s.last())) + ")"@
    }
}

/// A one-element sequence holds exactly its element.
pub proof fn lemma_singleton_multiset(s: Seq<u32>)
    requires
        s.len() == 1,
    ensures
        s.to_multiset() == Multiset::empty().insert(s[0]),
{
    broadcast use vstd::seq_lib::group_to_multiset_ensures;

    assert(s =~= Seq::<u32>::empty().push(s[0]));
    assert forall|x: u32| Seq::<u32>::empty().to_multiset().count(x) == 0 by {
        assert(!Seq::<u32>::empty().contains(x));
    }
    assert(Seq::<u32>::empty().to_multiset() =~= Multiset::<u32>::empty());
    assert(Seq::<u32>::empty().push(s[0]).to_multiset() =~= Multiset::<u32>::empty().insert(s[0]));
}

/// Two sequences with the same one-element multiset hold the same element.
pub proof fn lemma_singleton_same(a: Seq<u32>, b: Seq<u32>)
    requires
        a.len() == 1,
        a.to_multiset() == b.to_multiset(),
    ensures
        b.len() == 1,
        a[0] == b[0],
{
    broadcast use vstd::seq_lib::group_to_multiset_ensures;
    broadcast use vstd::multiset::group_multiset_axioms;

    lemma_singleton_multiset(a);
    assert(b.to_multiset().len() == 1);
    lemma_singleton_multiset(b);
    assert(Multiset::empty().insert(a[0]).count(a[0]) == 1);
    assert(Multiset::empty().insert(b[0]).count(a[0]) == 1);
}

/// Two sequences with the same two-element multiset hold the same elements,
/// in the same or in swapped order.
pub proof fn lemma_pair_same(a: Seq<u32>, b: Seq<u32>)
    requires
        a.len() == 2,
        a.to_multiset() == b.to_multiset(),
    ensures
        b.len() == 2,
        (b[0] == a[0] && b[1] == a[1]) || (b[0] == a[1] && b[1] == a[0]),
{
    broadcast use vstd::seq_lib::group_to_multiset_ensures;
    broadcast use vstd::multiset::group_multiset_axioms;

    assert(b.to_multiset().len() == 2);
    assert(a =~= Seq::<u32>::empty().push(a[0]).push(a[1]));
    assert(b =~= Seq::<u32>::empty().push(b[0]).push(b[1]));
    lemma_singleton_multiset(Seq::<u32>::empty().push(a[0]));
    lemma_singleton_multiset(Seq::<u32>::empty().push(b[0]));
    assert(Seq::<u32>::empty().push(a[0]).push(a[1]).to_multiset() =~= Multiset::<
        u32,
    >::empty().insert(a[0]).insert(a[1]));
    assert(Seq::<u32>::empty().push(b[0]).push(b[1]).to_multiset() =~= Multiset::<
        u32,
    >::empty().insert(b[0]).insert(b[1]));
    let am = Multiset::<u32>::empty().insert(a[0]).insert(a[1]);
    let bm = Multiset::<u32>::empty().insert(b[0]).insert(b[1]);
    assert(am == bm);
    assert(am.count(b[0]) == bm.count(b[0]));
    assert(am.count(b[1]) == bm.count(b[1]));
    assert(am.count(a[0]) == bm.count(a[0]));
    assert(am.count(a[1]) == bm.count(a[1]));
}

pub proof fn lemma_mul_cancel(b: int, q1: int, q2: int)
    requires
        b != 0,
        b * q1 == b * q2,
    ensures
        q1 == q2,
{
    assert(q1 == q2) by (nonlinear_arith)
        requires
            b != 0,
            b * q1 == b * q2,
    ;
}

pub proof fn lemma_sqrt_unique(s1: int, s2: int)
    requires
        0 <= s1,
        0 <= s2,
        s1 * s1 == s2 * s2,
    ensures
        s1 == s2,
{
    assert(s1 == s2) by (nonlinear_arith)
        requires
            0 <= s1,
            0 <= s2,
            s1 * s1 == s2 * s2,
    ;
}

pub proof fn lemma_log_unique(b: int, k1: nat, k2: nat)
    requires
        b > 1,
        pow(b, k1) == pow(b, k2),
    ensures
        k1 == k2,
{
    if k1 < k2 {
        vstd::arithmetic::power::lemma_pow_strictly_increases(b as nat, k1, k2);
    }
    if k2 < k1 {
        vstd::arithmetic::power::lemma_pow_strictly_increases(b as nat, k2, k1);
    }
}

} // verus!
