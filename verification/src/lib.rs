//! Finds every distinct arithmetic expression that combines a multiset of
//! integers, each used exactly once, into a target value, and renders each
//! solution as a program string and a LaTeX string.
pub mod arith;
pub mod model;
pub mod results;
pub mod solver;
pub mod text;

use crate::model::{
    all_digits, chain_ok, chain_sum, chain_text, dec_str, derived_entry, describes, div_of,
    div_ok, fact_nat, fact_ok, i32_of_u32, in_i32, lemma_pair_same, lemma_singleton_same, log_of,
    log_ok, pow_ok, root_ok, sqrt_of,
};
use crate::results::{ResultMap, Triple};
use crate::solver::{pair_rows_present, solve, unary_rows_present, SolveCache};
use itertools::Itertools;
use vstd::arithmetic::power::pow;
use vstd::multiset::Multiset;
use vstd::prelude::*;
use vstd::slice::slice_to_vec;

verus! {

/// One concrete way to write a value: a program rendering and a LaTeX
/// rendering. Two expressions are the same exactly when both strings match.
#[derive(Debug)]
pub struct Expression {
    pub prog: String,
    pub tex: String,
}

impl Clone for Expression {
    fn clone(&self) -> (r: Self)
        ensures
            r == *self,
    {
        Expression { prog: self.prog.clone(), tex: self.tex.clone() }
    }
}

impl PartialEq for Expression {
    fn eq(&self, other: &Self) -> (r: bool) {
        self.prog == other.prog && self.tex == other.tex
    }
}

impl vstd::std_specs::cmp::PartialEqSpecImpl for Expression {
    open spec fn obeys_eq_spec() -> bool {
        true
    }

    open spec fn eq_spec(&self, other: &Self) -> bool {
        self.prog@ == other.prog@ && self.tex@ == other.tex@
    }
}

/// No two expressions of `s` share both renderings.
pub open spec fn uniq_exprs(s: Seq<Expression>) -> bool {
    forall|i: int, j: int|
        0 <= i < j < s.len() ==> !((#[trigger] s[i]).prog@ == (#[trigger] s[j]).prog@ && s[i].tex@
            == s[j].tex@)
}

/// Every expression of `s` reaches `target` from the numbers of `ms`.
pub open spec fn all_describe(s: Seq<Expression>, ms: Multiset<u32>, target: int) -> bool {
    forall|i: int|
        0 <= i < s.len() ==> describes(ms, target, (#[trigger] s[i]).prog@, s[i].tex@)
}

/// The pair (`p`, `t`) stands somewhere in `s`.
pub open spec fn holds_pair(s: Seq<Expression>, p: Seq<char>, t: Seq<char>) -> bool {
    exists|i: int| 0 <= i < s.len() && (#[trigger] s[i]).prog@ == p && s[i].tex@ == t
}

/// The pair is a derivable solution at `target` for some ordering of the
/// numbers of `ms`.
pub open spec fn from_some_ordering(
    ms: Multiset<u32>,
    target: int,
    p: Seq<char>,
    t: Seq<char>,
) -> bool {
    exists|s: Seq<u32>| #![trigger s.to_multiset()] s.to_multiset() == ms && derived_entry(s, target, p, t)
}

/// Every expression of `s` is a derivable solution at `target` for some
/// ordering of the numbers of `ms`.
pub open spec fn all_from(s: Seq<Expression>, ms: Multiset<u32>, target: int) -> bool {
    forall|i: int|
        0 <= i < s.len() ==> from_some_ordering(ms, target, (#[trigger] s[i]).prog@, s[i].tex@)
}

/// An entry among the first `upto` of `items` carries value `v` and the two
/// renderings `p`, `t`.
pub open spec fn entry_at(items: Seq<Triple>, upto: int, v: int, p: Seq<char>, t: Seq<char>) -> bool {
    exists|i: int|
        0 <= i < upto && i < items.len() && (#[trigger] items[i]).value == v
            && items[i].expr.prog@ == p && items[i].expr.tex@ == t
}

proof fn lemma_entry(rm: ResultMap, v: int, p: Seq<char>, t: Seq<char>)
    requires
        rm.has(v, p, t),
    ensures
        entry_at(rm.items@, rm.items@.len() as int, v, p, t),
{
    let k = choose|k: int|
        0 <= k < rm.items@.len() && (#[trigger] rm.items@[k]).value == v
            && rm.items@[k].expr.prog@ == p && rm.items@[k].expr.tex@ == t;
    assert(0 <= k < rm.items@.len() && rm.items@[k].value == v && rm.items@[k].expr.prog@ == p
        && rm.items@[k].expr.tex@ == t);
}

/// A map entry at `target` that the drain loop has fully passed over is in
/// the answer list.
proof fn lemma_absorb(
    rm: ResultMap,
    s: Seq<Expression>,
    q: int,
    target: int,
    p: Seq<char>,
    t: Seq<char>,
)
    requires
        q == rm.items@.len(),
        rm.has(target, p, t),
        forall|pp: Seq<char>, tt: Seq<char>|
            #[trigger] entry_at(rm.items@, q, target, pp, tt) ==> holds_pair(s, pp, tt),
    ensures
        holds_pair(s, p, t),
{
    lemma_entry(rm, target, p, t);
    assert(entry_at(rm.items@, q, target, p, t));
}

/// Every solution owed for a single input number whose operator rows hit
/// `target`: the decimal literal, the factorial entry and the square-root
/// entry, each under its domain checks.
pub open spec fn owed_single_present(s: Seq<Expression>, n0: u32, target: int) -> bool {
    let v0 = i32_of_u32(n0);
    let d0 = dec_str(v0);
    &&& target == v0 ==> holds_pair(s, d0, d0)
    &&& fact_ok(v0) && target == fact_nat(v0 as nat) as int ==> holds_pair(
        s,
        "fact{"@ + d0 + "}"@,
        (if all_digits(d0) {
            d0 + "!"@
        } else {
            "("@ + d0 + ")!"@
        }),
    )
    &&& root_ok(v0) && target == sqrt_of(v0) ==> holds_pair(
        s,
        "sqrt{"@ + d0 + "}"@,
        "\\sqrt{"@ + d0 + "}"@,
    )
}

/// Every solution owed for exactly two input numbers whose operator rows hit
/// `target`. The order-independent rows (both subtraction, division, power
/// and logarithm orders) are owed with their exact texts; addition and
/// multiplication, which the engine writes in only one operand order per
/// ordering, are owed in one of their two spellings.
pub open spec fn owed_pair_present(s: Seq<Expression>, n0: u32, n1: u32, target: int) -> bool {
    let v0 = i32_of_u32(n0);
    let v1 = i32_of_u32(n1);
    let d0 = dec_str(v0);
    let d1 = dec_str(v1);
    &&& in_i32(v0 + v1) && target == v0 + v1 ==> holds_pair(
        s,
        "("@ + d0 + " + "@ + d1 + ")"@,
        "("@ + d0 + " + "@ + d1 + ")"@,
    ) || holds_pair(s, "("@ + d1 + " + "@ + d0 + ")"@, "("@ + d1 + " + "@ + d0 + ")"@)
    &&& in_i32(v0 - v1) && target == v0 - v1 ==> holds_pair(
        s,
        "("@ + d0 + " - "@ + d1 + ")"@,
        "("@ + d0 + " - "@ + d1 + ")"@,
    )
    &&& in_i32(v1 - v0) && target == v1 - v0 ==> holds_pair(
        s,
        "("@ + d1 + " - "@ + d0 + ")"@,
        "("@ + d1 + " - "@ + d0 + ")"@,
    )
    &&& in_i32(v0 * v1) && target == v0 * v1 ==> holds_pair(
        s,
        "("@ + d0 + " * "@ + d1 + ")"@,
        "("@ + d0 + " \\times "@ + d1 + ")"@,
    ) || holds_pair(s, "("@ + d1 + " * "@ + d0 + ")"@, "("@ + d1 + " \\times "@ + d0 + ")"@)
    &&& div_ok(v0, v1) && target == div_of(v0, v1) ==> holds_pair(
        s,
        "("@ + d0 + " / "@ + d1 + ")"@,
        "("@ + d0 + " \\div "@ + d1 + ")"@,
    )
    &&& div_ok(v1, v0) && target == div_of(v1, v0) ==> holds_pair(
        s,
        "("@ + d1 + " / "@ + d0 + ")"@,
        "("@ + d1 + " \\div "@ + d0 + ")"@,
    )
    &&& pow_ok(v0, v1) && target == pow(v0, v1 as nat) ==> holds_pair(
        s,
        d0 + " ^ "@ + d1,
        "{"@ + d0 + "}^{"@ + d1 + "}"@,
    )
    &&& pow_ok(v1, v0) && target == pow(v1, v0 as nat) ==> holds_pair(
        s,
        d1 + " ^ "@ + d0,
        "{"@ + d1 + "}^{"@ + d0 + "}"@,
    )
    &&& log_ok(v1, v0) && target == log_of(v1, v0) as int ==> holds_pair(
        s,
        "log{"@ + d1 + "}{"@ + d0 + "}"@,
        "\\log_{"@ + d1 + "}{"@ + d0 + "}"@,
    )
    &&& log_ok(v0, v1) && target == log_of(v0, v1) as int ==> holds_pair(
        s,
        "log{"@ + d0 + "}{"@ + d1 + "}"@,
        "\\log_{"@ + d0 + "}{"@ + d1 + "}"@,
    )
}

/// Relies on `itertools::Itertools::permutations`: with the length of the
/// input as the permutation size it enumerates every reordering of the whole
/// input by distinct indices — all of them, equal values kept positionally
/// distinct — so each yielded item has the input's multiset, every sequence
/// with that multiset is yielded, and a non-empty input yields at least one
/// ordering.
#[verifier::external_body]
fn all_orderings(v: &Vec<u32>) -> (r: Vec<Vec<u32>>)
    ensures
        forall|i: int|
            0 <= i < r@.len() ==> (#[trigger] r@[i])@.to_multiset() == v@.to_multiset(),
        forall|s: Seq<u32>| #![trigger s.to_multiset()]
            s.to_multiset() == v@.to_multiset() ==> exists|i: int|
                0 <= i < r@.len() && (#[trigger] r@[i])@ == s,
        v@.len() > 0 ==> r@.len() > 0,
{
    v.iter().permutations(v.len()).map(|p| p.into_iter().copied().collect::<Vec<u32>>()).collect()
}

/// Append `e` unless an expression with both renderings equal is already
/// present.
#[verifier::loop_isolation(false)]
fn push_unique(
    answers: &mut Vec<Expression>,
    e: Expression,
    Ghost(ms): Ghost<Multiset<u32>>,
    Ghost(target): Ghost<int>,
)
    requires
        uniq_exprs(old(answers)@),
        all_describe(old(answers)@, ms, target),
        all_from(old(answers)@, ms, target),
        describes(ms, target, e.prog@, e.tex@),
        from_some_ordering(ms, target, e.prog@, e.tex@),
    ensures
        old(answers)@.len() <= final(answers)@.len() <= old(answers)@.len() + 1,
        1 <= final(answers)@.len(),
        uniq_exprs(final(answers)@),
        all_describe(final(answers)@, ms, target),
        all_from(final(answers)@, ms, target),
        holds_pair(final(answers)@, e.prog@, e.tex@),
        forall|p: Seq<char>, t: Seq<char>|
            holds_pair(old(answers)@, p, t) ==> #[trigger] holds_pair(final(answers)@, p, t),
{
    let n = answers.len();
    let mut i: usize = 0;
    while i < n
        invariant
            i <= n,
            n == answers@.len(),
            answers@ == old(answers)@,
            forall|j: int|
                0 <= j < i ==> !((#[trigger] answers@[j]).prog@ == e.prog@ && answers@[j].tex@
                    == e.tex@),
        decreases n - i,
    {
        if answers[i].prog == e.prog && answers[i].tex == e.tex {
            proof {
                assert(answers@[i as int].prog@ == e.prog@ && answers@[i as int].tex@ == e.tex@);
            }
            return ;
        }
        i = i + 1;
    }
    answers.push(e);
    proof {
        let ni = old(answers)@.len() as int;
        assert(answers@[ni].prog@ == e.prog@ && answers@[ni].tex@ == e.tex@);
        assert forall|p: Seq<char>, t: Seq<char>|
            holds_pair(old(answers)@, p, t) implies #[trigger] holds_pair(answers@, p, t) by {
            let k = choose|k: int|
                0 <= k < old(answers)@.len() && (#[trigger] old(answers)@[k]).prog@ == p && old(
                    answers,
                )@[k].tex@ == t;
            assert(answers@[k] == old(answers)@[k]);
        }
        assert forall|a: int, b: int|
            0 <= a < b < answers@.len() implies !((#[trigger] answers@[a]).prog@
            == (#[trigger] answers@[b]).prog@ && answers@[a].tex@ == answers@[b].tex@) by {
            if b < old(answers)@.len() {
                assert(answers@[a] == old(answers)@[a]);
                assert(answers@[b] == old(answers)@[b]);
            } else {
                if a < old(answers)@.len() {
                    assert(answers@[a] == old(answers)@[a]);
                }
            }
        }
    }
}


/// After a full drain of one ordering's map into the answers, every owed
/// one- or two-number solution and the identity ordering's left-nested sum
/// stand among the answers.
#[verifier::rlimit(100)]
#[verifier::spinoff_prover]
proof fn lemma_owed_absorbed(
    rm: ResultMap,
    answers: Seq<Expression>,
    q: int,
    numbers: Seq<u32>,
    pseq: Seq<u32>,
    target: int,
)
    requires
        q == rm.items@.len(),
        forall|pp: Seq<char>, tt: Seq<char>|
            #[trigger] entry_at(rm.items@, q, target, pp, tt) ==> holds_pair(answers, pp, tt),
        crate::solver::solve_post(pseq, rm),
        pseq.to_multiset() == numbers.to_multiset(),
        numbers.len() >= 1,
    ensures
        numbers.len() == 1 ==> owed_single_present(answers, numbers[0], target),
        numbers.len() == 2 ==> owed_pair_present(answers, numbers[0], numbers[1], target),
        pseq == numbers && chain_ok(numbers) && target == chain_sum(numbers) ==> holds_pair(
            answers,
            chain_text(numbers),
            chain_text(numbers),
        ),
{
    if pseq == numbers && chain_ok(numbers) && target == chain_sum(numbers) {
        assert(rm.has(chain_sum(numbers), chain_text(numbers), chain_text(numbers)));
        lemma_absorb(rm, answers, q, target, chain_text(numbers), chain_text(numbers));
    }
    if numbers.len() == 1 {
        lemma_singleton_same(numbers, pseq);
        let v0 = i32_of_u32(numbers[0]);
        let d0 = dec_str(v0);
        if target == v0 {
            lemma_absorb(rm, answers, q, target, d0, d0);
        }
        if fact_ok(v0) && target == fact_nat(v0 as nat) as int {
            assert(unary_rows_present(rm, v0, d0, d0));
            lemma_absorb(
                rm,
                answers,
                q,
                target,
                "fact{"@ + d0 + "}"@,
                (if all_digits(d0) {
                    d0 + "!"@
                } else {
                    "("@ + d0 + ")!"@
                }),
            );
        }
        if root_ok(v0) && target == sqrt_of(v0) {
            assert(unary_rows_present(rm, v0, d0, d0));
            lemma_absorb(rm, answers, q, target, "sqrt{"@ + d0 + "}"@, "\\sqrt{"@ + d0 + "}"@);
        }
        assert(owed_single_present(answers, numbers[0], target));
    }
    if numbers.len() == 2 {
        lemma_pair_same(numbers, pseq);
        let v0 = i32_of_u32(numbers[0]);
        let v1 = i32_of_u32(numbers[1]);
        let d0 = dec_str(v0);
        let d1 = dec_str(v1);
        assert(pair_rows_present(
            rm,
            i32_of_u32(pseq[0]),
            dec_str(i32_of_u32(pseq[0])),
            dec_str(i32_of_u32(pseq[0])),
            i32_of_u32(pseq[1]),
            dec_str(i32_of_u32(pseq[1])),
            dec_str(i32_of_u32(pseq[1])),
        ));
        if in_i32(v0 + v1) && target == v0 + v1 {
            if pseq[0] == numbers[0] {
                lemma_absorb(rm, answers, q, target,
                    "("@ + d0 + " + "@ + d1 + ")"@, "("@ + d0 + " + "@ + d1 + ")"@);
            } else {
                lemma_absorb(rm, answers, q, target,
                    "("@ + d1 + " + "@ + d0 + ")"@, "("@ + d1 + " + "@ + d0 + ")"@);
            }
        }
        if in_i32(v0 - v1) && target == v0 - v1 {
            lemma_absorb(rm, answers, q, target,
                "("@ + d0 + " - "@ + d1 + ")"@, "("@ + d0 + " - "@ + d1 + ")"@);
        }
        if in_i32(v1 - v0) && target == v1 - v0 {
            lemma_absorb(rm, answers, q, target,
                "("@ + d1 + " - "@ + d0 + ")"@, "("@ + d1 + " - "@ + d0 + ")"@);
        }
        if in_i32(v0 * v1) && target == v0 * v1 {
            if pseq[0] == numbers[0] {
                lemma_absorb(rm, answers, q, target,
                    "("@ + d0 + " * "@ + d1 + ")"@, "("@ + d0 + " \\times "@ + d1 + ")"@);
            } else {
                assert(v1 * v0 == v0 * v1) by (nonlinear_arith);
                lemma_absorb(rm, answers, q, target,
                    "("@ + d1 + " * "@ + d0 + ")"@, "("@ + d1 + " \\times "@ + d0 + ")"@);
            }
        }
        if div_ok(v0, v1) && target == div_of(v0, v1) {
            lemma_absorb(rm, answers, q, target,
                "("@ + d0 + " / "@ + d1 + ")"@, "("@ + d0 + " \\div "@ + d1 + ")"@);
        }
        if div_ok(v1, v0) && target == div_of(v1, v0) {
            lemma_absorb(rm, answers, q, target,
                "("@ + d1 + " / "@ + d0 + ")"@, "("@ + d1 + " \\div "@ + d0 + ")"@);
        }
        if pow_ok(v0, v1) && target == pow(v0, v1 as nat) {
            lemma_absorb(rm, answers, q, target,
                d0 + " ^ "@ + d1, "{"@ + d0 + "}^{"@ + d1 + "}"@);
        }
        if pow_ok(v1, v0) && target == pow(v1, v0 as nat) {
            lemma_absorb(rm, answers, q, target,
                d1 + " ^ "@ + d0, "{"@ + d1 + "}^{"@ + d0 + "}"@);
        }
        if log_ok(v1, v0) && target == log_of(v1, v0) as int {
            lemma_absorb(rm, answers, q, target,
                "log{"@ + d1 + "}{"@ + d0 + "}"@, "\\log_{"@ + d1 + "}{"@ + d0 + "}"@);
        }
        if log_ok(v0, v1) && target == log_of(v0, v1) as int {
            lemma_absorb(rm, answers, q, target,
                "log{"@ + d0 + "}{"@ + d1 + "}"@, "\\log_{"@ + d0 + "}{"@ + d1 + "}"@);
        }
        assert(owed_pair_present(answers, numbers[0], numbers[1], target));
    }
}

/// Find up to `limit` distinct expressions that combine the numbers, each
/// used exactly once in some order, into exactly `target`. An empty input or
/// a zero limit yields an empty collection. Every returned expression is the
/// rendering of a genuine expression over exactly the input numbers whose
/// checked evaluation is `target`, and is derivable by the engine's
/// contiguous-split, unary-once discipline from some ordering of the input;
/// no two returned expressions share both renderings; and unless the limit
/// was reached first, every derivable solution for `target`, over every
/// ordering, is returned.
#[verifier::loop_isolation(false)]
#[verifier::rlimit(100)]
pub fn find_calculation(numbers: &[u32], target: i32, limit: usize) -> (r: Vec<Expression>)
    ensures
        r@.len() <= limit,
        numbers@.len() == 0 ==> r@.len() == 0,
        uniq_exprs(r@),
        all_describe(r@, numbers@.to_multiset(), target as int),
        all_from(r@, numbers@.to_multiset(), target as int),
        limit > 0 ==> r@.len() == limit || (forall|s: Seq<u32>, p: Seq<char>, t: Seq<char>|
            s.to_multiset() == numbers@.to_multiset() && #[trigger] derived_entry(
                s,
                target as int,
                p,
                t,
            ) ==> holds_pair(r@, p, t)),
        limit > 0 && numbers@.len() == 1 ==> r@.len() == limit || owed_single_present(
            r@,
            numbers@[0],
            target as int,
        ),
        limit > 0 && numbers@.len() == 2 ==> r@.len() == limit || owed_pair_present(
            r@,
            numbers@[0],
            numbers@[1],
            target as int,
        ),
        limit > 0 && numbers@.len() >= 1 && chain_ok(numbers@) && target as int == chain_sum(
            numbers@,
        ) ==> r@.len() == limit || holds_pair(r@, chain_text(numbers@), chain_text(numbers@)),
        numbers@.len() == 1 && limit > 0 && target as int == i32_of_u32(numbers@[0]) ==> r@.len()
            >= 1,
{
    let mut answers: Vec<Expression> = Vec::new();
    if numbers.is_empty() || limit == 0 {
        proof {
            if numbers@.len() == 0 {
                assert forall|s: Seq<u32>, p2: Seq<char>, t2: Seq<char>|
                    s.to_multiset() == numbers@.to_multiset() && #[trigger] derived_entry(
                        s,
                        target as int,
                        p2,
                        t2,
                    ) implies holds_pair(answers@, p2, t2) by {
                    broadcast use vstd::seq_lib::group_to_multiset_ensures;

                    assert(s.to_multiset().len() == numbers@.to_multiset().len());
                    assert(numbers@.to_multiset().len() == numbers@.len());
                    assert(s.len() == 0);
                    crate::solver::lemma_empty_underivable(s, target as int, p2, t2);
                }
            }
        }
        return answers;
    }
    let nums_vec = slice_to_vec(numbers);
    let perms = all_orderings(&nums_vec);
    let ghost ms = numbers@.to_multiset();
    let ghost ip = choose|ii: int| 0 <= ii < perms@.len() && (#[trigger] perms@[ii])@ == numbers@;
    proof {
        assert(numbers@.to_multiset() == nums_vec@.to_multiset());
        assert(0 <= ip < perms@.len() && perms@[ip]@ == numbers@);
    }
    let mut p: usize = 0;
    while p < perms.len() && answers.len() < limit
        invariant
            p <= perms@.len(),
            answers@.len() <= limit,
            uniq_exprs(answers@),
            all_describe(answers@, ms, target as int),
            all_from(answers@, ms, target as int),
            answers@.len() == limit || (forall|ii: int, p2: Seq<char>, t2: Seq<char>|
                0 <= ii < p && #[trigger] derived_entry(perms@[ii]@, target as int, p2, t2)
                    ==> holds_pair(answers@, p2, t2)),
            numbers@.len() == 1 && p > 0 ==> answers@.len() == limit || owed_single_present(
                answers@,
                numbers@[0],
                target as int,
            ),
            numbers@.len() == 2 && p > 0 ==> answers@.len() == limit || owed_pair_present(
                answers@,
                numbers@[0],
                numbers@[1],
                target as int,
            ),
            numbers@.len() >= 1 && chain_ok(numbers@) && target as int == chain_sum(numbers@)
                && p > ip ==> answers@.len() == limit || holds_pair(
                answers@,
                chain_text(numbers@),
                chain_text(numbers@),
            ),
        decreases perms@.len() - p,
    {
        let mut cache = SolveCache::new();
        let rm = solve(perms[p].as_slice(), &mut cache);
        let ghost pseq = perms@[p as int]@;
        proof {
            assert(pseq.to_multiset() == ms);
        }
        let mut q: usize = 0;
        while q < rm.items.len() && answers.len() < limit
            invariant
                q <= rm.items@.len(),
                answers@.len() <= limit,
                uniq_exprs(answers@),
                all_describe(answers@, ms, target as int),
                all_from(answers@, ms, target as int),
                answers@.len() == limit || (forall|ii: int, p2: Seq<char>, t2: Seq<char>|
                    0 <= ii < p && #[trigger] derived_entry(perms@[ii]@, target as int, p2, t2)
                        ==> holds_pair(answers@, p2, t2)),
                answers@.len() == limit || (forall|pp: Seq<char>, tt: Seq<char>|
                    #[trigger] entry_at(rm.items@, q as int, target as int, pp, tt)
                        ==> holds_pair(answers@, pp, tt)),
                numbers@.len() == 1 && p > 0 ==> answers@.len() == limit || owed_single_present(
                    answers@,
                    numbers@[0],
                    target as int,
                ),
                numbers@.len() == 2 && p > 0 ==> answers@.len() == limit || owed_pair_present(
                    answers@,
                    numbers@[0],
                    numbers@[1],
                    target as int,
                ),
                numbers@.len() >= 1 && chain_ok(numbers@) && target as int == chain_sum(numbers@)
                    && p > ip ==> answers@.len() == limit || holds_pair(
                    answers@,
                    chain_text(numbers@),
                    chain_text(numbers@),
                ),
            decreases rm.items@.len() - q,
        {
            let ghost answers_before = answers@;
            if rm.items[q].value == target {
                let e = rm.items[q].expr.clone();
                proof {
                    assert(describes(ms, target as int, e.prog@, e.tex@));
                    assert(rm.has(target as int, e.prog@, e.tex@));
                    assert(derived_entry(pseq, target as int, e.prog@, e.tex@));
                    assert(from_some_ordering(ms, target as int, e.prog@, e.tex@));
                }
                push_unique(&mut answers, e, Ghost(ms), Ghost(target as int));
            }
            proof {
                if answers@.len() != limit {
                    assert forall|pp: Seq<char>, tt: Seq<char>|
                        #[trigger] entry_at(
                            rm.items@,
                            q as int + 1,
                            target as int,
                            pp,
                            tt,
                        ) implies holds_pair(answers@, pp, tt) by {
                        let idx = choose|i: int|
                            0 <= i < q as int + 1 && i < rm.items@.len()
                                && (#[trigger] rm.items@[i]).value == target as int
                                && rm.items@[i].expr.prog@ == pp && rm.items@[i].expr.tex@ == tt;
                        if idx < q as int {
                            assert(entry_at(rm.items@, q as int, target as int, pp, tt));
                            assert(holds_pair(answers_before, pp, tt));
                        }
                    }
                }
            }
            q = q + 1;
        }
        proof {
            if answers@.len() != limit {
                assert(q == rm.items@.len());
                assert forall|p2: Seq<char>, t2: Seq<char>| #[trigger] derived_entry(
                    pseq,
                    target as int,
                    p2,
                    t2,
                ) implies holds_pair(answers@, p2, t2) by {
                    assert(rm.has(target as int, p2, t2));
                    lemma_absorb(rm, answers@, q as int, target as int, p2, t2);
                }
                lemma_owed_absorbed(rm, answers@, q as int, numbers@, pseq, target as int);
                if p as int == ip {
                    assert(pseq == numbers@);
                }
            }
        }
        p = p + 1;
    }
    proof {
        if limit > 0 && answers@.len() != limit {
            assert forall|s: Seq<u32>, p2: Seq<char>, t2: Seq<char>|
                s.to_multiset() == numbers@.to_multiset() && #[trigger] derived_entry(
                    s,
                    target as int,
                    p2,
                    t2,
                ) implies holds_pair(answers@, p2, t2) by {
                if numbers@.len() == 0 || limit == 0 {
                    assert(false);
                } else {
                    assert(s.to_multiset() == nums_vec@.to_multiset());
                    let ii = choose|ii: int|
                        0 <= ii < perms@.len() && (#[trigger] perms@[ii])@ == s;
                    assert(derived_entry(perms@[ii]@, target as int, p2, t2));
                    assert(p == perms@.len());
                }
            }
        }
        if numbers@.len() == 1 && limit > 0 && target as int == i32_of_u32(numbers@[0]) {
            if answers@.len() != limit {
                assert(owed_single_present(answers@, numbers@[0], target as int));
                assert(holds_pair(
                    answers@,
                    dec_str(i32_of_u32(numbers@[0])),
                    dec_str(i32_of_u32(numbers@[0])),
                ));
            }
        }
    }
    answers
}

} // verus!
