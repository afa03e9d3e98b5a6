//! The memoized divide-and-conquer solver: for one ordered sequence of
//! numbers it returns every achieved value with every distinct expression
//! rendering that reaches it, splitting the sequence at every point,
//! combining sub-results with every binary operator in both operand orders,
//! and finishing with one unary pass.
use crate::arith::{checked_factorial, checked_pow, exact_div, exact_sqrt, int_log, u32_to_i32};
use crate::model::{
    all_digits, arith_row, binary_row, chain_ok, chain_sum, chain_text, core_entry, core_upto, dec_str,
    derived_entry, describes, div_of, div_ok, eval, fact_nat, fact_ok, i32_of_u32, in_i32, leaves,
    lemma_singleton_multiset, log_of, log_ok, pow_ok, powlog_row, prog_of, root_ok, sqrt_of,
    tex_of, unary_row, Form,
};
use crate::results::{ResultMap, Triple};
use crate::text::{i32_to_string, is_all_digits, wrap1, wrap5};
use crate::Expression;
use vstd::arithmetic::power::pow;
use vstd::multiset::Multiset;
use vstd::prelude::*;
use vstd::slice::{slice_subrange, slice_to_vec};

verus! {

/// The addition, both subtraction, multiplication and both division rows
/// of the ordered pair ((v1, p1, t1), (v2, p2, t2)) whose domain and
/// overflow checks pass are present in `rm`.
pub open spec fn arith_rows_present(
    rm: ResultMap,
    v1: int,
    p1: Seq<char>,
    t1: Seq<char>,
    v2: int,
    p2: Seq<char>,
    t2: Seq<char>,
) -> bool {
    &&& in_i32(v1 + v2) ==> rm.has(
        v1 + v2,
        "("@ + p1 + " + "@ + p2 + ")"@,
        "("@ + t1 + " + "@ + t2 + ")"@,
    )
    &&& in_i32(v1 - v2) ==> rm.has(
        v1 - v2,
        "("@ + p1 + " - "@ + p2 + ")"@,
        "("@ + t1 + " - "@ + t2 + ")"@,
    )
    &&& in_i32(v2 - v1) ==> rm.has(
        v2 - v1,
        "("@ + p2 + " - "@ + p1 + ")"@,
        "("@ + t2 + " - "@ + t1 + ")"@,
    )
    &&& in_i32(v1 * v2) ==> rm.has(
        v1 * v2,
        "("@ + p1 + " * "@ + p2 + ")"@,
        "("@ + t1 + " \\times "@ + t2 + ")"@,
    )
    &&& div_ok(v1, v2) ==> rm.has(
        div_of(v1, v2),
        "("@ + p1 + " / "@ + p2 + ")"@,
        "("@ + t1 + " \\div "@ + t2 + ")"@,
    )
    &&& div_ok(v2, v1) ==> rm.has(
        div_of(v2, v1),
        "("@ + p2 + " / "@ + p1 + ")"@,
        "("@ + t2 + " \\div "@ + t1 + ")"@,
    )
}

/// Both power rows and both logarithm rows of the ordered pair whose checks
/// pass are present in `rm`.
pub open spec fn powlog_rows_present(
    rm: ResultMap,
    v1: int,
    p1: Seq<char>,
    t1: Seq<char>,
    v2: int,
    p2: Seq<char>,
    t2: Seq<char>,
) -> bool {
    &&& pow_ok(v1, v2) ==> rm.has(
        pow(v1, v2 as nat),
        p1 + " ^ "@ + p2,
        "{"@ + t1 + "}^{"@ + t2 + "}"@,
    )
    &&& pow_ok(v2, v1) ==> rm.has(
        pow(v2, v1 as nat),
        p2 + " ^ "@ + p1,
        "{"@ + t2 + "}^{"@ + t1 + "}"@,
    )
    &&& log_ok(v2, v1) ==> rm.has(
        log_of(v2, v1) as int,
        "log{"@ + p2 + "}{"@ + p1 + "}"@,
        "\\log_{"@ + t2 + "}{"@ + t1 + "}"@,
    )
    &&& log_ok(v1, v2) ==> rm.has(
        log_of(v1, v2) as int,
        "log{"@ + p1 + "}{"@ + p2 + "}"@,
        "\\log_{"@ + t1 + "}{"@ + t2 + "}"@,
    )
}

/// Every binary operator row of the ordered pair whose domain and overflow
/// checks pass is present in `rm`: both subtraction orders, both division
/// orders, both power orders and both logarithm orders, and the single
/// addition and multiplication rows.
pub open spec fn pair_rows_present(
    rm: ResultMap,
    v1: int,
    p1: Seq<char>,
    t1: Seq<char>,
    v2: int,
    p2: Seq<char>,
    t2: Seq<char>,
) -> bool {
    arith_rows_present(rm, v1, p1, t1, v2, p2, t2) && powlog_rows_present(
        rm,
        v1,
        p1,
        t1,
        v2,
        p2,
        t2,
    )
}

/// Both unary operator rows of the entry (v0, p0, t0) whose checks pass are
/// present in `rm`: the factorial entry, with its bang bare exactly when the
/// operand's program text is purely digits, and the exact-square-root entry.
pub open spec fn unary_rows_present(rm: ResultMap, v0: int, p0: Seq<char>, t0: Seq<char>) -> bool {
    &&& fact_ok(v0) ==> rm.has(
        fact_nat(v0 as nat) as int,
        "fact{"@ + p0 + "}"@,
        (if all_digits(p0) {
            t0 + "!"@
        } else {
            "("@ + t0 + ")!"@
        }),
    )
    &&& root_ok(v0) ==> rm.has(sqrt_of(v0), "sqrt{"@ + p0 + "}"@, "\\sqrt{"@ + t0 + "}"@)
}

/// What `solve` promises of the map it returns for `key`: entries are
/// deduplicated; every entry is reached by a genuine expression over exactly
/// the numbers of `key`; and the entries are exactly the derivable ones —
/// the base literal, the binary rows over every contiguous split, and one
/// unary pass over those. The remaining clauses spell out frequently used
/// instances of the two directions.
pub open spec fn solve_post(key: Seq<u32>, rm: ResultMap) -> bool {
    &&& rm.wf()
    &&& rm.sound_for(key.to_multiset())
    &&& forall|v: int, p: Seq<char>, t: Seq<char>|
        #[trigger] rm.has(v, p, t) <==> derived_entry(key, v, p, t)
    &&& key.len() == 1 ==> rm.has(
        i32_of_u32(key[0]),
        dec_str(i32_of_u32(key[0])),
        dec_str(i32_of_u32(key[0])),
    )
    &&& key.len() >= 1 && chain_ok(key) ==> rm.has(
        chain_sum(key),
        chain_text(key),
        chain_text(key),
    )
    &&& key.len() == 1 ==> unary_rows_present(
        rm,
        i32_of_u32(key[0]),
        dec_str(i32_of_u32(key[0])),
        dec_str(i32_of_u32(key[0])),
    )
    &&& key.len() == 2 ==> pair_rows_present(
        rm,
        i32_of_u32(key[0]),
        dec_str(i32_of_u32(key[0])),
        dec_str(i32_of_u32(key[0])),
        i32_of_u32(key[1]),
        dec_str(i32_of_u32(key[1])),
        dec_str(i32_of_u32(key[1])),
    )
}

/// One memoized entry: an exact ordered sub-sequence and its finished map.
pub struct CachePair {
    pub key: Vec<u32>,
    pub map: ResultMap,
}

/// The memoization cache of one solve tree.
pub struct SolveCache {
    pub items: Vec<CachePair>,
}

impl SolveCache {
    pub open spec fn wf(self) -> bool {
        &&& forall|i: int|
            0 <= i < self.items@.len() ==> solve_post(
                (#[trigger] self.items@[i]).key@,
                self.items@[i].map,
            )
        &&& forall|i: int, j: int|
            0 <= i < j < self.items@.len() ==> (#[trigger] self.items@[i]).key@
                != (#[trigger] self.items@[j]).key@
    }

    pub fn new() -> (r: SolveCache)
        ensures
            r.wf(),
            r.items@.len() == 0,
    {
        SolveCache { items: Vec::new() }
    }

    #[verifier::loop_isolation(false)]
    fn lookup(&self, key: &[u32]) -> (r: Option<ResultMap>)
        requires
            self.wf(),
        ensures
            r matches Some(rm) ==> solve_post(key@, rm),
            r matches Some(rm) ==> exists|i: int|
                0 <= i < self.items@.len() && (#[trigger] self.items@[i]).key@ == key@
                    && rm.items@ == self.items@[i].map.items@,
            r is None ==> forall|i: int|
                0 <= i < self.items@.len() ==> (#[trigger] self.items@[i]).key@ != key@,
    {
        let mut i: usize = 0;
        while i < self.items.len()
            invariant
                i <= self.items@.len(),
                forall|j: int| 0 <= j < i ==> (#[trigger] self.items@[j]).key@ != key@,
            decreases self.items@.len() - i,
        {
            if keys_equal(&self.items[i].key, key) {
                let m = self.items[i].map.clone();
                proof {
                    lemma_same_map(self.items@[i as int].map, m, key@);
                    let si = i as int;
                    assert(self.items@[si].key@ == key@ && m.items@ == self.items@[si].map.items@);
                }
                return Some(m);
            }
            i = i + 1;
        }
        None
    }

    fn store(&mut self, key: Vec<u32>, rm: ResultMap)
        requires
            old(self).wf(),
            solve_post(key@, rm),
            forall|i: int|
                0 <= i < old(self).items@.len() ==> (#[trigger] old(self).items@[i]).key@
                    != key@,
        ensures
            final(self).wf(),
            final(self).items@.len() == old(self).items@.len() + 1,
            final(self).items@.subrange(0, old(self).items@.len() as int) == old(self).items@,
            final(self).items@.last().key@ == key@,
            final(self).items@.last().map == rm,
    {
        let ghost before = self.items@;
        self.items.push(CachePair { key: key, map: rm });
        proof {
            assert(self.items@.subrange(0, before.len() as int) =~= before);
            assert forall|i: int| 0 <= i < self.items@.len() implies solve_post(
                (#[trigger] self.items@[i]).key@,
                self.items@[i].map,
            ) by {
                if i < before.len() {
                    assert(self.items@[i] == before[i]);
                }
            }
            assert forall|x: int, y: int|
                0 <= x < y < self.items@.len() implies (#[trigger] self.items@[x]).key@
                != (#[trigger] self.items@[y]).key@ by {
                if x < before.len() {
                    assert(self.items@[x] == before[x]);
                }
                if y < before.len() {
                    assert(self.items@[y] == before[y]);
                }
            }
        }
    }
}

/// Two maps with the same entries satisfy the same solve contract.
proof fn lemma_same_map(a: ResultMap, b: ResultMap, key: Seq<u32>)
    requires
        a.items@ == b.items@,
        solve_post(key, a),
    ensures
        solve_post(key, b),
{
    assert forall|i: int, j: int| 0 <= i < j < b.items@.len() implies !((#[trigger] b.items@[i]).value
        == (#[trigger] b.items@[j]).value && b.items@[i].expr.prog@ == b.items@[j].expr.prog@
        && b.items@[i].expr.tex@ == b.items@[j].expr.tex@) by {
        assert(a.items@[i] == b.items@[i]);
        assert(a.items@[j] == b.items@[j]);
    }
    assert forall|i: int| 0 <= i < b.items@.len() implies describes(
        key.to_multiset(),
        (#[trigger] b.items@[i]).value as int,
        b.items@[i].expr.prog@,
        b.items@[i].expr.tex@,
    ) by {
        assert(a.items@[i] == b.items@[i]);
    }
    assert forall|v: int, p: Seq<char>, t: Seq<char>| a.has(v, p, t) implies #[trigger] b.has(
        v,
        p,
        t,
    ) by {
        let k = choose|k: int|
            0 <= k < a.items@.len() && (#[trigger] a.items@[k]).value == v
                && a.items@[k].expr.prog@ == p && a.items@[k].expr.tex@ == t;
        assert(b.items@[k] == a.items@[k]);
    }
    assert forall|v: int, p: Seq<char>, t: Seq<char>| b.has(v, p, t) implies #[trigger] a.has(
        v,
        p,
        t,
    ) by {
        let k = choose|k: int|
            0 <= k < b.items@.len() && (#[trigger] b.items@[k]).value == v
                && b.items@[k].expr.prog@ == p && b.items@[k].expr.tex@ == t;
        assert(a.items@[k] == b.items@[k]);
    }
    assert forall|v: int, p: Seq<char>, t: Seq<char>|
        #[trigger] b.has(v, p, t) <==> derived_entry(key, v, p, t) by {
        assert(a.has(v, p, t) <==> derived_entry(key, v, p, t));
        if b.has(v, p, t) {
            let k = choose|k: int|
                0 <= k < b.items@.len() && (#[trigger] b.items@[k]).value == v
                    && b.items@[k].expr.prog@ == p && b.items@[k].expr.tex@ == t;
            assert(a.items@[k] == b.items@[k]);
            assert(a.has(v, p, t));
        }
        if a.has(v, p, t) {
            let k = choose|k: int|
                0 <= k < a.items@.len() && (#[trigger] a.items@[k]).value == v
                    && a.items@[k].expr.prog@ == p && a.items@[k].expr.tex@ == t;
            assert(b.items@[k] == a.items@[k]);
            assert(b.has(v, p, t));
        }
    }
}

#[verifier::loop_isolation(false)]
fn keys_equal(a: &Vec<u32>, b: &[u32]) -> (r: bool)
    ensures
        r == (a@ == b@),
{
    if a.len() != b.len() {
        return false;
    }
    let n = a.len();
    let mut i: usize = 0;
    while i < n
        invariant
            i <= n,
            forall|j: int| 0 <= j < i ==> a@[j] == b@[j],
        decreases n - i,
    {
        if a[i] != b[i] {
            return false;
        }
        i = i + 1;
    }
    proof {
        assert(a@ =~= b@);
    }
    true
}

/// The addition, subtraction, multiplication and division candidates of one
/// pair of sub-results, both operand orders where the operator is not
/// symmetric.
#[verifier::rlimit(100)]
#[verifier::spinoff_prover]
fn combine_arith(
    res: &mut ResultMap,
    a: i32,
    ea: &Expression,
    b: i32,
    eb: &Expression,
    Ghost(ms): Ghost<Multiset<u32>>,
    Ghost(lms): Ghost<Multiset<u32>>,
    Ghost(rms): Ghost<Multiset<u32>>,
)
    requires
        old(res).wf(),
        old(res).sound_for(ms),
        describes(lms, a as int, ea.prog@, ea.tex@),
        describes(rms, b as int, eb.prog@, eb.tex@),
        ms == lms.add(rms),
    ensures
        final(res).wf(),
        final(res).sound_for(ms),
        forall|v: int, p: Seq<char>, t: Seq<char>|
            old(res).has(v, p, t) ==> final(res).has(v, p, t),
        old(res).items@.len() <= final(res).items@.len(),
        final(res).items@.subrange(0, old(res).items@.len() as int) == old(res).items@,
        arith_rows_present(*final(res), a as int, ea.prog@, ea.tex@, b as int, eb.prog@, eb.tex@),
        forall|v: int, p: Seq<char>, t: Seq<char>|
            #[trigger] final(res).has(v, p, t) <==> old(res).has(v, p, t) || arith_row(
                v,
                p,
                t,
                a as int,
                ea.prog@,
                ea.tex@,
                b as int,
                eb.prog@,
                eb.tex@,
            ),
{
    let ghost fa = choose|f: Form|
        eval(f) == Some(a as int) && leaves(f) == lms && prog_of(f) == ea.prog@ && tex_of(f)
            == ea.tex@;
    let ghost fb = choose|f: Form|
        eval(f) == Some(b as int) && leaves(f) == rms && prog_of(f) == eb.prog@ && tex_of(f)
            == eb.tex@;
    proof {
        broadcast use vstd::multiset::group_multiset_axioms;

        assert(rms.add(lms) =~= lms.add(rms));
    }
    if let Some(v) = a.checked_add(b) {
        let prog = wrap5("(", ea.prog.as_str(), " + ", eb.prog.as_str(), ")");
        let tex = wrap5("(", ea.tex.as_str(), " + ", eb.tex.as_str(), ")");
        res.insert(v, prog, tex, Ghost(ms), Ghost(Form::Add { l: Box::new(fa), r: Box::new(fb) }));
    }
    if let Some(v) = a.checked_sub(b) {
        let prog = wrap5("(", ea.prog.as_str(), " - ", eb.prog.as_str(), ")");
        let tex = wrap5("(", ea.tex.as_str(), " - ", eb.tex.as_str(), ")");
        res.insert(v, prog, tex, Ghost(ms), Ghost(Form::Sub { l: Box::new(fa), r: Box::new(fb) }));
    }
    if let Some(v) = b.checked_sub(a) {
        let prog = wrap5("(", eb.prog.as_str(), " - ", ea.prog.as_str(), ")");
        let tex = wrap5("(", eb.tex.as_str(), " - ", ea.tex.as_str(), ")");
        res.insert(v, prog, tex, Ghost(ms), Ghost(Form::Sub { l: Box::new(fb), r: Box::new(fa) }));
    }
    if let Some(v) = a.checked_mul(b) {
        let prog = wrap5("(", ea.prog.as_str(), " * ", eb.prog.as_str(), ")");
        let tex = wrap5("(", ea.tex.as_str(), " \\times ", eb.tex.as_str(), ")");
        res.insert(v, prog, tex, Ghost(ms), Ghost(Form::Mul { l: Box::new(fa), r: Box::new(fb) }));
    }
    if let Some(v) = exact_div(a, b) {
        let prog = wrap5("(", ea.prog.as_str(), " / ", eb.prog.as_str(), ")");
        let tex = wrap5("(", ea.tex.as_str(), " \\div ", eb.tex.as_str(), ")");
        proof {
            crate::model::lemma_mul_cancel(
                b as int,
                crate::model::div_of(a as int, b as int),
                v as int,
            );
        }
        res.insert(v, prog, tex, Ghost(ms), Ghost(Form::Div { l: Box::new(fa), r: Box::new(fb) }));
    }
    if let Some(v) = exact_div(b, a) {
        let prog = wrap5("(", eb.prog.as_str(), " / ", ea.prog.as_str(), ")");
        let tex = wrap5("(", eb.tex.as_str(), " \\div ", ea.tex.as_str(), ")");
        proof {
            crate::model::lemma_mul_cancel(
                a as int,
                crate::model::div_of(b as int, a as int),
                v as int,
            );
        }
        res.insert(v, prog, tex, Ghost(ms), Ghost(Form::Div { l: Box::new(fb), r: Box::new(fa) }));
    }
}

/// The power and logarithm candidates of one pair of sub-results, both
/// operand orders.
#[verifier::rlimit(100)]
#[verifier::spinoff_prover]
fn combine_powlog(
    res: &mut ResultMap,
    a: i32,
    ea: &Expression,
    b: i32,
    eb: &Expression,
    Ghost(ms): Ghost<Multiset<u32>>,
    Ghost(lms): Ghost<Multiset<u32>>,
    Ghost(rms): Ghost<Multiset<u32>>,
)
    requires
        old(res).wf(),
        old(res).sound_for(ms),
        describes(lms, a as int, ea.prog@, ea.tex@),
        describes(rms, b as int, eb.prog@, eb.tex@),
        ms == lms.add(rms),
    ensures
        final(res).wf(),
        final(res).sound_for(ms),
        forall|v: int, p: Seq<char>, t: Seq<char>|
            old(res).has(v, p, t) ==> final(res).has(v, p, t),
        old(res).items@.len() <= final(res).items@.len(),
        final(res).items@.subrange(0, old(res).items@.len() as int) == old(res).items@,
        powlog_rows_present(*final(res), a as int, ea.prog@, ea.tex@, b as int, eb.prog@, eb.tex@),
        forall|v: int, p: Seq<char>, t: Seq<char>|
            #[trigger] final(res).has(v, p, t) <==> old(res).has(v, p, t) || powlog_row(
                v,
                p,
                t,
                a as int,
                ea.prog@,
                ea.tex@,
                b as int,
                eb.prog@,
                eb.tex@,
            ),
{
    let ghost fa = choose|f: Form|
        eval(f) == Some(a as int) && leaves(f) == lms && prog_of(f) == ea.prog@ && tex_of(f)
            == ea.tex@;
    let ghost fb = choose|f: Form|
        eval(f) == Some(b as int) && leaves(f) == rms && prog_of(f) == eb.prog@ && tex_of(f)
            == eb.tex@;
    proof {
        broadcast use vstd::multiset::group_multiset_axioms;

        assert(rms.add(lms) =~= lms.add(rms));
    }
    if b >= 0 {
        if let Some(v) = checked_pow(a, b) {
            let prog = wrap5("", ea.prog.as_str(), " ^ ", eb.prog.as_str(), "");
            let tex = wrap5("{", ea.tex.as_str(), "}^{", eb.tex.as_str(), "}");
            proof {
                reveal_strlit("");
                let w = Form::Pow { l: Box::new(fa), r: Box::new(fb) };
                assert(prog_of(w) =~= prog@);
            }
            res.insert(
                v,
                prog,
                tex,
                Ghost(ms),
                Ghost(Form::Pow { l: Box::new(fa), r: Box::new(fb) }),
            );
        }
    }
    if a >= 0 {
        if let Some(v) = checked_pow(b, a) {
            let prog = wrap5("", eb.prog.as_str(), " ^ ", ea.prog.as_str(), "");
            let tex = wrap5("{", eb.tex.as_str(), "}^{", ea.tex.as_str(), "}");
            proof {
                reveal_strlit("");
                let w = Form::Pow { l: Box::new(fb), r: Box::new(fa) };
                assert(prog_of(w) =~= prog@);
            }
            res.insert(
                v,
                prog,
                tex,
                Ghost(ms),
                Ghost(Form::Pow { l: Box::new(fb), r: Box::new(fa) }),
            );
        }
    }
    if let Some(k) = int_log(b, a) {
        let prog = wrap5("log{", eb.prog.as_str(), "}{", ea.prog.as_str(), "}");
        let tex = wrap5("\\log_{", eb.tex.as_str(), "}{", ea.tex.as_str(), "}");
        proof {
            crate::model::lemma_log_unique(b as int, log_of(b as int, a as int), k as nat);
        }
        res.insert(
            k,
            prog,
            tex,
            Ghost(ms),
            Ghost(Form::Log { base: Box::new(fb), num: Box::new(fa) }),
        );
    }
    if let Some(k) = int_log(a, b) {
        let prog = wrap5("log{", ea.prog.as_str(), "}{", eb.prog.as_str(), "}");
        let tex = wrap5("\\log_{", ea.tex.as_str(), "}{", eb.tex.as_str(), "}");
        proof {
            crate::model::lemma_log_unique(a as int, log_of(a as int, b as int), k as nat);
        }
        res.insert(
            k,
            prog,
            tex,
            Ghost(ms),
            Ghost(Form::Log { base: Box::new(fa), num: Box::new(fb) }),
        );
    }
}

/// Try every binary operator on one pair of sub-results, in both operand
/// orders where the operator is not symmetric, and admit each candidate that
/// passes its domain and overflow checks.
fn combine(
    res: &mut ResultMap,
    a: i32,
    ea: &Expression,
    b: i32,
    eb: &Expression,
    Ghost(ms): Ghost<Multiset<u32>>,
    Ghost(lms): Ghost<Multiset<u32>>,
    Ghost(rms): Ghost<Multiset<u32>>,
)
    requires
        old(res).wf(),
        old(res).sound_for(ms),
        describes(lms, a as int, ea.prog@, ea.tex@),
        describes(rms, b as int, eb.prog@, eb.tex@),
        ms == lms.add(rms),
    ensures
        final(res).wf(),
        final(res).sound_for(ms),
        forall|v: int, p: Seq<char>, t: Seq<char>|
            old(res).has(v, p, t) ==> final(res).has(v, p, t),
        old(res).items@.len() <= final(res).items@.len(),
        final(res).items@.subrange(0, old(res).items@.len() as int) == old(res).items@,
        pair_rows_present(*final(res), a as int, ea.prog@, ea.tex@, b as int, eb.prog@, eb.tex@),
        forall|v: int, p: Seq<char>, t: Seq<char>|
            #[trigger] final(res).has(v, p, t) <==> old(res).has(v, p, t) || binary_row(
                v,
                p,
                t,
                a as int,
                ea.prog@,
                ea.tex@,
                b as int,
                eb.prog@,
                eb.tex@,
            ),
{
    combine_arith(res, a, ea, b, eb, Ghost(ms), Ghost(lms), Ghost(rms));
    combine_powlog(res, a, ea, b, eb, Ghost(ms), Ghost(lms), Ghost(rms));
}

/// The pair stands at value `v` somewhere in `items`.
pub open spec fn has_in(items: Seq<Triple>, v: int, p: Seq<char>, t: Seq<char>) -> bool {
    exists|x: int|
        0 <= x < items.len() && (#[trigger] items[x]).value == v && items[x].expr.prog@ == p
            && items[x].expr.tex@ == t
}

proof fn lemma_has_in(rm: ResultMap, v: int, p: Seq<char>, t: Seq<char>)
    ensures
        rm.has(v, p, t) <==> has_in(rm.items@, v, p, t),
{
    if rm.has(v, p, t) {
        let k = choose|k: int|
            0 <= k < rm.items@.len() && (#[trigger] rm.items@[k]).value == v
                && rm.items@[k].expr.prog@ == p && rm.items@[k].expr.tex@ == t;
        assert(has_in(rm.items@, v, p, t));
    }
    if has_in(rm.items@, v, p, t) {
        let k = choose|k: int|
            0 <= k < rm.items@.len() && (#[trigger] rm.items@[k]).value == v
                && rm.items@[k].expr.prog@ == p && rm.items@[k].expr.tex@ == t;
        assert(rm.has(v, p, t));
    }
}

/// Binary candidates from the sub-entry pairs processed so far at one split:
/// the pairs strictly before (jb, kb) in lexicographic order.
pub open spec fn pairs_upto(
    li: Seq<Triple>,
    ri: Seq<Triple>,
    jb: int,
    kb: int,
    v: int,
    p: Seq<char>,
    t: Seq<char>,
) -> bool {
    exists|x: int, y: int|
        #![trigger li[x], ri[y]]
        0 <= x < li.len() && 0 <= y < ri.len() && (x < jb || (x == jb && y < kb)) && binary_row(
            v,
            p,
            t,
            li[x].value as int,
            li[x].expr.prog@,
            li[x].expr.tex@,
            ri[y].value as int,
            ri[y].expr.prog@,
            ri[y].expr.tex@,
        )
}

/// Unary candidates from the first `jb` entries of the pre-pass snapshot.
pub open spec fn unary_upto(base: Seq<Triple>, jb: int, v: int, p: Seq<char>, t: Seq<char>) -> bool {
    exists|x: int|
        0 <= x < jb && x < base.len() && unary_row(
            v,
            p,
            t,
            (#[trigger] base[x]).value as int,
            base[x].expr.prog@,
            base[x].expr.tex@,
        )
}

/// One unary application to a base-or-binary entry is a derivable entry.
proof fn lemma_derived_intro(
    s: Seq<u32>,
    v: int,
    p: Seq<char>,
    t: Seq<char>,
    v0: int,
    p0: Seq<char>,
    t0: Seq<char>,
)
    requires
        core_entry(s, v0, p0, t0),
        unary_row(v, p, t, v0, p0, t0),
    ensures
        derived_entry(s, v, p, t),
{
    reveal_with_fuel(derived_entry, 2);
    assert(exists|w0: int, q0: Seq<char>, u0: Seq<char>|
        #[trigger] core_entry(s, w0, q0, u0) && unary_row(v, p, t, w0, q0, u0));
}

/// A derivable entry that is not base-or-binary is one unary application to
/// a base-or-binary entry.
proof fn lemma_derived_cases(s: Seq<u32>, v: int, p: Seq<char>, t: Seq<char>)
    requires
        derived_entry(s, v, p, t),
        !core_entry(s, v, p, t),
    ensures
        exists|v0: int, p0: Seq<char>, t0: Seq<char>|
            core_entry(s, v0, p0, t0) && #[trigger] unary_row(v, p, t, v0, p0, t0),
{
    reveal_with_fuel(derived_entry, 2);
}

/// Nothing is derivable from an empty sequence of numbers.
pub proof fn lemma_empty_underivable(s: Seq<u32>, v: int, p: Seq<char>, t: Seq<char>)
    requires
        s.len() == 0,
    ensures
        !derived_entry(s, v, p, t),
{
    if derived_entry(s, v, p, t) {
        if !core_entry(s, v, p, t) {
            lemma_derived_cases(s, v, p, t);
            let (v0, p0, t0) = choose|v0: int, p0: Seq<char>, t0: Seq<char>|
                core_entry(s, v0, p0, t0) && #[trigger] unary_row(v, p, t, v0, p0, t0);
            assert(!core_upto(s, s.len() as int, v0, p0, t0));
        } else {
            assert(!core_upto(s, s.len() as int, v, p, t));
        }
    }
}

/// Old cache entries seen through two successive extensions are unchanged.
proof fn lemma_prefix_trans(a: Seq<CachePair>, b: Seq<CachePair>, c: Seq<CachePair>)
    requires
        a.len() <= b.len() <= c.len(),
        b.subrange(0, a.len() as int) == a,
        c.subrange(0, b.len() as int) == b,
    ensures
        c.subrange(0, a.len() as int) == a,
{
    assert forall|i: int| 0 <= i < a.len() implies c.subrange(0, a.len() as int)[i] == a[i] by {
        assert(c.subrange(0, a.len() as int)[i] == c[i]);
        assert(c.subrange(0, b.len() as int)[i] == c[i]);
        assert(b.subrange(0, a.len() as int)[i] == b[i]);
    }
    assert(c.subrange(0, a.len() as int) =~= a);
}

/// Solve one exact ordered sequence, consulting and filling `cache`: old
/// cache entries survive unchanged, and the sequence's own result stands in
/// the cache afterwards.
#[verifier::loop_isolation(false)]
#[verifier::rlimit(100)]
pub fn solve(nums: &[u32], cache: &mut SolveCache) -> (r: ResultMap)
    requires
        old(cache).wf(),
    ensures
        final(cache).wf(),
        solve_post(nums@, r),
        old(cache).items@.len() <= final(cache).items@.len(),
        final(cache).items@.subrange(0, old(cache).items@.len() as int) == old(cache).items@,
        exists|ci: int|
            0 <= ci < final(cache).items@.len() && (#[trigger] final(cache).items@[ci]).key@
                == nums@ && final(cache).items@[ci].map.items@ == r.items@,
        forall|ci: int|
            old(cache).items@.len() <= ci < final(cache).items@.len()
                ==> (#[trigger] final(cache).items@[ci]).key@.len() <= nums@.len(),
    decreases nums@.len(),
{
    if let Some(rm) = cache.lookup(nums) {
        proof {
            assert(cache.items@.subrange(0, cache.items@.len() as int) =~= cache.items@);
        }
        return rm;
    }
    let n = nums.len();
    let mut res = ResultMap::new();
    let ghost ms = nums@.to_multiset();
    let ghost chain_case = nums@.len() >= 1 && chain_ok(nums@);
    let ghost lit0 = i32_of_u32(nums@[0]);
    if n == 1 {
        let v = u32_to_i32(nums[0]);
        let text = i32_to_string(v);
        let text2 = text.clone();
        proof {
            lemma_singleton_multiset(nums@);
            let w = Form::Lit { n: nums@[0] };
            assert(eval(w) == Some(v as int) && leaves(w) == ms && prog_of(w) == text@ && tex_of(
                w,
            ) == text2@);
        }
        res.insert(v, text, text2, Ghost(ms), Ghost(Form::Lit { n: nums@[0] }));
        proof {
            assert(chain_sum(nums@) == lit0);
            assert(chain_text(nums@) == dec_str(lit0));
            let k = choose|k: int|
                0 <= k < res.items@.len() && (#[trigger] res.items@[k]).value == lit0
                    && res.items@[k].expr.prog@ == dec_str(lit0) && res.items@[k].expr.tex@
                    == dec_str(lit0);
            assert(k == 0);
        }
    }
    let ghost lit1 = if nums@.len() == 2 {
        i32_of_u32(nums@[1])
    } else {
        0
    };
    proof {
        assert(cache.items@.subrange(0, cache.items@.len() as int) =~= cache.items@);
        assert forall|v: int, p: Seq<char>, t: Seq<char>|
            #[trigger] res.has(v, p, t) <==> core_upto(nums@, 1, v, p, t) by {
            if res.has(v, p, t) {
                let kk = choose|kk: int|
                    0 <= kk < res.items@.len() && (#[trigger] res.items@[kk]).value == v
                        && res.items@[kk].expr.prog@ == p && res.items@[kk].expr.tex@ == t;
                assert(nums@.len() == 1 && kk == 0);
            }
            if core_upto(nums@, 1, v, p, t) {
                assert(nums@.len() == 1 && v == lit0 && p == dec_str(lit0) && t == dec_str(lit0));
            }
        }
    }
    let mut i: usize = 1;
    while i < n
        invariant
            1 <= i,
            n >= 2 ==> i <= n,
            res.wf(),
            res.sound_for(ms),
            cache.wf(),
            old(cache).items@.len() <= cache.items@.len(),
            cache.items@.subrange(0, old(cache).items@.len() as int) == old(cache).items@,
            forall|ci: int|
                old(cache).items@.len() <= ci < cache.items@.len()
                    ==> (#[trigger] cache.items@[ci]).key@.len() < n,
            nums@.len() == 1 ==> res.items@.len() == 1 && res.items@[0].value == lit0
                && res.items@[0].expr.prog@ == dec_str(lit0) && res.items@[0].expr.tex@
                == dec_str(lit0),
            nums@.len() == 1 ==> res.has(lit0, dec_str(lit0), dec_str(lit0)),
            chain_case && i >= n ==> res.has(
                chain_sum(nums@),
                chain_text(nums@),
                chain_text(nums@),
            ),
            nums@.len() == 2 && i >= n ==> pair_rows_present(
                res,
                lit0,
                dec_str(lit0),
                dec_str(lit0),
                lit1,
                dec_str(lit1),
                dec_str(lit1),
            ),
            forall|v: int, p: Seq<char>, t: Seq<char>|
                #[trigger] res.has(v, p, t) <==> core_upto(nums@, i as int, v, p, t),
        decreases n - i,
    {
        let left = slice_subrange(nums, 0, i);
        let right = slice_subrange(nums, i, n);
        let ghost c0 = cache.items@;
        let lrm = solve(left, cache);
        let ghost c1 = cache.items@;
        proof {
            lemma_prefix_trans(old(cache).items@, c0, c1);
            assert forall|ci: int|
                old(cache).items@.len() <= ci < c1.len() implies (#[trigger] c1[ci]).key@.len()
                < n by {
                if ci < c0.len() {
                    assert(c1.subrange(0, c0.len() as int)[ci] == c1[ci]);
                }
            }
        }
        let rrm = solve(right, cache);
        proof {
            lemma_prefix_trans(old(cache).items@, c1, cache.items@);
            assert forall|ci: int|
                old(cache).items@.len() <= ci < cache.items@.len() implies (#[trigger] cache.items@[ci]).key@.len()
                < n by {
                if ci < c1.len() {
                    assert(cache.items@.subrange(0, c1.len() as int)[ci] == cache.items@[ci]);
                }
            }
        }
        let ghost lms = left@.to_multiset();
        let ghost rms = right@.to_multiset();
        let ghost last_split = i + 1 == n && chain_case;
        let ghost pair_here = nums@.len() == 2;
        proof {
            assert(nums@ =~= left@ + right@);
            vstd::seq_lib::lemma_multiset_commutative(left@, right@);
            assert(ms == lms.add(rms));
            if last_split {
                assert(left@ =~= nums@.drop_last());
                assert(chain_ok(left@));
                assert(right@.len() == 1 && right@[0] == nums@.last());
                assert(lrm.has(chain_sum(left@), chain_text(left@), chain_text(left@)));
                assert(rrm.has(
                    i32_of_u32(right@[0]),
                    dec_str(i32_of_u32(right@[0])),
                    dec_str(i32_of_u32(right@[0])),
                ));
            }
            if pair_here {
                assert(left@.len() == 1 && left@[0] == nums@[0]);
                assert(right@.len() == 1 && right@[0] == nums@[1]);
                assert(lrm.has(lit0, dec_str(lit0), dec_str(lit0)));
                assert(rrm.has(lit1, dec_str(lit1), dec_str(lit1)));
            }
        }
        let ghost jl: int = if last_split {
            choose|k: int|
                0 <= k < lrm.items@.len() && (#[trigger] lrm.items@[k]).value == chain_sum(left@)
                    && lrm.items@[k].expr.prog@ == chain_text(left@)
                    && lrm.items@[k].expr.tex@ == chain_text(left@)
        } else {
            0
        };
        let ghost kr: int = if last_split {
            choose|k: int|
                0 <= k < rrm.items@.len() && (#[trigger] rrm.items@[k]).value == i32_of_u32(
                    right@[0],
                ) && rrm.items@[k].expr.prog@ == dec_str(i32_of_u32(right@[0]))
                    && rrm.items@[k].expr.tex@ == dec_str(i32_of_u32(right@[0]))
        } else {
            0
        };
        let ghost pjl: int = if pair_here {
            choose|k: int|
                0 <= k < lrm.items@.len() && (#[trigger] lrm.items@[k]).value == lit0
                    && lrm.items@[k].expr.prog@ == dec_str(lit0) && lrm.items@[k].expr.tex@
                    == dec_str(lit0)
        } else {
            0
        };
        let ghost pkr: int = if pair_here {
            choose|k: int|
                0 <= k < rrm.items@.len() && (#[trigger] rrm.items@[k]).value == lit1
                    && rrm.items@[k].expr.prog@ == dec_str(lit1) && rrm.items@[k].expr.tex@
                    == dec_str(lit1)
        } else {
            0
        };
        proof {
            if last_split {
                assert(0 <= jl < lrm.items@.len());
                assert(0 <= kr < rrm.items@.len());
            }
            if pair_here {
                assert(0 <= pjl < lrm.items@.len());
                assert(0 <= pkr < rrm.items@.len());
            }
        }
        let mut j: usize = 0;
        while j < lrm.items.len()
            invariant
                j <= lrm.items@.len(),
                res.wf(),
                res.sound_for(ms),
                nums@.len() == 1 ==> res.has(lit0, dec_str(lit0), dec_str(lit0)),
                last_split ==> res.has(chain_sum(nums@), chain_text(nums@), chain_text(nums@))
                    || j <= jl,
                pair_here ==> pair_rows_present(
                    res,
                    lit0,
                    dec_str(lit0),
                    dec_str(lit0),
                    lit1,
                    dec_str(lit1),
                    dec_str(lit1),
                ) || j <= pjl,
                forall|v: int, p: Seq<char>, t: Seq<char>|
                    #[trigger] res.has(v, p, t) <==> core_upto(nums@, i as int, v, p, t)
                        || pairs_upto(lrm.items@, rrm.items@, j as int, 0, v, p, t),
            decreases lrm.items@.len() - j,
        {
            let mut k: usize = 0;
            while k < rrm.items.len()
                invariant
                    k <= rrm.items@.len(),
                    res.wf(),
                    res.sound_for(ms),
                    nums@.len() == 1 ==> res.has(lit0, dec_str(lit0), dec_str(lit0)),
                    last_split ==> res.has(chain_sum(nums@), chain_text(nums@), chain_text(nums@))
                        || j < jl || (j == jl && k <= kr),
                    pair_here ==> pair_rows_present(
                        res,
                        lit0,
                        dec_str(lit0),
                        dec_str(lit0),
                        lit1,
                        dec_str(lit1),
                        dec_str(lit1),
                    ) || j < pjl || (j == pjl && k <= pkr),
                    forall|v: int, p: Seq<char>, t: Seq<char>|
                        #[trigger] res.has(v, p, t) <==> core_upto(nums@, i as int, v, p, t)
                            || pairs_upto(lrm.items@, rrm.items@, j as int, k as int, v, p, t),
                decreases rrm.items@.len() - k,
            {
                let ghost res_pre = res;
                combine(
                    &mut res,
                    lrm.items[j].value,
                    &lrm.items[j].expr,
                    rrm.items[k].value,
                    &rrm.items[k].expr,
                    Ghost(ms),
                    Ghost(lms),
                    Ghost(rms),
                );
                proof {
                    let la = lrm.items@[j as int];
                    let ra = rrm.items@[k as int];
                    assert forall|v: int, p: Seq<char>, t: Seq<char>|
                        #[trigger] res.has(v, p, t) <==> core_upto(nums@, i as int, v, p, t)
                            || pairs_upto(
                            lrm.items@,
                            rrm.items@,
                            j as int,
                            k as int + 1,
                            v,
                            p,
                            t,
                        ) by {
                        if res.has(v, p, t) {
                            if res_pre.has(v, p, t) {
                                if pairs_upto(lrm.items@, rrm.items@, j as int, k as int, v, p, t) {
                                    let (x, y) = choose|x: int, y: int|
                                        #![trigger lrm.items@[x], rrm.items@[y]]
                                        0 <= x < lrm.items@.len() && 0 <= y < rrm.items@.len() && (
                                        x < j as int || (x == j as int && y < k as int))
                                            && binary_row(
                                            v,
                                            p,
                                            t,
                                            lrm.items@[x].value as int,
                                            lrm.items@[x].expr.prog@,
                                            lrm.items@[x].expr.tex@,
                                            rrm.items@[y].value as int,
                                            rrm.items@[y].expr.prog@,
                                            rrm.items@[y].expr.tex@,
                                        );
                                    assert(pairs_upto(
                                        lrm.items@,
                                        rrm.items@,
                                        j as int,
                                        k as int + 1,
                                        v,
                                        p,
                                        t,
                                    ));
                                }
                            } else {
                                assert(binary_row(
                                    v,
                                    p,
                                    t,
                                    la.value as int,
                                    la.expr.prog@,
                                    la.expr.tex@,
                                    ra.value as int,
                                    ra.expr.prog@,
                                    ra.expr.tex@,
                                ));
                                assert(pairs_upto(
                                    lrm.items@,
                                    rrm.items@,
                                    j as int,
                                    k as int + 1,
                                    v,
                                    p,
                                    t,
                                ));
                            }
                        }
                        if pairs_upto(lrm.items@, rrm.items@, j as int, k as int + 1, v, p, t) {
                            let (x, y) = choose|x: int, y: int|
                                #![trigger lrm.items@[x], rrm.items@[y]]
                                0 <= x < lrm.items@.len() && 0 <= y < rrm.items@.len() && (x
                                    < j as int || (x == j as int && y < k as int + 1))
                                    && binary_row(
                                    v,
                                    p,
                                    t,
                                    lrm.items@[x].value as int,
                                    lrm.items@[x].expr.prog@,
                                    lrm.items@[x].expr.tex@,
                                    rrm.items@[y].value as int,
                                    rrm.items@[y].expr.prog@,
                                    rrm.items@[y].expr.tex@,
                                );
                            if x < j as int || (x == j as int && y < k as int) {
                                assert(pairs_upto(
                                    lrm.items@,
                                    rrm.items@,
                                    j as int,
                                    k as int,
                                    v,
                                    p,
                                    t,
                                ));
                                assert(res_pre.has(v, p, t));
                            } else {
                                assert(x == j as int && y == k as int);
                                assert(res.has(v, p, t));
                            }
                        }
                        if core_upto(nums@, i as int, v, p, t) {
                            assert(res_pre.has(v, p, t));
                        }
                    }
                    if last_split && j == jl && k == kr {
                        assert(chain_sum(nums@) == chain_sum(left@) + i32_of_u32(nums@.last()));
                        assert(in_i32(chain_sum(nums@)));
                        assert(chain_text(nums@) == "("@ + chain_text(left@) + " + "@ + dec_str(
                            i32_of_u32(nums@.last()),
                        ) + ")"@);
                        assert(res.has(chain_sum(nums@), chain_text(nums@), chain_text(nums@)));
                    }
                    if pair_here && j == pjl && k == pkr {
                        assert(pair_rows_present(
                            res,
                            lit0,
                            dec_str(lit0),
                            dec_str(lit0),
                            lit1,
                            dec_str(lit1),
                            dec_str(lit1),
                        ));
                    }
                }
                k = k + 1;
            }
            proof {
                assert forall|v: int, p: Seq<char>, t: Seq<char>|
                    #[trigger] res.has(v, p, t) <==> core_upto(nums@, i as int, v, p, t)
                        || pairs_upto(lrm.items@, rrm.items@, j as int + 1, 0, v, p, t) by {
                    if pairs_upto(
                        lrm.items@,
                        rrm.items@,
                        j as int,
                        rrm.items@.len() as int,
                        v,
                        p,
                        t,
                    ) {
                        let (x, y) = choose|x: int, y: int|
                            #![trigger lrm.items@[x], rrm.items@[y]]
                            0 <= x < lrm.items@.len() && 0 <= y < rrm.items@.len() && (x < j as int
                                || (x == j as int && y < rrm.items@.len() as int)) && binary_row(
                                v,
                                p,
                                t,
                                lrm.items@[x].value as int,
                                lrm.items@[x].expr.prog@,
                                lrm.items@[x].expr.tex@,
                                rrm.items@[y].value as int,
                                rrm.items@[y].expr.prog@,
                                rrm.items@[y].expr.tex@,
                            );
                        assert(pairs_upto(lrm.items@, rrm.items@, j as int + 1, 0, v, p, t));
                    }
                    if pairs_upto(lrm.items@, rrm.items@, j as int + 1, 0, v, p, t) {
                        let (x, y) = choose|x: int, y: int|
                            #![trigger lrm.items@[x], rrm.items@[y]]
                            0 <= x < lrm.items@.len() && 0 <= y < rrm.items@.len() && (x < j as int
                                + 1 || (x == j as int + 1 && y < 0)) && binary_row(
                                v,
                                p,
                                t,
                                lrm.items@[x].value as int,
                                lrm.items@[x].expr.prog@,
                                lrm.items@[x].expr.tex@,
                                rrm.items@[y].value as int,
                                rrm.items@[y].expr.prog@,
                                rrm.items@[y].expr.tex@,
                            );
                        assert(pairs_upto(
                            lrm.items@,
                            rrm.items@,
                            j as int,
                            rrm.items@.len() as int,
                            v,
                            p,
                            t,
                        ));
                    }
                }
            }
            j = j + 1;
        }
        proof {
            assert forall|v: int, p: Seq<char>, t: Seq<char>|
                #[trigger] res.has(v, p, t) <==> core_upto(nums@, i as int + 1, v, p, t) by {
                if res.has(v, p, t) {
                    if pairs_upto(
                        lrm.items@,
                        rrm.items@,
                        lrm.items@.len() as int,
                        0,
                        v,
                        p,
                        t,
                    ) {
                        let (x, y) = choose|x: int, y: int|
                            #![trigger lrm.items@[x], rrm.items@[y]]
                            0 <= x < lrm.items@.len() && 0 <= y < rrm.items@.len() && (x
                                < lrm.items@.len() as int || (x == lrm.items@.len() as int && y
                                < 0)) && binary_row(
                                v,
                                p,
                                t,
                                lrm.items@[x].value as int,
                                lrm.items@[x].expr.prog@,
                                lrm.items@[x].expr.tex@,
                                rrm.items@[y].value as int,
                                rrm.items@[y].expr.prog@,
                                rrm.items@[y].expr.tex@,
                            );
                        assert(lrm.has(
                            lrm.items@[x].value as int,
                            lrm.items@[x].expr.prog@,
                            lrm.items@[x].expr.tex@,
                        ));
                        assert(rrm.has(
                            rrm.items@[y].value as int,
                            rrm.items@[y].expr.prog@,
                            rrm.items@[y].expr.tex@,
                        ));
                        assert(derived_entry(
                            nums@.subrange(0, i as int),
                            lrm.items@[x].value as int,
                            lrm.items@[x].expr.prog@,
                            lrm.items@[x].expr.tex@,
                        ));
                        assert(derived_entry(
                            nums@.subrange(i as int, nums@.len() as int),
                            rrm.items@[y].value as int,
                            rrm.items@[y].expr.prog@,
                            rrm.items@[y].expr.tex@,
                        ));
                        assert(core_upto(nums@, i as int + 1, v, p, t));
                    } else {
                        assert(core_upto(nums@, i as int, v, p, t));
                        if !(nums@.len() == 1 && v == lit0 && p == dec_str(lit0) && t == dec_str(
                            lit0,
                        )) {
                            let (si, v1, p1, t1, v2, p2, t2) = choose|
                                si: int,
                                v1: int,
                                p1: Seq<char>,
                                t1: Seq<char>,
                                v2: int,
                                p2: Seq<char>,
                                t2: Seq<char>,
                            |
                                #![trigger nums@.subrange(0, si), binary_row(v, p, t, v1, p1, t1, v2, p2, t2)]
                                1 <= si < i as int && si < nums@.len() && derived_entry(
                                    nums@.subrange(0, si),
                                    v1,
                                    p1,
                                    t1,
                                ) && derived_entry(
                                    nums@.subrange(si, nums@.len() as int),
                                    v2,
                                    p2,
                                    t2,
                                ) && binary_row(v, p, t, v1, p1, t1, v2, p2, t2);
                            assert(core_upto(nums@, i as int + 1, v, p, t));
                        }
                    }
                }
                if core_upto(nums@, i as int + 1, v, p, t) {
                    if !(nums@.len() == 1 && v == lit0 && p == dec_str(lit0) && t == dec_str(
                        lit0,
                    )) {
                        let (si, v1, p1, t1, v2, p2, t2) = choose|
                            si: int,
                            v1: int,
                            p1: Seq<char>,
                            t1: Seq<char>,
                            v2: int,
                            p2: Seq<char>,
                            t2: Seq<char>,
                        |
                            #![trigger nums@.subrange(0, si), binary_row(v, p, t, v1, p1, t1, v2, p2, t2)]
                            1 <= si < i as int + 1 && si < nums@.len() && derived_entry(
                                nums@.subrange(0, si),
                                v1,
                                p1,
                                t1,
                            ) && derived_entry(
                                nums@.subrange(si, nums@.len() as int),
                                v2,
                                p2,
                                t2,
                            ) && binary_row(v, p, t, v1, p1, t1, v2, p2, t2);
                        if si < i as int {
                            assert(core_upto(nums@, i as int, v, p, t));
                        } else {
                            assert(si == i as int);
                            assert(lrm.has(v1, p1, t1));
                            let x = choose|x: int|
                                0 <= x < lrm.items@.len() && (#[trigger] lrm.items@[x]).value == v1
                                    && lrm.items@[x].expr.prog@ == p1 && lrm.items@[x].expr.tex@
                                    == t1;
                            assert(rrm.has(v2, p2, t2));
                            let y = choose|y: int|
                                0 <= y < rrm.items@.len() && (#[trigger] rrm.items@[y]).value == v2
                                    && rrm.items@[y].expr.prog@ == p2 && rrm.items@[y].expr.tex@
                                    == t2;
                            assert(pairs_upto(
                                lrm.items@,
                                rrm.items@,
                                lrm.items@.len() as int,
                                0,
                                v,
                                p,
                                t,
                            ));
                        }
                    }
                }
            }
        }
        i = i + 1;
    }
    let n0 = res.items.len();
    let ghost base_items = res.items@;
    proof {
        assert(res.items@.subrange(0, n0 as int) =~= base_items);
        assert forall|v: int, p: Seq<char>, t: Seq<char>|
            #[trigger] has_in(base_items, v, p, t) <==> core_entry(nums@, v, p, t) by {
            lemma_has_in(res, v, p, t);
            if nums@.len() == 0 {
                assert(!core_upto(nums@, 1, v, p, t));
                assert(!core_upto(nums@, 0, v, p, t));
            }
        }
    }
    let mut j: usize = 0;
    while j < n0
        invariant
            j <= n0,
            n0 <= res.items@.len(),
            res.wf(),
            res.sound_for(ms),
            res.items@.subrange(0, n0 as int) == base_items,
            nums@.len() == 1 ==> res.items@.len() >= 1 && res.items@[0].value == lit0
                && res.items@[0].expr.prog@ == dec_str(lit0) && res.items@[0].expr.tex@
                == dec_str(lit0),
            nums@.len() == 1 ==> res.has(lit0, dec_str(lit0), dec_str(lit0)),
            chain_case ==> res.has(chain_sum(nums@), chain_text(nums@), chain_text(nums@)),
            nums@.len() == 1 && j >= 1 ==> unary_rows_present(
                res,
                lit0,
                dec_str(lit0),
                dec_str(lit0),
            ),
            nums@.len() == 2 ==> pair_rows_present(
                res,
                lit0,
                dec_str(lit0),
                dec_str(lit0),
                lit1,
                dec_str(lit1),
                dec_str(lit1),
            ),
            forall|v: int, p: Seq<char>, t: Seq<char>|
                #[trigger] res.has(v, p, t) <==> core_entry(nums@, v, p, t) || unary_upto(
                    base_items,
                    j as int,
                    v,
                    p,
                    t,
                ),
        decreases n0 - j,
    {
        let v = res.items[j].value;
        let prog_j = res.items[j].expr.prog.clone();
        let tex_j = res.items[j].expr.tex.clone();
        proof {
            assert(res.items@.subrange(0, n0 as int)[j as int] == res.items@[j as int]);
            assert(base_items[j as int] == res.items@[j as int]);
            assert(describes(ms, v as int, prog_j@, tex_j@));
        }
        let ghost fx = choose|f: Form|
            eval(f) == Some(v as int) && leaves(f) == ms && prog_of(f) == prog_j@ && tex_of(f)
                == tex_j@;
        let ghost res_pre = res;
        let fact_res = checked_factorial(v);
        let sqrt_res = exact_sqrt(v);
        proof {
            match sqrt_res {
                Some(sv) => {
                    crate::model::lemma_sqrt_unique(sqrt_of(v as int), sv as int);
                },
                None => {},
            }
        }
        if let Some(fv) = fact_res {
            if fv != v {
                let dig = is_all_digits(&prog_j);
                let prog = wrap1("fact{", prog_j.as_str(), "}");
                let tex = if dig {
                    wrap1("", tex_j.as_str(), "!")
                } else {
                    wrap1("(", tex_j.as_str(), ")!")
                };
                proof {
                    reveal_strlit("");
                    let w = Form::Fact { x: Box::new(fx) };
                    assert(eval(w) == Some(fv as int));
                    assert(tex_of(w) =~= tex@);
                    assert(unary_row(fv as int, prog@, tex@, v as int, prog_j@, tex_j@));
                }
                res.insert(fv, prog, tex, Ghost(ms), Ghost(Form::Fact { x: Box::new(fx) }));
            }
        }
        if let Some(sv) = sqrt_res {
            if sv != v {
                let prog = wrap1("sqrt{", prog_j.as_str(), "}");
                let tex = wrap1("\\sqrt{", tex_j.as_str(), "}");
                proof {
                    let w = Form::Root { x: Box::new(fx) };
                    assert(eval(w) == Some(sv as int));
                    assert(unary_row(sv as int, prog@, tex@, v as int, prog_j@, tex_j@));
                }
                res.insert(sv, prog, tex, Ghost(ms), Ghost(Form::Root { x: Box::new(fx) }));
            }
        }
        proof {
            if nums@.len() == 1 && j == 0 {
                assert(v as int == lit0 && prog_j@ == dec_str(lit0) && tex_j@ == dec_str(lit0));
                assert(unary_rows_present(res, lit0, dec_str(lit0), dec_str(lit0)));
            }
            assert forall|v2: int, p2: Seq<char>, t2: Seq<char>|
                #[trigger] res.has(v2, p2, t2) <==> core_entry(nums@, v2, p2, t2) || unary_upto(
                    base_items,
                    j as int + 1,
                    v2,
                    p2,
                    t2,
                ) by {
                if res.has(v2, p2, t2) {
                    if res_pre.has(v2, p2, t2) {
                        if unary_upto(base_items, j as int, v2, p2, t2) {
                            let x = choose|x: int|
                                0 <= x < j as int && x < base_items.len() && unary_row(
                                    v2,
                                    p2,
                                    t2,
                                    (#[trigger] base_items[x]).value as int,
                                    base_items[x].expr.prog@,
                                    base_items[x].expr.tex@,
                                );
                            assert(unary_upto(base_items, j as int + 1, v2, p2, t2));
                        }
                    } else {
                        assert(unary_row(v2, p2, t2, v as int, prog_j@, tex_j@));
                        assert(unary_upto(base_items, j as int + 1, v2, p2, t2));
                    }
                }
                if unary_upto(base_items, j as int + 1, v2, p2, t2) {
                    let x = choose|x: int|
                        0 <= x < j as int + 1 && x < base_items.len() && unary_row(
                            v2,
                            p2,
                            t2,
                            (#[trigger] base_items[x]).value as int,
                            base_items[x].expr.prog@,
                            base_items[x].expr.tex@,
                        );
                    if x < j as int {
                        assert(unary_upto(base_items, j as int, v2, p2, t2));
                        assert(res_pre.has(v2, p2, t2));
                    } else {
                        assert(x == j as int);
                        assert(res.has(v2, p2, t2));
                    }
                }
                if core_entry(nums@, v2, p2, t2) {
                    assert(res_pre.has(v2, p2, t2));
                }
            }
        }
        j = j + 1;
    }
    proof {
        assert forall|v: int, p: Seq<char>, t: Seq<char>|
            #[trigger] res.has(v, p, t) <==> derived_entry(nums@, v, p, t) by {
            if res.has(v, p, t) {
                if unary_upto(base_items, n0 as int, v, p, t) {
                    let x = choose|x: int|
                        0 <= x < n0 as int && x < base_items.len() && unary_row(
                            v,
                            p,
                            t,
                            (#[trigger] base_items[x]).value as int,
                            base_items[x].expr.prog@,
                            base_items[x].expr.tex@,
                        );
                    assert(has_in(
                        base_items,
                        base_items[x].value as int,
                        base_items[x].expr.prog@,
                        base_items[x].expr.tex@,
                    ));
                    assert(core_entry(
                        nums@,
                        base_items[x].value as int,
                        base_items[x].expr.prog@,
                        base_items[x].expr.tex@,
                    ));
                    lemma_derived_intro(
                        nums@,
                        v,
                        p,
                        t,
                        base_items[x].value as int,
                        base_items[x].expr.prog@,
                        base_items[x].expr.tex@,
                    );
                }
            }
            if derived_entry(nums@, v, p, t) && !core_entry(nums@, v, p, t) {
                lemma_derived_cases(nums@, v, p, t);
                let (v0, p0, t0) = choose|v0: int, p0: Seq<char>, t0: Seq<char>|
                    core_entry(nums@, v0, p0, t0) && #[trigger] unary_row(v, p, t, v0, p0, t0);
                assert(core_entry(nums@, v0, p0, t0) && unary_row(v, p, t, v0, p0, t0));
                assert(has_in(base_items, v0, p0, t0));
                let x = choose|x: int|
                    0 <= x < base_items.len() && (#[trigger] base_items[x]).value == v0
                        && base_items[x].expr.prog@ == p0 && base_items[x].expr.tex@ == t0;
                assert(unary_upto(base_items, n0 as int, v, p, t));
            }
        }
    }
    let key = slice_to_vec(nums);
    let stored = res.clone();
    proof {
        lemma_same_map(res, stored, nums@);
    }
    let ghost cs = cache.items@;
    proof {
        assert forall|ci: int| 0 <= ci < cs.len() implies (#[trigger] cs[ci]).key@ != nums@ by {
            if ci < old(cache).items@.len() {
                assert(cs.subrange(0, old(cache).items@.len() as int)[ci] == cs[ci]);
                assert(old(cache).items@[ci].key@ != nums@);
            }
        }
    }
    cache.store(key, stored);
    proof {
        lemma_prefix_trans(old(cache).items@, cs, cache.items@);
        assert(cache.items@[cache.items@.len() - 1].key@ == nums@);
        assert forall|ci: int|
            old(cache).items@.len() <= ci < cache.items@.len() implies (#[trigger] cache.items@[ci]).key@.len()
            <= nums@.len() by {
            if ci < cs.len() {
                assert(cache.items@.subrange(0, cs.len() as int)[ci] == cache.items@[ci]);
                assert(cs[ci].key@.len() < nums@.len());
            } else {
                assert(cache.items@[ci].key@ == nums@);
            }
        }
    }
    res
}

} // verus!
