//! The value-to-expressions map a solve produces: a list of (value,
//! expression) entries, deduplicated on the full (value, program, display)
//! triple, each entry carrying a proof that some expression over the
//! sequence's numbers reaches its value.
use crate::model::{describes, eval, leaves, prog_of, tex_of, Form};
use crate::Expression;
use vstd::multiset::Multiset;
use vstd::prelude::*;

verus! {

/// One achieved value together with one expression reaching it.
pub struct Triple {
    pub value: i32,
    pub expr: Expression,
}

impl Clone for Triple {
    fn clone(&self) -> (r: Self)
        ensures
            r == *self,
    {
        Triple { value: self.value, expr: self.expr.clone() }
    }
}

/// The result map for one ordered sequence of numbers.
pub struct ResultMap {
    pub items: Vec<Triple>,
}

impl ResultMap {
    /// The map holds the pair (`prog`, `tex`) at value `v`.
    pub open spec fn has(self, v: int, prog: Seq<char>, tex: Seq<char>) -> bool {
        exists|i: int|
            0 <= i < self.items@.len() && (#[trigger] self.items@[i]).value == v
                && self.items@[i].expr.prog@ == prog && self.items@[i].expr.tex@ == tex
    }

    /// No two entries carry the same value and the same two renderings.
    pub open spec fn wf(self) -> bool {
        forall|i: int, j: int|
            0 <= i < j < self.items@.len() ==> !((#[trigger] self.items@[i]).value
                == (#[trigger] self.items@[j]).value && self.items@[i].expr.prog@
                == self.items@[j].expr.prog@ && self.items@[i].expr.tex@
                == self.items@[j].expr.tex@)
    }

    /// Every entry is reached by some expression over the numbers of `ms`.
    pub open spec fn sound_for(self, ms: Multiset<u32>) -> bool {
        forall|i: int|
            0 <= i < self.items@.len() ==> describes(
                ms,
                (#[trigger] self.items@[i]).value as int,
                self.items@[i].expr.prog@,
                self.items@[i].expr.tex@,
            )
    }

    pub fn new() -> (r: ResultMap)
        ensures
            r.wf(),
            r.items@.len() == 0,
    {
        ResultMap { items: Vec::new() }
    }

    /// Insert one candidate, unless the identical (value, program, display)
    /// triple is already present; `w` witnesses that the candidate is a
    /// genuine expression over the numbers of `ms`.
    #[verifier::loop_isolation(false)]
    pub fn insert(
        &mut self,
        value: i32,
        prog: String,
        tex: String,
        Ghost(ms): Ghost<Multiset<u32>>,
        Ghost(w): Ghost<Form>,
    )
        requires
            old(self).wf(),
            old(self).sound_for(ms),
            eval(w) == Some(value as int),
            leaves(w) == ms,
            prog_of(w) == prog@,
            tex_of(w) == tex@,
        ensures
            final(self).wf(),
            final(self).sound_for(ms),
            final(self).has(value as int, prog@, tex@),
            forall|v: int, p: Seq<char>, t: Seq<char>|
                #[trigger] final(self).has(v, p, t) <==> old(self).has(v, p, t) || (v
                    == value as int && p == prog@ && t == tex@),
            old(self).items@.len() <= final(self).items@.len() <= old(self).items@.len() + 1,
            final(self).items@.subrange(0, old(self).items@.len() as int) == old(self).items@,
    {
        let n = self.items.len();
        let mut i: usize = 0;
        while i < n
            invariant
                i <= n,
                n == self.items@.len(),
                self.items@ == old(self).items@,
                forall|j: int|
                    0 <= j < i ==> !((#[trigger] self.items@[j]).value == value
                        && self.items@[j].expr.prog@ == prog@ && self.items@[j].expr.tex@
                        == tex@),
            decreases n - i,
        {
            if self.items[i].value == value && self.items[i].expr.prog == prog
                && self.items[i].expr.tex == tex {
                proof {
                    assert(self.items@.subrange(0, self.items@.len() as int) =~= self.items@);
                    assert(old(self).has(value as int, prog@, tex@));
                }
                return ;
            }
            i = i + 1;
        }
        let ghost before = self.items@;
        self.items.push(Triple { value: value, expr: Expression { prog: prog, tex: tex } });
        proof {
            let ni = before.len() as int;
            assert(self.items@.subrange(0, ni) =~= before);
            assert(self.items@[ni].value == value && self.items@[ni].expr.prog@ == prog@
                && self.items@[ni].expr.tex@ == tex@);
            assert(describes(ms, value as int, prog@, tex@)) by {
                assert(eval(w) == Some(value as int) && leaves(w) == ms && prog_of(w) == prog@
                    && tex_of(w) == tex@);
            }
            assert(self.has(value as int, prog@, tex@));
            assert forall|v: int, p: Seq<char>, t: Seq<char>|
                self.has(v, p, t) <==> (old(self).has(v, p, t) || (v == value as int && p
                == prog@ && t == tex@)) by {
                if self.has(v, p, t) {
                    let k = choose|k: int|
                        0 <= k < self.items@.len() && (#[trigger] self.items@[k]).value == v
                            && self.items@[k].expr.prog@ == p && self.items@[k].expr.tex@ == t;
                    if k < ni {
                        assert(old(self).items@[k] == self.items@[k]);
                        assert(old(self).has(v, p, t));
                    }
                }
                if old(self).has(v, p, t) {
                    let k = choose|k: int|
                        0 <= k < old(self).items@.len() && (#[trigger] old(self).items@[k]).value
                            == v && old(self).items@[k].expr.prog@ == p
                            && old(self).items@[k].expr.tex@ == t;
                    assert(self.items@[k] == old(self).items@[k]);
                    assert(self.has(v, p, t));
                }
            }
        }
    }
}

impl Clone for ResultMap {
    fn clone(&self) -> (r: Self)
        ensures
            r.items@ == self.items@,
    {
        let mut items: Vec<Triple> = Vec::new();
        let mut i: usize = 0;
        while i < self.items.len()
            invariant
                i <= self.items@.len(),
                items@.len() == i,
                forall|j: int| 0 <= j < i ==> items@[j] == self.items@[j],
            decreases self.items@.len() - i,
        {
            items.push(self.items[i].clone());
            i = i + 1;
        }
        proof {
            assert(items@ =~= self.items@);
        }
        ResultMap { items }
    }
}

} // verus!
