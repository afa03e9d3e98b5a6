//! Verified string building: decimal rendering of a value and the
//! concatenation templates the operators use for their program and LaTeX
//! forms.
use crate::model::{all_digits, dec_nat, dec_str, digit_char, is_digit_char};
use vstd::prelude::*;
use vstd::string::StrSliceExecFns;
use vstd::string::StringExecFns;

verus! {

/// One decimal digit as a string slice.
fn digit_str(d: u32) -> (r: &'static str)
    requires
        d < 10,
    ensures
        r@ == seq![digit_char(d as int)],
{
    if d == 0 {
        proof {
            reveal_strlit("0");
            assert("0"@ =~= seq![digit_char(0)]);
        }
        "0"
    } else if d == 1 {
        proof {
            reveal_strlit("1");
            assert("1"@ =~= seq![digit_char(1)]);
        }
        "1"
    } else if d == 2 {
        proof {
            reveal_strlit("2");
            assert("2"@ =~= seq![digit_char(2)]);
        }
        "2"
    } else if d == 3 {
        proof {
            reveal_strlit("3");
            assert("3"@ =~= seq![digit_char(3)]);
        }
        "3"
    } else if d == 4 {
        proof {
            reveal_strlit("4");
            assert("4"@ =~= seq![digit_char(4)]);
        }
        "4"
    } else if d == 5 {
        proof {
            reveal_strlit("5");
            assert("5"@ =~= seq![digit_char(5)]);
        }
        "5"
    } else if d == 6 {
        proof {
            reveal_strlit("6");
            assert("6"@ =~= seq![digit_char(6)]);
        }
        "6"
    } else if d == 7 {
        proof {
            reveal_strlit("7");
            assert("7"@ =~= seq![digit_char(7)]);
        }
        "7"
    } else if d == 8 {
        proof {
            reveal_strlit("8");
            assert("8"@ =~= seq![digit_char(8)]);
        }
        "8"
    } else {
        proof {
            reveal_strlit("9");
            assert("9"@ =~= seq![digit_char(9)]);
        }
        "9"
    }
}

/// The digit characters of `r` read back to front.
pub open spec fn rev_digits(r: Seq<u32>) -> Seq<char> {
    Seq::new(r.len(), |i: int| digit_char(r[r.len() - 1 - i] as int))
}

/// Decimal rendering of a value, matching `dec_str`.
pub fn i32_to_string(v: i32) -> (r: String)
    ensures
        r@ == dec_str(v as int),
{
    let neg = v < 0;
    let mag64: i64 = if v < 0 {
        -(v as i64)
    } else {
        v as i64
    };
    let mut n: u32 = mag64 as u32;
    let ghost m0 = n as int;
    let mut rev: Vec<u32> = Vec::new();
    if n == 0 {
        rev.push(0);
        proof {
            assert(rev_digits(rev@) =~= seq![digit_char(0)]);
        }
    } else {
        while n > 0
            invariant
                0 <= n,
                forall|j: int| 0 <= j < rev@.len() ==> rev@[j] < 10,
                n > 0 ==> dec_nat(m0) == dec_nat(n as int) + rev_digits(rev@),
                n == 0 ==> dec_nat(m0) == rev_digits(rev@),
            decreases n,
        {
            let d = n % 10;
            let ghost old_rev = rev@;
            let ghost old_n = n as int;
            rev.push(d);
            n = n / 10;
            proof {
                assert(rev_digits(old_rev.push(d)) =~= seq![digit_char(d as int)] + rev_digits(
                    old_rev,
                ));
                if old_n < 10 {
                    assert(dec_nat(old_n) == seq![digit_char(old_n)]);
                    assert(dec_nat(m0) =~= rev_digits(rev@));
                } else {
                    assert(dec_nat(old_n) == dec_nat(old_n / 10).push(digit_char(old_n % 10)));
                    assert(dec_nat(old_n) =~= dec_nat(old_n / 10) + seq![digit_char(old_n % 10)]);
                    assert(dec_nat(m0) =~= dec_nat(n as int) + rev_digits(rev@));
                }
            }
        }
    }
    let mut out = String::new();
    if neg {
        out.append("-");
    }
    let ghost sign = if neg {
        seq!['-']
    } else {
        Seq::<char>::empty()
    };
    proof {
        reveal_strlit("-");
        assert(out@ =~= sign + rev_digits(rev@).subrange(0, 0));
    }
    let mut k: usize = 0;
    while k < rev.len()
        invariant
            k <= rev.len(),
            forall|j: int| 0 <= j < rev@.len() ==> rev@[j] < 10,
            out@ == sign + rev_digits(rev@).subrange(0, k as int),
        decreases rev.len() - k,
    {
        let d = rev[rev.len() - 1 - k];
        out.append(digit_str(d));
        proof {
            assert(rev_digits(rev@).subrange(0, k + 1) =~= rev_digits(rev@).subrange(0, k as int)
                + seq![digit_char(d as int)]);
            assert(out@ =~= sign + rev_digits(rev@).subrange(0, k + 1));
        }
        k = k + 1;
    }
    proof {
        assert(rev_digits(rev@).subrange(0, rev@.len() as int) =~= rev_digits(rev@));
        if neg {
            assert(out@ =~= dec_str(v as int));
        } else {
            assert(out@ =~= dec_str(v as int));
        }
    }
    out
}

/// Concatenation of five pieces, the binary operator template.
pub fn wrap5(pre: &str, a: &str, mid: &str, b: &str, post: &str) -> (r: String)
    ensures
        r@ == pre@ + a@ + mid@ + b@ + post@,
{
    let mut s = String::new();
    s.append(pre);
    s.append(a);
    s.append(mid);
    s.append(b);
    s.append(post);
    proof {
        assert(s@ =~= pre@ + a@ + mid@ + b@ + post@);
    }
    s
}

/// Concatenation of three pieces, the unary operator template.
pub fn wrap1(pre: &str, x: &str, post: &str) -> (r: String)
    ensures
        r@ == pre@ + x@ + post@,
{
    let mut s = String::new();
    s.append(pre);
    s.append(x);
    s.append(post);
    proof {
        assert(s@ =~= pre@ + x@ + post@);
    }
    s
}

/// Whether every character of `s` is a decimal digit.
pub fn is_all_digits(s: &String) -> (r: bool)
    ensures
        r == all_digits(s@),
{
    let st = s.as_str();
    let n = st.unicode_len();
    let mut i: usize = 0;
    while i < n
        invariant
            i <= n,
            n == s@.len(),
            st@ == s@,
            forall|j: int| 0 <= j < i ==> is_digit_char(#[trigger] s@[j]),
        decreases n - i,
    {
        let c = st.get_char(i);
        let cc = c as u32;
        if cc < 48 || cc > 57 {
            proof {
                assert(!is_digit_char(s@[i as int]));
            }
            return false;
        }
        i = i + 1;
    }
    true
}

} // verus!
