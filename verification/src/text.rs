//! Small verified helpers on strings and characters.

use vstd::prelude::*;
use vstd::string::StrSliceExecFns;

verus! {

/// Character-for-character equality of two string slices.
pub fn str_eq(a: &str, b: &str) -> (r: bool)
    ensures
        r == (a@ == b@),
{
    let sa: String = a.to_owned();
    let sb: String = b.to_owned();
    sa == sb
}

/// Every character of `s` is a decimal digit.
pub open spec fn all_digits(s: Seq<char>) -> bool {
    forall|i: int| 0 <= i < s.len() ==> 48 <= (#[trigger] s[i]) as u32 <= 57
}

/// The value of a digit string, most significant digit first.
pub open spec fn digits_val(s: Seq<char>) -> int
    decreases s.len(),
{
    if s.len() == 0 {
        0
    } else {
        digits_val(s.drop_last()) * 10 + ((s.last() as u32) - 48)
    }
}

/// The digits of `s` after an optional leading plus sign.
pub open spec fn numeric_body(s: Seq<char>) -> Seq<char> {
    if s.len() > 0 && s[0] == '+' {
        s.drop_first()
    } else {
        s
    }
}

/// `s` parses as an unsigned decimal integer no larger than `bound`:
/// an optional plus sign, then one or more digits, with no overflow.
pub open spec fn is_uint_string(s: Seq<char>, bound: int) -> bool {
    let b = numeric_body(s);
    b.len() > 0 && all_digits(b) && digits_val(b) <= bound
}

proof fn lemma_digits_val_nonneg(s: Seq<char>)
    requires
        all_digits(s),
    ensures
        digits_val(s) >= 0,
    decreases s.len(),
{
    if s.len() > 0 {
        assert(all_digits(s.drop_last())) by {
            assert(forall|i: int| 0 <= i < s.len() - 1 ==> s.drop_last()[i] == s[i]);
        }
        lemma_digits_val_nonneg(s.drop_last());
    }
}

proof fn lemma_digits_val_monotone(s: Seq<char>, j: int)
    requires
        all_digits(s),
        0 <= j <= s.len(),
    ensures
        digits_val(s.take(j)) <= digits_val(s),
    decreases s.len() - j,
{
    if j < s.len() {
        assert(all_digits(s.take(j))) by {
            assert(forall|i: int| 0 <= i < j ==> s.take(j)[i] == s[i]);
        }
        lemma_digits_val_nonneg(s.take(j));
        assert(s.take(j + 1).drop_last() =~= s.take(j));
        assert(s.take(j + 1).last() == s[j]);
        lemma_digits_val_monotone(s, j + 1);
    } else {
        assert(s.take(j) =~= s);
    }
}

/// Parses `s` as an unsigned decimal integer, refusing values above
/// `bound`: an optional plus sign, then one or more digits.
pub fn parse_uint(s: &str, bound: u32) -> (r: Option<u32>)
    ensures
        match r {
            Some(v) => is_uint_string(s@, bound as int) && v == digits_val(numeric_body(s@))
                && v <= bound,
            None => !is_uint_string(s@, bound as int),
        },
{
    let n: usize = s.unicode_len();
    let mut start: usize = 0;
    if n > 0 && s.get_char(0) == '+' {
        start = 1;
    }
    if start >= n {
        return None;
    }
    let ghost b = numeric_body(s@);
    proof {
        assert(b =~= s@.skip(start as int));
    }
    let mut val: u64 = 0;
    let mut i: usize = start;
    while i < n
        invariant
            start <= i <= n,
            n == s@.len(),
            start < n,
            b == numeric_body(s@),
            b =~= s@.skip(start as int),
            all_digits(b.take(i - start)),
            val == digits_val(b.take(i - start)),
            val <= bound,
            bound <= u32::MAX,
        decreases n - i,
    {
        let c = s.get_char(i);
        let cv = c as u32;
        proof {
            assert(b[i - start] == s@[i as int]);
        }
        if cv < 48 || cv > 57 {
            proof {
                assert(!all_digits(b));
            }
            return None;
        }
        let d: u64 = (cv - 48) as u64;
        let nv: u64 = val * 10 + d;
        proof {
            assert(b.take(i - start + 1).drop_last() =~= b.take(i - start));
            assert(b.take(i - start + 1).last() == b[i - start]);
            assert(nv == digits_val(b.take(i - start + 1)));
        }
        if nv > bound as u64 {
            proof {
                if is_uint_string(s@, bound as int) {
                    lemma_digits_val_monotone(b, i - start + 1);
                }
            }
            return None;
        }
        val = nv;
        i += 1;
    }
    proof {
        assert(b.take(n - start) =~= b);
    }
    Some(val as u32)
}

/// `t` begins with `p`.
pub open spec fn seq_starts_with(t: Seq<char>, p: Seq<char>) -> bool {
    t.len() >= p.len() && t.take(p.len() as int) == p
}

/// Whether `t` begins with `p`.
pub fn str_starts_with(t: &str, p: &str) -> (r: bool)
    ensures
        r == seq_starts_with(t@, p@),
{
    let tn: usize = t.unicode_len();
    let pn: usize = p.unicode_len();
    if tn < pn {
        return false;
    }
    let mut i: usize = 0;
    while i < pn
        invariant
            i <= pn,
            pn == p@.len(),
            tn == t@.len(),
            pn <= tn,
            forall|j: int| 0 <= j < i ==> t@[j] == p@[j],
        decreases pn - i,
    {
        if t.get_char(i) != p.get_char(i) {
            proof {
                assert(t@.take(pn as int)[i as int] == t@[i as int]);
            }
            return false;
        }
        i += 1;
    }
    proof {
        assert(t@.take(pn as int) =~= p@);
    }
    true
}

/// The position of the first `/` in `s`, or its length if there is none.
pub open spec fn first_slash(s: Seq<char>) -> int
    decreases s.len(),
{
    if s.len() == 0 {
        0
    } else if s[0] == '/' {
        0
    } else {
        1 + first_slash(s.drop_first())
    }
}

/// What characterizes [`first_slash`]: it is the least position holding
/// a `/`, or the length when no `/` occurs.
pub proof fn lemma_first_slash(s: Seq<char>)
    ensures
        0 <= first_slash(s) <= s.len(),
        first_slash(s) < s.len() ==> s[first_slash(s)] == '/',
        forall|j: int| 0 <= j < first_slash(s) ==> s[j] != '/',
    decreases s.len(),
{
    if s.len() > 0 && s[0] != '/' {
        let t = s.drop_first();
        lemma_first_slash(t);
        assert forall|j: int| 0 <= j < first_slash(s) implies s[j] != '/' by {
            if j >= 1 {
                assert(s[j] == t[j - 1]);
            }
        }
    }
}

/// The position of the first `/` in `s`, or its length if there is none.
pub fn find_slash(s: &str) -> (r: usize)
    ensures
        r == first_slash(s@),
{
    let n: usize = s.unicode_len();
    let mut i: usize = 0;
    while i < n
        invariant
            i <= n,
            n == s@.len(),
            forall|j: int| 0 <= j < i ==> s@[j] != '/',
        decreases n - i,
    {
        if s.get_char(i) == '/' {
            proof {
                lemma_first_slash(s@);
                if first_slash(s@) < i {
                    assert(s@[first_slash(s@)] == '/');
                }
            }
            return i;
        }
        i += 1;
    }
    proof {
        lemma_first_slash(s@);
        if first_slash(s@) < n {
            assert(s@[first_slash(s@)] == '/');
        }
    }
    n
}

} // verus!
