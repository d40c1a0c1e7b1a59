//! Approximate matching: terms one edit away from a query token.

use vstd::prelude::*;

verus! {

/// `a` and `b` are at most one edit apart: equal, or one character
/// replaced, removed or inserted.
pub open spec fn one_edit(a: Seq<char>, b: Seq<char>) -> bool {
    ||| a == b
    ||| (a.len() == b.len() && exists|i: int| 0 <= i < a.len() && #[trigger] a.update(i, b[i]) == b)
    ||| (a.len() == b.len() + 1 && exists|i: int| 0 <= i < a.len() && #[trigger] a.remove(i) == b)
    ||| (b.len() == a.len() + 1 && exists|i: int| 0 <= i < b.len() && #[trigger] b.remove(i) == a)
}

/// Whether `a[from_a..]` equals `b[from_b..]`.
fn tails_equal(a: &Vec<char>, from_a: usize, b: &Vec<char>, from_b: usize) -> (r: bool)
    requires
        from_a <= a@.len(),
        from_b <= b@.len(),
    ensures
        r == (a@.skip(from_a as int) == b@.skip(from_b as int)),
{
    if a.len() - from_a != b.len() - from_b {
        assert(a@.skip(from_a as int).len() != b@.skip(from_b as int).len());
        return false;
    }
    let n = a.len() - from_a;
    let la = a.len();
    let lb = b.len();
    let ghost sa = a@.skip(from_a as int);
    let ghost sb = b@.skip(from_b as int);
    let mut k: usize = 0;
    while k < n
        invariant
            n == a@.len() - from_a,
            n == b@.len() - from_b,
            la == a@.len(),
            lb == b@.len(),
            from_a + n == la,
            from_b + n == lb,
            sa == a@.skip(from_a as int),
            sb == b@.skip(from_b as int),
            0 <= k <= n,
            forall|q: int| 0 <= q < k ==> #[trigger] sa[q] == sb[q],
        decreases n - k,
    {
        assert(sa[k as int] == a@[from_a + k]);
        assert(sb[k as int] == b@[from_b + k]);
        if a[from_a + k] != b[from_b + k] {
            return false;
        }
        k = k + 1;
    }
    assert(a@.skip(from_a as int) =~= b@.skip(from_b as int));
    true
}

/// Whether `a` and `b` are at most one edit apart.
pub fn within_one_edit(a: &Vec<char>, b: &Vec<char>) -> (r: bool)
    ensures
        r == one_edit(a@, b@),
{
    let la = a.len();
    let lb = b.len();
    let mut p: usize = 0;
    while p < la && p < lb && a[p] == b[p]
        invariant
            la == a@.len(),
            lb == b@.len(),
            0 <= p <= la,
            p <= lb,
            forall|q: int| 0 <= q < p ==> a@[q] == b@[q],
        decreases la - p,
    {
        p = p + 1;
    }
    // `p` is the length of the common prefix.
    if la == lb {
        if p == la {
            assert(a@ =~= b@);
            return true;
        }
        let r = tails_equal(a, p + 1, b, p + 1);
        proof {
            if r {
                assert forall|q: int| 0 <= q < b@.len() implies #[trigger] a@.update(p as int, b@[p as int])[q] == b@[q] by {
                    if q > p {
                        assert(a@.skip(p + 1)[q - p - 1] == b@.skip(p + 1)[q - p - 1]);
                    }
                }
                assert(a@.update(p as int, b@[p as int]) =~= b@);
            } else {
                assert(a@ != b@) by {
                    assert(a@[p as int] != b@[p as int]);
                }
                assert forall|i: int| 0 <= i < a@.len() implies #[trigger] a@.update(i, b@[i])
                    != b@ by {
                    if a@.update(i, b@[i]) == b@ {
                        if i != p {
                            assert(a@.update(i, b@[i])[p as int] == a@[p as int]);
                        } else {
                            assert(a@.skip(p + 1) =~= b@.skip(p + 1)) by {
                                assert forall|q: int| 0 <= q < a@.skip(p + 1).len() implies #[trigger] a@.skip(p + 1)[q] == b@.skip(p + 1)[q] by {
                                    assert(a@.update(i, b@[i])[p + 1 + q] == b@[p + 1 + q]);
                                }
                            }
                        }
                    }
                }
            }
        }
        return r;
    }
    if la > lb && la - lb == 1 {
        let r = tails_equal(a, p + 1, b, p);
        proof {
            if r {
                assert(a@.remove(p as int) =~= b@) by {
                    assert forall|q: int| 0 <= q < b@.len() implies #[trigger] a@.remove(p as int)[q] == b@[q] by {
                        if q >= p {
                            assert(a@.skip(p + 1)[q - p] == b@.skip(p as int)[q - p]);
                        }
                    }
                }
            } else {
                assert forall|i: int| 0 <= i < a@.len() implies #[trigger] a@.remove(i) != b@ by {
                    if a@.remove(i) == b@ {
                        assert(a@.skip(p + 1) =~= b@.skip(p as int)) by {
                            assert forall|q: int| 0 <= q < a@.skip(p + 1).len() implies #[trigger] a@.skip(p + 1)[q] == b@.skip(p as int)[q] by {
                                if p + q >= i {
                                    assert(a@.remove(i)[p + q] == a@[p + q + 1]);
                                } else {
                                    assert(a@.remove(i)[p + q] == a@[p + q]);
                                    assert(a@.remove(i)[p + q] == b@[p + q]);
                                    assert(a@[p as int] == b@[p as int]);
                                }
                            }
                        }
                    }
                }
            }
        }
        return r;
    }
    if lb > la && lb - la == 1 {
        let r = tails_equal(b, p + 1, a, p);
        proof {
            if r {
                assert(b@.remove(p as int) =~= a@) by {
                    assert forall|q: int| 0 <= q < a@.len() implies #[trigger] b@.remove(p as int)[q] == a@[q] by {
                        if q >= p {
                            assert(b@.skip(p + 1)[q - p] == a@.skip(p as int)[q - p]);
                        }
                    }
                }
            } else {
                assert forall|i: int| 0 <= i < b@.len() implies #[trigger] b@.remove(i) != a@ by {
                    if b@.remove(i) == a@ {
                        assert(b@.skip(p + 1) =~= a@.skip(p as int)) by {
                            assert forall|q: int| 0 <= q < b@.skip(p + 1).len() implies #[trigger] b@.skip(p + 1)[q] == a@.skip(p as int)[q] by {
                                if p + q >= i {
                                    assert(b@.remove(i)[p + q] == b@[p + q + 1]);
                                } else {
                                    assert(b@.remove(i)[p + q] == b@[p + q]);
                                    assert(b@[p as int] == a@[p as int]);
                                }
                            }
                        }
                    }
                }
            }
        }
        return r;
    }
    false
}

} // verus!
