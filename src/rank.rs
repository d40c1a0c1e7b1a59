//! Ranking scored candidates: the threshold filter, the order by score
//! (ties by position), and the cut to a limit.

use vstd::prelude::*;

verus! {

/// Candidate `i` comes before candidate `j`: a higher score, or an equal
/// score and an earlier position.
pub open spec fn ranks_before(keys: Seq<u64>, i: int, j: int) -> bool {
    keys[i] > keys[j] || (keys[i] == keys[j] && i < j)
}

/// The candidates whose score reaches the threshold.
pub open spec fn eligible(keys: Seq<u64>, threshold: u64) -> Set<int> {
    Set::new(|i: int| 0 <= i < keys.len() && keys[i] >= threshold)
}

pub open spec fn min_nat(a: nat, b: nat) -> nat {
    if a <= b {
        a
    } else {
        b
    }
}

/// `r` is the ranking: the `limit` best eligible candidates (or all of
/// them when fewer), best first, and no eligible candidate left out ranks
/// before one that is in.
pub open spec fn is_ranking(keys: Seq<u64>, threshold: u64, limit: nat, r: Seq<usize>) -> bool {
    &&& r.len() == min_nat(limit, eligible(keys, threshold).len())
    &&& forall|j: int| 0 <= j < r.len() ==> (#[trigger] r[j]) < keys.len() && keys[r[j] as int] >= threshold
    &&& forall|j1: int, j2: int|
        0 <= j1 < j2 < r.len() ==> ranks_before(keys, #[trigger] r[j1] as int, #[trigger] r[j2] as int)
    &&& forall|i: int, j: int|
        0 <= i < keys.len() && keys[i] >= threshold && !r.contains(i as usize) && 0 <= j < r.len()
            ==> #[trigger] ranks_before(keys, r[j] as int, i)
}

/// The positions of the candidates that make the cut, best first: a score
/// below `threshold` is left out, higher scores come first, equal scores
/// keep their order, and at most `limit` are kept.
pub fn rank(keys: &Vec<u64>, threshold: u64, limit: usize) -> (r: Vec<usize>)
    ensures
        is_ranking(keys@, threshold, limit as nat, r@),
{
    let n = keys.len();
    let mut taken: Vec<bool> = Vec::new();
    let mut k: usize = 0;
    while k < n
        invariant
            0 <= k <= n,
            taken@.len() == k,
            forall|i: int| 0 <= i < k ==> !(#[trigger] taken@[i]),
        decreases n - k,
    {
        taken.push(false);
        k = k + 1;
    }
    let mut r: Vec<usize> = Vec::new();
    let ghost el = eligible(keys@, threshold);
    proof {
        vstd::set_lib::lemma_int_range(0, n as int);
        vstd::set_lib::lemma_len_subset(el, vstd::set_lib::set_int_range(0, n as int));
    }
    let mut done = false;
    while !done && r.len() < limit
        invariant
            n == keys@.len(),
            taken@.len() == n,
            el == eligible(keys@, threshold),
            el.finite(),
            forall|i: int| 0 <= i < n ==> (#[trigger] taken@[i] <==> r@.contains(i as usize)),
            forall|j: int| 0 <= j < r@.len() ==> (#[trigger] r@[j]) < n && keys@[r@[j] as int] >= threshold,
            forall|j1: int, j2: int|
                0 <= j1 < j2 < r@.len() ==> ranks_before(keys@, #[trigger] r@[j1] as int, #[trigger] r@[j2] as int),
            forall|i: int, j: int|
                0 <= i < n && keys@[i] >= threshold && !taken@[i] && 0 <= j < r@.len()
                    ==> #[trigger] ranks_before(keys@, r@[j] as int, i),
            r@.len() <= limit,
            r@.len() <= n,
            done ==> forall|i: int| 0 <= i < n && keys@[i] >= threshold ==> #[trigger] taken@[i],
        decreases n - r@.len() + if done { 0int } else { 1int },
    {
        let mut best: usize = n;
        let mut i: usize = 0;
        while i < n
            invariant
                n == keys@.len(),
                taken@.len() == n,
                0 <= i <= n,
                best == n || (best < i && !taken@[best as int] && keys@[best as int] >= threshold),
                best == n ==> forall|q: int| 0 <= q < i ==> taken@[q] || keys@[q] < threshold,
                best < n ==> forall|q: int|
                    0 <= q < i && q != best && !taken@[q] && keys@[q] >= threshold ==> ranks_before(
                        keys@,
                        best as int,
                        q,
                    ),
            decreases n - i,
        {
            if !taken[i] && keys[i] >= threshold && (best == n || keys[i] > keys[best]) {
                best = i;
            }
            i = i + 1;
        }
        if best == n {
            done = true;
        } else {
            proof {
                // `best` is not yet in the ranking, so the ranking has room
                // below n.
                assert(!r@.contains(best));
                assert forall|j: int| 0 <= j < r@.len() implies r@[j] < n by {}
                vstd::set_lib::lemma_int_range(0, n as int);
                let rs = r@.map_values(|x: usize| x as int);
                assert(rs.no_duplicates()) by {
                    assert forall|j1: int, j2: int| 0 <= j1 < rs.len() && 0 <= j2 < rs.len() && j1 != j2 implies rs[j1] != rs[j2] by {
                        if j1 < j2 {
                            assert(ranks_before(keys@, r@[j1] as int, r@[j2] as int));
                        } else {
                            assert(ranks_before(keys@, r@[j2] as int, r@[j1] as int));
                        }
                    }
                }
                rs.unique_seq_to_set();
                assert(rs.to_set().insert(best as int).subset_of(vstd::set_lib::set_int_range(0, n as int)));
                assert(!rs.to_set().contains(best as int)) by {
                    if rs.to_set().contains(best as int) {
                        let j = choose|j: int| 0 <= j < rs.len() && rs[j] == best as int;
                        assert(r@[j] == best);
                    }
                }
                vstd::set_lib::lemma_len_subset(rs.to_set().insert(best as int), vstd::set_lib::set_int_range(0, n as int));
                vstd::seq_lib::seq_to_set_is_finite(rs);
                assert(rs.to_set().insert(best as int).len() == rs.to_set().len() + 1);
                assert(r@.len() + 1 <= n);
            }
            let ghost old_r = r@;
            taken.set(best, true);
            r.push(best);
            proof {
                assert forall|q: int| 0 <= q < n implies (#[trigger] taken@[q] <==> r@.contains(q as usize)) by {
                    if q != best {
                        if old_r.contains(q as usize) {
                            let j = choose|j: int| 0 <= j < old_r.len() && old_r[j] == q as usize;
                            assert(r@[j] == q as usize);
                        }
                        if r@.contains(q as usize) {
                            let j = choose|j: int| 0 <= j < r@.len() && r@[j] == q as usize;
                            assert(j < old_r.len());
                            assert(old_r[j] == q as usize);
                        }
                    } else {
                        assert(r@[old_r.len() as int] == best);
                    }
                }
            }
        }
    }
    proof {
        let rs = r@.map_values(|x: usize| x as int);
        assert(rs.no_duplicates()) by {
            assert forall|j1: int, j2: int| 0 <= j1 < rs.len() && 0 <= j2 < rs.len() && j1 != j2 implies rs[j1] != rs[j2] by {
                if j1 < j2 {
                    assert(ranks_before(keys@, r@[j1] as int, r@[j2] as int));
                } else {
                    assert(ranks_before(keys@, r@[j2] as int, r@[j1] as int));
                }
            }
        }
        rs.unique_seq_to_set();
        assert(rs.to_set().subset_of(el)) by {
            assert forall|x: int| rs.to_set().contains(x) implies el.contains(x) by {
                let j = choose|j: int| 0 <= j < rs.len() && rs[j] == x;
                assert(r@[j] < n && keys@[r@[j] as int] >= threshold);
            }
        }
        vstd::set_lib::lemma_len_subset(rs.to_set(), el);
        if done {
            assert(el.subset_of(rs.to_set())) by {
                assert forall|x: int| el.contains(x) implies rs.to_set().contains(x) by {
                    assert(taken@[x]);
                    assert(r@.contains(x as usize));
                    let j = choose|j: int| 0 <= j < r@.len() && r@[j] == x as usize;
                    assert(rs[j] == x);
                }
            }
            assert(el =~= rs.to_set());
        }
        assert forall|i: int, j: int|
            0 <= i < n && keys@[i] >= threshold && !r@.contains(i as usize) && 0 <= j < r@.len()
                implies #[trigger] ranks_before(keys@, r@[j] as int, i) by {
            assert(!taken@[i]);
        }
    }
    r
}

} // verus!
