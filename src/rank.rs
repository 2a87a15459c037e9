//! Choosing the `k` nearest entries from their distance keys.
//!
//! A distance key is the bit pattern of a non-negative `f32` distance, so
//! comparing keys as integers orders the distances. Equal keys are ordered by
//! position, which makes the choice deterministic.

use vstd::prelude::*;

verus! {

/// Entry `a` ranks before entry `b`: it is nearer, or as near and earlier.
pub open spec fn ranks_before(keys: Seq<u32>, a: int, b: int) -> bool {
    keys[a] < keys[b] || (keys[a] == keys[b] && a < b)
}

/// `picks` are the `k` best-ranked of the first `j` entries (all of them when
/// there are fewer), best first.
pub open spec fn nearest_among(keys: Seq<u32>, j: int, k: int, picks: Seq<usize>) -> bool {
    &&& picks.len() == (if k < j { k } else { j })
    &&& forall|m: int| 0 <= m < picks.len() ==> picks[m] < j
    &&& forall|m: int, n: int|
        0 <= m < n < picks.len() ==> ranks_before(keys, picks[m] as int, picks[n] as int)
    &&& forall|x: usize, m: int|
        x < j && !picks.contains(x) && 0 <= m < picks.len() ==> #[trigger] ranks_before(
            keys,
            picks[m] as int,
            x as int,
        )
}

/// `picks` are the positions of the `k` nearest entries, nearest first.
pub open spec fn is_nearest(keys: Seq<u32>, k: int, picks: Seq<usize>) -> bool {
    nearest_among(keys, keys.len() as int, k, picks)
}

/// The positions of the `k` entries with the smallest keys (all of them when
/// there are fewer), smallest first, equal keys in position order.
pub fn nearest(keys: &Vec<u32>, k: usize) -> (r: Vec<usize>)
    ensures
        is_nearest(keys@, k as int, r@),
{
    let mut picks: Vec<usize> = Vec::new();
    if k == 0 {
        assert(picks@.len() == 0);
        return picks;
    }
    let mut j: usize = 0;
    while j < keys.len()
        invariant
            0 < k,
            j <= keys@.len(),
            nearest_among(keys@, j as int, k as int, picks@),
            picks@.len() < k ==> forall|x: usize| x < j ==> #[trigger] picks@.contains(x),
        decreases keys@.len() - j,
    {
        let ghost s = picks@;
        let mut p: usize = 0;
        while p < picks.len() && keys[j] >= keys[picks[p]]
            invariant
                picks@ == s,
                j < keys@.len(),
                p <= s.len(),
                forall|m: int| 0 <= m < s.len() ==> s[m] < j,
                forall|m: int| 0 <= m < p ==> keys@[s[m] as int] <= keys@[j as int],
            decreases s.len() - p,
        {
            p += 1;
        }
        picks.insert(p, j);
        let ghost t = picks@;
        proof {
            s.insert_ensures(p as int, j);
            assert forall|m: int, n: int| 0 <= m < n < t.len() implies ranks_before(
                keys@,
                t[m] as int,
                t[n] as int,
            ) by {
                if n == p {
                    assert(t[m] == s[m]);
                } else if m == p {
                    assert(t[n] == s[n - 1]);
                    assert(p < s.len());
                    assert(keys@[j as int] < keys@[s[p as int] as int]);
                    if n - 1 > p {
                        assert(ranks_before(keys@, s[p as int] as int, s[n - 1] as int));
                    }
                } else if m < p && n > p {
                    assert(t[m] == s[m]);
                    assert(t[n] == s[n - 1]);
                } else if n < p {
                    assert(t[m] == s[m] && t[n] == s[n]);
                } else {
                    assert(t[m] == s[m - 1] && t[n] == s[n - 1]);
                }
            }
            assert forall|x: usize| x < j && #[trigger] s.contains(x) implies t.contains(x) by {
                let m = choose|m: int| 0 <= m < s.len() && s[m] == x;
                if m < p {
                    assert(t[m] == s[m]);
                } else {
                    assert(t[m + 1] == s[m]);
                }
            }
            assert(t[p as int] == j);
            assert(t.contains(j));
            assert forall|x: usize| x < j && #[trigger] t.contains(x) implies s.contains(x) by {
                let m = choose|m: int| 0 <= m < t.len() && t[m] == x;
                if m < p {
                    assert(t[m] == s[m]);
                } else if m > p {
                    assert(t[m] == s[m - 1]);
                }
            }
        }
        if picks.len() > k {
            picks.pop();
            proof {
                let u = picks@;
                assert(u =~= t.drop_last());
                let y = t[t.len() - 1];
                assert forall|x: usize, m: int|
                    x < j + 1 && !u.contains(x) && 0 <= m < u.len() implies #[trigger] ranks_before(
                    keys@,
                    u[m] as int,
                    x as int,
                ) by {
                    assert(u[m] == t[m]);
                    if x == y {
                        assert(ranks_before(keys@, t[m] as int, t[t.len() - 1] as int));
                    } else if x == j {
                        assert(t.contains(j));
                        let q = choose|q: int| 0 <= q < t.len() && t[q] == j;
                        if q < t.len() - 1 {
                            assert(u[q] == j);
                        }
                    } else {
                        assert(!t.contains(x)) by {
                            if t.contains(x) {
                                let q = choose|q: int| 0 <= q < t.len() && t[q] == x;
                                if q < t.len() - 1 {
                                    assert(u[q] == x);
                                }
                            }
                        }
                        assert(!s.contains(x));
                        assert(s.len() == k);
                        if u[m] == j {
                            assert(m < p || m == p);
                            assert(t[m] == j);
                            assert(m == p);
                            assert(p < s.len());
                            assert(ranks_before(keys@, s[p as int] as int, x as int));
                        } else {
                            let q = choose|q: int| 0 <= q < s.len() && s[q] == u[m];
                            assert(ranks_before(keys@, s[q] as int, x as int));
                        }
                    }
                }
            }
        } else {
            proof {
                assert forall|x: usize, m: int|
                    x < j + 1 && !t.contains(x) && 0 <= m < t.len() implies #[trigger] ranks_before(
                    keys@,
                    t[m] as int,
                    x as int,
                ) by {
                    assert(s.len() < k);
                    assert(s.contains(x));
                }
                if t.len() < k {
                    assert forall|x: usize| x < j + 1 implies #[trigger] t.contains(x) by {
                        if x < j {
                            assert(s.contains(x));
                        }
                    }
                }
            }
        }
        j += 1;
    }
    picks
}

/// The nearest pick has the smallest key of all; and when one entry is at
/// distance key zero (a query compared with its own embedding) and every other
/// entry is farther, that entry comes first.
pub proof fn lemma_self_match_first(keys: Seq<u32>, k: int, picks: Seq<usize>, e: int)
    requires
        is_nearest(keys, k, picks),
        keys.len() <= usize::MAX,
        0 < k,
        0 <= e < keys.len(),
    ensures
        picks.len() > 0,
        forall|x: int| 0 <= x < keys.len() ==> keys[picks[0] as int] <= #[trigger] keys[x],
        keys[e] == 0 && (forall|x: int| 0 <= x < keys.len() && x != e ==> #[trigger] keys[x] > 0)
            ==> picks[0] == e,
{
    assert(picks.len() > 0);
    assert forall|x: int| 0 <= x < keys.len() implies keys[picks[0] as int] <= #[trigger] keys[x] by {
        let y = x as usize;
        assert(y as int == x);
        if picks.contains(y) {
            let m = choose|m: int| 0 <= m < picks.len() && picks[m] == y;
            if m > 0 {
                assert(ranks_before(keys, picks[0] as int, picks[m] as int));
            }
        } else {
            assert(ranks_before(keys, picks[0] as int, y as int));
        }
    }
    if keys[e] == 0 && (forall|x: int| 0 <= x < keys.len() && x != e ==> #[trigger] keys[x] > 0) {
        assert(keys[picks[0] as int] <= keys[e]);
    }
}

} // verus!
