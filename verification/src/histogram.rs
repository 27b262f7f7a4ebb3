//! Frequency histograms over observed trial scalars.  A histogram maps
//! each distinct observed value to its occurrence count, holds no entry
//! for an unobserved value, and is presented sorted by strictly
//! descending key, so its shape is pinned down uniquely by the multiset
//! of observed values.

use vstd::prelude::*;

verus! {

/// How many times `k` occurs in `values`.
pub open spec fn count_of(values: Seq<u128>, k: u128) -> int
    decreases values.len(),
{
    if values.len() == 0 {
        0
    } else {
        count_of(values.drop_last(), k) + if values.last() == k {
            1int
        } else {
            0int
        }
    }
}

/// The sum of all counts recorded in a histogram.
pub open spec fn total_count(h: Seq<(u128, usize)>) -> int
    decreases h.len(),
{
    if h.len() == 0 {
        0
    } else {
        total_count(h.drop_last()) + h.last().1
    }
}

/// Whether some entry of `h` carries the key `k`.
pub open spec fn has_key(h: Seq<(u128, usize)>, k: u128) -> bool {
    exists|i: int| 0 <= i < h.len() && h[i].0 == k
}

/// Keys are strictly descending, which also makes them pairwise
/// distinct.
pub open spec fn sorted_desc(h: Seq<(u128, usize)>) -> bool {
    forall|i: int, j: int| 0 <= i < j < h.len() ==> h[i].0 > h[j].0
}

/// `h` is the frequency histogram of `values`: every entry counts the
/// occurrences of its key exactly, only observed values have entries,
/// every observed value has one, and the entries come sorted by
/// strictly descending key.
pub open spec fn is_histogram_of(values: Seq<u128>, h: Seq<(u128, usize)>) -> bool {
    &&& sorted_desc(h)
    &&& forall|i: int|
        #![trigger h[i]]
        0 <= i < h.len() ==> h[i].1 == count_of(values, h[i].0) && count_of(values, h[i].0) > 0
    &&& forall|k: u128| count_of(values, k) > 0 ==> has_key(h, k)
}

/// A value occurs at most as often as the sequence is long.
pub proof fn lemma_count_le_len(values: Seq<u128>, k: u128)
    ensures
        0 <= count_of(values, k) <= values.len(),
    decreases values.len(),
{
    if values.len() > 0 {
        lemma_count_le_len(values.drop_last(), k);
    }
}

/// Appending one value raises its own count by one and leaves every
/// other count unchanged.
pub proof fn lemma_count_push(values: Seq<u128>, v: u128)
    ensures
        forall|k: u128|
            count_of(values.push(v), k) == count_of(values, k) + if v == k {
                1int
            } else {
                0int
            },
{
    assert(values.push(v).drop_last() =~= values);
}

/// Replacing the entry at `p` shifts the total by the difference of the
/// two counts.
pub proof fn lemma_total_update(h: Seq<(u128, usize)>, p: int, e: (u128, usize))
    requires
        0 <= p < h.len(),
    ensures
        total_count(h.update(p, e)) == total_count(h) - h[p].1 + e.1,
    decreases h.len(),
{
    let t = h.update(p, e);
    if p == h.len() - 1 {
        assert(t.drop_last() =~= h.drop_last());
    } else {
        assert(t.drop_last() =~= h.drop_last().update(p, e));
        lemma_total_update(h.drop_last(), p, e);
    }
}

/// Inserting an entry adds its count to the total.
pub proof fn lemma_total_insert(h: Seq<(u128, usize)>, p: int, e: (u128, usize))
    requires
        0 <= p <= h.len(),
    ensures
        total_count(h.insert(p, e)) == total_count(h) + e.1,
    decreases h.len(),
{
    let t = h.insert(p, e);
    if p == h.len() {
        assert(t.drop_last() =~= h);
    } else {
        assert(t.last() == h.last());
        assert(t.drop_last() =~= h.drop_last().insert(p, e));
        lemma_total_insert(h.drop_last(), p, e);
    }
}

/// Builds the frequency histogram of `values`: one entry per distinct
/// value with its exact occurrence count, sorted by strictly descending
/// key.  The total of all counts equals the number of values.
pub fn create_histogram(values: Vec<u128>) -> (result: Vec<(u128, usize)>)
    ensures
        is_histogram_of(values@, result@),
        total_count(result@) == values@.len(),
{
    let mut acc: Vec<(u128, usize)> = Vec::new();
    let mut j: usize = 0;
    while j < values.len()
        invariant
            j <= values.len(),
            is_histogram_of(values@.take(j as int), acc@),
            total_count(acc@) == j,
        decreases values.len() - j,
    {
        let ghost prefix = values@.take(j as int);
        let v = values[j];
        proof {
            assert(values@.take(j + 1).drop_last() =~= prefix);
            assert(values@.take(j + 1) =~= prefix.push(v));
            lemma_count_push(prefix, v);
        }
        let ghost next = prefix.push(v);
        let mut p: usize = 0;
        while p < acc.len() && acc[p].0 > v
            invariant
                p <= acc.len(),
                forall|q: int| 0 <= q < p ==> acc@[q].0 > v,
            decreases acc.len() - p,
        {
            p += 1;
        }
        let ghost before = acc@;
        if p < acc.len() && acc[p].0 == v {
            let c = acc[p].1;
            proof {
                lemma_count_le_len(prefix, v);
                lemma_total_update(acc@, p as int, (v, (c + 1) as usize));
            }
            acc[p] = (v, c + 1);
            proof {
                assert(acc@ == before.update(p as int, (v, (c + 1) as usize)));
                assert forall|i: int, l: int| 0 <= i < l < acc@.len() implies acc@[i].0
                    > acc@[l].0 by {
                    assert(acc@[i].0 == before[i].0 && acc@[l].0 == before[l].0);
                }
                assert forall|i: int| #![trigger acc@[i]] 0 <= i < acc@.len() implies acc@[i].1
                    == count_of(next, acc@[i].0) && count_of(next, acc@[i].0) > 0 by {
                    if i != p {
                        assert(before[i] == acc@[i]);
                        assert(before[i].0 != before[p as int].0);
                    }
                }
                assert forall|k: u128| count_of(next, k) > 0 implies has_key(acc@, k) by {
                    if k == v {
                        assert(0 <= p < acc@.len() && acc@[p as int].0 == k);
                    } else {
                        assert(count_of(prefix, k) > 0);
                        assert(has_key(before, k));
                        let w = choose|i: int| 0 <= i < before.len() && before[i].0 == k;
                        assert(0 <= w < acc@.len() && acc@[w].0 == k);
                    }
                }
            }
        } else {
            proof {
                // `v` carries no entry yet: entries before `p` have larger
                // keys, and from `p` on they are smaller.
                assert forall|i: int| 0 <= i < acc@.len() implies acc@[i].0 != v by {
                    if i >= p {
                        assert(acc@[p as int].0 <= v || p == acc@.len());
                    }
                }
                assert(!has_key(acc@, v));
                lemma_count_le_len(prefix, v);
                assert(count_of(prefix, v) == 0);
                acc@.insert_ensures(p as int, (v, 1usize));
                lemma_total_insert(acc@, p as int, (v, 1usize));
            }
            acc.insert(p, (v, 1));
            proof {
                assert(acc@ == before.insert(p as int, (v, 1usize)));
                assert forall|i: int| #![trigger acc@[i]] 0 <= i < acc@.len() implies (if i < p {
                    acc@[i] == before[i]
                } else if i == p {
                    acc@[i] == (v, 1usize)
                } else {
                    acc@[i] == before[i - 1]
                }) by {}
                assert forall|i: int, l: int| 0 <= i < l < acc@.len() implies acc@[i].0
                    > acc@[l].0 by {
                    if i < p && l > p {
                        assert(acc@[i].0 == before[i].0 > v);
                        assert(acc@[l].0 == before[l - 1].0);
                        assert(before[p as int].0 < v);
                        if l - 1 > p {
                            assert(before[p as int].0 > before[l - 1].0);
                        }
                    } else if i == p && l > p {
                        assert(before[p as int].0 < v);
                        if l - 1 > p {
                            assert(before[p as int].0 > before[l - 1].0);
                        }
                    }
                }
                assert forall|i: int| #![trigger acc@[i]] 0 <= i < acc@.len() implies acc@[i].1
                    == count_of(next, acc@[i].0) && count_of(next, acc@[i].0) > 0 by {
                    if i < p {
                        assert(acc@[i] == before[i] && before[i].0 != v);
                    } else if i == p {
                        assert(acc@[i] == (v, 1usize));
                        assert(count_of(next, v) == 1);
                    } else {
                        assert(acc@[i] == before[i - 1] && before[i - 1].0 != v);
                    }
                }
                assert forall|k: u128| count_of(next, k) > 0 implies has_key(acc@, k) by {
                    if k == v {
                        assert(0 <= p < acc@.len() && acc@[p as int].0 == k);
                    } else {
                        assert(count_of(prefix, k) > 0);
                        assert(has_key(before, k));
                        let w = choose|i: int| 0 <= i < before.len() && before[i].0 == k;
                        if w < p {
                            assert(0 <= w < acc@.len() && acc@[w].0 == k);
                        } else {
                            assert(0 <= w + 1 < acc@.len() && acc@[w + 1].0 == k);
                        }
                    }
                }
            }
        }
        j += 1;
    }
    proof {
        assert(values@.take(values@.len() as int) =~= values@);
    }
    acc
}

/// Two strictly-descending key sequences carrying the same keys agree
/// position by position.
proof fn lemma_sorted_desc_same_keys(h1: Seq<(u128, usize)>, h2: Seq<(u128, usize)>)
    requires
        sorted_desc(h1),
        sorted_desc(h2),
        forall|k: u128| has_key(h1, k) <==> has_key(h2, k),
    ensures
        h1.len() == h2.len(),
        forall|i: int| 0 <= i < h1.len() ==> (#[trigger] h1[i]).0 == h2[i].0,
    decreases h1.len(),
{
    if h1.len() == 0 {
        if h2.len() > 0 {
            assert(0 <= 0 < h2.len() && h2[0].0 == h2[0].0);
            assert(has_key(h2, h2[0].0));
            assert(false);
        }
    } else if h2.len() == 0 {
        assert(0 <= 0 < h1.len() && h1[0].0 == h1[0].0);
        assert(has_key(h1, h1[0].0));
        assert(false);
    } else {
        assert(0 <= 0 < h1.len() && h1[0].0 == h1[0].0);
        assert(has_key(h1, h1[0].0));
        let a = choose|i: int| 0 <= i < h2.len() && h2[i].0 == h1[0].0;
        assert(0 <= 0 < h2.len() && h2[0].0 == h2[0].0);
        assert(has_key(h2, h2[0].0));
        let b = choose|i: int| 0 <= i < h1.len() && h1[i].0 == h2[0].0;
        assert(h2[0].0 >= h2[a].0);
        assert(h1[0].0 >= h1[b].0);
        assert(h1[0].0 == h2[0].0);
        let t1 = h1.subrange(1, h1.len() as int);
        let t2 = h2.subrange(1, h2.len() as int);
        assert forall|i: int, l: int| 0 <= i < l < t1.len() implies (#[trigger] t1[i]).0
            > (#[trigger] t1[l]).0 by {
            assert(t1[i] == h1[i + 1] && t1[l] == h1[l + 1]);
        }
        assert forall|i: int, l: int| 0 <= i < l < t2.len() implies (#[trigger] t2[i]).0
            > (#[trigger] t2[l]).0 by {
            assert(t2[i] == h2[i + 1] && t2[l] == h2[l + 1]);
        }
        assert forall|k: u128| has_key(t1, k) implies has_key(t2, k) by {
            let i = choose|i: int| 0 <= i < t1.len() && t1[i].0 == k;
            assert(h1[i + 1].0 == k);
            assert(has_key(h1, k));
            assert(h1[0].0 > k);
            let l = choose|l: int| 0 <= l < h2.len() && h2[l].0 == k;
            assert(l != 0);
            assert(0 <= l - 1 < t2.len() && t2[l - 1].0 == k);
        }
        assert forall|k: u128| has_key(t2, k) implies has_key(t1, k) by {
            let i = choose|i: int| 0 <= i < t2.len() && t2[i].0 == k;
            assert(h2[i + 1].0 == k);
            assert(has_key(h2, k));
            assert(h2[0].0 > k);
            let l = choose|l: int| 0 <= l < h1.len() && h1[l].0 == k;
            assert(l != 0);
            assert(0 <= l - 1 < t1.len() && t1[l - 1].0 == k);
        }
        lemma_sorted_desc_same_keys(t1, t2);
        assert forall|i: int| 0 <= i < h1.len() implies (#[trigger] h1[i]).0 == h2[i].0 by {
            if i > 0 {
                assert(t1[i - 1].0 == t2[i - 1].0);
                assert(t1[i - 1] == h1[i] && t2[i - 1] == h2[i]);
            }
        }
    }
}

/// A value sequence has exactly one histogram: any two tables that both
/// satisfy `is_histogram_of` for the same values are equal.  Together
/// with the generator's determinism, re-running an experiment from the
/// same seed therefore reproduces the histogram exactly.
pub proof fn lemma_histogram_unique(
    values: Seq<u128>,
    h1: Seq<(u128, usize)>,
    h2: Seq<(u128, usize)>,
)
    requires
        is_histogram_of(values, h1),
        is_histogram_of(values, h2),
    ensures
        h1 == h2,
{
    assert forall|k: u128| has_key(h1, k) implies has_key(h2, k) by {
        let i = choose|i: int| 0 <= i < h1.len() && h1[i].0 == k;
        assert(h1[i].1 == count_of(values, h1[i].0) && count_of(values, h1[i].0) > 0);
    }
    assert forall|k: u128| has_key(h2, k) implies has_key(h1, k) by {
        let i = choose|i: int| 0 <= i < h2.len() && h2[i].0 == k;
        assert(h2[i].1 == count_of(values, h2[i].0) && count_of(values, h2[i].0) > 0);
    }
    lemma_sorted_desc_same_keys(h1, h2);
    assert forall|i: int| 0 <= i < h1.len() implies h1[i] == h2[i] by {
        assert(h1[i].1 == count_of(values, h1[i].0));
        assert(h2[i].1 == count_of(values, h2[i].0));
        assert(h1[i].0 == h2[i].0);
    }
    assert(h1 =~= h2);
}

} // verus!
