//! Sorting and coalescing of range pairs.
//!
//! `merge_ranged_pairs` sorts the pairs in ascending order (by start,
//! then end) and folds every pair that overlaps the running interval, or
//! sits directly adjacent to it, into that interval.  The result of
//! merging a list of valid ranges is a minimal list: ascending, pairwise
//! disjoint, with a gap of at least one position between entries, and
//! merging it again changes nothing.

use vstd::prelude::*;
use vstd::relations::sorted_by;
use vstd::relations::total_ordering;
use vstd::seq_lib::lemma_sorted_unique;

verus! {

broadcast use {
    vstd::prelude::Seq::add_empty_left,
    vstd::prelude::Seq::add_empty_right,
    vstd::seq_lib::to_multiset_insert,
    vstd::seq_lib::group_to_multiset_ensures,
};

/// A well-formed range: a 1-based inclusive interval.
pub open spec fn pair_valid(p: (usize, usize)) -> bool {
    1 <= p.0 && p.0 <= p.1
}

/// Every pair of the list is a well-formed range.
pub open spec fn valid_pairs(s: Seq<(usize, usize)>) -> bool {
    forall|i: int| 0 <= i < s.len() ==> pair_valid(#[trigger] s[i])
}

/// Ascending order on pairs: by start, then by end.
pub open spec fn pair_le(a: (usize, usize), b: (usize, usize)) -> bool {
    a.0 < b.0 || (a.0 == b.0 && a.1 <= b.1)
}

/// The pair order as a function value, for use with `sort_by`.
pub open spec fn pair_leq() -> spec_fn((usize, usize), (usize, usize)) -> bool {
    |a: (usize, usize), b: (usize, usize)| pair_le(a, b)
}

/// The pair order is a total order.
proof fn lemma_pair_leq_total_ordering()
    ensures
        total_ordering(pair_leq()),
{
}

/// Fold one pair into the accumulated list: begin a new entry when the
/// pair starts beyond the last entry's end plus one, else extend the last
/// entry's end.
pub open spec fn merge_step(acc: Seq<(usize, usize)>, p: (usize, usize)) -> Seq<(usize, usize)> {
    if acc.len() == 0 {
        seq![p]
    } else if p.0 - 1 > acc.last().1 {
        acc.push(p)
    } else {
        acc.update(
            acc.len() - 1,
            (
                acc.last().0,
                if acc.last().1 >= p.1 {
                    acc.last().1
                } else {
                    p.1
                },
            ),
        )
    }
}

/// Fold a whole list, left to right.
pub open spec fn merge_pass(s: Seq<(usize, usize)>) -> Seq<(usize, usize)>
    decreases s.len(),
{
    if s.len() == 0 {
        seq![]
    } else {
        merge_step(merge_pass(s.drop_last()), s.last())
    }
}

/// What merging computes: sort ascending, then fold.
pub open spec fn merged_ranges(s: Seq<(usize, usize)>) -> Seq<(usize, usize)> {
    merge_pass(s.sort_by(pair_leq()))
}

/// Consecutive entries are separated by a gap of at least one position.
pub open spec fn separated(s: Seq<(usize, usize)>) -> bool {
    forall|i: int|
        0 <= i && i + 1 < s.len() ==> (#[trigger] s[i]).1 + 1 < s[i + 1].0
}

/// Sort pairs ascending by start, then end.
fn sort_pairs(v: &Vec<(usize, usize)>) -> (r: Vec<(usize, usize)>)
    ensures
        r@ == v@.sort_by(pair_leq()),
{
    proof {
        lemma_pair_leq_total_ordering();
    }
    let mut r: Vec<(usize, usize)> = Vec::new();
    let n = v.len();
    let mut i: usize = 0;
    proof {
        assert(v@.subrange(0, 0) =~= Seq::<(usize, usize)>::empty());
        assert(r@.to_multiset() =~= v@.subrange(0, 0).to_multiset());
    }
    while i < n
        invariant
            i <= n,
            n == v@.len(),
            sorted_by(r@, pair_leq()),
            r@.to_multiset() == v@.subrange(0, i as int).to_multiset(),
            r@.len() == i,
        decreases n - i,
    {
        let e = v[i];
        let m = r.len();
        let mut j: usize = 0;
        while j < m && !(e.0 < r[j].0 || (e.0 == r[j].0 && e.1 <= r[j].1))
            invariant
                j <= m,
                m == r@.len(),
                forall|t: int| 0 <= t < j ==> !pair_le(e, #[trigger] r@[t]),
            decreases m - j,
        {
            j = j + 1;
        }
        assert(j < m ==> pair_le(e, r@[j as int]));
        let ghost r_before = r@;
        r.insert(j, e);
        proof {
            let leq = pair_leq();
            assert(r@ == r_before.insert(j as int, e));
            assert(r@.to_multiset() == r_before.to_multiset().insert(e));
            assert(v@.subrange(0, i + 1) =~= v@.subrange(0, i as int).push(e));
            assert(sorted_by(r@, leq)) by {
                assert forall|x: int, y: int| 0 <= x < y < r@.len() implies #[trigger] leq(
                    r@[x],
                    r@[y],
                ) by {
                    if y < j {
                        assert(leq(r_before[x], r_before[y]));
                    } else if x < j && y == j {
                        assert(!pair_le(e, r_before[x]));
                        assert(leq(r_before[x], r_before[x]));
                    } else if x < j && y > j {
                        assert(r@[y] == r_before[y - 1]);
                        assert(leq(r_before[x], r_before[y - 1]));
                    } else if x == j {
                        assert(r@[y] == r_before[y - 1]);
                        assert(pair_le(e, r_before[j as int]));
                        if y - 1 > j {
                            assert(leq(r_before[j as int], r_before[y - 1]));
                        }
                    } else {
                        assert(r@[x] == r_before[x - 1] && r@[y] == r_before[y - 1]);
                        assert(leq(r_before[x - 1], r_before[y - 1]));
                    }
                }
            }
        }
        i = i + 1;
    }
    proof {
        assert(v@.subrange(0, n as int) =~= v@);
        v@.lemma_sort_by_ensures(pair_leq());
        lemma_sorted_unique(r@, v@.sort_by(pair_leq()), pair_leq());
    }
    r
}

/// Sort range pairs ascending and coalesce every overlapping or adjacent
/// pair into one.
pub fn merge_ranged_pairs(unsorted_ranged_pairs: Vec<(usize, usize)>) -> (r: Vec<(usize, usize)>)
    ensures
        r@ == merged_ranges(unsorted_ranged_pairs@),
        valid_pairs(unsorted_ranged_pairs@) ==> valid_pairs(r@) && separated(r@) && sorted_by(
            r@,
            pair_leq(),
        ),
{
    let sorted = sort_pairs(&unsorted_ranged_pairs);
    let ghost t = sorted@;
    let mut ranged_pairs: Vec<(usize, usize)> = Vec::new();
    let n = sorted.len();
    let mut i: usize = 0;
    proof {
        assert(t.subrange(0, 0) =~= Seq::<(usize, usize)>::empty());
    }
    while i < n
        invariant
            i <= n,
            n == t.len(),
            t == sorted@,
            ranged_pairs@ == merge_pass(t.subrange(0, i as int)),
        decreases n - i,
    {
        let ghost pre = t.subrange(0, i as int);
        proof {
            assert(t.subrange(0, i + 1).drop_last() =~= pre);
            assert(t.subrange(0, i + 1).last() == t[i as int]);
        }
        let p = sorted[i];
        if ranged_pairs.len() == 0 {
            ranged_pairs.push(p);
            proof {
                assert(ranged_pairs@ =~= merge_step(merge_pass(pre), p));
            }
        } else {
            let last = ranged_pairs[ranged_pairs.len() - 1];
            if last.1 < usize::MAX && p.0 > last.1 + 1 {
                ranged_pairs.push(p);
                proof {
                    assert(ranged_pairs@ =~= merge_step(merge_pass(pre), p));
                }
            } else {
                let new_end = if last.1 >= p.1 {
                    last.1
                } else {
                    p.1
                };
                let ghost before = ranged_pairs@;
                ranged_pairs.pop();
                ranged_pairs.push((last.0, new_end));
                proof {
                    assert(!(p.0 - 1 > before.last().1));
                    assert(ranged_pairs@ =~= before.update(
                        before.len() - 1,
                        (before.last().0, new_end),
                    ));
                    assert(ranged_pairs@ =~= merge_step(merge_pass(pre), p));
                }
            }
        }
        i = i + 1;
    }
    proof {
        assert(t.subrange(0, n as int) =~= t);
        if valid_pairs(unsorted_ranged_pairs@) {
            unsorted_ranged_pairs@.lemma_sort_by_ensures(pair_leq());
            assert forall|k: int| 0 <= k < t.len() implies pair_valid(#[trigger] t[k]) by {
                assert(t.contains(t[k]));
                if !unsorted_ranged_pairs@.contains(t[k]) {
                    assert(!t.contains(t[k]));
                }
                let w = choose|w: int|
                    0 <= w < unsorted_ranged_pairs@.len() && unsorted_ranged_pairs@[w] == t[k];
                assert(pair_valid(unsorted_ranged_pairs@[w]));
            }
            lemma_merge_pass_props(t);
        }
    }
    ranged_pairs
}

/// Shape of the fold's output on sorted, valid input: valid, separated,
/// ascending, and bracketed by the input's last pair.
pub proof fn lemma_merge_pass_props(s: Seq<(usize, usize)>)
    requires
        sorted_by(s, pair_leq()),
        valid_pairs(s),
    ensures
        valid_pairs(merge_pass(s)),
        separated(merge_pass(s)),
        sorted_by(merge_pass(s), pair_leq()),
        merge_pass(s).len() == 0 <==> s.len() == 0,
        s.len() > 0 ==> merge_pass(s).last().0 <= s.last().0,
        s.len() > 0 ==> merge_pass(s).last().1 >= s.last().1,
    decreases s.len(),
{
    let leq = pair_leq();
    if s.len() == 0 {
    } else {
        let d = s.drop_last();
        let p = s.last();
        assert(sorted_by(d, leq)) by {
            assert forall|i: int, j: int| 0 <= i < j < d.len() implies #[trigger] leq(
                d[i],
                d[j],
            ) by {
                assert(leq(s[i], s[j]));
            }
        }
        assert(valid_pairs(d));
        lemma_merge_pass_props(d);
        let acc = merge_pass(d);
        if acc.len() == 0 {
        } else {
            assert(pair_le(d.last(), p)) by {
                assert(d[d.len() - 1] == s[s.len() - 2]);
                assert(leq(s[s.len() - 2], s[s.len() - 1]));
            }
            assert(acc.last().0 <= p.0);
            if p.0 - 1 > acc.last().1 {
                let out = acc.push(p);
                assert(pair_le(acc.last(), p)) by {
                    assert(pair_valid(acc.last()));
                }
                assert(sorted_by(out, leq)) by {
                    assert forall|x: int, y: int| 0 <= x < y < out.len() implies #[trigger] leq(
                        out[x],
                        out[y],
                    ) by {
                        if y < out.len() - 1 {
                            assert(leq(acc[x], acc[y]));
                        } else if x < out.len() - 1 {
                            assert(out[x] == acc[x]);
                            if x < acc.len() - 1 {
                                assert(leq(acc[x], acc[acc.len() - 1]));
                            }
                            assert(pair_le(acc.last(), p));
                        }
                    }
                }
                assert(separated(out)) by {
                    assert forall|i: int| 0 <= i && i + 1 < out.len() implies (
                    #[trigger] out[i]).1 + 1 < out[i + 1].0 by {
                        if i + 1 < acc.len() {
                            assert(acc[i].1 + 1 < acc[i + 1].0);
                        }
                    }
                }
            } else {
                let q = (
                    acc.last().0,
                    if acc.last().1 >= p.1 {
                        acc.last().1
                    } else {
                        p.1
                    },
                );
                let out = acc.update(acc.len() - 1, q);
                assert(out.last() == q);
                assert(sorted_by(out, leq)) by {
                    assert forall|x: int, y: int| 0 <= x < y < out.len() implies #[trigger] leq(
                        out[x],
                        out[y],
                    ) by {
                        assert(leq(acc[x], acc[y]));
                        if y == out.len() - 1 {
                            assert(out[x] == acc[x]);
                        }
                    }
                }
                assert(separated(out)) by {
                    assert forall|i: int| 0 <= i && i + 1 < out.len() implies (
                    #[trigger] out[i]).1 + 1 < out[i + 1].0 by {
                        assert(acc[i].1 + 1 < acc[i + 1].0);
                        if i + 1 < out.len() - 1 {
                            assert(out[i + 1] == acc[i + 1]);
                        }
                    }
                }
                assert(valid_pairs(out)) by {
                    assert forall|i: int| 0 <= i < out.len() implies pair_valid(
                        #[trigger] out[i],
                    ) by {
                        assert(pair_valid(acc[i]));
                    }
                }
            }
        }
    }
}

/// Folding a separated list changes nothing.
proof fn lemma_merge_pass_separated_id(s: Seq<(usize, usize)>)
    requires
        separated(s),
    ensures
        merge_pass(s) == s,
    decreases s.len(),
{
    if s.len() == 0 {
        assert(merge_pass(s) =~= s);
    } else {
        let d = s.drop_last();
        assert(separated(d)) by {
            assert(forall|i: int|
                0 <= i && i + 1 < d.len() ==> (#[trigger] d[i]).1 + 1 < d[i + 1].0);
        }
        lemma_merge_pass_separated_id(d);
        if d.len() == 0 {
            assert(merge_pass(s) =~= s);
        } else {
            assert(d.last() == s[s.len() - 2]);
            assert(s[s.len() - 2].1 + 1 < s.last().0);
            assert(merge_pass(s) == d.push(s.last()));
            assert(d.push(s.last()) =~= s);
        }
    }
}

/// Merging is idempotent: merging an already-merged list of valid ranges
/// yields that list again.
pub proof fn lemma_merge_idempotent(s: Seq<(usize, usize)>)
    requires
        valid_pairs(s),
    ensures
        merged_ranges(merged_ranges(s)) == merged_ranges(s),
{
    lemma_pair_leq_total_ordering();
    let t = s.sort_by(pair_leq());
    s.lemma_sort_by_ensures(pair_leq());
    assert forall|k: int| 0 <= k < t.len() implies pair_valid(#[trigger] t[k]) by {
        assert(t.contains(t[k]));
        if !s.contains(t[k]) {
            assert(!t.contains(t[k]));
        }
        let w = choose|w: int| 0 <= w < s.len() && s[w] == t[k];
        assert(pair_valid(s[w]));
    }
    lemma_merge_pass_props(t);
    let m = merge_pass(t);
    m.lemma_sort_by_ensures(pair_leq());
    lemma_sorted_unique(m.sort_by(pair_leq()), m, pair_leq());
    lemma_merge_pass_separated_id(m);
}

} // verus!
