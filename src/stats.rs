//! Median and mode of a list of integers.
use vstd::prelude::*;
use vstd::relations::{sorted_by, total_ordering};

verus! {

/// The median of a list: none for an empty list, one value, or the two middle values of an
/// even-length list where they differ.
#[derive(Clone, Copy, Debug, PartialEq, Eq, Structural)]
pub enum Median {
    Empty,
    One(i32),
    Two(i32, i32),
}

/// The usual order of integers, as a relation.
pub open spec fn num_order() -> spec_fn(i32, i32) -> bool {
    |a: i32, b: i32| a <= b
}

/// The median of `s`, taken from `s` in ascending order.
pub open spec fn median_spec(s: Seq<i32>) -> Median {
    let t = s.sort_by(num_order());
    let n = t.len() as int;
    if n == 0 {
        Median::Empty
    } else if n % 2 == 1 {
        Median::One(t[n / 2])
    } else if t[n / 2 - 1] == t[n / 2] {
        Median::One(t[n / 2])
    } else {
        Median::Two(t[n / 2 - 1], t[n / 2])
    }
}

/// How many times `x` occurs in `s`.
pub open spec fn occurrences(s: Seq<i32>, x: i32) -> nat
    decreases s.len(),
{
    if s.len() == 0 {
        0
    } else {
        occurrences(s.drop_last(), x) + if s.last() == x {
            1nat
        } else {
            0nat
        }
    }
}

/// `x` occurs in `s`, and no value occurs more often.
pub open spec fn is_mode(s: Seq<i32>, x: i32) -> bool {
    s.contains(x) && forall|y: i32| occurrences(s, y) <= #[trigger] occurrences(s, x)
}

/// `<=` on integers is a total order.
pub proof fn lemma_num_order_total()
    ensures
        total_ordering(num_order()),
{
}

/// `s` in ascending order.
fn sorted_copy(s: &Vec<i32>) -> (r: Vec<i32>)
    ensures
        r@ == s@.sort_by(num_order()),
{
    let mut out: Vec<i32> = Vec::new();
    let mut i: usize = 0;
    assert(s@.take(0) =~= Seq::<i32>::empty());
    while i < s.len()
        invariant
            i <= s.len(),
            sorted_by(out@, num_order()),
            out@.to_multiset() == s@.take(i as int).to_multiset(),
        decreases s.len() - i,
    {
        let x = s[i];
        let mut p: usize = 0;
        while p < out.len() && out[p] < x
            invariant
                p <= out.len(),
                forall|k: int| 0 <= k < p ==> out@[k] < x,
            decreases out.len() - p,
        {
            p = p + 1;
        }
        let ghost before = out@;
        out.insert(p, x);
        proof {
            assert(s@.take(i + 1) =~= s@.take(i as int).push(x));
            vstd::seq_lib::to_multiset_insert(before, p as int, x);
            vstd::seq_lib::to_multiset_build(s@.take(i as int), x);
            assert forall|a: int, b: int| 0 <= a < b < out@.len() implies #[trigger] num_order()(
                out@[a],
                out@[b],
            ) by {
                if b < p {
                    assert(num_order()(before[a], before[b]));
                } else if a < p && b == p {
                } else if a < p {
                    assert(num_order()(before[a], before[b - 1]));
                } else if a == p {
                    if b - 1 > p {
                        assert(num_order()(before[p as int], before[b - 1]));
                    }
                } else {
                    assert(num_order()(before[a - 1], before[b - 1]));
                }
            }
        }
        i = i + 1;
    }
    proof {
        assert(s@.take(s.len() as int) =~= s@);
        lemma_num_order_total();
        s@.lemma_sort_by_ensures(num_order());
        vstd::seq_lib::lemma_sorted_unique(out@, s@.sort_by(num_order()), num_order());
    }
    out
}

/// The median of `v`.
pub fn calc_median(v: &Vec<i32>) -> (r: Median)
    ensures
        r == median_spec(v@),
{
    let numbers = sorted_copy(v);
    let n = numbers.len();
    proof {
        v@.lemma_sort_by_ensures(num_order());
    }
    if n == 0 {
        Median::Empty
    } else if n % 2 == 1 {
        Median::One(numbers[n / 2])
    } else if numbers[n / 2 - 1] == numbers[n / 2] {
        Median::One(numbers[n / 2])
    } else {
        Median::Two(numbers[n / 2 - 1], numbers[n / 2])
    }
}

proof fn lemma_occurrences_absent(s: Seq<i32>, x: i32)
    requires
        !s.contains(x),
    ensures
        occurrences(s, x) == 0,
    decreases s.len(),
{
    if s.len() > 0 {
        assert(!s.drop_last().contains(x)) by {
            if s.drop_last().contains(x) {
                let k = choose|k: int| 0 <= k < s.drop_last().len() && s.drop_last()[k] == x;
                assert(s[k] == x);
            }
        }
        lemma_occurrences_absent(s.drop_last(), x);
    }
}

/// How many times `x` occurs in `v`.
fn count_of(v: &Vec<i32>, x: i32) -> (r: usize)
    ensures
        r == occurrences(v@, x),
{
    let mut c: usize = 0;
    let mut i: usize = 0;
    assert(v@.take(0) =~= Seq::<i32>::empty());
    while i < v.len()
        invariant
            i <= v.len(),
            c <= i,
            c == occurrences(v@.take(i as int), x),
        decreases v.len() - i,
    {
        assert(v@.take(i + 1).drop_last() =~= v@.take(i as int));
        if v[i] == x {
            c = c + 1;
        }
        i = i + 1;
    }
    assert(v@.take(v.len() as int) =~= v@);
    c
}

/// The values that occur most often in `v`, in ascending order, each once.
pub fn calc_mode(v: &Vec<i32>) -> (r: Vec<i32>)
    ensures
        forall|i: int, j: int| 0 <= i < j < r@.len() ==> r@[i] < r@[j],
        forall|x: i32| r@.contains(x) <==> is_mode(v@, x),
{
    let n = v.len();
    let mut counts: Vec<usize> = Vec::new();
    let mut max_count: usize = 0;
    let mut i: usize = 0;
    let ghost mut top: int = 0;
    while i < n
        invariant
            n == v.len(),
            i <= n,
            counts@.len() == i,
            forall|k: int| 0 <= k < i ==> counts@[k] == occurrences(v@, #[trigger] v@[k]),
            forall|k: int| 0 <= k < i ==> counts@[k] <= max_count,
            i == 0 ==> max_count == 0,
            i > 0 ==> 0 <= top < i && counts@[top] == max_count,
        decreases n - i,
    {
        let c = count_of(v, v[i]);
        counts.push(c);
        if c > max_count || i == 0 {
            max_count = c;
            proof {
                top = i as int;
            }
        }
        assert(counts@[i as int] == c);
        i = i + 1;
    }
    let mut modes: Vec<i32> = Vec::new();
    let mut i: usize = 0;
    while i < n
        invariant
            n == v.len(),
            i <= n,
            counts@.len() == n,
            forall|k: int| 0 <= k < n ==> counts@[k] == occurrences(v@, #[trigger] v@[k]),
            forall|k: int| 0 <= k < n ==> counts@[k] <= max_count,
            n > 0 ==> 0 <= top < n && counts@[top] == max_count,
            forall|a: int, b: int| 0 <= a < b < modes@.len() ==> modes@[a] < modes@[b],
            forall|x: i32|
                modes@.contains(x) <==> exists|k: int|
                    0 <= k < i && v@[k] == x && #[trigger] counts@[k] == max_count,
        decreases n - i,
    {
        if counts[i] == max_count {
            let x = v[i];
            let mut p: usize = 0;
            while p < modes.len() && modes[p] < x
                invariant
                    p <= modes.len(),
                    forall|k: int| 0 <= k < p ==> modes@[k] < x,
                decreases modes.len() - p,
            {
                p = p + 1;
            }
            if p == modes.len() || modes[p] != x {
                let ghost before = modes@;
                modes.insert(p, x);
                proof {
                    assert forall|y: i32| modes@.contains(y) <==> (before.contains(y) || y == x) by {
                        if modes@.contains(y) {
                            let k = choose|k: int| 0 <= k < modes@.len() && modes@[k] == y;
                            if k < p {
                                assert(before[k] == y);
                            } else if k > p {
                                assert(before[k - 1] == y);
                            }
                        }
                        if before.contains(y) {
                            let k = choose|k: int| 0 <= k < before.len() && before[k] == y;
                            if k < p {
                                assert(modes@[k] == y);
                            } else {
                                assert(modes@[k + 1] == y);
                            }
                        }
                        if y == x {
                            assert(modes@[p as int] == y);
                        }
                    }
                    assert forall|a: int, b: int| 0 <= a < b < modes@.len() implies modes@[a]
                        < modes@[b] by {
                        if b < p {
                        } else if a < p && b == p {
                        } else if a < p {
                            assert(modes@[b] == before[b - 1]);
                        } else if a == p {
                            assert(modes@[b] == before[b - 1]);
                            if b - 1 > p {
                                assert(before[p as int] < before[b - 1]);
                            }
                        } else {
                            assert(modes@[a] == before[a - 1]);
                            assert(modes@[b] == before[b - 1]);
                        }
                    }
                    assert forall|y: i32|
                        modes@.contains(y) <==> exists|k: int|
                            0 <= k < i + 1 && v@[k] == y && #[trigger] counts@[k] == max_count by {
                        if y == x {
                            assert(modes@[p as int] == y);
                            assert(modes@.contains(y));
                            assert(0 <= i < i + 1 && v@[i as int] == y && counts@[i as int]
                                == max_count);
                        } else {
                            assert(modes@.contains(y) <==> before.contains(y));
                            if before.contains(y) {
                                let k = choose|k: int|
                                    0 <= k < i && v@[k] == y && #[trigger] counts@[k] == max_count;
                                assert(0 <= k < i + 1 && v@[k] == y && counts@[k] == max_count);
                            }
                            if exists|k: int|
                                0 <= k < i + 1 && v@[k] == y && #[trigger] counts@[k] == max_count {
                                let k = choose|k: int|
                                    0 <= k < i + 1 && v@[k] == y && #[trigger] counts@[k]
                                        == max_count;
                                assert(k != i);
                                assert(0 <= k < i && v@[k] == y && counts@[k] == max_count);
                            }
                        }
                    }
                }
            } else {
                assert(modes@[p as int] == x);
                assert forall|y: i32|
                    modes@.contains(y) <==> exists|k: int|
                        0 <= k < i + 1 && v@[k] == y && #[trigger] counts@[k] == max_count by {
                    if modes@.contains(y) {
                        let k = choose|k: int|
                            0 <= k < i && v@[k] == y && #[trigger] counts@[k] == max_count;
                        assert(0 <= k < i + 1 && v@[k] == y && counts@[k] == max_count);
                    }
                    if exists|k: int|
                        0 <= k < i + 1 && v@[k] == y && #[trigger] counts@[k] == max_count {
                        let k = choose|k: int|
                            0 <= k < i + 1 && v@[k] == y && #[trigger] counts@[k] == max_count;
                        if k == i {
                            assert(modes@.contains(y));
                        } else {
                            assert(0 <= k < i && v@[k] == y && counts@[k] == max_count);
                        }
                    }
                }
            }
        } else {
            assert forall|y: i32|
                modes@.contains(y) <==> exists|k: int|
                    0 <= k < i + 1 && v@[k] == y && #[trigger] counts@[k] == max_count by {
                if modes@.contains(y) {
                    let k = choose|k: int|
                        0 <= k < i && v@[k] == y && #[trigger] counts@[k] == max_count;
                    assert(0 <= k < i + 1 && v@[k] == y && counts@[k] == max_count);
                }
                if exists|k: int| 0 <= k < i + 1 && v@[k] == y && #[trigger] counts@[k] == max_count {
                    let k = choose|k: int|
                        0 <= k < i + 1 && v@[k] == y && #[trigger] counts@[k] == max_count;
                    assert(k != i);
                    assert(0 <= k < i && v@[k] == y && counts@[k] == max_count);
                }
            }
        }
        i = i + 1;
    }
    proof {
        assert forall|x: i32| modes@.contains(x) <==> is_mode(v@, x) by {
            if modes@.contains(x) {
                let k = choose|k: int| 0 <= k < n && v@[k] == x && #[trigger] counts@[k] == max_count;
                assert forall|y: i32| occurrences(v@, y) <= #[trigger] occurrences(v@, x) by {
                    if v@.contains(y) {
                        let j = choose|j: int| 0 <= j < n && v@[j] == y;
                        assert(counts@[j] == occurrences(v@, v@[j]));
                    } else {
                        lemma_occurrences_absent(v@, y);
                    }
                }
                assert(v@[k] == x);
            }
            if is_mode(v@, x) {
                let k = choose|k: int| 0 <= k < n && v@[k] == x;
                let m = top;
                assert(counts@[m] == occurrences(v@, v@[m]));
                assert(occurrences(v@, v@[m]) <= occurrences(v@, x));
                assert(counts@[k] == occurrences(v@, v@[k]));
                assert(counts@[k] == max_count);
            }
        }
    }
    modes
}

} // verus!
