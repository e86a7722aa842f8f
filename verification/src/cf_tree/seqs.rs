//! Sums and selections over sequences, used to account for the sizes of
//! cluster features in the tree.

use vstd::prelude::*;

verus! {

/// Sum of a sequence of naturals.
pub open spec fn sum_nat(s: Seq<nat>) -> nat
    decreases s.len(),
{
    if s.len() == 0 {
        0
    } else {
        sum_nat(s.drop_last()) + s.last()
    }
}

/// The elements of `s` whose mask entry equals `b`, in order.
pub open spec fn select<T>(s: Seq<T>, mask: Seq<bool>, b: bool) -> Seq<T>
    decreases s.len(),
{
    if s.len() == 0 {
        Seq::empty()
    } else {
        let rest = select(s.drop_last(), mask.subrange(0, s.len() - 1), b);
        if s.len() <= mask.len() && mask[s.len() - 1] == b {
            rest.push(s.last())
        } else {
            rest
        }
    }
}

pub proof fn lemma_sum_push(s: Seq<nat>, x: nat)
    ensures
        sum_nat(s.push(x)) == sum_nat(s) + x,
{
    assert(s.push(x).drop_last() =~= s);
}

pub proof fn lemma_sum_ge_elem(s: Seq<nat>, i: int)
    requires
        0 <= i < s.len(),
    ensures
        s[i] <= sum_nat(s),
    decreases s.len(),
{
    if i < s.len() - 1 {
        lemma_sum_ge_elem(s.drop_last(), i);
    }
}

pub proof fn lemma_sum_ge_two(s: Seq<nat>, i: int, j: int)
    requires
        0 <= i < s.len(),
        0 <= j < s.len(),
        i != j,
    ensures
        s[i] + s[j] <= sum_nat(s),
    decreases s.len(),
{
    let last = s.len() - 1;
    if i == last {
        lemma_sum_ge_elem(s.drop_last(), j);
    } else if j == last {
        lemma_sum_ge_elem(s.drop_last(), i);
    } else {
        lemma_sum_ge_two(s.drop_last(), i, j);
    }
}

pub proof fn lemma_sum_update(s: Seq<nat>, i: int, v: nat)
    requires
        0 <= i < s.len(),
    ensures
        sum_nat(s.update(i, v)) + s[i] == sum_nat(s) + v,
    decreases s.len(),
{
    let last = s.len() - 1;
    if i == last {
        assert(s.update(i, v).drop_last() =~= s.drop_last());
    } else {
        assert(s.update(i, v).drop_last() =~= s.drop_last().update(i, v));
        lemma_sum_update(s.drop_last(), i, v);
    }
}

pub proof fn lemma_sum_prefix_le(s: Seq<nat>, k: int)
    requires
        0 <= k <= s.len(),
    ensures
        sum_nat(s.subrange(0, k)) <= sum_nat(s),
    decreases s.len() - k,
{
    if k < s.len() {
        lemma_sum_prefix_le(s, k + 1);
        assert(s.subrange(0, k + 1).drop_last() =~= s.subrange(0, k));
    } else {
        assert(s.subrange(0, k) =~= s);
    }
}

pub proof fn lemma_sum_prefix_step(s: Seq<nat>, k: int)
    requires
        0 <= k < s.len(),
    ensures
        sum_nat(s.subrange(0, k + 1)) == sum_nat(s.subrange(0, k)) + s[k],
{
    assert(s.subrange(0, k + 1).drop_last() =~= s.subrange(0, k));
}

pub proof fn lemma_select_map<A, B>(s: Seq<A>, mask: Seq<bool>, b: bool, f: spec_fn(A) -> B)
    ensures
        select(s, mask, b).map_values(f) == select(s.map_values(f), mask, b),
    decreases s.len(),
{
    if s.len() > 0 {
        lemma_select_map(s.drop_last(), mask.subrange(0, s.len() - 1), b, f);
        assert(s.map_values(f).drop_last() =~= s.drop_last().map_values(f));
        let rest = select(s.drop_last(), mask.subrange(0, s.len() - 1), b);
        assert(rest.push(s.last()).map_values(f) =~= rest.map_values(f).push(f(s.last())));
    }
    assert(select(s, mask, b).map_values(f) =~= select(s.map_values(f), mask, b));
}

pub proof fn lemma_select_sum(s: Seq<nat>, mask: Seq<bool>)
    requires
        mask.len() == s.len(),
    ensures
        sum_nat(select(s, mask, true)) + sum_nat(select(s, mask, false)) == sum_nat(s),
    decreases s.len(),
{
    if s.len() > 0 {
        lemma_select_sum(s.drop_last(), mask.subrange(0, s.len() - 1));
        let r1 = select(s.drop_last(), mask.subrange(0, s.len() - 1), true);
        let r2 = select(s.drop_last(), mask.subrange(0, s.len() - 1), false);
        lemma_sum_push(r1, s.last());
        lemma_sum_push(r2, s.last());
    }
}

pub proof fn lemma_select_contains<T>(s: Seq<T>, mask: Seq<bool>, b: bool, x: T)
    requires
        mask.len() == s.len(),
    ensures
        select(s, mask, b).contains(x) <==> exists|k: int|
            0 <= k < s.len() && s[k] == x && mask[k] == b,
    decreases s.len(),
{
    if s.len() > 0 {
        let m2 = mask.subrange(0, s.len() - 1);
        lemma_select_contains(s.drop_last(), m2, b, x);
        let rest = select(s.drop_last(), m2, b);
        if select(s, mask, b).contains(x) {
            if rest.contains(x) {
                let k = choose|k: int| 0 <= k < s.len() - 1 && s.drop_last()[k] == x && m2[k] == b;
                assert(s[k] == x && mask[k] == b);
            } else {
                assert(mask[s.len() - 1] == b);
                assert(rest.push(s.last()).contains(x));
                let k = choose|k: int| 0 <= k < rest.len() + 1 && rest.push(s.last())[k] == x;
                assert(k == rest.len());
                assert(s[s.len() - 1] == x);
            }
        }
        if exists|k: int| 0 <= k < s.len() && s[k] == x && mask[k] == b {
            let k = choose|k: int| 0 <= k < s.len() && s[k] == x && mask[k] == b;
            if k < s.len() - 1 {
                assert(s.drop_last()[k] == x && m2[k] == b);
                assert(rest.contains(x));
                if mask[s.len() - 1] == b {
                    let j = choose|j: int| 0 <= j < rest.len() && rest[j] == x;
                    assert(rest.push(s.last())[j] == x);
                }
            } else {
                assert(rest.push(s.last())[rest.len() as int] == x);
            }
        }
    }
}

pub proof fn lemma_select_no_dup<T>(s: Seq<T>, mask: Seq<bool>, b: bool)
    requires
        mask.len() == s.len(),
        s.no_duplicates(),
    ensures
        select(s, mask, b).no_duplicates(),
    decreases s.len(),
{
    if s.len() > 0 {
        let m2 = mask.subrange(0, s.len() - 1);
        let rest = select(s.drop_last(), m2, b);
        lemma_select_no_dup(s.drop_last(), m2, b);
        if mask[s.len() - 1] == b {
            lemma_select_contains(s.drop_last(), m2, b, s.last());
            assert(!rest.contains(s.last()));
            let r = rest.push(s.last());
            assert forall|i: int, j: int| 0 <= i < j < r.len() implies r[i] != r[j] by {
                if j == r.len() - 1 {
                    assert(rest.contains(rest[i]));
                }
            }
        }
    }
}

pub proof fn lemma_select_len<T>(s: Seq<T>, mask: Seq<bool>)
    requires
        mask.len() == s.len(),
    ensures
        select(s, mask, true).len() + select(s, mask, false).len() == s.len(),
    decreases s.len(),
{
    if s.len() > 0 {
        lemma_select_len(s.drop_last(), mask.subrange(0, s.len() - 1));
    }
}

pub proof fn lemma_select_prefix<T>(s: Seq<T>, mask: Seq<bool>, b: bool, k: int)
    requires
        mask.len() == s.len(),
        0 <= k < s.len(),
    ensures
        select(s.subrange(0, k + 1), mask.subrange(0, k + 1), b) == if mask[k] == b {
            select(s.subrange(0, k), mask.subrange(0, k), b).push(s[k])
        } else {
            select(s.subrange(0, k), mask.subrange(0, k), b)
        },
{
    assert(s.subrange(0, k + 1).drop_last() =~= s.subrange(0, k));
    assert(mask.subrange(0, k + 1).subrange(0, k) =~= mask.subrange(0, k));
}

/// Removing an element takes it off the sum.
pub proof fn lemma_sum_remove(s: Seq<nat>, i: int)
    requires
        0 <= i < s.len(),
    ensures
        sum_nat(s.remove(i)) + s[i] == sum_nat(s),
    decreases s.len(),
{
    let last = s.len() - 1;
    if i == last {
        assert(s.remove(i) =~= s.drop_last());
    } else {
        assert(s.remove(i).drop_last() =~= s.drop_last().remove(i));
        lemma_sum_remove(s.drop_last(), i);
    }
}

/// Indices below `n` without repetition number at most `n`, and exactly
/// `n` when all of them occur.
pub proof fn lemma_index_count(s: Seq<usize>, n: nat)
    requires
        s.no_duplicates(),
        n <= usize::MAX,
        forall|i: int| 0 <= i < s.len() ==> (s[i] as int) < n,
    ensures
        s.len() <= n,
        (forall|x: usize| (x as int) < n ==> s.contains(x)) ==> s.len() == n,
    decreases n,
{
    if n == 0 {
        if s.len() > 0 {
            assert((s[0] as int) < 0);
        }
    } else {
        let top = (n - 1) as usize;
        if s.contains(top) {
            let j = choose|j: int| 0 <= j < s.len() && s[j] == top;
            let t = s.remove(j);
            assert forall|i: int| 0 <= i < t.len() implies (t[i] as int) < n - 1 by {
                if i < j {
                    assert(t[i] == s[i]);
                } else {
                    assert(t[i] == s[i + 1]);
                }
            }
            assert(t.no_duplicates()) by {
                assert forall|a: int, b: int| 0 <= a < b < t.len() implies t[a] != t[b] by {
                    let a2 = if a < j { a } else { a + 1 };
                    let b2 = if b < j { b } else { b + 1 };
                    assert(t[a] == s[a2] && t[b] == s[b2]);
                }
            }
            lemma_index_count(t, (n - 1) as nat);
            if forall|x: usize| (x as int) < n ==> s.contains(x) {
                assert forall|x: usize| (x as int) < n - 1 implies t.contains(x) by {
                    assert(s.contains(x));
                    let k = choose|k: int| 0 <= k < s.len() && s[k] == x;
                    assert(k != j);
                    if k < j {
                        assert(t[k] == x);
                    } else {
                        assert(t[k - 1] == x);
                    }
                }
            }
        } else {
            assert forall|i: int| 0 <= i < s.len() implies (s[i] as int) < n - 1 by {
                assert(s.contains(s[i]));
            }
            lemma_index_count(s, (n - 1) as nat);
        }
    }
}

/// Summing `sizes` in the order of a permutation of its indices gives its
/// sum.
pub proof fn lemma_sum_permuted(s: Seq<usize>, sizes: Seq<nat>)
    requires
        s.no_duplicates(),
        sizes.len() <= usize::MAX,
        forall|x: usize| #[trigger] s.contains(x) <==> (x as int) < sizes.len(),
    ensures
        sum_nat(s.map_values(|i: usize| sizes[i as int])) == sum_nat(sizes),
    decreases sizes.len(),
{
    let f = |i: usize| sizes[i as int];
    if sizes.len() == 0 {
        if s.len() > 0 {
            assert(s.contains(s[0]));
        }
        assert(s.map_values(f) =~= Seq::<nat>::empty());
    } else {
        let n = sizes.len();
        let top = (n - 1) as usize;
        assert(s.contains(top));
        let j = choose|j: int| 0 <= j < s.len() && s[j] == top;
        let t = s.remove(j);
        let rest = sizes.drop_last();
        assert(t.no_duplicates()) by {
            assert forall|a: int, b: int| 0 <= a < b < t.len() implies t[a] != t[b] by {
                let a2 = if a < j { a } else { a + 1 };
                let b2 = if b < j { b } else { b + 1 };
                assert(t[a] == s[a2] && t[b] == s[b2]);
            }
        }
        assert forall|x: usize| #[trigger] t.contains(x) <==> (x as int) < rest.len() by {
            if t.contains(x) {
                let k = choose|k: int| 0 <= k < t.len() && t[k] == x;
                let k2 = if k < j { k } else { k + 1 };
                assert(s[k2] == x);
                assert(s.contains(x));
                assert(k2 != j);
            }
            if (x as int) < rest.len() {
                assert(s.contains(x));
                let k = choose|k: int| 0 <= k < s.len() && s[k] == x;
                assert(k != j);
                if k < j {
                    assert(t[k] == x);
                } else {
                    assert(t[k - 1] == x);
                }
            }
        }
        lemma_sum_permuted(t, rest);
        let g = |i: usize| rest[i as int];
        assert(t.map_values(g) =~= t.map_values(f)) by {
            assert forall|k: int| 0 <= k < t.len() implies (t[k] as int) < rest.len() by {
                assert(t.contains(t[k]));
            }
        }
        assert(s.map_values(f).remove(j) =~= t.map_values(f));
        lemma_sum_remove(s.map_values(f), j);
        assert(sizes.drop_last() =~= rest);
    }
}

} // verus!
