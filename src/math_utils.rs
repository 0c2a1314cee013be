use vstd::prelude::*;
use vstd::relations::{sorted_by, total_ordering};
use vstd::seq_lib::{lemma_sorted_unique, to_multiset_build, to_multiset_insert};

verus! {

/// The order in which `get_divisor_list` hands back the divisors it found.
pub enum SortOrderType {
    ASCENDING,
    DESCENDING,
    UNSORTED,
}

/// `d` is a positive divisor of `n`.
pub open spec fn is_divisor(d: int, n: int) -> bool {
    1 <= d && n % d == 0
}

/// Every positive divisor of `n`; empty when `n` is not positive.
pub open spec fn divisor_set(n: i128) -> Set<i128> {
    Set::new(|d: i128| 1 <= d <= n && is_divisor(d as int, n as int))
}

/// What the candidate `i` contributes: nothing when it does not divide `n`,
/// else `i` followed by its cofactor `n / i` when the two differ.
pub open spec fn pair_at(n: i128, i: int) -> Seq<i128> {
    if n as int % i != 0 {
        Seq::empty()
    } else if i != n as int / i {
        seq![i as i128, (n as int / i) as i128]
    } else {
        seq![i as i128]
    }
}

/// The divisors found by trying every candidate from `i` on while its square
/// does not exceed `n`, in the order in which they are found.
pub open spec fn trial_pairs(n: i128, i: int) -> Seq<i128>
    decreases n + 1 - i,
{
    if i < 1 || i * i > n {
        Seq::empty()
    } else {
        proof {
            assert(i <= n) by (nonlinear_arith)
                requires
                    1 <= i,
                    i * i <= n,
            ;
        }
        pair_at(n, i) + trial_pairs(n, i + 1)
    }
}

/// The divisors of `n` in discovery order: each small divisor directly
/// followed by its distinct cofactor.
pub open spec fn trial_order(n: i128) -> Seq<i128> {
    trial_pairs(n, 1)
}

/// Collects the divisors of `num` by trial division, in discovery order.
fn collect_by_trial_division(num: i128) -> (v: Vec<i128>)
    requires
        0 < num,
    ensures
        v@ == trial_order(num),
{
    let mut v: Vec<i128> = Vec::new();
    let mut i: i128 = 1;
    while i <= num / i
        invariant
            1 <= i,
            0 < num,
            v@ + trial_pairs(num, i as int) == trial_order(num),
        decreases num + 1 - i,
    {
        proof {
            assert(i * i <= num && i <= num && i < i128::MAX) by (nonlinear_arith)
                requires
                    1 <= i,
                    0 < num,
                    i <= num / i,
                    num <= i128::MAX,
            ;
        }
        let old_v = Ghost(v@);
        if num % i == 0 {
            v.push(i);
            let q: i128 = num / i;
            if i != q {
                v.push(q);
            }
        }
        proof {
            assert(trial_pairs(num, i as int) == pair_at(num, i as int) + trial_pairs(
                num,
                i + 1,
            ));
            assert(v@ =~= old_v@ + pair_at(num, i as int));
            assert(v@ + trial_pairs(num, i + 1) =~= old_v@ + trial_pairs(num, i as int));
        }
        i = i + 1;
    }
    proof {
        assert(i * i > num) by (nonlinear_arith)
            requires
                1 <= i,
                0 < num,
                i > num / i,
        ;
        assert(v@ =~= v@ + trial_pairs(num, i as int));
    }
    v
}

/// The smaller of the divisor `e` of `n` and its cofactor `n / e`: the
/// candidate at which trial division finds `e`.
pub open spec fn smaller_of_pair(n: int, e: int) -> int {
    if e <= n / e {
        e
    } else {
        n / e
    }
}

/// A positive divisor `e` of a positive `n` is paired with the positive
/// divisor `n / e`, whose own cofactor is `e` again.
proof fn lemma_cofactor(n: int, e: int)
    requires
        0 < n,
        is_divisor(e, n),
    ensures
        e <= n,
        1 <= n / e,
        e * (n / e) == n,
        is_divisor(n / e, n),
        n / (n / e) == e,
{
    let q = n / e;
    assert(e * q == n) by (nonlinear_arith)
        requires
            1 <= e,
            n % e == 0,
            q == n / e,
    ;
    assert(1 <= q && e <= n) by (nonlinear_arith)
        requires
            1 <= e,
            0 < n,
            e * q == n,
    ;
    assert(n % q == 0 && n / q == e) by (nonlinear_arith)
        requires
            1 <= e,
            1 <= q,
            e * q == n,
    ;
}

/// The scan from candidate `i` on finds exactly the divisors whose pair
/// starts at `i` or later, each of them once.
proof fn lemma_trial_pairs_members(n: i128, i: int)
    requires
        0 < n,
        1 <= i,
    ensures
        forall|e: i128| #[trigger]
            trial_pairs(n, i).contains(e) <==> is_divisor(e as int, n as int) && i
                <= smaller_of_pair(n as int, e as int),
        trial_pairs(n, i).no_duplicates(),
    decreases n + 1 - i,
{
    let ni = n as int;
    if i * i > ni {
        assert forall|e: i128| is_divisor(e as int, ni) implies smaller_of_pair(ni, e as int)
            < i by {
            lemma_cofactor(ni, e as int);
            let q = ni / e as int;
            if smaller_of_pair(ni, e as int) >= i {
                assert(e * q >= i * i) by (nonlinear_arith)
                    requires
                        e >= i,
                        q >= i,
                        i >= 1,
                ;
            }
        }
    } else {
        assert(i <= ni) by (nonlinear_arith)
            requires
                1 <= i,
                i * i <= ni,
        ;
        lemma_trial_pairs_members(n, i + 1);
        let head = pair_at(n, i);
        let tail = trial_pairs(n, i + 1);
        assert(trial_pairs(n, i) == head + tail);
        if ni % i == 0 {
            lemma_cofactor(ni, i);
            let q = ni / i;
            assert(i <= q) by (nonlinear_arith)
                requires
                    i * i <= ni,
                    i * q == ni,
                    1 <= i,
            ;
            assert(smaller_of_pair(ni, i) == i);
            assert(smaller_of_pair(ni, q) == i);
        }
        assert forall|e: i128| #[trigger]
            head.contains(e) <==> is_divisor(e as int, ni) && smaller_of_pair(ni, e as int)
                == i by {
            if is_divisor(e as int, ni) && smaller_of_pair(ni, e as int) == i {
                lemma_cofactor(ni, e as int);
                if e as int > ni / e as int {
                    assert(head[1] == e);
                } else {
                    assert(head[0] == e);
                }
            }
        }
        assert forall|e: i128| #[trigger]
            trial_pairs(n, i).contains(e) <==> is_divisor(e as int, ni) && i <= smaller_of_pair(
                ni,
                e as int,
            ) by {
            if tail.contains(e) {
                let k = choose|k: int| 0 <= k < tail.len() && tail[k] == e;
                assert((head + tail)[head.len() + k] == e);
            }
            if head.contains(e) {
                let k = choose|k: int| 0 <= k < head.len() && head[k] == e;
                assert((head + tail)[k] == e);
            }
            if (head + tail).contains(e) {
                let k = choose|k: int| 0 <= k < (head + tail).len() && (head + tail)[k] == e;
                if k < head.len() {
                    assert(head.contains(e));
                } else {
                    assert(tail[k - head.len()] == e);
                }
            }
        }
        assert forall|a: int, b: int| 0 <= a < head.len() && 0 <= b < tail.len() implies head[a]
            != tail[b] by {
            assert(head.contains(head[a]));
            assert(tail.contains(tail[b]));
        }
        vstd::seq_lib::lemma_no_dup_in_concat(head, tail);
    }
}

/// The relation that `order` sorts by: `a` may stand before `b`.
pub open spec fn precedes(order: SortOrderType) -> spec_fn(i128, i128) -> bool {
    match order {
        SortOrderType::ASCENDING => |a: i128, b: i128| a <= b,
        SortOrderType::DESCENDING => |a: i128, b: i128| a >= b,
        SortOrderType::UNSORTED => |a: i128, b: i128| true,
    }
}

/// Both sorting orders are total orders on `i128`.
pub proof fn lemma_precedes_total(order: SortOrderType)
    requires
        !(order is UNSORTED),
    ensures
        total_ordering(precedes(order)),
{
    let leq = precedes(order);
    assert(vstd::relations::reflexive(leq));
    assert(vstd::relations::antisymmetric(leq));
    assert(vstd::relations::transitive(leq));
    assert(vstd::relations::strongly_connected(leq));
}

/// Decides whether `a` may stand before `b` under `order`.
fn comes_first(order: &SortOrderType, a: i128, b: i128) -> (r: bool)
    ensures
        r == precedes(*order)(a, b),
{
    match order {
        SortOrderType::ASCENDING => a <= b,
        SortOrderType::DESCENDING => a >= b,
        SortOrderType::UNSORTED => true,
    }
}

/// Sorts `v` by insertion into a fresh vector, in the given order.
fn sort_in_order(v: &mut Vec<i128>, order: &SortOrderType)
    requires
        !(*order is UNSORTED),
    ensures
        final(v)@ == old(v)@.sort_by(precedes(*order)),
{
    let ghost leq = precedes(*order);
    proof {
        lemma_precedes_total(*order);
    }
    let mut sorted: Vec<i128> = Vec::new();
    let mut k: usize = 0;
    assert(sorted@ =~= v@.take(0));
    while k < v.len()
        invariant
            k <= v.len(),
            leq == precedes(*order),
            total_ordering(leq),
            sorted_by(sorted@, leq),
            sorted@.to_multiset() == v@.take(k as int).to_multiset(),
        decreases v.len() - k,
    {
        let x = v[k];
        let mut j: usize = 0;
        while j < sorted.len() && comes_first(order, sorted[j], x)
            invariant
                j <= sorted.len(),
                leq == precedes(*order),
                forall|m: int| 0 <= m < j ==> #[trigger] leq(sorted@[m], x),
            decreases sorted.len() - j,
        {
            j = j + 1;
        }
        let ghost before = sorted@;
        sorted.insert(j, x);
        proof {
            assert forall|p: int, q: int| 0 <= p < q < sorted@.len() implies #[trigger] leq(
                sorted@[p],
                sorted@[q],
            ) by {
                if j < before.len() {
                    assert(!leq(before[j as int], x));
                    assert(leq(x, before[j as int]));
                }
                if p < j && q > j {
                    assert(leq(before[p], x));
                    assert(leq(x, before[q - 1])) by {
                        if q - 1 > j {
                            assert(leq(before[j as int], before[q - 1]));
                        }
                    }
                } else if p == j && q > j {
                    if q - 1 > j {
                        assert(leq(before[j as int], before[q - 1]));
                    }
                } else if p < j && q == j {
                } else if p < j && q < j {
                    assert(leq(before[p], before[q]));
                } else {
                    assert(leq(before[p - 1], before[q - 1]));
                }
            }
            to_multiset_insert(before, j as int, x);
            assert(v@.take(k + 1) =~= v@.take(k as int).push(x));
            to_multiset_build(v@.take(k as int), x);
        }
        k = k + 1;
    }
    proof {
        assert(v@.take(k as int) =~= v@);
        v@.lemma_sort_by_ensures(leq);
        lemma_sorted_unique(sorted@, v@.sort_by(leq), leq);
    }
    *v = sorted;
}

/// What `get_divisor_list(n, order)` returns: the discovery order itself,
/// or that order sorted by the relation `order` names.
pub open spec fn divisor_list(n: i128, order: SortOrderType) -> Seq<i128> {
    match order {
        SortOrderType::UNSORTED => trial_order(n),
        _ => trial_order(n).sort_by(precedes(order)),
    }
}

/// Discovery order holds each positive divisor of `n` exactly once.
proof fn lemma_trial_order_members(n: i128)
    ensures
        forall|e: i128| #[trigger] trial_order(n).contains(e) <==> divisor_set(n).contains(e),
        trial_order(n).no_duplicates(),
{
    if n <= 0 {
        assert(trial_order(n) =~= Seq::empty());
    } else {
        lemma_trial_pairs_members(n, 1);
        assert forall|e: i128| is_divisor(e as int, n as int) implies 1 <= smaller_of_pair(
            n as int,
            e as int,
        ) && e <= n by {
            lemma_cofactor(n as int, e as int);
        }
    }
}

/// Two sequences that are permutations of each other hold the same elements,
/// and one is free of duplicates when the other is.
proof fn lemma_permutation_members(a: Seq<i128>, b: Seq<i128>)
    requires
        a.to_multiset() == b.to_multiset(),
        a.no_duplicates(),
    ensures
        forall|e: i128| #[trigger] b.contains(e) <==> a.contains(e),
        b.no_duplicates(),
{
    broadcast use vstd::seq_lib::group_to_multiset_ensures;

    a.lemma_multiset_has_no_duplicates();
    b.lemma_multiset_has_no_duplicates_conv();
    assert forall|e: i128| #[trigger] b.contains(e) <==> a.contains(e) by {
        vstd::seq_lib::to_multiset_contains(a, e);
        vstd::seq_lib::to_multiset_contains(b, e);
    }
}

/// Each ordering holds each positive divisor of `n` exactly once.
proof fn lemma_divisor_list_members(n: i128, order: SortOrderType)
    ensures
        forall|e: i128| #[trigger]
            divisor_list(n, order).contains(e) <==> divisor_set(n).contains(e),
        divisor_list(n, order).no_duplicates(),
{
    lemma_trial_order_members(n);
    if !(order is UNSORTED) {
        lemma_precedes_total(order);
        trial_order(n).lemma_sort_by_ensures(precedes(order));
        lemma_permutation_members(trial_order(n), divisor_list(n, order));
    }
}

/// Every element of the divisor list of `n`, in any order, divides `n` with
/// no remainder.
pub proof fn lemma_divisor_list_divides(n: i128, order: SortOrderType)
    ensures
        forall|k: int|
            0 <= k < divisor_list(n, order).len() ==> #[trigger] is_divisor(
                divisor_list(n, order)[k] as int,
                n as int,
            ),
{
    lemma_divisor_list_members(n, order);
    assert forall|k: int| 0 <= k < divisor_list(n, order).len() implies #[trigger] is_divisor(
        divisor_list(n, order)[k] as int,
        n as int,
    ) by {
        assert(divisor_list(n, order).contains(divisor_list(n, order)[k]));
    }
}

/// The divisor list of `n`, in any order, holds every positive divisor of `n`
/// and nothing else, each exactly once.
pub proof fn lemma_divisor_list_complete(n: i128, order: SortOrderType)
    ensures
        divisor_list(n, order).to_set() == divisor_set(n),
        divisor_list(n, order).no_duplicates(),
{
    lemma_divisor_list_members(n, order);
    assert(divisor_list(n, order).to_set() =~= divisor_set(n));
}

/// The ascending list strictly increases and the descending list strictly
/// decreases.
pub proof fn lemma_divisor_list_sorted(n: i128)
    ensures
        forall|a: int, b: int|
            0 <= a < b < divisor_list(n, SortOrderType::ASCENDING).len() ==> #[trigger] divisor_list(
                n,
                SortOrderType::ASCENDING,
            )[a] < #[trigger] divisor_list(n, SortOrderType::ASCENDING)[b],
        forall|a: int, b: int|
            0 <= a < b < divisor_list(n, SortOrderType::DESCENDING).len() ==> #[trigger] divisor_list(
                n,
                SortOrderType::DESCENDING,
            )[a] > #[trigger] divisor_list(n, SortOrderType::DESCENDING)[b],
{
    lemma_divisor_list_members(n, SortOrderType::ASCENDING);
    lemma_divisor_list_members(n, SortOrderType::DESCENDING);
    lemma_precedes_total(SortOrderType::ASCENDING);
    lemma_precedes_total(SortOrderType::DESCENDING);
    trial_order(n).lemma_sort_by_ensures(precedes(SortOrderType::ASCENDING));
    trial_order(n).lemma_sort_by_ensures(precedes(SortOrderType::DESCENDING));
    let up = divisor_list(n, SortOrderType::ASCENDING);
    let down = divisor_list(n, SortOrderType::DESCENDING);
    assert forall|a: int, b: int| 0 <= a < b < up.len() implies #[trigger] up[a] < #[trigger] up[b] by {
        assert(precedes(SortOrderType::ASCENDING)(up[a], up[b]));
    }
    assert forall|a: int, b: int| 0 <= a < b < down.len() implies #[trigger] down[a]
        > #[trigger] down[b] by {
        assert(precedes(SortOrderType::DESCENDING)(down[a], down[b]));
    }
}

/// The three orderings of the divisors of `n` are permutations of one another.
pub proof fn lemma_divisor_list_permutations(n: i128)
    ensures
        divisor_list(n, SortOrderType::ASCENDING).to_multiset() == divisor_list(
            n,
            SortOrderType::UNSORTED,
        ).to_multiset(),
        divisor_list(n, SortOrderType::DESCENDING).to_multiset() == divisor_list(
            n,
            SortOrderType::UNSORTED,
        ).to_multiset(),
        divisor_list(n, SortOrderType::ASCENDING).to_multiset() == divisor_list(
            n,
            SortOrderType::DESCENDING,
        ).to_multiset(),
{
    lemma_precedes_total(SortOrderType::ASCENDING);
    lemma_precedes_total(SortOrderType::DESCENDING);
    trial_order(n).lemma_sort_by_ensures(precedes(SortOrderType::ASCENDING));
    trial_order(n).lemma_sort_by_ensures(precedes(SortOrderType::DESCENDING));
}

/// A number that is not positive has no divisors to list, in any order.
pub proof fn lemma_divisor_list_nonpositive(n: i128, order: SortOrderType)
    requires
        n <= 0,
    ensures
        divisor_list(n, order) == Seq::<i128>::empty(),
{
    assert(trial_order(n) =~= Seq::empty());
    if !(order is UNSORTED) {
        lemma_precedes_total(order);
        trial_order(n).lemma_sort_by_ensures(precedes(order));
        vstd::seq_lib::to_multiset_len(trial_order(n));
        vstd::seq_lib::to_multiset_len(divisor_list(n, order));
        assert(divisor_list(n, order) =~= Seq::empty());
    }
}

/// Returns the positive divisors of `num`, each once, in the order that
/// `order_type` asks for; a `num` that is not positive has none.
///
/// `UNSORTED` keeps the order of discovery by trial division: each divisor
/// up to the square root, directly followed by its cofactor when that differs.
pub fn get_divisor_list(num: i128, order_type: SortOrderType) -> (r: Vec<i128>)
    ensures
        r@ == divisor_list(num, order_type),
        forall|k: int| 0 <= k < r@.len() ==> #[trigger] is_divisor(r@[k] as int, num as int),
        r@.to_set() == divisor_set(num),
        r@.no_duplicates(),
        num <= 0 ==> r@ == Seq::<i128>::empty(),
        order_type is ASCENDING ==> forall|a: int, b: int|
            0 <= a < b < r@.len() ==> #[trigger] r@[a] < #[trigger] r@[b],
        order_type is DESCENDING ==> forall|a: int, b: int|
            0 <= a < b < r@.len() ==> #[trigger] r@[a] > #[trigger] r@[b],
        order_type is UNSORTED ==> r@ == trial_order(num),
{
    proof {
        lemma_divisor_list_divides(num, order_type);
        lemma_divisor_list_complete(num, order_type);
        lemma_divisor_list_sorted(num);
        if num <= 0 {
            lemma_divisor_list_nonpositive(num, order_type);
        }
    }
    if num <= 0 {
        return Vec::new();
    }
    let mut v = collect_by_trial_division(num);
    match order_type {
        SortOrderType::ASCENDING => sort_in_order(&mut v, &order_type),
        SortOrderType::DESCENDING => sort_in_order(&mut v, &order_type),
        SortOrderType::UNSORTED => {},
    }
    v
}

} // verus!
