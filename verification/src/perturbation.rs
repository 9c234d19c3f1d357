use vstd::prelude::*;

verus! {

broadcast use vstd::function::group_function_axioms;

/// Enumerator of the `k`-element subsets of `0..n`, each held as a strictly
/// increasing list of indices and visited in lexicographic order.
pub struct Index {
    n: usize,
    curr_indices: Vec<usize>,
}

/// `c` lists a subset of `0..n` in strictly increasing order.
pub open spec fn is_combination(c: Seq<usize>, n: int) -> bool {
    &&& forall|j: int| 0 <= j < c.len() ==> #[trigger] c[j] < n
    &&& forall|i: int, j: int| 0 <= i < j < c.len() ==> c[i] < c[j]
}

/// The lexicographically least `k`-subset: `0, 1, ..., k-1`.
pub open spec fn first_combination(k: int) -> Seq<usize> {
    Seq::new(k as nat, |j: int| j as usize)
}

/// The lexicographically greatest `k`-subset of `0..n`: `n-k, ..., n-1`.
pub open spec fn last_combination(n: int, k: int) -> Seq<usize> {
    Seq::new(k as nat, |j: int| (n - k + j) as usize)
}

/// Searching down from position `i`, the first position whose entry lies
/// below the largest value that position can hold; `-1` if there is none.
pub open spec fn pivot_from(c: Seq<usize>, n: int, i: int) -> int
    decreases i + 1,
{
    if i < 0 {
        -1
    } else if c[i] != n - c.len() + i {
        i
    } else {
        pivot_from(c, n, i - 1)
    }
}

/// The last position of `c` that can still grow; `-1` if there is none.
pub open spec fn pivot(c: Seq<usize>, n: int) -> int {
    pivot_from(c, n, c.len() - 1)
}

/// The subset that follows `c`: the pivot entry grows by one and every entry
/// after it follows on consecutively.
pub open spec fn successor(c: Seq<usize>, n: int) -> Seq<usize> {
    let p = pivot(c, n);
    Seq::new(c.len(), |j: int| if j < p { c[j] } else { (c[p] + 1 + (j - p)) as usize })
}

/// `a` and `b` agree before position `p` and `a[p] < b[p]`.
pub open spec fn first_below_at(a: Seq<usize>, b: Seq<usize>, p: int) -> bool {
    &&& 0 <= p < a.len()
    &&& p < b.len()
    &&& a[p] < b[p]
    &&& forall|j: int| 0 <= j < p ==> a[j] == b[j]
}

/// Strict lexicographic order on lists of the same length.
pub open spec fn lex_lt(a: Seq<usize>, b: Seq<usize>) -> bool {
    &&& a.len() == b.len()
    &&& exists|p: int| first_below_at(a, b, p)
}

/// `visited` starts anywhere, steps by `successor`, and stops at the first
/// arrival at the last `k`-subset of `0..n`.
pub open spec fn is_walk_to_last(visited: Seq<Seq<usize>>, n: int) -> bool {
    &&& visited.len() > 0
    &&& visited.last() == last_combination(n, visited[0].len() as int)
    &&& forall|i: int|
        0 <= i < visited.len() - 1 ==> #[trigger] visited[i] != last_combination(
            n,
            visited[0].len() as int,
        ) && visited[i + 1] == successor(visited[i], n)
}

/// `s` steps by `successor` from its first element and has not yet passed
/// the last `k`-subset.
pub open spec fn is_walk(s: Seq<Seq<usize>>, n: int) -> bool {
    &&& s.len() > 0
    &&& forall|i: int|
        0 <= i < s.len() - 1 ==> #[trigger] s[i] != last_combination(n, s[0].len() as int)
            && s[i + 1] == successor(s[i], n)
}

/// The number whose base-`b` digits, most significant first, are `c`.
pub open spec fn lex_value(c: Seq<usize>, b: int) -> int
    decreases c.len(),
{
    if c.len() == 0 {
        0
    } else {
        lex_value(c.drop_last(), b) * b + c.last()
    }
}

proof fn lemma_lex_value_nonneg(c: Seq<usize>, b: int)
    requires
        b >= 0,
    ensures
        lex_value(c, b) >= 0,
    decreases c.len(),
{
    if c.len() > 0 {
        lemma_lex_value_nonneg(c.drop_last(), b);
        let x = lex_value(c.drop_last(), b);
        assert(x * b >= 0) by (nonlinear_arith)
            requires
                x >= 0,
                b >= 0,
        ;
    }
}

/// Entries of an increasing list grow by at least one per position.
proof fn lemma_increasing_gap(c: Seq<usize>, n: int, i: int, j: int)
    requires
        is_combination(c, n),
        0 <= i <= j < c.len(),
    ensures
        c[j] >= c[i] + (j - i),
    decreases j - i,
{
    if i < j {
        lemma_increasing_gap(c, n, i, j - 1);
    }
}

/// Entry `j` of a `k`-subset of `0..n` lies between `j` and `n - k + j`.
proof fn lemma_entry_bounds(c: Seq<usize>, n: int)
    requires
        is_combination(c, n),
    ensures
        forall|j: int| 0 <= j < c.len() ==> j <= #[trigger] c[j] <= n - c.len() + j,
{
    assert forall|j: int| 0 <= j < c.len() implies j <= #[trigger] c[j] <= n - c.len() + j by {
        lemma_increasing_gap(c, n, 0, j);
        lemma_increasing_gap(c, n, j, c.len() - 1);
    }
}

proof fn lemma_pivot_from(c: Seq<usize>, n: int, i: int)
    requires
        -1 <= i < c.len(),
    ensures
        -1 <= pivot_from(c, n, i) <= i,
        forall|j: int| pivot_from(c, n, i) < j <= i ==> #[trigger] c[j] == n - c.len() + j,
        pivot_from(c, n, i) >= 0 ==> c[pivot_from(c, n, i)] != n - c.len() + pivot_from(c, n, i),
    decreases i + 1,
{
    if i >= 0 && c[i] == n - c.len() + i {
        lemma_pivot_from(c, n, i - 1);
    }
}

/// A `k`-subset is the last one exactly when it has no pivot.
proof fn lemma_pivot_and_last(c: Seq<usize>, n: int)
    requires
        n <= usize::MAX,
        is_combination(c, n),
    ensures
        -1 <= pivot(c, n) < c.len(),
        pivot(c, n) == -1 <==> c == last_combination(n, c.len() as int),
        pivot(c, n) >= 0 ==> c[pivot(c, n)] < n - c.len() + pivot(c, n),
{
    lemma_pivot_from(c, n, c.len() - 1);
    lemma_entry_bounds(c, n);
    let last = last_combination(n, c.len() as int);
    if pivot(c, n) == -1 {
        assert forall|j: int| 0 <= j < c.len() implies c[j] == last[j] by {
            assert(c[j] == n - c.len() + j);
        }
        assert(c =~= last);
    } else {
        let p = pivot(c, n);
        assert(c[p] != last[p]);
    }
}

/// The successor of a subset other than the last is a subset again, and it
/// first exceeds `c` at the pivot.
proof fn lemma_successor(c: Seq<usize>, n: int)
    requires
        n <= usize::MAX,
        is_combination(c, n),
        c != last_combination(n, c.len() as int),
    ensures
        is_combination(successor(c, n), n),
        successor(c, n).len() == c.len(),
        first_below_at(c, successor(c, n), pivot(c, n)),
        lex_lt(c, successor(c, n)),
{
    lemma_pivot_and_last(c, n);
    let p = pivot(c, n);
    let s = successor(c, n);
    assert forall|j: int| 0 <= j < s.len() implies #[trigger] s[j] < n by {
        if j >= p {
            assert(s[j] == c[p] + 1 + (j - p));
        }
    }
    assert forall|i: int, j: int| 0 <= i < j < s.len() implies s[i] < s[j] by {
        if j < p {
        } else if i < p {
            assert(c[i] < c[p]);
        } else {
        }
    }
    assert(first_below_at(c, s, p));
}

/// Digits below the base: a lexicographically smaller list has a smaller value.
proof fn lemma_lex_value_lt(a: Seq<usize>, b: Seq<usize>, base: int)
    requires
        lex_lt(a, b),
        base > 0,
        forall|j: int| 0 <= j < a.len() ==> #[trigger] a[j] < base,
        forall|j: int| 0 <= j < b.len() ==> #[trigger] b[j] < base,
    ensures
        lex_value(a, base) < lex_value(b, base),
    decreases a.len(),
{
    let p = choose|p: int| first_below_at(a, b, p);
    let a1 = a.drop_last();
    let b1 = b.drop_last();
    let len = a.len() as int;
    if p == len - 1 {
        assert(a1 =~= b1);
    } else {
        assert(first_below_at(a1, b1, p));
        lemma_lex_value_lt(a1, b1, base);
        let x = lex_value(a1, base);
        let y = lex_value(b1, base);
        lemma_lex_value_nonneg(a1, base);
        assert(x * base + a.last() < y * base + b.last()) by (nonlinear_arith)
            requires
                x + 1 <= y,
                0 <= a.last() < base,
                0 <= b.last(),
                x >= 0,
        ;
    }
}

/// Two lists of equal length that differ have a first position of difference.
proof fn lemma_first_difference(a: Seq<usize>, b: Seq<usize>, i: int) -> (p: int)
    requires
        a.len() == b.len(),
        0 <= i <= a.len(),
        forall|j: int| 0 <= j < i ==> a[j] == b[j],
        a != b,
    ensures
        i <= p < a.len(),
        a[p] != b[p],
        forall|j: int| 0 <= j < p ==> a[j] == b[j],
    decreases a.len() - i,
{
    if i == a.len() {
        assert(a =~= b);
        0
    } else if a[i] != b[i] {
        i
    } else {
        lemma_first_difference(a, b, i + 1)
    }
}

/// No list is lexicographically below itself, and the order is asymmetric.
pub proof fn lemma_lex_lt_asymmetric(a: Seq<usize>, b: Seq<usize>)
    ensures
        !(lex_lt(a, b) && lex_lt(b, a)),
        !lex_lt(a, a),
{
    if lex_lt(a, b) && lex_lt(b, a) {
        let p = choose|p: int| first_below_at(a, b, p);
        let q = choose|q: int| first_below_at(b, a, q);
        if p < q {
            assert(a[p] == b[p]);
        } else if q < p {
            assert(a[q] == b[q]);
        }
    }
    if lex_lt(a, a) {
        let p = choose|p: int| first_below_at(a, a, p);
    }
}

/// The lexicographic order is transitive.
pub proof fn lemma_lex_lt_transitive(a: Seq<usize>, b: Seq<usize>, c: Seq<usize>)
    requires
        lex_lt(a, b),
        lex_lt(b, c),
    ensures
        lex_lt(a, c),
{
    let p = choose|p: int| first_below_at(a, b, p);
    let q = choose|q: int| first_below_at(b, c, q);
    if p <= q {
        assert(first_below_at(a, c, p));
    } else {
        assert(first_below_at(a, c, q));
    }
}

proof fn lemma_first_is_combination(k: int, n: int)
    requires
        0 <= k <= n <= usize::MAX,
    ensures
        is_combination(first_combination(k), n),
        first_combination(k).len() == k,
{
}

/// Every `k`-subset of `0..n` lies at or after `0, ..., k-1`.
pub proof fn lemma_first_is_least(d: Seq<usize>, n: int)
    requires
        is_combination(d, n),
    ensures
        d == first_combination(d.len() as int) || lex_lt(first_combination(d.len() as int), d),
{
    let f = first_combination(d.len() as int);
    lemma_entry_bounds(d, n);
    if d != f {
        let p = lemma_first_difference(f, d, 0);
        assert(first_below_at(f, d, p));
    }
}

/// Every `k`-subset of `0..n` lies at or before `n-k, ..., n-1`.
pub proof fn lemma_last_is_greatest(d: Seq<usize>, n: int)
    requires
        n <= usize::MAX,
        is_combination(d, n),
    ensures
        d == last_combination(n, d.len() as int) || lex_lt(d, last_combination(n, d.len() as int)),
{
    let l = last_combination(n, d.len() as int);
    lemma_entry_bounds(d, n);
    if d != l {
        let p = lemma_first_difference(d, l, 0);
        assert(first_below_at(d, l, p));
    }
}

/// The successor of `c` is the lexicographically least `k`-subset above `c`:
/// no subset lies strictly between the two.
pub proof fn lemma_successor_is_next(c: Seq<usize>, d: Seq<usize>, n: int)
    requires
        n <= usize::MAX,
        is_combination(c, n),
        is_combination(d, n),
        lex_lt(c, d),
    ensures
        c != last_combination(n, c.len() as int),
        d == successor(c, n) || lex_lt(successor(c, n), d),
{
    let k = c.len() as int;
    lemma_last_is_greatest(d, n);
    lemma_lex_lt_asymmetric(c, d);
    if c == last_combination(n, k) {
        if d != last_combination(n, k) {
            lemma_lex_lt_asymmetric(d, c);
        }
    }
    lemma_pivot_and_last(c, n);
    lemma_successor(c, n);
    lemma_entry_bounds(d, n);
    let p = pivot(c, n);
    let s = successor(c, n);
    let q = choose|q: int| first_below_at(c, d, q);
    lemma_pivot_from(c, n, k - 1);
    if q > p {
        assert(c[q] == n - k + q);
        assert(false);
    }
    if q < p {
        assert(first_below_at(s, d, q));
    } else if s[p] < d[p] {
        assert(first_below_at(s, d, p));
    } else if d != s {
        assert forall|j: int| p <= j < k implies d[j] >= #[trigger] s[j] by {
            lemma_increasing_gap(d, n, p, j);
        }
        let r = lemma_first_difference(s, d, 0);
        assert(first_below_at(s, d, r));
    }
}

/// Each subset on a walk is a subset of `0..n` when the first one is.
proof fn lemma_walk_combinations(s: Seq<Seq<usize>>, n: int)
    requires
        n <= usize::MAX,
        is_walk(s, n),
        is_combination(s[0], n),
    ensures
        forall|i: int| 0 <= i < s.len() ==> is_combination(#[trigger] s[i], n) && s[i].len() == s[0].len(),
{
    assert forall|i: int| 0 <= i < s.len() implies is_combination(#[trigger] s[i], n) && s[i].len()
        == s[0].len() by {
        lemma_walk_prefix(s, n, i);
    }
}

proof fn lemma_walk_prefix(s: Seq<Seq<usize>>, n: int, i: int)
    requires
        n <= usize::MAX,
        is_walk(s, n),
        is_combination(s[0], n),
        0 <= i < s.len(),
    ensures
        is_combination(s[i], n),
        s[i].len() == s[0].len(),
    decreases i,
{
    if i > 0 {
        lemma_walk_prefix(s, n, i - 1);
        assert(s[i - 1] != last_combination(n, s[0].len() as int));
        lemma_successor(s[i - 1], n);
    }
}

proof fn lemma_walk_reaches(s: Seq<Seq<usize>>, n: int, d: Seq<usize>, i: int) -> (j: int)
    requires
        n <= usize::MAX,
        is_walk_to_last(s, n),
        is_combination(s[0], n),
        is_combination(d, n),
        d.len() == s[0].len(),
        0 <= i < s.len(),
        d == s[i] || lex_lt(s[i], d),
    ensures
        i <= j < s.len(),
        s[j] == d,
    decreases s.len() - i,
{
    lemma_walk_combinations(s, n);
    if d == s[i] {
        i
    } else if i == s.len() - 1 {
        lemma_last_is_greatest(d, n);
        lemma_lex_lt_asymmetric(d, s[i]);
        i
    } else {
        assert(s[i] != last_combination(n, s[0].len() as int));
        lemma_successor_is_next(s[i], d, n);
        lemma_walk_reaches(s, n, d, i + 1)
    }
}

/// A walk that starts at the first `k`-subset and ends at the last one
/// visits every `k`-subset of `0..n`.
pub proof fn lemma_walk_visits_every_subset(s: Seq<Seq<usize>>, n: int, d: Seq<usize>)
    requires
        n <= usize::MAX,
        is_walk_to_last(s, n),
        s[0] == first_combination(s[0].len() as int),
        s[0].len() <= n,
        is_combination(d, n),
        d.len() == s[0].len(),
    ensures
        exists|j: int| 0 <= j < s.len() && s[j] == d,
{
    lemma_first_is_combination(s[0].len() as int, n);
    lemma_first_is_least(d, n);
    let j = lemma_walk_reaches(s, n, d, 0);
    assert(0 <= j < s.len() && s[j] == d);
}

/// A walk visits its subsets in strictly increasing lexicographic order, so
/// none is visited twice.
pub proof fn lemma_walk_increasing(s: Seq<Seq<usize>>, n: int, i: int, j: int)
    requires
        n <= usize::MAX,
        is_walk(s, n),
        is_combination(s[0], n),
        0 <= i < j < s.len(),
    ensures
        lex_lt(s[i], s[j]),
        s[i] != s[j],
    decreases j - i,
{
    lemma_walk_combinations(s, n);
    assert(s[j - 1] != last_combination(n, s[0].len() as int));
    lemma_successor(s[j - 1], n);
    if i < j - 1 {
        lemma_walk_increasing(s, n, i, j - 1);
        lemma_lex_lt_transitive(s[i], s[j - 1], s[j]);
    }
    lemma_lex_lt_asymmetric(s[i], s[j]);
}

/// `f` has been called on a slice that lists `c`.
pub open spec fn called_on<F: FnMut(&[usize])>(f: F, c: Seq<usize>) -> bool {
    exists|a: &[usize]| a@ == c && call_ensures(f, (a,), ())
}

/// `f`, called with `acc` and a slice that lists `c`, returned `next`.
pub open spec fn folded_on<B, F: FnMut(B, &[usize]) -> B>(f: F, acc: B, c: Seq<usize>, next: B) -> bool {
    exists|a: &[usize]| a@ == c && call_ensures(f, (acc, a), next)
}

/// Stepping to the successor strictly raises the base-`n` value of a subset,
/// which never exceeds the value of the last subset.
proof fn lemma_progress(c: Seq<usize>, n: int)
    requires
        n <= usize::MAX,
        is_combination(c, n),
        c != last_combination(n, c.len() as int),
    ensures
        lex_value(c, n) < lex_value(successor(c, n), n),
        lex_value(successor(c, n), n) <= lex_value(last_combination(n, c.len() as int), n),
{
    lemma_successor(c, n);
    let s = successor(c, n);
    let l = last_combination(n, c.len() as int);
    lemma_lex_value_lt(c, s, n);
    lemma_last_is_greatest(s, n);
    lemma_entry_bounds(s, n);
    if s != l {
        lemma_lex_value_lt(s, l, n);
    }
}

/// The sum of the entries of `s`.
pub open spec fn seq_sum(s: Seq<usize>) -> int
    decreases s.len(),
{
    if s.len() == 0 {
        0
    } else {
        seq_sum(s.drop_last()) + s.last()
    }
}

/// The powers of the unperturbed matrix in the perturbation term of the
/// `k`-subset `c` of `n` steps: `c[0]` before the first perturbation, then
/// after perturbation `i` the number of steps up to the next one, or up to
/// step `n` after the last.
pub open spec fn exponents(c: Seq<usize>, n: int) -> Seq<usize> {
    Seq::new(
        c.len() + 1,
        |i: int|
            if i == 0 {
                c[0]
            } else if i < c.len() {
                (c[i] - c[i - 1] - 1) as usize
            } else {
                (n - 1 - c[i - 1]) as usize
            },
    )
}

proof fn lemma_exponents_prefix_sum(c: Seq<usize>, n: int, m: int)
    requires
        is_combination(c, n),
        n <= usize::MAX,
        c.len() >= 1,
        1 <= m <= c.len(),
    ensures
        seq_sum(exponents(c, n).take(m)) == c[m - 1] - (m - 1),
    decreases m,
{
    let e = exponents(c, n);
    if m == 1 {
        assert(e.take(1).drop_last() =~= Seq::<usize>::empty());
        assert(e.take(1).last() == e[0]);
        assert(seq_sum(Seq::<usize>::empty()) == 0);
    } else {
        lemma_exponents_prefix_sum(c, n, m - 1);
        assert(e.take(m).drop_last() =~= e.take(m - 1));
        assert(c[m - 2] < c[m - 1]);
        assert(e.take(m).last() == e[m - 1]);
        assert(e[m - 1] == c[m - 1] - c[m - 2] - 1);
    }
}

/// The term of a `k`-subset of `0..n` has `n` factors in all: the powers of
/// the unperturbed matrix add up to `n - k`, one step for each of the `k`
/// perturbations making up the rest.
pub proof fn lemma_exponents_total(c: Seq<usize>, n: int)
    requires
        is_combination(c, n),
        n <= usize::MAX,
        c.len() >= 1,
    ensures
        seq_sum(exponents(c, n)) + c.len() == n,
{
    let e = exponents(c, n);
    let k = c.len() as int;
    lemma_exponents_prefix_sum(c, n, k);
    assert(e.drop_last() =~= e.take(k));
    assert(c[k - 1] < n);
    assert(e.last() == e[k]);
    assert(e[k] == n - 1 - c[k - 1]);
}

/// The powers of the unperturbed matrix in the perturbation term of the
/// subset `combo` of `n` steps.
pub fn perturbation_exponents(combo: &[usize], n: usize) -> (r: Vec<usize>)
    requires
        is_combination(combo@, n as int),
        combo@.len() >= 1,
    ensures
        r@ == exponents(combo@, n as int),
{
    let k = combo.len();
    let mut r: Vec<usize> = Vec::new();
    r.push(combo[0]);
    let mut i: usize = 0;
    while i < k
        invariant
            k == combo@.len(),
            is_combination(combo@, n as int),
            1 <= k,
            i <= k,
            r@ == exponents(combo@, n as int).take(i + 1),
        decreases k - i,
    {
        let gap = if i + 1 < k {
            assert(combo@[i as int] < combo@[i + 1]);
            combo[i + 1] - combo[i] - 1
        } else {
            n - 1 - combo[i]
        };
        r.push(gap);
        proof {
            assert(r@ =~= exponents(combo@, n as int).take(i + 2));
        }
        i = i + 1;
    }
    proof {
        assert(exponents(combo@, n as int).take(k + 1) =~= exponents(combo@, n as int));
    }
    r
}

/// Along the walk from `start`, `f` may be called at each step: for every
/// prefix `visited` of the walk, ending at the subset about to be visited,
/// and every run of accumulators that `f` can have returned on the earlier
/// subsets of that prefix, starting from `init`, `f` accepts the last
/// accumulator together with a slice that lists the subset.
pub open spec fn fold_admissible<B, F: FnMut(B, &[usize]) -> B>(
    f: F,
    init: B,
    start: Seq<usize>,
    n: int,
) -> bool {
    forall|visited: Seq<Seq<usize>>, accs: Seq<B>, a: &[usize]|
        #![trigger is_walk(visited, n), call_requires(f, (accs.last(), a))]
        is_walk(visited, n) && visited[0] == start && accs.len() == visited.len() && accs[0]
            == init && (forall|i: int|
            0 <= i < visited.len() - 1 ==> folded_on(f, accs[i], #[trigger] visited[i], accs[i + 1]))
            && a@ == visited.last() ==> call_requires(f, (accs.last(), a))
}

proof fn lemma_walks_agree(s1: Seq<Seq<usize>>, s2: Seq<Seq<usize>>, n: int, i: int)
    requires
        is_walk(s1, n),
        is_walk(s2, n),
        s1[0] == s2[0],
        0 <= i < s1.len(),
        i < s2.len(),
    ensures
        s1[i] == s2[i],
    decreases i,
{
    if i > 0 {
        lemma_walks_agree(s1, s2, n, i - 1);
        assert(s1[i - 1] != last_combination(n, s1[0].len() as int));
        assert(s2[i - 1] != last_combination(n, s2[0].len() as int));
    }
}

/// There is one walk from a subset to the last one: the subsets that
/// `for_each` hands to its closure are exactly those that `fold` threads its
/// accumulator through, in the same order.
pub proof fn lemma_walk_unique(s1: Seq<Seq<usize>>, s2: Seq<Seq<usize>>, n: int)
    requires
        is_walk_to_last(s1, n),
        is_walk_to_last(s2, n),
        s1[0] == s2[0],
    ensures
        s1 == s2,
{
    let l = last_combination(n, s1[0].len() as int);
    if s1.len() < s2.len() {
        let i = s1.len() - 1;
        lemma_walks_agree(s1, s2, n, i);
        assert(s2[i] != l);
    } else if s2.len() < s1.len() {
        let i = s2.len() - 1;
        lemma_walks_agree(s1, s2, n, i);
        assert(s1[i] != l);
    }
    assert forall|i: int| 0 <= i < s1.len() implies s1[i] == s2[i] by {
        lemma_walks_agree(s1, s2, n, i);
    }
    assert(s1 =~= s2);
}

impl Index {
    /// The number `n` of indices to choose from.
    pub closed spec fn spec_n(&self) -> nat {
        self.n as nat
    }

    /// The subset the enumerator stands at.
    pub closed spec fn current(&self) -> Seq<usize> {
        self.curr_indices@
    }

    /// The enumerator stands at a subset of `0..n`.
    pub open spec fn wf(&self) -> bool {
        &&& self.spec_n() <= usize::MAX
        &&& self.current().len() <= self.spec_n()
        &&& is_combination(self.current(), self.spec_n() as int)
    }

    /// Starts at the first `k`-subset of `0..n`.
    pub fn new(n: usize, k: usize) -> (r: Self)
        requires
            k <= n,
        ensures
            r.wf(),
            r.spec_n() == n,
            r.current() == first_combination(k as int),
    {
        let mut curr_indices: Vec<usize> = Vec::new();
        let mut j: usize = 0;
        while j < k
            invariant
                j <= k,
                curr_indices@ == first_combination(j as int),
            decreases k - j,
        {
            curr_indices.push(j);
            j = j + 1;
        }
        Index { n, curr_indices }
    }

    /// Moves to the next subset; `false`, and no move, at the last one.
    #[verifier::loop_isolation(false)]
    fn advance(&mut self) -> (moved: bool)
        requires
            old(self).wf(),
            old(self).current().len() > 0,
        ensures
            final(self).wf(),
            final(self).spec_n() == old(self).spec_n(),
            moved <==> old(self).current() != last_combination(
                old(self).spec_n() as int,
                old(self).current().len() as int,
            ),
            moved ==> final(self).current() == successor(old(self).current(), old(self).spec_n() as int),
            !moved ==> final(self).current() == old(self).current(),
    {
        let ghost c = self.curr_indices@;
        let ghost nn = self.n as int;
        let k = self.curr_indices.len();
        proof {
            lemma_pivot_and_last(c, nn);
            lemma_entry_bounds(c, nn);
        }
        let mut i = k - 1;
        while self.curr_indices[i] == self.n - k + i
            invariant
                self.curr_indices@ == c,
                self.n == nn,
                k == c.len(),
                k <= nn,
                0 <= i < k,
                pivot(c, nn) == pivot_from(c, nn, i as int),
            decreases i,
        {
            if i == 0 {
                assert(pivot_from(c, nn, -1) == -1);
                return false;
            }
            i = i - 1;
        }
        let v = self.curr_indices[i] + 1;
        self.curr_indices.set(i, v);
        let mut j = i + 1;
        while j < k
            invariant
                self.n == nn,
                k == c.len(),
                pivot(c, nn) == i,
                i < j <= k,
                self.curr_indices@.len() == k,
                forall|t: int|
                    0 <= t < k ==> #[trigger] self.curr_indices@[t] == (if t < i {
                        c[t]
                    } else if t < j {
                        (c[i as int] + 1 + (t - i)) as usize
                    } else {
                        c[t]
                    }),
                c[i as int] < nn - k + i,
            decreases k - j,
        {
            let w = self.curr_indices[j - 1] + 1;
            self.curr_indices.set(j, w);
            j = j + 1;
        }
        proof {
            assert(self.curr_indices@ =~= successor(c, nn));
            lemma_successor(c, nn);
        }
        true
    }
    /// Calls `f` on each subset from the current one up to the last
    /// `k`-subset of `0..n`, in lexicographic order, and stays at the last one.
    #[verifier::loop_isolation(false)]
    pub fn for_each(&mut self, mut f: impl FnMut(&[usize]))
        requires
            old(self).wf(),
            old(self).current().len() > 0,
            forall|a: &[usize]|
                is_combination(a@, old(self).spec_n() as int) && a@.len() == old(
                    self,
                ).current().len() ==> call_requires(f, (a,)),
        ensures
            final(self).wf(),
            final(self).spec_n() == old(self).spec_n(),
            final(self).current() == last_combination(
                old(self).spec_n() as int,
                old(self).current().len() as int,
            ),
            exists|visited: Seq<Seq<usize>>|
                {
                    &&& is_walk_to_last(visited, old(self).spec_n() as int)
                    &&& visited[0] == old(self).current()
                    &&& forall|i: int| 0 <= i < visited.len() ==> called_on(f, #[trigger] visited[i])
                },
    {
        let ghost nn = self.n as int;
        let ghost k = self.curr_indices@.len() as int;
        let ghost mut visited: Seq<Seq<usize>> = Seq::empty();
        let ghost f0 = f;
        loop
            invariant
                f == f0,
                self.wf(),
                self.spec_n() == nn,
                self.current().len() == k,
                is_walk(visited.push(self.current()), nn),
                visited.push(self.current())[0] == old(self).current(),
                forall|i: int| 0 <= i < visited.len() ==> called_on(f, #[trigger] visited[i]),
            decreases lex_value(last_combination(nn, k), nn) - lex_value(self.current(), nn),
        {
            let ghost before = self.current();
            let a = self.curr_indices.as_slice();
            f(a);
            proof {
                assert(called_on(f, before));
                visited = visited.push(before);
            }
            if !self.advance() {
                proof {
                    assert(visited.last() == before);
                    assert(is_walk_to_last(visited, nn));
                    assert(visited[0] == old(self).current());
                }
                return;
            }
            proof {
                lemma_progress(before, nn);
            }
        }
    }

    /// Starting from `init`, threads an accumulator through `f` called on
    /// each subset from the current one up to the last `k`-subset of `0..n`,
    /// in lexicographic order, and returns the final accumulator; the
    /// enumerator stays at the last subset.
    #[verifier::loop_isolation(false)]
    pub fn fold<B: Copy>(&mut self, init: B, mut f: impl FnMut(B, &[usize]) -> B) -> (r: B)
        requires
            old(self).wf(),
            old(self).current().len() > 0,
            fold_admissible(f, init, old(self).current(), old(self).spec_n() as int),
        ensures
            final(self).wf(),
            final(self).spec_n() == old(self).spec_n(),
            final(self).current() == last_combination(
                old(self).spec_n() as int,
                old(self).current().len() as int,
            ),
            exists|visited: Seq<Seq<usize>>, accs: Seq<B>|
                {
                    &&& is_walk_to_last(visited, old(self).spec_n() as int)
                    &&& visited[0] == old(self).current()
                    &&& accs.len() == visited.len() + 1
                    &&& accs[0] == init
                    &&& r == accs.last()
                    &&& forall|i: int|
                        0 <= i < visited.len() ==> folded_on(
                            f,
                            accs[i],
                            #[trigger] visited[i],
                            accs[i + 1],
                        )
                },
    {
        let ghost nn = self.n as int;
        let ghost k = self.curr_indices@.len() as int;
        let ghost mut visited: Seq<Seq<usize>> = Seq::empty();
        let ghost mut accs: Seq<B> = seq![init];
        let mut acc = init;
        let ghost f0 = f;
        loop
            invariant
                f == f0,
                fold_admissible(f, init, old(self).current(), nn),
                self.wf(),
                self.spec_n() == nn,
                self.current().len() == k,
                is_walk(visited.push(self.current()), nn),
                visited.push(self.current())[0] == old(self).current(),
                accs.len() == visited.len() + 1,
                accs[0] == init,
                acc == accs.last(),
                forall|i: int|
                    0 <= i < visited.len() ==> folded_on(f, accs[i], #[trigger] visited[i], accs[i + 1]),
            decreases lex_value(last_combination(nn, k), nn) - lex_value(self.current(), nn),
        {
            let ghost before = self.current();
            let a = self.curr_indices.as_slice();
            proof {
                let pre = visited.push(before);
                assert(is_walk(pre, nn));
                assert(accs.len() == pre.len() && accs[0] == init && accs.last() == acc);
                assert(forall|i: int|
                    0 <= i < pre.len() - 1 ==> folded_on(f, accs[i], #[trigger] pre[i], accs[i + 1])) by {
                    assert forall|i: int| 0 <= i < pre.len() - 1 implies folded_on(
                        f,
                        accs[i],
                        #[trigger] pre[i],
                        accs[i + 1],
                    ) by {
                        assert(pre[i] == visited[i]);
                    }
                }
                assert(a@ == pre.last());
                assert(call_requires(f, (accs.last(), a)));
            }
            let next = f(acc, a);
            proof {
                assert(folded_on(f, acc, before, next));
                visited = visited.push(before);
                accs = accs.push(next);
            }
            acc = next;
            if !self.advance() {
                proof {
                    assert(visited.last() == before);
                    assert(is_walk_to_last(visited, nn));
                    assert(visited[0] == old(self).current());
                    assert(accs.last() == acc);
                }
                return acc;
            }
            proof {
                lemma_progress(before, nn);
            }
        }
    }
}

} // verus!
