//! Iterative Heap's algorithm over the index sequence `0..n`.
use vstd::prelude::*;

verus! {

/// `n!`.
pub open spec fn factorial(n: nat) -> nat
    decreases n,
{
    if n == 0 {
        1
    } else {
        n * factorial((n - 1) as nat)
    }
}

/// The identity ordering `[0, 1, ..., n - 1]`.
pub open spec fn identity(n: nat) -> Seq<usize> {
    Seq::new(n, |i: int| i as usize)
}

/// `p` lists each of `0..n` exactly once.
pub open spec fn is_permutation(p: Seq<usize>, n: nat) -> bool {
    &&& p.len() == n
    &&& forall|i: int| 0 <= i < n ==> (#[trigger] p[i]) < n
    &&& forall|i: int, j: int| 0 <= i < j < n ==> p[i] != p[j]
}

/// `s` with the elements at `i` and `j` exchanged.
pub open spec fn swapped(s: Seq<usize>, i: int, j: int) -> Seq<usize> {
    s.update(i, s[j]).update(j, s[i])
}

/// One pass of the loop body: either a counter that reached its bound is reset
/// and the pointer moves up (`false`), or two elements are swapped, the counter
/// advances, the pointer returns to zero and the new ordering is visited
/// (`true`).
pub open spec fn heap_step(data: Seq<usize>, c: Seq<usize>, idx: nat) -> (Seq<usize>, Seq<usize>, nat, bool) {
    if c[idx as int] >= idx {
        (data, c.update(idx as int, 0usize), idx + 1, false)
    } else {
        let d = if idx % 2 == 0 {
            swapped(data, 0, idx as int)
        } else {
            swapped(data, c[idx as int] as int, idx as int)
        };
        (d, c.update(idx as int, (c[idx as int] + 1) as usize), 0, true)
    }
}

/// The orderings visited by at most `fuel` further passes of the loop.
pub open spec fn heap_visits(data: Seq<usize>, c: Seq<usize>, idx: nat, fuel: nat) -> Seq<Seq<usize>>
    decreases fuel,
{
    if fuel == 0 || idx >= data.len() {
        Seq::empty()
    } else {
        let (d, c2, i2, visit) = heap_step(data, c, idx);
        let rest = heap_visits(d, c2, i2, (fuel - 1) as nat);
        if visit {
            seq![d] + rest
        } else {
            rest
        }
    }
}

/// The loop leaves within `fuel` passes.
pub open spec fn heap_done(data: Seq<usize>, c: Seq<usize>, idx: nat, fuel: nat) -> bool
    decreases fuel,
{
    if idx >= data.len() {
        true
    } else if fuel == 0 {
        false
    } else {
        let (d, c2, i2, visit) = heap_step(data, c, idx);
        heap_done(d, c2, i2, (fuel - 1) as nat)
    }
}

/// A number of passes that is always enough for `n` elements.
pub open spec fn heap_fuel(n: nat) -> nat {
    factorial(n) * (n + 1)
}

/// Every ordering Heap's algorithm visits on `0..n`, in visiting order: the
/// identity first, then one ordering after each swap.
pub open spec fn heap_order(n: nat) -> Seq<Seq<usize>> {
    seq![identity(n)] + heap_visits(identity(n), Seq::new(n, |i: int| 0usize), 0, heap_fuel(n))
}


/// The counters read as a number in the factorial base: `sum c[j] * j!` over `j < k`.
pub open spec fn counter_value(c: Seq<usize>, k: nat) -> int
    decreases k,
{
    if k == 0 {
        0
    } else {
        counter_value(c, (k - 1) as nat) + c[k - 1] * factorial((k - 1) as nat)
    }
}

/// The states the loop passes through: `data` is an ordering of `0..n`, every
/// counter is a digit of the factorial base, and those below the pointer are
/// zero.
pub open spec fn heap_state_wf(data: Seq<usize>, c: Seq<usize>, idx: nat) -> bool {
    let n = data.len();
    &&& n <= usize::MAX
    &&& is_permutation(data, n)
    &&& c.len() == n
    &&& idx <= n
    &&& forall|j: int| 0 <= j < n ==> #[trigger] c[j] <= j
    &&& forall|j: int| 0 <= j < idx ==> #[trigger] c[j] == 0
}

/// How many orderings have been visited on reaching a state.
pub open spec fn heap_count(c: Seq<usize>, idx: nat) -> int {
    counter_value(c, c.len()) + factorial(idx)
}

/// A bound on the passes left from a state; every pass lowers it.
pub open spec fn heap_measure(data: Seq<usize>, c: Seq<usize>, idx: nat) -> int {
    (factorial(data.len()) - heap_count(c, idx)) * (data.len() + 1) + (data.len() - idx)
}

proof fn lemma_factorial_positive(n: nat)
    ensures
        factorial(n) >= 1,
    decreases n,
{
    if n > 0 {
        lemma_factorial_positive((n - 1) as nat);
        assert(n * factorial((n - 1) as nat) >= 1) by (nonlinear_arith)
            requires
                n >= 1,
                factorial((n - 1) as nat) >= 1,
        ;
    }
}

proof fn lemma_counter_value_update(c: Seq<usize>, k: nat, i: int, v: usize)
    requires
        0 <= i < c.len(),
        k <= c.len(),
    ensures
        counter_value(c.update(i, v), k) == counter_value(c, k) + if i < k {
            (v - c[i]) * factorial(i as nat)
        } else {
            0
        },
    decreases k,
{
    if k > 0 {
        lemma_counter_value_update(c, (k - 1) as nat, i, v);
        let f = factorial((k - 1) as nat);
        if i == k - 1 {
            assert(v * f - c[i] * f == (v - c[i]) * f) by (nonlinear_arith);
        }
    }
}

proof fn lemma_counter_value_bound(c: Seq<usize>, k: nat, idx: nat)
    requires
        k <= c.len(),
        idx <= k,
        forall|j: int| 0 <= j < k ==> #[trigger] c[j] <= j,
        forall|j: int| 0 <= j < idx ==> #[trigger] c[j] == 0,
    ensures
        0 <= counter_value(c, k),
        counter_value(c, k) + factorial(idx) <= factorial(k),
    decreases k,
{
    if k == idx {
        lemma_counter_value_zero(c, k);
    } else {
        lemma_counter_value_bound(c, (k - 1) as nat, idx);
        let f = factorial((k - 1) as nat);
        let d = c[k - 1];
        assert(0 <= d * f <= (k - 1) * f) by (nonlinear_arith)
            requires
                0 <= d <= k - 1,
                f >= 0,
        ;
        assert(factorial(k) == f + (k - 1) * f) by (nonlinear_arith)
            requires
                factorial(k) == k * f,
        ;
    }
}

proof fn lemma_counter_value_zero(c: Seq<usize>, k: nat)
    requires
        k <= c.len(),
        forall|j: int| 0 <= j < k ==> #[trigger] c[j] == 0,
    ensures
        counter_value(c, k) == 0,
    decreases k,
{
    if k > 0 {
        lemma_counter_value_zero(c, (k - 1) as nat);
    }
}

/// From a well-formed state with enough fuel, the loop finishes, visits
/// `n!` orderings in all (counting those before the state), and each of them
/// is an ordering of `0..n`.
proof fn lemma_heap_visits(data: Seq<usize>, c: Seq<usize>, idx: nat, fuel: nat)
    requires
        heap_state_wf(data, c, idx),
        fuel >= heap_measure(data, c, idx),
    ensures
        heap_done(data, c, idx, fuel),
        heap_visits(data, c, idx, fuel).len() == factorial(data.len()) - heap_count(c, idx),
        forall|k: int|
            0 <= k < heap_visits(data, c, idx, fuel).len() ==> is_permutation(
                #[trigger] heap_visits(data, c, idx, fuel)[k],
                data.len(),
            ),
    decreases fuel,
{
    let n = data.len();
    lemma_counter_value_bound(c, n, idx);
    lemma_factorial_positive(n);
    if idx >= n {
        lemma_counter_value_zero(c, n);
        assert(idx == n);
    } else {
        let (d, c2, i2, visit) = heap_step(data, c, idx);
        let count = heap_count(c, idx);
        let fi = factorial(idx);
        if !visit {
            lemma_counter_value_update(c, n, idx as int, 0usize);
            assert(factorial(idx + 1) == fi + idx * fi) by (nonlinear_arith)
                requires
                    factorial(idx + 1) == (idx + 1) * fi,
            ;
            assert(c[idx as int] == idx);
            assert((0 - c[idx as int]) * fi == -(idx * fi)) by (nonlinear_arith)
                requires
                    c[idx as int] == idx,
            ;
            assert(c2.len() == n);
            assert(heap_count(c2, i2) == count);
            assert(heap_state_wf(d, c2, i2));
        } else {
            let j = if idx % 2 == 0 { 0 } else { c[idx as int] as int };
            assert(d == swapped(data, j, idx as int));
            assert(is_permutation(d, n)) by {
                assert forall|a: int, b: int| 0 <= a < b < n implies d[a] != d[b] by {
                    if a != j && a != idx && b != j && b != idx {
                        assert(d[a] == data[a] && d[b] == data[b]);
                    }
                }
            }
            lemma_counter_value_update(c, n, idx as int, (c[idx as int] + 1) as usize);
            let nv = (c[idx as int] + 1) as usize;
            assert(nv - c[idx as int] == 1);
            assert((nv - c[idx as int]) * fi == fi) by (nonlinear_arith)
                requires
                    nv - c[idx as int] == 1,
            ;
            assert(factorial(0) == 1);
            assert(c2.len() == n);
            assert(heap_count(c2, i2) == count + 1);
            assert(heap_state_wf(d, c2, i2));
            lemma_counter_value_bound(c2, n, i2);
            let m = factorial(n) - count;
            assert((m - 1) * (n + 1) == m * (n + 1) - (n + 1)) by (nonlinear_arith);
        }
        lemma_heap_visits(d, c2, i2, (fuel - 1) as nat);
    }
}


/// Heap's algorithm on `0..n` visits exactly `n!` orderings, the first of them
/// the identity, and each visited sequence is an ordering of `0..n`.
pub proof fn lemma_heap_order(n: nat)
    requires
        n <= usize::MAX,
    ensures
        heap_done(identity(n), Seq::new(n, |i: int| 0usize), 0, heap_fuel(n)),
        heap_order(n).len() == factorial(n),
        heap_order(n)[0] == identity(n),
        forall|k: int| 0 <= k < heap_order(n).len() ==> is_permutation(#[trigger] heap_order(n)[k], n),
{
    let data = identity(n);
    let c = Seq::new(n, |i: int| 0usize);
    lemma_counter_value_zero(c, n);
    lemma_factorial_positive(n);
    assert(factorial(0) == 1);
    let f = factorial(n);
    assert((f - 1) * (n + 1) + n < f * (n + 1)) by (nonlinear_arith);
    lemma_heap_visits(data, c, 0, heap_fuel(n));
    let visits = heap_visits(data, c, 0, heap_fuel(n));
    assert forall|k: int| 0 <= k < heap_order(n).len() implies is_permutation(#[trigger] heap_order(n)[k], n) by {
        if k > 0 {
            assert(heap_order(n)[k] == visits[k - 1]);
        }
    }
}

/// The view of each visited ordering.
pub open spec fn orderings_view(v: Seq<Vec<usize>>) -> Seq<Seq<usize>> {
    v.map_values(|o: Vec<usize>| o@)
}

fn copy_ordering(v: &Vec<usize>) -> (r: Vec<usize>)
    ensures
        r@ == v@,
{
    let mut r: Vec<usize> = Vec::with_capacity(v.len());
    let mut i: usize = 0;
    while i < v.len()
        invariant
            i <= v.len(),
            r@ == v@.subrange(0, i as int),
        decreases v.len() - i,
    {
        r.push(v[i]);
        i = i + 1;
    }
    assert(r@ =~= v@);
    r
}

/// Every ordering of `0..n`, in the order Heap's algorithm visits them.
///
/// Like the algorithm itself this keeps one working ordering and one counter
/// per position, and changes the working ordering by one swap between
/// visits; each visited ordering is recorded as a copy.
pub fn heap_permutations(n: usize) -> (r: Vec<Vec<usize>>)
    ensures
        orderings_view(r@) == heap_order(n as nat),
        r@.len() == factorial(n as nat),
        r@[0]@ == identity(n as nat),
        forall|k: int| 0 <= k < r@.len() ==> is_permutation(#[trigger] r@[k]@, n as nat),
{
    let ghost zeros = Seq::new(n as nat, |i: int| 0usize);
    let mut data: Vec<usize> = Vec::with_capacity(n);
    let mut c: Vec<usize> = Vec::with_capacity(n);
    let mut i: usize = 0;
    while i < n
        invariant
            i <= n,
            data@ == identity(i as nat),
            c@ == Seq::new(i as nat, |j: int| 0usize),
        decreases n - i,
    {
        data.push(i);
        c.push(0);
        i = i + 1;
        assert(data@ =~= identity(i as nat));
        assert(c@ =~= Seq::new(i as nat, |j: int| 0usize));
    }
    proof {
        lemma_heap_order(n as nat);
    }
    let mut out: Vec<Vec<usize>> = Vec::new();
    out.push(copy_ordering(&data));
    let mut idx: usize = 0;
    let ghost mut fuel: nat = heap_fuel(n as nat);
    assert(orderings_view(out@) =~= seq![identity(n as nat)]);
    while idx < n
        invariant
            data@.len() == n,
            c@.len() == n,
            heap_done(data@, c@, idx as nat, fuel),
            orderings_view(out@) + heap_visits(data@, c@, idx as nat, fuel) == heap_order(n as nat),
        decreases fuel,
    {
        let ghost prev = orderings_view(out@);
        let ghost (d, c2, i2, visit) = heap_step(data@, c@, idx as nat);
        if c[idx] >= idx {
            c.set(idx, 0);
            idx = idx + 1;
        } else {
            let j: usize = if idx % 2 == 0 { 0 } else { c[idx] };
            let a = data[j];
            let b = data[idx];
            data.set(j, b);
            data.set(idx, a);
            let next = c[idx] + 1;
            c.set(idx, next);
            idx = 0;
            out.push(copy_ordering(&data));
            assert(orderings_view(out@) =~= prev.push(d));
            assert(prev.push(d) + heap_visits(d, c2, i2, (fuel - 1) as nat) =~= prev + (seq![d]
                + heap_visits(d, c2, i2, (fuel - 1) as nat)));
        }
        assert(data@ =~= d);
        assert(c@ =~= c2);
        proof {
            fuel = (fuel - 1) as nat;
        }
    }
    assert(orderings_view(out@) =~= heap_order(n as nat));
    assert forall|k: int| 0 <= k < out@.len() implies is_permutation(#[trigger] out@[k]@, n as nat) by {
        assert(out@[k]@ == orderings_view(out@)[k]);
    }
    out
}

} // verus!
