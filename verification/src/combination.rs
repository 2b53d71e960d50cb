use vstd::prelude::*;
use permutator::Combination;
use crate::order::lex_lt;

verus! {

/// `n!`
pub open spec fn factorial(n: nat) -> nat
    decreases n,
{
    if n == 0 {
        1
    } else {
        n * factorial((n - 1) as nat)
    }
}

/// `n * (n - 1) * ... * (n - k + 1)`, that is `n! / (n - k)!` for `k <= n`.
pub open spec fn falling_factorial(n: nat, k: nat) -> nat
    decreases k,
{
    if k == 0 {
        1
    } else {
        n * falling_factorial((n - 1) as nat, (k - 1) as nat)
    }
}

/// `c` picks `k` of the indices below `n`, in increasing order.
pub open spec fn index_subset(c: Seq<usize>, n: nat, k: nat) -> bool {
    &&& c.len() == k
    &&& forall|i: int| 0 <= i < c.len() ==> c[i] < n
    &&& forall|i: int, j: int| 0 <= i < j < c.len() ==> c[i] < c[j]
}

/// Indices in their natural order.
pub open spec fn index_order() -> spec_fn(usize, usize) -> bool {
    |x: usize, y: usize| x < y
}

/// `cs` lists every way of picking `k` of the indices below `n` exactly once,
/// in lexicographic order.
pub open spec fn all_index_subsets(cs: Seq<Seq<usize>>, n: nat, k: nat) -> bool {
    &&& forall|i: int| 0 <= i < cs.len() ==> index_subset(#[trigger] cs[i], n, k)
    &&& forall|i: int, j: int|
        0 <= i < j < cs.len() ==> lex_lt(#[trigger] cs[i], #[trigger] cs[j], index_order())
    &&& forall|c: Seq<usize>|
        index_subset(c, n, k) ==> exists|i: int| 0 <= i < cs.len() && #[trigger] cs[i] == c
}

/// The combinations that `permutator`'s `Combination::combination` gives of the
/// indices `0..indices.len()`, taken `k` at a time. Its iterator starts from the
/// first `k` indices and moves to the lexicographic successor until none is left,
/// so it yields every `k`-subset once, in lexicographic order. It panics unless
/// `1 <= k <= indices.len()`, and its length computation overflows unless `k!`
/// and `n! / (n - k)!` fit in `usize`.
#[verifier::external_body]
fn index_combinations(indices: &Vec<usize>, k: usize) -> (cs: Vec<Vec<usize>>)
    requires
        forall|i: int| 0 <= i < indices.len() ==> indices@[i] == i,
        1 <= k <= indices.len(),
        factorial(k as nat) <= usize::MAX,
        falling_factorial(indices.len() as nat, k as nat) <= usize::MAX,
    ensures
        all_index_subsets(cs@.map_values(|c: Vec<usize>| c@), indices.len() as nat, k as nat),
{
    indices.combination(k).map(|c| c.into_iter().copied().collect()).collect()
}

/// Every way of picking `k` of the indices below `n`, in lexicographic order.
pub fn combinations(n: usize, k: usize) -> (cs: Vec<Vec<usize>>)
    requires
        1 <= k <= n,
        factorial(k as nat) <= usize::MAX,
        falling_factorial(n as nat, k as nat) <= usize::MAX,
    ensures
        all_index_subsets(cs@.map_values(|c: Vec<usize>| c@), n as nat, k as nat),
{
    let mut indices: Vec<usize> = Vec::new();
    let mut i: usize = 0;
    while i < n
        invariant
            i <= n,
            indices.len() == i,
            forall|j: int| 0 <= j < i ==> indices@[j] == j,
        decreases n - i,
    {
        indices.push(i);
        i = i + 1;
    }
    index_combinations(&indices, k)
}

proof fn lemma_factorial_step(i: nat)
    requires
        i > 0,
    ensures
        factorial(i) == factorial((i - 1) as nat) * i,
{
    let p = factorial((i - 1) as nat);
    assert(i * p == p * i) by (nonlinear_arith);
}

proof fn lemma_factorial_positive(i: nat)
    ensures
        factorial(i) >= 1,
    decreases i,
{
    if i > 0 {
        lemma_factorial_positive((i - 1) as nat);
        let p = factorial((i - 1) as nat);
        assert(i * p >= 1) by (nonlinear_arith)
            requires
                i >= 1,
                p >= 1,
        ;
    }
}

proof fn lemma_factorial_grows(a: nat, b: nat)
    requires
        a <= b,
    ensures
        factorial(a) <= factorial(b),
    decreases b - a,
{
    if a < b {
        lemma_factorial_grows(a, (b - 1) as nat);
        lemma_factorial_step(b);
        let p = factorial((b - 1) as nat);
        assert(p <= p * b) by (nonlinear_arith)
            requires
                b >= 1,
                p >= 0,
        ;
    }
}

proof fn lemma_falling_step(n: nat, j: nat)
    requires
        j < n,
    ensures
        falling_factorial(n, j + 1) == falling_factorial(n, j) * (n - j),
    decreases j,
{
    if j > 0 {
        let m = (n - 1) as nat;
        let i = (j - 1) as nat;
        lemma_falling_step(m, i);
        let q = falling_factorial(m, i);
        let d = (n - j) as nat;
        assert(falling_factorial(m, i + 1) == q * d);
        assert(falling_factorial(n, j + 1) == n * falling_factorial(m, j));
        assert(falling_factorial(n, j) == n * q);
        assert(n * (q * d) == (n * q) * d) by (nonlinear_arith);
        assert(falling_factorial(n, j + 1) == falling_factorial(n, j) * d);
    } else {
        let one = falling_factorial(n, 0);
        assert(one == 1);
        assert(falling_factorial((n - 1) as nat, 0) == 1);
        assert(falling_factorial(n, 1) == n * 1);
        assert(one * n == n) by (nonlinear_arith)
            requires
                one == 1,
        ;
    }
}

proof fn lemma_falling_positive(n: nat, j: nat)
    requires
        j <= n,
    ensures
        falling_factorial(n, j) >= 1,
    decreases j,
{
    if j > 0 {
        lemma_falling_positive((n - 1) as nat, (j - 1) as nat);
        let q = falling_factorial((n - 1) as nat, (j - 1) as nat);
        assert(n * q >= 1) by (nonlinear_arith)
            requires
                n >= 1,
                q >= 1,
        ;
    }
}

proof fn lemma_falling_grows(n: nat, a: nat, b: nat)
    requires
        a <= b <= n,
    ensures
        falling_factorial(n, a) <= falling_factorial(n, b),
    decreases b - a,
{
    if a < b {
        lemma_falling_grows(n, a, (b - 1) as nat);
        lemma_falling_step(n, (b - 1) as nat);
        let p = falling_factorial(n, (b - 1) as nat);
        let d = (n - (b - 1)) as nat;
        assert(p <= p * d) by (nonlinear_arith)
            requires
                d >= 1,
                p >= 0,
        ;
    }
}

/// Whether `combinations(n, k)` can be asked for: `1 <= k <= n`, with `k!` and
/// `n! / (n - k)!` within `usize`.
pub fn enumerable(n: usize, k: usize) -> (r: bool)
    ensures
        r == (1 <= k <= n && factorial(k as nat) <= usize::MAX && falling_factorial(n as nat, k as nat)
            <= usize::MAX),
{
    if k < 1 || k > n {
        return false;
    }
    let mut acc: usize = 1;
    let mut i: usize = 0;
    while i < k
        invariant
            i <= k <= n,
            acc == factorial(i as nat),
        decreases k - i,
    {
        proof {
            lemma_factorial_step((i + 1) as nat);
        }
        match acc.checked_mul(i + 1) {
            Some(v) => {
                acc = v;
            },
            None => {
                proof {
                    lemma_factorial_grows((i + 1) as nat, k as nat);
                }
                return false;
            },
        }
        i = i + 1;
    }
    let mut acc: usize = 1;
    let mut j: usize = 0;
    while j < k
        invariant
            j <= k <= n,
            factorial(k as nat) <= usize::MAX,
            acc == falling_factorial(n as nat, j as nat),
        decreases k - j,
    {
        proof {
            lemma_falling_step(n as nat, j as nat);
        }
        match acc.checked_mul(n - j) {
            Some(v) => {
                acc = v;
            },
            None => {
                proof {
                    lemma_falling_grows(n as nat, (j + 1) as nat, k as nat);
                }
                return false;
            },
        }
        j = j + 1;
    }
    true
}

} // verus!
