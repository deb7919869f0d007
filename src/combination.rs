use vstd::prelude::*;

verus! {

/// `c` is a strictly increasing sequence of indices, each below `n`.
pub open spec fn is_combination(c: Seq<usize>, n: nat) -> bool {
    &&& forall|i: int, j: int| 0 <= i < j < c.len() ==> c[i] < c[j]
    &&& forall|i: int| 0 <= i < c.len() ==> c[i] < n
}

/// The lexicographically smallest `r`-combination: `[0, 1, ..., r - 1]`.
pub open spec fn first_combination(r: nat) -> Seq<usize> {
    Seq::new(r, |i: int| i as usize)
}

/// Position `i` of an `r`-combination of `n` can still grow: `c[i] < n - r + i`.
pub open spec fn can_grow(c: Seq<usize>, n: nat, i: int) -> bool {
    c[i] + (c.len() - i) < n
}

/// The right-most position below `k` that can still grow, or -1 when there is none.
pub open spec fn pivot(c: Seq<usize>, n: nat, k: int) -> int
    decreases k,
{
    if k <= 0 {
        -1
    } else if can_grow(c, n, k - 1) {
        k - 1
    } else {
        pivot(c, n, k - 1)
    }
}

/// The combination that follows `c` in lexicographic order: the right-most index that
/// can still grow is incremented and the indices to its right are reset to consecutive
/// values. `None` once the left-most index would have to pass `n - r`.
pub open spec fn successor(c: Seq<usize>, n: nat) -> Option<Seq<usize>> {
    let p = pivot(c, n, c.len() as int);
    if p < 0 {
        None
    } else {
        Some(Seq::new(c.len(), |j: int| if j < p { c[j] } else { (c[p] + 1 + (j - p)) as usize }))
    }
}

/// `a` comes strictly before `b` in lexicographic order (same length).
pub open spec fn lex_less(a: Seq<usize>, b: Seq<usize>) -> bool {
    &&& a.len() == b.len()
    &&& exists|k: int|
        0 <= k < a.len() && a[k] < b[k] && forall|i: int| 0 <= i < k ==> a[i] == b[i]
}

pub open spec fn power(b: nat, e: nat) -> nat
    decreases e,
{
    if e == 0 {
        1
    } else {
        b * power(b, (e - 1) as nat)
    }
}

/// `c` read as the digits of a number in base `b`, most significant first.
pub open spec fn digits_value(c: Seq<usize>, b: nat) -> nat
    decreases c.len(),
{
    if c.len() == 0 {
        0
    } else {
        digits_value(c.drop_last(), b) * b + c.last() as nat
    }
}

proof fn lemma_pivot(c: Seq<usize>, n: nat, k: int)
    requires
        0 <= k <= c.len(),
    ensures
        -1 <= pivot(c, n, k) < k,
        pivot(c, n, k) >= 0 ==> can_grow(c, n, pivot(c, n, k)),
        forall|q: int| pivot(c, n, k) < q < k ==> !can_grow(c, n, q),
    decreases k,
{
    if k > 0 && !can_grow(c, n, k - 1) {
        lemma_pivot(c, n, k - 1);
    }
}

proof fn lemma_digits_bound(c: Seq<usize>, b: nat)
    requires
        forall|i: int| 0 <= i < c.len() ==> c[i] < b,
    ensures
        digits_value(c, b) < power(b, c.len()),
    decreases c.len(),
{
    if c.len() > 0 {
        let p = c.drop_last();
        lemma_digits_bound(p, b);
        let v = digits_value(p, b);
        let q = power(b, p.len());
        assert(power(b, c.len()) == b * q);
        assert(v * b + c.last() < b * q) by (nonlinear_arith)
            requires
                v < q,
                c.last() < b,
        ;
    }
}

proof fn lemma_digits_lex(a: Seq<usize>, c: Seq<usize>, b: nat, k: int)
    requires
        a.len() == c.len(),
        0 <= k < a.len(),
        a[k] < c[k],
        forall|i: int| 0 <= i < k ==> a[i] == c[i],
        forall|i: int| 0 <= i < a.len() ==> a[i] < b,
        forall|i: int| 0 <= i < c.len() ==> c[i] < b,
    ensures
        digits_value(a, b) < digits_value(c, b),
    decreases a.len(),
{
    let pa = a.drop_last();
    let pc = c.drop_last();
    if k == a.len() - 1 {
        assert(pa =~= pc);
    } else {
        lemma_digits_lex(pa, pc, b, k);
        let va = digits_value(pa, b);
        let vc = digits_value(pc, b);
        assert(va * b + a.last() < vc * b + c.last()) by (nonlinear_arith)
            requires
                va < vc,
                a.last() < b,
        ;
    }
}

/// Every successor of a combination is again a combination, and comes strictly later
/// in lexicographic order: the enumeration never repeats a combination.
pub proof fn lemma_successor_advances(c: Seq<usize>, n: nat)
    requires
        is_combination(c, n),
        n <= usize::MAX,
    ensures
        successor(c, n) matches Some(d) ==> d.len() == c.len() && is_combination(d, n)
            && lex_less(c, d),
{
    lemma_pivot(c, n, c.len() as int);
    let p = pivot(c, n, c.len() as int);
    if p >= 0 {
        let d = successor(c, n)->Some_0;
        assert(forall|i: int| 0 <= i < p ==> c[i] == d[i]);
        assert(c[p] < d[p]);
    }
}

proof fn lemma_successor_value(c: Seq<usize>, n: nat)
    requires
        is_combination(c, n),
        n <= usize::MAX,
    ensures
        digits_value(c, n + 1) < power(n + 1, c.len()),
        successor(c, n) matches Some(d) ==> digits_value(c, n + 1) < digits_value(d, n + 1)
            && digits_value(d, n + 1) < power(n + 1, c.len()),
{
    lemma_digits_bound(c, n + 1);
    lemma_successor_advances(c, n);
    if let Some(d) = successor(c, n) {
        let k = choose|k: int|
            0 <= k < c.len() && c[k] < d[k] && forall|i: int| 0 <= i < k ==> c[i] == d[i];
        lemma_digits_lex(c, d, n + 1, k);
        lemma_digits_bound(d, n + 1);
    }
}

/// `run` is the whole enumeration of the `r`-combinations of `n`: it starts at the first
/// combination, each element is followed by its successor, and the last has none.
pub open spec fn is_enumeration(run: Seq<Seq<usize>>, n: nat, r: nat) -> bool {
    if r > n {
        run.len() == 0
    } else {
        &&& run.len() > 0
        &&& run[0] == first_combination(r)
        &&& forall|k: int| 0 <= k < run.len() - 1 ==> successor(#[trigger] run[k], n) == Some(run[k + 1])
        &&& successor(run.last(), n) is None
    }
}

/// The enumeration of the `r`-combinations of `n`, in the order the iterator hands them out.
pub open spec fn combinations(n: nat, r: nat) -> Seq<Seq<usize>> {
    choose|run: Seq<Seq<usize>>| is_enumeration(run, n, r)
}

/// There is only one enumeration.
pub proof fn lemma_enumeration_unique(a: Seq<Seq<usize>>, b: Seq<Seq<usize>>, n: nat, r: nat)
    requires
        is_enumeration(a, n, r),
        is_enumeration(b, n, r),
    ensures
        a == b,
{
    if r <= n {
        assert forall|k: int| 0 <= k < a.len() && k < b.len() implies a[k] == b[k] by {
            lemma_enumeration_prefix(a, b, n, r, k);
        }
        if a.len() < b.len() {
            lemma_enumeration_prefix(a, b, n, r, a.len() - 1);
            assert(successor(b[a.len() - 1], n) == Some(b[a.len() as int]));
        } else if b.len() < a.len() {
            lemma_enumeration_prefix(a, b, n, r, b.len() - 1);
            assert(successor(a[b.len() - 1], n) == Some(a[b.len() as int]));
        }
        assert(a =~= b);
    }
}

proof fn lemma_enumeration_prefix(a: Seq<Seq<usize>>, b: Seq<Seq<usize>>, n: nat, r: nat, k: int)
    requires
        r <= n,
        is_enumeration(a, n, r),
        is_enumeration(b, n, r),
        0 <= k < a.len(),
        k < b.len(),
    ensures
        a[k] == b[k],
    decreases k,
{
    if k > 0 {
        lemma_enumeration_prefix(a, b, n, r, k - 1);
        assert(successor(a[k - 1], n) == Some(a[k]));
        assert(successor(b[k - 1], n) == Some(b[k]));
    }
}

/// Once an enumeration is exhibited, it is the one `combinations` names.
pub proof fn lemma_combinations(run: Seq<Seq<usize>>, n: nat, r: nat)
    requires
        is_enumeration(run, n, r),
    ensures
        combinations(n, r) == run,
{
    lemma_enumeration_unique(combinations(n, r), run, n, r);
}

/// Every element of the enumeration is an `r`-combination of `n`, each strictly before the
/// next in lexicographic order, and no combination is handed out twice.
pub proof fn lemma_enumeration_ordered(run: Seq<Seq<usize>>, n: nat, r: nat)
    requires
        is_enumeration(run, n, r),
        n <= usize::MAX,
    ensures
        forall|k: int| 0 <= k < run.len() ==> #[trigger] run[k].len() == r && is_combination(run[k], n),
        forall|k: int| 0 <= k < run.len() - 1 ==> lex_less(#[trigger] run[k], run[k + 1]),
        forall|a: int, b: int| 0 <= a < b < run.len() ==> #[trigger] run[a] != #[trigger] run[b],
{
    assert forall|a: int, b: int| 0 <= a < b < run.len() implies #[trigger] run[a] != #[trigger] run[b] by {
        lemma_enumeration_rising(run, n, r, a, b);
    }
    assert forall|k: int| 0 <= k < run.len() implies #[trigger] run[k].len() == r && is_combination(
        run[k],
        n,
    ) by {
        lemma_enumeration_element(run, n, r, k);
    }
    assert forall|k: int| 0 <= k < run.len() - 1 implies lex_less(#[trigger] run[k], run[k + 1]) by {
        lemma_enumeration_element(run, n, r, k);
        lemma_successor_advances(run[k], n);
    }
}

proof fn lemma_enumeration_rising(run: Seq<Seq<usize>>, n: nat, r: nat, a: int, b: int)
    requires
        is_enumeration(run, n, r),
        n <= usize::MAX,
        0 <= a < b < run.len(),
    ensures
        digits_value(run[a], n + 1) < digits_value(run[b], n + 1),
    decreases b - a,
{
    lemma_enumeration_element(run, n, r, b - 1);
    lemma_successor_value(run[b - 1], n);
    assert(successor(run[b - 1], n) == Some(run[b]));
    if a < b - 1 {
        lemma_enumeration_rising(run, n, r, a, b - 1);
    }
}

proof fn lemma_enumeration_element(run: Seq<Seq<usize>>, n: nat, r: nat, k: int)
    requires
        is_enumeration(run, n, r),
        n <= usize::MAX,
        0 <= k < run.len(),
    ensures
        run[k].len() == r,
        is_combination(run[k], n),
    decreases k,
{
    if k > 0 {
        lemma_enumeration_element(run, n, r, k - 1);
        lemma_successor_advances(run[k - 1], n);
        assert(successor(run[k - 1], n) == Some(run[k]));
    }
}

/// Produces, in lexicographic order, every strictly increasing `r`-length sequence of
/// indices drawn from `0..n`.
pub struct CombinationIterator {
    state: Vec<usize>,
    n: usize,
    r: usize,
    exhausted: bool,
}

impl CombinationIterator {
    /// The combination the next call of `next` hands out, or `None` once enumeration ended.
    pub closed spec fn current(&self) -> Option<Seq<usize>> {
        if self.exhausted {
            None
        } else {
            Some(self.state@)
        }
    }

    pub closed spec fn n(&self) -> nat {
        self.n as nat
    }

    pub closed spec fn r(&self) -> nat {
        self.r as nat
    }

    pub open spec fn wf(&self) -> bool {
        self.current() matches Some(c) ==> c.len() == self.r() && self.r() <= self.n()
            && is_combination(c, self.n())
    }

    /// A measure that each call of `next` handing out a combination lowers.
    pub open spec fn remaining(&self) -> nat {
        match self.current() {
            Some(c) => (power(self.n() + 1, self.r()) - digits_value(c, self.n() + 1)) as nat,
            None => 0,
        }
    }

    pub fn new(n: usize, r: usize) -> (it: Self)
        ensures
            it.wf(),
            it.n() == n,
            it.r() == r,
            it.current() == (if r <= n {
                Some(first_combination(r as nat))
            } else {
                None
            }),
    {
        let mut state: Vec<usize> = Vec::new();
        if r <= n {
            let mut k: usize = 0;
            while k < r
                invariant
                    k <= r,
                    state@ == first_combination(k as nat),
                decreases r - k,
            {
                state.push(k);
                k += 1;
                assert(state@ =~= first_combination(k as nat));
            }
        }
        CombinationIterator { state, n, r, exhausted: r > n }
    }

    /// Hands out the current combination and advances to its successor.
    pub fn next(&mut self) -> (res: Option<Vec<usize>>)
        requires
            old(self).wf(),
        ensures
            final(self).wf(),
            final(self).n() == old(self).n(),
            final(self).r() == old(self).r(),
            match old(self).current() {
                None => res is None && final(self).current() is None,
                Some(c) => res matches Some(v) && v@ == c && final(self).current() == successor(
                    c,
                    old(self).n(),
                ),
            },
            res is Some ==> final(self).remaining() < old(self).remaining(),
    {
        if self.exhausted {
            return None;
        }
        let ghost c = self.state@;
        let ghost nn = self.n as nat;
        let r = self.r;
        let n = self.n;
        let mut copy: Vec<usize> = Vec::new();
        let mut i: usize = 0;
        while i < r
            invariant
                i <= r,
                r == c.len(),
                self.state@ == c,
                copy@ == c.subrange(0, i as int),
            decreases r - i,
        {
            copy.push(self.state[i]);
            i += 1;
            assert(copy@ =~= c.subrange(0, i as int));
        }
        assert(copy@ =~= c);
        proof {
            lemma_pivot(c, nn, r as int);
            lemma_successor_value(c, nn);
        }
        let mut k: usize = r;
        while k > 0 && self.state[k - 1] >= n - (r - k) - 1
            invariant
                k <= r,
                r == c.len(),
                r <= n,
                self.state@ == c,
                nn == n,
                is_combination(c, nn),
                pivot(c, nn, r as int) == pivot(c, nn, k as int),
            decreases k,
        {
            k -= 1;
        }
        if k == 0 {
            self.exhausted = true;
            return Some(copy);
        }
        let p = k - 1;
        let ghost d = successor(c, nn)->Some_0;
        let v = self.state[p] + 1;
        self.state.set(p, v);
        let mut j: usize = p + 1;
        while j < r
            invariant
                p < j <= r,
                r == c.len(),
                self.state@.len() == r,
                d.len() == r,
                d == successor(c, nn)->Some_0,
                pivot(c, nn, r as int) == p,
                can_grow(c, nn, p as int),
                forall|q: int| 0 <= q < j ==> self.state@[q] == d[q],
                forall|q: int| j <= q < r ==> self.state@[q] == c[q],
                is_combination(d, nn),
                nn == n,
                self.n == n,
                self.r == r,
                !self.exhausted,
            decreases r - j,
        {
            assert(d[j as int] == d[j - 1] + 1);
            let w = self.state[j - 1] + 1;
            self.state.set(j, w);
            j += 1;
        }
        assert(self.state@ =~= d);
        Some(copy)
    }
}

} // verus!
