use crate::scalar::{multiplication_distributes, sums_reorder, zero, Scalar};
use crate::sums::{accumulate, lemma_interchange};
use vstd::prelude::*;
use vstd::std_specs::ops::{AddSpec, MulSpec};

verus! {

/// The sum `f(0) + f(1) + ... + f(n - 1)`, added up from zero in this order.
pub open spec fn series<T: Scalar>(f: spec_fn(int) -> T, n: nat) -> T
    decreases n,
{
    if n == 0 {
        zero::<T>()
    } else {
        series(f, (n - 1) as nat).add_spec(f(n - 1))
    }
}

/// Row `k` of a doubly indexed family of terms.
pub open spec fn slice<T>(terms: spec_fn(int, int) -> T, k: int) -> spec_fn(int) -> T {
    |l: int| terms(k, l)
}

/// The family with its two indices exchanged.
pub open spec fn flip<T>(terms: spec_fn(int, int) -> T) -> spec_fn(int, int) -> T {
    |l: int, k: int| terms(k, l)
}

/// The sums of the rows of a doubly indexed family, each over its first `m`
/// terms.
pub open spec fn row_sums<T: Scalar>(terms: spec_fn(int, int) -> T, m: nat) -> spec_fn(int) -> T {
    |k: int| series(slice(terms, k), m)
}

/// The sum of the terms `terms(k, l)` for `k < p` and `l < m`, row by row.
pub open spec fn double_series<T: Scalar>(terms: spec_fn(int, int) -> T, p: nat, m: nat) -> T {
    series(row_sums(terms, m), p)
}

/// A plain dot product is the series of the products of its pairs.
pub proof fn lemma_accumulate_is_series<T: Scalar>(
    x: Seq<T>,
    y: Seq<T>,
    f: spec_fn(int) -> T,
    n: nat,
)
    requires
        forall|k: int| 0 <= k < n ==> #[trigger] f(k) == x[k].mul_spec(y[k]),
    ensures
        accumulate(x, y, 0, 1, n, zero::<T>()) == series(f, n),
    decreases n,
{
    if n > 0 {
        lemma_accumulate_is_series(x, y, f, (n - 1) as nat);
        assert(0 + (n - 1) * 1 == n - 1);
        assert(f(n - 1) == x[n - 1].mul_spec(y[n - 1]));
    }
}

/// Series of terms that agree one by one are equal.
pub proof fn lemma_series_congruence<T: Scalar>(f: spec_fn(int) -> T, g: spec_fn(int) -> T, n: nat)
    requires
        forall|k: int| 0 <= k < n ==> #[trigger] f(k) == g(k),
    ensures
        series(f, n) == series(g, n),
    decreases n,
{
    if n > 0 {
        lemma_series_congruence(f, g, (n - 1) as nat);
        assert(f(n - 1) == g(n - 1));
    }
}

/// A series of zeros is zero.
pub proof fn lemma_series_of_zeros<T: Scalar>(f: spec_fn(int) -> T, n: nat)
    requires
        sums_reorder::<T>(),
        forall|k: int| 0 <= k < n ==> #[trigger] f(k) == zero::<T>(),
    ensures
        series(f, n) == zero::<T>(),
    decreases n,
{
    if n > 0 {
        lemma_series_of_zeros(f, (n - 1) as nat);
        assert(f(n - 1) == zero::<T>());
        assert(zero::<T>().add_spec(zero::<T>()) == zero::<T>());
    }
}

/// The series of termwise sums is the sum of the two series.
pub proof fn lemma_series_add<T: Scalar>(
    f: spec_fn(int) -> T,
    g: spec_fn(int) -> T,
    h: spec_fn(int) -> T,
    n: nat,
)
    requires
        sums_reorder::<T>(),
        forall|k: int| 0 <= k < n ==> #[trigger] h(k) == f(k).add_spec(g(k)),
    ensures
        series(h, n) == series(f, n).add_spec(series(g, n)),
    decreases n,
{
    if n == 0 {
        assert(zero::<T>().add_spec(zero::<T>()) == zero::<T>());
    } else {
        lemma_series_add(f, g, h, (n - 1) as nat);
        assert(h(n - 1) == f(n - 1).add_spec(g(n - 1)));
        lemma_interchange(
            series(f, (n - 1) as nat),
            series(g, (n - 1) as nat),
            f(n - 1),
            g(n - 1),
        );
    }
}

/// A factor on the right of every term can be taken out of the series.
pub proof fn lemma_series_scale_right<T: Scalar>(
    f: spec_fn(int) -> T,
    g: spec_fn(int) -> T,
    c: T,
    n: nat,
)
    requires
        multiplication_distributes::<T>(),
        forall|k: int| 0 <= k < n ==> #[trigger] g(k) == f(k).mul_spec(c),
    ensures
        series(g, n) == series(f, n).mul_spec(c),
    decreases n,
{
    if n == 0 {
        assert(zero::<T>().mul_spec(c) == zero::<T>());
    } else {
        lemma_series_scale_right(f, g, c, (n - 1) as nat);
        assert(g(n - 1) == f(n - 1).mul_spec(c));
        assert(series(f, (n - 1) as nat).add_spec(f(n - 1)).mul_spec(c) == series(
            f,
            (n - 1) as nat,
        ).mul_spec(c).add_spec(f(n - 1).mul_spec(c)));
    }
}

/// A factor on the left of every term can be taken out of the series.
pub proof fn lemma_series_scale_left<T: Scalar>(
    f: spec_fn(int) -> T,
    g: spec_fn(int) -> T,
    c: T,
    n: nat,
)
    requires
        multiplication_distributes::<T>(),
        forall|k: int| 0 <= k < n ==> #[trigger] g(k) == c.mul_spec(f(k)),
    ensures
        series(g, n) == c.mul_spec(series(f, n)),
    decreases n,
{
    if n == 0 {
        assert(c.mul_spec(zero::<T>()) == zero::<T>());
    } else {
        lemma_series_scale_left(f, g, c, (n - 1) as nat);
        assert(g(n - 1) == c.mul_spec(f(n - 1)));
        assert(c.mul_spec(series(f, (n - 1) as nat).add_spec(f(n - 1))) == c.mul_spec(
            series(f, (n - 1) as nat),
        ).add_spec(c.mul_spec(f(n - 1))));
    }
}

/// Where sums reorder, a double series may be summed column by column
/// instead of row by row.
pub proof fn lemma_double_series_exchange<T: Scalar>(
    terms: spec_fn(int, int) -> T,
    p: nat,
    m: nat,
)
    requires
        sums_reorder::<T>(),
    ensures
        double_series(terms, p, m) == double_series(flip(terms), m, p),
    decreases p,
{
    let turned = flip(terms);
    if p == 0 {
        assert forall|l: int| 0 <= l < m implies #[trigger] row_sums(turned, 0)(l) == zero::<T>() by {
        }
        lemma_series_of_zeros(row_sums(turned, 0), m);
    } else {
        let before = (p - 1) as nat;
        lemma_double_series_exchange(terms, before, m);
        let f = row_sums(turned, before);
        let g = slice(terms, p - 1);
        let h = row_sums(turned, p);
        assert forall|l: int| 0 <= l < m implies #[trigger] h(l) == f(l).add_spec(g(l)) by {
            assert(h(l) == series(slice(turned, l), p));
            assert(f(l) == series(slice(turned, l), before));
            assert(slice(turned, l)(p - 1) == terms(p - 1, l));
        }
        lemma_series_add(f, g, h, m);
        assert(row_sums(terms, m)(p - 1) == series(g, m));
    }
}

} // verus!
