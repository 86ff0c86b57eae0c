use crate::elementwise::LANES;
use crate::product::{
    accumulates, can_accumulate, can_batch, can_dot, can_fuse, can_reduce, dot_of, fused,
    lanes_after, reduced, whole_batches, Lanes,
};
use crate::scalar::{
    can_add, can_multiply, exact, is_zero, product_of, sum_of, sums_reorder, zero, Scalar,
};
use vstd::prelude::*;
use vstd::std_specs::ops::{AddSpec, MulSpec};

verus! {

/// The value of `init` after `count` multiply-accumulate steps, in order,
/// over the pairs of `x` and `y` at offsets `start`, `start + stride`,
/// `start + 2 * stride` and so on, for scalars that compute exactly.
pub open spec fn accumulate<T: Scalar>(
    x: Seq<T>,
    y: Seq<T>,
    start: int,
    stride: int,
    count: nat,
    init: T,
) -> T
    decreases count,
{
    if count == 0 {
        init
    } else {
        let at = start + (count - 1) * stride;
        accumulate(x, y, start, stride, (count - 1) as nat, init).add_spec(x[at].mul_spec(y[at]))
    }
}

/// The dot product of `x` and `y` as the plain sum of the products of their
/// pairs, added up from the first to the last.
pub open spec fn dot<T: Scalar>(x: Seq<T>, y: Seq<T>) -> T {
    accumulate(x, y, 0, 1, x.len(), zero::<T>())
}

/// The partial sums that the lanes hold after `chunks` whole batches.
pub open spec fn lanes<T: Scalar>(x: Seq<T>, y: Seq<T>, chunks: nat) -> Lanes<T> {
    Lanes {
        first: accumulate(x, y, 0, LANES as int, chunks, zero::<T>()),
        second: accumulate(x, y, 1, LANES as int, chunks, zero::<T>()),
        third: accumulate(x, y, 2, LANES as int, chunks, zero::<T>()),
        fourth: accumulate(x, y, 3, LANES as int, chunks, zero::<T>()),
    }
}

/// The horizontal reduction of the lanes.
pub open spec fn reduction<T: Scalar>(v: Lanes<T>) -> T {
    v.first.add_spec(v.second).add_spec(v.third).add_spec(v.fourth)
}

/// The dot product of `x` and `y` as the batched kernel computes it: lanes
/// over the whole batches, their reduction, then the remaining pairs.
pub open spec fn batched_dot<T: Scalar>(x: Seq<T>, y: Seq<T>) -> T {
    let chunks = whole_batches(x.len());
    accumulate(
        x,
        y,
        chunks * LANES,
        1,
        (x.len() - chunks * LANES) as nat,
        reduction(lanes(x, y, chunks)),
    )
}

/// For scalars that compute exactly, a multiply-accumulate step has one
/// result.
pub proof fn lemma_fused_exact<T: Scalar>(acc: T, a: T, b: T, r: T)
    requires
        exact::<T>(),
        fused(acc, a, b, r),
    ensures
        r == acc.add_spec(a.mul_spec(b)),
{
    let p = choose|p: T| #[trigger] product_of(a, b, p) && sum_of(acc, p, r);
    assert(product_of(a, b, p) && sum_of(acc, p, r));
}

/// For scalars that compute exactly, an accumulation has one result.
pub proof fn lemma_accumulates_exact<T: Scalar>(
    x: Seq<T>,
    y: Seq<T>,
    start: int,
    stride: int,
    count: nat,
    init: T,
    r: T,
)
    requires
        exact::<T>(),
        accumulates(x, y, start, stride, count, init, r),
    ensures
        r == accumulate(x, y, start, stride, count, init),
    decreases count,
{
    if count > 0 {
        let at = start + (count - 1) * stride;
        let prev = choose|prev: T|
            accumulates(x, y, start, stride, (count - 1) as nat, init, prev) && #[trigger] fused(
                prev,
                x[at],
                y[at],
                r,
            );
        lemma_accumulates_exact(x, y, start, stride, (count - 1) as nat, init, prev);
        lemma_fused_exact(prev, x[at], y[at], r);
    }
}

/// For scalars that compute exactly, the batched dot product has one
/// result.
pub proof fn lemma_dot_of_exact<T: Scalar>(x: Seq<T>, y: Seq<T>, r: T)
    requires
        exact::<T>(),
        dot_of(x, y, r),
    ensures
        r == batched_dot(x, y),
{
    let chunks = whole_batches(x.len());
    let rest = (x.len() - chunks * LANES) as nat;
    let (z, v, h) = choose|z: T, v: Lanes<T>, h: T|
        is_zero(z) && #[trigger] lanes_after(x, y, chunks, z, v)
            && #[trigger] reduced(v, h) && accumulates(x, y, chunks * LANES, 1, rest, h, r);
    assert(z == zero::<T>());
    lemma_accumulates_exact(x, y, 0, LANES as int, chunks, z, v.first);
    lemma_accumulates_exact(x, y, 1, LANES as int, chunks, z, v.second);
    lemma_accumulates_exact(x, y, 2, LANES as int, chunks, z, v.third);
    lemma_accumulates_exact(x, y, 3, LANES as int, chunks, z, v.fourth);
    assert(v == lanes(x, y, chunks));
    let (s, t) = choose|s: T, t: T| #[trigger]
        sum_of(v.first, v.second, s) && #[trigger] sum_of(s, v.third, t) && sum_of(
            t,
            v.fourth,
            h,
        );
    assert(h == reduction(v));
    lemma_accumulates_exact(x, y, chunks * LANES, 1, rest, h, r);
}

/// An accumulation over consecutive pairs can be cut in two: the second
/// part continues from the result of the first.
pub proof fn lemma_accumulate_split<T: Scalar>(
    x: Seq<T>,
    y: Seq<T>,
    start: int,
    first: nat,
    second: nat,
    init: T,
)
    ensures
        accumulate(x, y, start, 1, first + second, init) == accumulate(
            x,
            y,
            start + first,
            1,
            second,
            accumulate(x, y, start, 1, first, init),
        ),
    decreases second,
{
    if second > 0 {
        lemma_accumulate_split(x, y, start, first, (second - 1) as nat, init);
        assert((first + second - 1) as nat == first + (second - 1) as nat);
        assert(start + (first + second - 1) * 1 == start + first + (second - 1) * 1);
    }
}

/// Where sums reorder, two sums of two terms each may exchange their inner
/// terms.
pub proof fn lemma_interchange<T: Scalar>(a: T, b: T, p: T, q: T)
    requires
        sums_reorder::<T>(),
    ensures
        a.add_spec(b).add_spec(p.add_spec(q)) == a.add_spec(p).add_spec(b.add_spec(q)),
{
    let left = a.add_spec(b).add_spec(p.add_spec(q));
    assert(left == a.add_spec(b.add_spec(p.add_spec(q))));
    assert(b.add_spec(p.add_spec(q)) == b.add_spec(p).add_spec(q));
    assert(b.add_spec(p) == p.add_spec(b));
    assert(p.add_spec(b).add_spec(q) == p.add_spec(b.add_spec(q)));
    assert(a.add_spec(p.add_spec(b.add_spec(q))) == a.add_spec(p).add_spec(b.add_spec(q)));
}

/// Where sums reorder, the reduction of the lanes after `chunks` whole
/// batches is the plain sum over the first `chunks * LANES` pairs: every
/// pair is counted in exactly one lane.
pub proof fn lemma_lanes_sum<T: Scalar>(x: Seq<T>, y: Seq<T>, chunks: nat)
    requires
        sums_reorder::<T>(),
    ensures
        reduction(lanes(x, y, chunks)) == accumulate(x, y, 0, 1, (chunks * LANES) as nat, zero::<T>()),
    decreases chunks,
{
    let z = zero::<T>();
    if chunks == 0 {
        assert(z.add_spec(z) == z);
    } else {
        let before = (chunks - 1) as nat;
        lemma_lanes_sum(x, y, before);
        let earlier = lanes(x, y, before);
        let later = lanes(x, y, chunks);
        let base = (before * LANES) as int;
        let p0 = x[base + 0].mul_spec(y[base + 0]);
        let p1 = x[base + 1].mul_spec(y[base + 1]);
        let p2 = x[base + 2].mul_spec(y[base + 2]);
        let p3 = x[base + 3].mul_spec(y[base + 3]);
        assert(later.first == earlier.first.add_spec(p0)) by {
            assert(0 + (chunks - 1) * (LANES as int) == base + 0);
        }
        assert(later.second == earlier.second.add_spec(p1)) by {
            assert(1 + (chunks - 1) * (LANES as int) == base + 1);
        }
        assert(later.third == earlier.third.add_spec(p2)) by {
            assert(2 + (chunks - 1) * (LANES as int) == base + 2);
        }
        assert(later.fourth == earlier.fourth.add_spec(p3)) by {
            assert(3 + (chunks - 1) * (LANES as int) == base + 3);
        }
        let s = reduction(earlier);
        let plain0 = accumulate(x, y, 0, 1, base as nat, z);
        let plain1 = accumulate(x, y, 0, 1, (base + 1) as nat, z);
        let plain2 = accumulate(x, y, 0, 1, (base + 2) as nat, z);
        let plain3 = accumulate(x, y, 0, 1, (base + 3) as nat, z);
        let plain4 = accumulate(x, y, 0, 1, (base + 4) as nat, z);
        assert(plain0 == s);
        assert(plain1 == plain0.add_spec(p0)) by {
            assert(((base + 1) as nat - 1) as nat == base as nat);
            assert(0 + ((base + 1) as nat - 1) * 1 == base + 0);
        }
        assert(plain2 == plain1.add_spec(p1)) by {
            assert(((base + 2) as nat - 1) as nat == (base + 1) as nat);
            assert(0 + ((base + 2) as nat - 1) * 1 == base + 1);
        }
        assert(plain3 == plain2.add_spec(p2)) by {
            assert(((base + 3) as nat - 1) as nat == (base + 2) as nat);
            assert(0 + ((base + 3) as nat - 1) * 1 == base + 2);
        }
        assert(plain4 == plain3.add_spec(p3)) by {
            assert(((base + 4) as nat - 1) as nat == (base + 3) as nat);
            assert(0 + ((base + 4) as nat - 1) * 1 == base + 3);
        }
        assert((base + 4) as nat == chunks * LANES);
        let tail = p0.add_spec(p1).add_spec(p2).add_spec(p3);
        assert(plain4 == s.add_spec(tail)) by {
            assert(s.add_spec(p0).add_spec(p1) == s.add_spec(p0.add_spec(p1)));
            assert(s.add_spec(p0.add_spec(p1)).add_spec(p2) == s.add_spec(
                p0.add_spec(p1).add_spec(p2),
            ));
            assert(s.add_spec(p0.add_spec(p1).add_spec(p2)).add_spec(p3) == s.add_spec(tail));
        }
        assert(reduction(later) == s.add_spec(tail)) by {
            lemma_interchange(earlier.first, p0, earlier.second, p1);
            lemma_interchange(earlier.first.add_spec(earlier.second), p0.add_spec(p1), earlier.third, p2);
            lemma_interchange(
                earlier.first.add_spec(earlier.second).add_spec(earlier.third),
                p0.add_spec(p1).add_spec(p2),
                earlier.fourth,
                p3,
            );
        }
    }
}

/// Where sums reorder, batching changes nothing: the batched dot product,
/// whatever the length of the rows and so whether or not it is a multiple
/// of `LANES`, is the plain sum of the products.
pub proof fn lemma_batched_dot_is_dot<T: Scalar>(x: Seq<T>, y: Seq<T>)
    requires
        sums_reorder::<T>(),
    ensures
        batched_dot(x, y) == dot(x, y),
{
    let chunks = whole_batches(x.len());
    let whole = chunks * LANES;
    assert(whole <= x.len()) by {
        vstd::arithmetic::div_mod::lemma_fundamental_div_mod(x.len() as int, LANES as int);
        vstd::arithmetic::div_mod::lemma_mod_bound(x.len() as int, LANES as int);
    }
    let rest = (x.len() - whole) as nat;
    lemma_lanes_sum(x, y, chunks);
    lemma_accumulate_split(x, y, 0, whole as nat, rest, zero::<T>());
    assert((whole + rest) as nat == x.len());
}

/// The scalar type accepts every step of the accumulation whose value
/// [`accumulate`] gives.
pub open spec fn accumulate_fits<T: Scalar>(
    x: Seq<T>,
    y: Seq<T>,
    start: int,
    stride: int,
    count: nat,
    init: T,
) -> bool
    decreases count,
{
    count == 0 || {
        let at = start + (count - 1) * stride;
        let prev = accumulate(x, y, start, stride, (count - 1) as nat, init);
        &&& accumulate_fits(x, y, start, stride, (count - 1) as nat, init)
        &&& can_multiply(x[at], y[at])
        &&& can_add(prev, x[at].mul_spec(y[at]))
    }
}

/// The scalar type accepts every addition of the reduction whose value
/// [`reduction`] gives.
pub open spec fn reduction_fits<T: Scalar>(v: Lanes<T>) -> bool {
    &&& can_add(v.first, v.second)
    &&& can_add(v.first.add_spec(v.second), v.third)
    &&& can_add(v.first.add_spec(v.second).add_spec(v.third), v.fourth)
}

/// The scalar type accepts every step of the batched dot product whose
/// value [`batched_dot`] gives.
pub open spec fn dot_fits<T: Scalar>(x: Seq<T>, y: Seq<T>) -> bool {
    let chunks = whole_batches(x.len());
    let v = lanes(x, y, chunks);
    &&& accumulate_fits(x, y, 0, LANES as int, chunks, zero::<T>())
    &&& accumulate_fits(x, y, 1, LANES as int, chunks, zero::<T>())
    &&& accumulate_fits(x, y, 2, LANES as int, chunks, zero::<T>())
    &&& accumulate_fits(x, y, 3, LANES as int, chunks, zero::<T>())
    &&& reduction_fits(v)
    &&& accumulate_fits(x, y, chunks * LANES, 1, (x.len() - chunks * LANES) as nat, reduction(v))
}

/// For scalars that compute exactly, an accumulation is accepted when each
/// of its steps is accepted on the values that the steps before it give.
pub proof fn lemma_accumulate_fits<T: Scalar>(
    x: Seq<T>,
    y: Seq<T>,
    start: int,
    stride: int,
    count: nat,
    init: T,
)
    requires
        exact::<T>(),
        accumulate_fits(x, y, start, stride, count, init),
    ensures
        can_accumulate(x, y, start, stride, count, init),
    decreases count,
{
    if count > 0 {
        let at = start + (count - 1) * stride;
        lemma_accumulate_fits(x, y, start, stride, (count - 1) as nat, init);
        assert forall|prev: T| #[trigger]
            accumulates(x, y, start, stride, (count - 1) as nat, init, prev) implies can_fuse(
            prev,
            x[at],
            y[at],
        ) by {
            lemma_accumulates_exact(x, y, start, stride, (count - 1) as nat, init, prev);
        }
    }
}

/// For scalars that compute exactly, a batched dot product is accepted
/// when each of its steps is accepted on the values that the steps before
/// it give.
pub proof fn lemma_dot_fits<T: Scalar>(x: Seq<T>, y: Seq<T>)
    requires
        exact::<T>(),
        dot_fits(x, y),
    ensures
        can_dot(x, y),
{
    let chunks = whole_batches(x.len());
    let rest = (x.len() - chunks * LANES) as nat;
    assert forall|z: T| #[trigger] is_zero(z) implies can_batch(x, y, chunks, z) by {
        lemma_accumulate_fits(x, y, 0, LANES as int, chunks, z);
        lemma_accumulate_fits(x, y, 1, LANES as int, chunks, z);
        lemma_accumulate_fits(x, y, 2, LANES as int, chunks, z);
        lemma_accumulate_fits(x, y, 3, LANES as int, chunks, z);
    }
    assert forall|z: T, v: Lanes<T>| is_zero(z) && #[trigger] lanes_after(x, y, chunks, z, v)
        implies v == lanes(x, y, chunks) by {
        lemma_accumulates_exact(x, y, 0, LANES as int, chunks, z, v.first);
        lemma_accumulates_exact(x, y, 1, LANES as int, chunks, z, v.second);
        lemma_accumulates_exact(x, y, 2, LANES as int, chunks, z, v.third);
        lemma_accumulates_exact(x, y, 3, LANES as int, chunks, z, v.fourth);
    }
    assert forall|z: T, v: Lanes<T>| is_zero(z) && #[trigger] lanes_after(x, y, chunks, z, v)
        implies can_reduce(v) by {
        assert(v == lanes(x, y, chunks));
    }
    assert forall|z: T, v: Lanes<T>, h: T|
        is_zero(z) && #[trigger] lanes_after(x, y, chunks, z, v) && #[trigger] reduced(
            v,
            h,
        ) implies can_accumulate(x, y, chunks * LANES, 1, rest, h) by {
        assert(v == lanes(x, y, chunks));
        let (s, t) = choose|s: T, t: T| #[trigger]
            sum_of(v.first, v.second, s) && #[trigger] sum_of(s, v.third, t) && sum_of(
                t,
                v.fourth,
                h,
            );
        assert(h == reduction(v));
        lemma_accumulate_fits(x, y, chunks * LANES, 1, rest, h);
    }
}

} // verus!
