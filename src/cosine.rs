//! Exact cosine similarity over count vectors, in integers.
//!
//! The cosine of two count vectors equals that of their frequency vectors, so
//! it is computed on the counts. It is compared, never rounded: `cos(a, b) >=
//! num / den` and the order of two cosines against one query are decided on
//! squares, cross-multiplied.
use vstd::prelude::*;
use crate::grammar::{sum_of, TfVector, MAX_TERMS};

verus! {

/// `a[0] * b[0] + ... + a[n - 1] * b[n - 1]`.
pub open spec fn dot_upto(a: Seq<u64>, b: Seq<u64>, n: int) -> int
    decreases n,
{
    if n <= 0 {
        0
    } else {
        dot_upto(a, b, n - 1) + a[n - 1] * b[n - 1]
    }
}

/// The dot product of two vectors; the longer one is read as far as the shorter goes.
pub open spec fn dot(a: Seq<u64>, b: Seq<u64>) -> int {
    dot_upto(a, b, if a.len() <= b.len() {
        a.len() as int
    } else {
        b.len() as int
    })
}

/// The squared Euclidean norm.
pub open spec fn norm_sq(a: Seq<u64>) -> int {
    dot(a, a)
}

/// `a[0] + ... + a[n - 1]`.
pub open spec fn sum_upto(a: Seq<u64>, n: int) -> int
    decreases n,
{
    if n <= 0 {
        0
    } else {
        sum_upto(a, n - 1) + a[n - 1]
    }
}

/// Whether the cosine of `a` and `b` is at least `num / den`. A vector of
/// norm zero has cosine zero with every vector.
pub open spec fn similar(a: Seq<u64>, b: Seq<u64>, num: int, den: int) -> bool {
    num <= 0 || (dot(a, b) > 0 && dot(a, b) * dot(a, b) * den * den >= num * num * norm_sq(a)
        * norm_sq(b))
}

/// Whether the key with dot product `d1` and squared norm `n1` against a query
/// has a strictly higher cosine than the key with `d2`, `n2` (both norms positive).
pub open spec fn cos_above(d1: int, n1: int, d2: int, n2: int) -> bool {
    d1 * d1 * n2 > d2 * d2 * n1
}

pub open spec fn cos_equal(d1: int, n1: int, d2: int, n2: int) -> bool {
    d1 * d1 * n2 == d2 * d2 * n1
}

pub proof fn lemma_sum_upto_all(a: Seq<u64>)
    ensures
        sum_upto(a, a.len() as int) == sum_of(a),
    decreases a.len(),
{
    if a.len() > 0 {
        lemma_sum_upto_all(a.drop_last());
        lemma_sum_upto_prefix(a, a.drop_last(), a.len() - 1);
    }
}

pub proof fn lemma_sum_upto_prefix(a: Seq<u64>, b: Seq<u64>, n: int)
    requires
        n <= a.len(),
        n <= b.len(),
        forall|i: int| 0 <= i < n ==> a[i] == b[i],
    ensures
        sum_upto(a, n) == sum_upto(b, n),
    decreases n,
{
    if n > 0 {
        lemma_sum_upto_prefix(a, b, n - 1);
    }
}

pub proof fn lemma_sum_upto_mono(a: Seq<u64>, m: int, n: int)
    requires
        0 <= m <= n <= a.len(),
    ensures
        sum_upto(a, m) <= sum_upto(a, n),
    decreases n,
{
    if m < n {
        lemma_sum_upto_mono(a, m, n - 1);
    }
}

/// A dot product is at most the product of the two sums, when every entry of
/// `b` is at most `tb`.
pub proof fn lemma_dot_upto_bound(a: Seq<u64>, b: Seq<u64>, n: int, tb: int)
    requires
        0 <= n <= a.len(),
        n <= b.len(),
        forall|i: int| 0 <= i < b.len() ==> b[i] <= tb,
    ensures
        0 <= dot_upto(a, b, n) <= tb * sum_upto(a, n),
    decreases n,
{
    if n > 0 {
        lemma_dot_upto_bound(a, b, n - 1, tb);
        let x = a[n - 1] as int;
        let y = b[n - 1] as int;
        assert(0 <= x * y <= x * tb) by (nonlinear_arith)
            requires
                0 <= x,
                0 <= y <= tb,
        ;
        assert(tb * sum_upto(a, n - 1) + x * tb == tb * sum_upto(a, n)) by (nonlinear_arith)
            requires
                sum_upto(a, n) == sum_upto(a, n - 1) + x,
        ;
    }
}

/// Against vectors whose entries sum to at most `MAX_TERMS`, dot products and
/// squared norms stay below `MAX_TERMS * MAX_TERMS`.
pub proof fn lemma_dot_bound(a: Seq<u64>, b: Seq<u64>, ta: int, tb: int)
    requires
        sum_of(a) == ta,
        sum_of(b) == tb,
        0 <= ta <= MAX_TERMS,
        0 <= tb <= MAX_TERMS,
        forall|i: int| 0 <= i < b.len() ==> b[i] <= tb,
    ensures
        0 <= dot(a, b) <= MAX_TERMS * MAX_TERMS,
{
    let n = if a.len() <= b.len() {
        a.len() as int
    } else {
        b.len() as int
    };
    lemma_dot_upto_bound(a, b, n, tb);
    lemma_sum_upto_mono(a, n, a.len() as int);
    lemma_sum_upto_mono(a, 0, n);
    lemma_sum_upto_all(a);
    let s = sum_upto(a, n);
    assert(0 <= tb * s <= MAX_TERMS * MAX_TERMS) by (nonlinear_arith)
        requires
            0 <= s <= ta,
            0 <= ta <= MAX_TERMS,
            0 <= tb <= MAX_TERMS,
    ;
}

/// A dot product of count vectors is positive exactly when the two share a
/// word that both count.
pub proof fn lemma_dot_pos(a: Seq<u64>, b: Seq<u64>, n: int)
    requires
        0 <= n <= a.len(),
        n <= b.len(),
    ensures
        dot_upto(a, b, n) >= 0,
        dot_upto(a, b, n) > 0 <==> exists|i: int| 0 <= i < n && a[i] > 0 && b[i] > 0,
    decreases n,
{
    if n > 0 {
        lemma_dot_pos(a, b, n - 1);
        let x = a[n - 1] as int;
        let y = b[n - 1] as int;
        assert(x * y >= 0 && (x * y > 0 <==> x > 0 && y > 0)) by (nonlinear_arith)
            requires
                x >= 0,
                y >= 0,
        ;
        if dot_upto(a, b, n) > 0 {
            if dot_upto(a, b, n - 1) <= 0 {
                assert(a[n - 1] > 0 && b[n - 1] > 0);
            }
        }
    }
}

/// A squared norm is at least the square of each entry.
pub proof fn lemma_norm_ge(a: Seq<u64>, n: int, i: int)
    requires
        0 <= i < n <= a.len(),
    ensures
        dot_upto(a, a, n) >= a[i] * a[i],
    decreases n,
{
    lemma_dot_pos(a, a, n - 1);
    let x = a[n - 1] as int;
    assert(x * x >= 0) by (nonlinear_arith);
    if i < n - 1 {
        lemma_norm_ge(a, n - 1, i);
    }
}

/// A vector with a positive dot product against another has a positive norm.
pub proof fn lemma_dot_pos_norms(a: Seq<u64>, b: Seq<u64>)
    requires
        dot(a, b) > 0,
    ensures
        norm_sq(a) > 0,
        norm_sq(b) > 0,
{
    let n = if a.len() <= b.len() {
        a.len() as int
    } else {
        b.len() as int
    };
    lemma_dot_pos(a, b, n);
    let i = choose|i: int| 0 <= i < n && a[i] > 0 && b[i] > 0;
    lemma_norm_ge(a, a.len() as int, i);
    lemma_norm_ge(b, b.len() as int, i);
    let x = a[i] as int;
    let y = b[i] as int;
    assert(x * x > 0 && y * y > 0) by (nonlinear_arith)
        requires
            x > 0,
            y > 0,
    ;
}

/// The order of cosines is transitive.
pub proof fn lemma_cos_trans(d1: int, n1: int, d2: int, n2: int, d3: int, n3: int)
    requires
        n1 > 0,
        n2 > 0,
        n3 > 0,
        cos_above(d1, n1, d2, n2) || cos_equal(d1, n1, d2, n2),
        cos_above(d2, n2, d3, n3) || cos_equal(d2, n2, d3, n3),
    ensures
        cos_above(d1, n1, d3, n3) || cos_equal(d1, n1, d3, n3),
        cos_above(d1, n1, d2, n2) || cos_above(d2, n2, d3, n3) ==> cos_above(d1, n1, d3, n3),
{
    let x1 = d1 * d1;
    let x2 = d2 * d2;
    let x3 = d3 * d3;
    assert(x1 * n2 * n3 >= x2 * n1 * n3) by (nonlinear_arith)
        requires
            x1 * n2 >= x2 * n1,
            n3 > 0,
    ;
    assert(x2 * n3 * n1 >= x3 * n2 * n1) by (nonlinear_arith)
        requires
            x2 * n3 >= x3 * n2,
            n1 > 0,
    ;
    assert(x1 * n3 * n2 >= x3 * n1 * n2) by (nonlinear_arith)
        requires
            x1 * n2 * n3 >= x2 * n1 * n3,
            x2 * n3 * n1 >= x3 * n2 * n1,
    ;
    assert(x1 * n3 >= x3 * n1) by (nonlinear_arith)
        requires
            x1 * n3 * n2 >= x3 * n1 * n2,
            n2 > 0,
    ;
    if cos_above(d1, n1, d2, n2) || cos_above(d2, n2, d3, n3) {
        if cos_above(d1, n1, d2, n2) {
            assert(x1 * n2 * n3 > x2 * n1 * n3) by (nonlinear_arith)
                requires
                    x1 * n2 > x2 * n1,
                    n3 > 0,
            ;
        } else {
            assert(x2 * n3 * n1 > x3 * n2 * n1) by (nonlinear_arith)
                requires
                    x2 * n3 > x3 * n2,
                    n1 > 0,
            ;
        }
        assert(x1 * n3 * n2 > x3 * n1 * n2) by (nonlinear_arith)
            requires
                x1 * n2 * n3 >= x2 * n1 * n3,
                x2 * n3 * n1 >= x3 * n2 * n1,
                x1 * n2 * n3 > x2 * n1 * n3 || x2 * n3 * n1 > x3 * n2 * n1,
        ;
        assert(x1 * n3 > x3 * n1) by (nonlinear_arith)
            requires
                x1 * n3 * n2 > x3 * n1 * n2,
                n2 > 0,
        ;
    }
}

/// The dot product of two vectors.
pub fn dot_of(a: &TfVector, b: &TfVector) -> (r: u64)
    requires
        a.wf(),
        b.wf(),
    ensures
        r == dot(a.counts@, b.counts@),
        r <= MAX_TERMS * MAX_TERMS,
{
    let n = if a.counts.len() <= b.counts.len() {
        a.counts.len()
    } else {
        b.counts.len()
    };
    let ghost tb = b.total as int;
    let mut acc: u64 = 0;
    let mut i: usize = 0;
    proof {
        lemma_sum_upto_all(a.counts@);
    }
    while i < n
        invariant
            a.wf(),
            b.wf(),
            tb == b.total,
            n <= a.counts@.len(),
            n <= b.counts@.len(),
            n == if a.counts@.len() <= b.counts@.len() {
                a.counts@.len()
            } else {
                b.counts@.len()
            },
            i <= n,
            acc == dot_upto(a.counts@, b.counts@, i as int),
            sum_upto(a.counts@, a.counts@.len() as int) == a.total,
        decreases n - i,
    {
        proof {
            lemma_dot_upto_bound(a.counts@, b.counts@, i + 1, tb);
            lemma_sum_upto_mono(a.counts@, i + 1, a.counts@.len() as int);
            let s = sum_upto(a.counts@, i + 1);
            assert(tb * s <= MAX_TERMS * MAX_TERMS) by (nonlinear_arith)
                requires
                    s <= a.total,
                    a.total <= MAX_TERMS,
                    0 <= tb <= MAX_TERMS,
            ;
            let x = a.counts@[i as int] as int;
            let y = b.counts@[i as int] as int;
            assert(x * y >= 0) by (nonlinear_arith)
                requires
                    x >= 0,
                    y >= 0,
            ;
        }
        acc = acc + a.counts[i] * b.counts[i];
        i = i + 1;
    }
    proof {
        lemma_dot_bound(a.counts@, b.counts@, a.total as int, b.total as int);
    }
    acc
}

/// Whether the cosine of `a` and `b` is at least `num / den`, given their
/// squared norms `an` and `bn`.
pub fn is_similar(a: &TfVector, an: u64, b: &TfVector, bn: u64, num: u16, den: u16) -> (r: bool)
    requires
        a.wf(),
        b.wf(),
        an == norm_sq(a.counts@),
        bn == norm_sq(b.counts@),
    ensures
        r == similar(a.counts@, b.counts@, num as int, den as int),
{
    if num == 0 {
        return true;
    }
    let d = dot_of(a, b);
    if d == 0 {
        return false;
    }
    proof {
        lemma_dot_bound(a.counts@, a.counts@, a.total as int, a.total as int);
        lemma_dot_bound(b.counts@, b.counts@, b.total as int, b.total as int);
    }
    assert((d as int) * (d as int) <= 0x1_0000_0000_0000_0000_0000) by (nonlinear_arith)
        requires
            d <= MAX_TERMS * MAX_TERMS,
    ;
    assert((den as int) * (den as int) <= 0x1_0000_0000) by (nonlinear_arith)
        requires
            den <= 0xffff,
    ;
    assert((num as int) * (num as int) <= 0x1_0000_0000) by (nonlinear_arith)
        requires
            num <= 0xffff,
    ;
    assert((an as int) * (bn as int) <= 0x1_0000_0000_0000_0000_0000) by (nonlinear_arith)
        requires
            an <= MAX_TERMS * MAX_TERMS,
            bn <= MAX_TERMS * MAX_TERMS,
    ;
    let d2 = (d as u128) * (d as u128);
    let den2 = (den as u128) * (den as u128);
    let num2 = (num as u128) * (num as u128);
    assert(d2 * den2 <= 0x1_0000_0000_0000_0000_0000_0000_0000) by (nonlinear_arith)
        requires
            d2 == d * d,
            d <= MAX_TERMS * MAX_TERMS,
            den2 == den * den,
            den <= 0xffff,
    ;
    let left = d2 * den2;
    let n2 = (an as u128) * (bn as u128);
    assert(num2 * n2 <= 0x1_0000_0000_0000_0000_0000_0000_0000) by (nonlinear_arith)
        requires
            n2 == an * bn,
            an <= MAX_TERMS * MAX_TERMS,
            bn <= MAX_TERMS * MAX_TERMS,
            num2 == num * num,
            num <= 0xffff,
    ;
    let right = num2 * n2;
    proof {
        assert(left == d * d * den * den) by (nonlinear_arith)
            requires
                left == d2 * den2,
                d2 == d * d,
                den2 == den * den,
        ;
        assert(right == num * num * an * bn) by (nonlinear_arith)
            requires
                right == num2 * n2,
                num2 == num * num,
                n2 == an * bn,
        ;
    }
    left >= right
}

} // verus!
