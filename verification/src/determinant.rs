//! Determinants of matrices whose entries are linear in a variable `s`, coefficient by
//! coefficient.
//!
//! An entry `(a, b)` stands for `a*s + b`. A determinant is a polynomial in `s`; it is
//! described by its coefficients.

use crate::field::{
    exact, lemma_distributes, lemma_exchange, lemma_negation, lemma_negation_of_product,
    lemma_negation_of_sum, lemma_negation_twice, lemma_no_zero_divisors, lemma_product_associates,
    lemma_product_commutes, lemma_product_one, lemma_product_zero, lemma_sum_associates,
    lemma_sum_commutes, lemma_sum_zero,
};
use crate::scalar::Scalar;
use vstd::prelude::*;

verus! {

// Sums

/// The sum of the first `n` values of a function.
pub open spec fn total<S: Scalar>(f: spec_fn(int) -> S, n: nat) -> S
    decreases n,
{
    if n == 0 {
        S::nought()
    } else {
        total(f, (n - 1) as nat).sum(f(n - 1))
    }
}

pub proof fn lemma_total_congruent<S: Scalar>(
    f: spec_fn(int) -> S,
    g: spec_fn(int) -> S,
    n: nat,
)
    requires
        forall|i: int| 0 <= i < n ==> #[trigger] f(i) == g(i),
    ensures
        total(f, n) == total(g, n),
    decreases n,
{
    if n > 0 {
        lemma_total_congruent(f, g, (n - 1) as nat);
        assert(f(n - 1) == g(n - 1));
    }
}

pub proof fn lemma_total_zero<S: Scalar>(f: spec_fn(int) -> S, n: nat)
    requires
        exact::<S>(),
        forall|i: int| 0 <= i < n ==> #[trigger] f(i) == S::nought(),
    ensures
        total(f, n) == S::nought(),
    decreases n,
{
    if n > 0 {
        lemma_total_zero(f, (n - 1) as nat);
        assert(f(n - 1) == S::nought());
        lemma_sum_zero(S::nought());
    }
}

pub proof fn lemma_total_added<S: Scalar>(
    f: spec_fn(int) -> S,
    g: spec_fn(int) -> S,
    h: spec_fn(int) -> S,
    n: nat,
)
    requires
        exact::<S>(),
        forall|i: int| 0 <= i < n ==> #[trigger] h(i) == f(i).sum(g(i)),
    ensures
        total(h, n) == total(f, n).sum(total(g, n)),
    decreases n,
{
    if n == 0 {
        lemma_sum_zero(S::nought());
    } else {
        let less = (n - 1) as nat;
        lemma_total_added(f, g, h, less);
        assert(h(n - 1) == f(n - 1).sum(g(n - 1)));
        lemma_exchange(total(f, less), total(g, less), f(n - 1), g(n - 1));
    }
}

pub proof fn lemma_total_negated<S: Scalar>(f: spec_fn(int) -> S, g: spec_fn(int) -> S, n: nat)
    requires
        exact::<S>(),
        forall|i: int| 0 <= i < n ==> #[trigger] g(i) == f(i).negation(),
    ensures
        total(g, n) == total(f, n).negation(),
    decreases n,
{
    if n == 0 {
        lemma_negation_twice(S::nought());
    } else {
        lemma_total_negated(f, g, (n - 1) as nat);
        assert(g(n - 1) == f(n - 1).negation());
        lemma_negation_of_sum(total(f, (n - 1) as nat), f(n - 1));
    }
}

pub proof fn lemma_total_scaled<S: Scalar>(
    f: spec_fn(int) -> S,
    g: spec_fn(int) -> S,
    s: S,
    n: nat,
)
    requires
        exact::<S>(),
        forall|i: int| 0 <= i < n ==> #[trigger] g(i) == s.product(f(i)),
    ensures
        total(g, n) == s.product(total(f, n)),
    decreases n,
{
    if n == 0 {
        lemma_product_zero(s);
    } else {
        lemma_total_scaled(f, g, s, (n - 1) as nat);
        assert(g(n - 1) == s.product(f(n - 1)));
        lemma_distributes(s, total(f, (n - 1) as nat), f(n - 1));
    }
}

/// A sum with a single value that is not zero.
pub proof fn lemma_total_single<S: Scalar>(f: spec_fn(int) -> S, at: int, n: nat)
    requires
        exact::<S>(),
        0 <= at < n,
        forall|i: int| 0 <= i < n && i != at ==> #[trigger] f(i) == S::nought(),
    ensures
        total(f, n) == f(at),
    decreases n,
{
    if at == n - 1 {
        lemma_total_zero(f, (n - 1) as nat);
        lemma_sum_zero(f(at));
    } else {
        lemma_total_single(f, at, (n - 1) as nat);
        assert(f(n - 1) == S::nought());
        lemma_sum_zero(f(at));
    }
}

/// The two sums of a double sum can change places.
pub proof fn lemma_total_swapped<S: Scalar>(f: spec_fn(int, int) -> S, m: nat, n: nat)
    requires
        exact::<S>(),
    ensures
        total(|i: int| total(|j: int| f(i, j), n), m) == total(
            |j: int| total(|i: int| f(i, j), m),
            n,
        ),
    decreases m,
{
    let rows = |i: int| total(|j: int| f(i, j), n);
    let cols = |j: int| total(|i: int| f(i, j), m);
    if m == 0 {
        lemma_total_zero(cols, n);
    } else {
        let less = (m - 1) as nat;
        let before = |j: int| total(|i: int| f(i, j), less);
        let last = |j: int| f(m - 1, j);
        lemma_total_swapped(f, less, n);
        lemma_total_added(before, last, cols, n);
        lemma_total_congruent(|j: int| f(m - 1, j), last, n);
    }
}

/// A sum that leaves out one place is the sum with zero in that place.
proof fn lemma_total_without<S: Scalar>(
    f: spec_fn(int) -> S,
    skipped: spec_fn(int) -> S,
    filled: spec_fn(int) -> S,
    at: int,
    n: nat,
)
    requires
        exact::<S>(),
        0 <= at < n,
        forall|l: int|
            0 <= l < n - 1 ==> #[trigger] skipped(l) == f(
                if l < at {
                    l
                } else {
                    l + 1
                },
            ),
        forall|m: int|
            0 <= m < n ==> #[trigger] filled(m) == (if m == at {
                S::nought()
            } else {
                f(m)
            }),
    ensures
        total(skipped, (n - 1) as nat) == total(filled, n),
    decreases n,
{
    let less = (n - 1) as nat;
    assert(filled(n - 1) == (if n - 1 == at {
        S::nought()
    } else {
        f(n - 1)
    }));
    if at == n - 1 {
        assert forall|l: int| 0 <= l < less implies #[trigger] skipped(l) == filled(l) by {
            assert(filled(l) == f(l));
        }
        lemma_total_congruent(skipped, filled, less);
        lemma_sum_zero(total(filled, less));
    } else {
        lemma_total_without(f, skipped, filled, at, less);
        assert(skipped(n - 2) == f(n - 1));
    }
}

// Determinants

/// A value with its sign changed for an odd place.
pub open spec fn signed<S: Scalar>(place: int, x: S) -> S {
    if place % 2 == 0 {
        x
    } else {
        x.negation()
    }
}

/// A coefficient of a linear entry times a polynomial, from the polynomial's coefficient of
/// the power below and that of the same power.
pub open spec fn times<S: Scalar>(entry: (S, S), below: S, same: S) -> S {
    entry.0.product(below).sum(entry.1.product(same))
}

/// The coefficient of `s^k` in the determinant of the given rows and columns, expanded along
/// the first row.
pub open spec fn det<S: Scalar>(rows: Seq<Seq<(S, S)>>, cols: Seq<int>, k: int) -> S
    decreases rows.len(), cols.len() + 1,
{
    if rows.len() == 0 {
        if k == 0 {
            S::unit()
        } else {
            S::nought()
        }
    } else {
        det_terms(rows, cols, k, cols.len())
    }
}

/// The first `n` terms of the expansion along the first row.
pub open spec fn det_terms<S: Scalar>(
    rows: Seq<Seq<(S, S)>>,
    cols: Seq<int>,
    k: int,
    n: nat,
) -> S
    decreases rows.len(), n,
{
    if n == 0 || rows.len() == 0 || n > cols.len() {
        S::nought()
    } else {
        det_terms(rows, cols, k, (n - 1) as nat).sum(
            signed(
                n - 1,
                times(
                    rows[0][cols[n - 1]],
                    det(rows.skip(1), cols.remove(n - 1), k - 1),
                    det(rows.skip(1), cols.remove(n - 1), k),
                ),
            ),
        )
    }
}

/// One term of the expansion along the first row.
pub open spec fn det_term<S: Scalar>(
    rows: Seq<Seq<(S, S)>>,
    cols: Seq<int>,
    k: int,
    j: int,
) -> S {
    signed(
        j,
        times(
            rows[0][cols[j]],
            det(rows.skip(1), cols.remove(j), k - 1),
            det(rows.skip(1), cols.remove(j), k),
        ),
    )
}

proof fn lemma_det_terms<S: Scalar>(rows: Seq<Seq<(S, S)>>, cols: Seq<int>, k: int, n: nat)
    requires
        rows.len() > 0,
        n <= cols.len(),
    ensures
        det_terms(rows, cols, k, n) == total(|j: int| det_term(rows, cols, k, j), n),
    decreases n,
{
    if n > 0 {
        lemma_det_terms(rows, cols, k, (n - 1) as nat);
    }
}

/// A determinant is the sum of the terms of its expansion.
pub proof fn lemma_det<S: Scalar>(rows: Seq<Seq<(S, S)>>, cols: Seq<int>, k: int)
    requires
        rows.len() > 0,
    ensures
        det(rows, cols, k) == total(|j: int| det_term(rows, cols, k, j), cols.len()),
{
    lemma_det_terms(rows, cols, k, cols.len());
}

proof fn lemma_signed<S: Scalar>(i: int, j: int, x: S)
    requires
        exact::<S>(),
    ensures
        signed(i, signed(j, x)) == signed(i + j, x),
        signed(i + 1, x) == signed(i, x).negation(),
        signed(i, x.negation()) == signed(i, x).negation(),
{
    lemma_negation_twice(x);
}

proof fn lemma_signed_sum<S: Scalar>(i: int, x: S, y: S)
    requires
        exact::<S>(),
    ensures
        signed(i, x.sum(y)) == signed(i, x).sum(signed(i, y)),
{
    lemma_negation_of_sum(x, y);
}

proof fn lemma_signed_product<S: Scalar>(i: int, x: S, y: S)
    requires
        exact::<S>(),
    ensures
        signed(i, x.product(y)) == x.product(signed(i, y)),
{
    lemma_negation_of_product(x, y);
}

proof fn lemma_times_negated<S: Scalar>(entry: (S, S), below: S, same: S)
    requires
        exact::<S>(),
    ensures
        times(entry, below.negation(), same.negation()) == times(entry, below, same).negation(),
{
    lemma_negation_of_product(entry.0, below);
    lemma_negation_of_product(entry.1, same);
    lemma_negation_of_sum(entry.0.product(below), entry.1.product(same));
}

proof fn lemma_times_signed<S: Scalar>(i: int, entry: (S, S), below: S, same: S)
    requires
        exact::<S>(),
    ensures
        times(entry, signed(i, below), signed(i, same)) == signed(i, times(entry, below, same)),
{
    lemma_times_negated(entry, below, same);
}

proof fn lemma_times_added<S: Scalar>(entry: (S, S), b1: S, s1: S, b2: S, s2: S)
    requires
        exact::<S>(),
    ensures
        times(entry, b1.sum(b2), s1.sum(s2)) == times(entry, b1, s1).sum(times(entry, b2, s2)),
{
    lemma_distributes(entry.0, b1, b2);
    lemma_distributes(entry.1, s1, s2);
    lemma_exchange(
        entry.0.product(b1),
        entry.0.product(b2),
        entry.1.product(s1),
        entry.1.product(s2),
    );
}

proof fn lemma_times_zero<S: Scalar>(entry: (S, S))
    requires
        exact::<S>(),
    ensures
        times(entry, S::nought(), S::nought()) == S::nought(),
{
    lemma_product_zero(entry.0);
    lemma_product_zero(entry.1);
    lemma_sum_zero(S::nought());
}

/// An entry times a sum of polynomials.
proof fn lemma_times_total<S: Scalar>(
    entry: (S, S),
    below: spec_fn(int) -> S,
    same: spec_fn(int) -> S,
    out: spec_fn(int) -> S,
    n: nat,
)
    requires
        exact::<S>(),
        forall|i: int| 0 <= i < n ==> #[trigger] out(i) == times(entry, below(i), same(i)),
    ensures
        times(entry, total(below, n), total(same, n)) == total(out, n),
    decreases n,
{
    if n == 0 {
        lemma_times_zero(entry);
    } else {
        let less = (n - 1) as nat;
        lemma_times_total(entry, below, same, out, less);
        assert(out(n - 1) == times(entry, below(n - 1), same(n - 1)));
        lemma_times_added(
            entry,
            total(below, less),
            total(same, less),
            below(n - 1),
            same(n - 1),
        );
    }
}

/// Two entries times a polynomial, in either order.
proof fn lemma_times_commutes<S: Scalar>(x: (S, S), y: (S, S), e2: S, e1: S, e0: S)
    requires
        exact::<S>(),
    ensures
        times(x, times(y, e2, e1), times(y, e1, e0)) == times(
            y,
            times(x, e2, e1),
            times(x, e1, e0),
        ),
{
    lemma_times_expanded(x, y, e2, e1, e0);
    lemma_times_expanded(y, x, e2, e1, e0);
    let (a, b) = x;
    let (c, d) = y;
    lemma_product_commutes(a, c);
    lemma_product_commutes(a, d);
    lemma_product_commutes(b, c);
    lemma_product_commutes(b, d);
    lemma_sum_commutes(a.product(d).product(e1), b.product(c).product(e1));
}

/// `x*(y*e)`, multiplied out.
proof fn lemma_times_expanded<S: Scalar>(x: (S, S), y: (S, S), e2: S, e1: S, e0: S)
    requires
        exact::<S>(),
    ensures
        times(x, times(y, e2, e1), times(y, e1, e0)) == x.0.product(y.0).product(e2).sum(
            x.0.product(y.1).product(e1).sum(x.1.product(y.0).product(e1)),
        ).sum(x.1.product(y.1).product(e0)),
{
    let (a, b) = x;
    let (c, d) = y;
    lemma_distributes(a, c.product(e2), d.product(e1));
    lemma_distributes(b, c.product(e1), d.product(e0));
    lemma_product_associates(a, c, e2);
    lemma_product_associates(a, d, e1);
    lemma_product_associates(b, c, e1);
    lemma_product_associates(b, d, e0);
    let (p, q, r, t) = (
        a.product(c).product(e2),
        a.product(d).product(e1),
        b.product(c).product(e1),
        b.product(d).product(e0),
    );
    lemma_sum_associates(p, q, r.sum(t));
    lemma_sum_associates(q, r, t);
    lemma_sum_associates(p, q.sum(r), t);
}

// Exchanging rows

/// The place of column `m` once column `j` is removed.
spec fn place_without(j: int, m: int) -> int {
    if m < j {
        m
    } else {
        m - 1
    }
}

/// The term of the expansion along two rows that takes column `j` for the first and column
/// `m` for the second.
spec fn pair_term<S: Scalar>(
    first: Seq<(S, S)>,
    second: Seq<(S, S)>,
    rest: Seq<Seq<(S, S)>>,
    cols: Seq<int>,
    k: int,
    j: int,
    m: int,
) -> S {
    let l = place_without(j, m);
    let left = cols.remove(j).remove(l);
    if j == m {
        S::nought()
    } else {
        signed(
            j + l,
            times(
                first[cols[j]],
                times(second[cols[m]], det(rest, left, k - 2), det(rest, left, k - 1)),
                times(second[cols[m]], det(rest, left, k - 1), det(rest, left, k)),
            ),
        )
    }
}

proof fn lemma_pair_row<S: Scalar>(rows: Seq<Seq<(S, S)>>, cols: Seq<int>, k: int, j: int)
    requires
        exact::<S>(),
        rows.len() >= 2,
        0 <= j < cols.len(),
    ensures
        det_term(rows, cols, k, j) == total(
            |m: int| pair_term(rows[0], rows[1], rows.skip(2), cols, k, j, m),
            cols.len(),
        ),
{
    let n = cols.len();
    let less = (n - 1) as nat;
    let rest = rows.skip(1);
    let last = rows.skip(2);
    let left = cols.remove(j);
    let x = rows[0][cols[j]];
    assert(rest.skip(1) =~= last);
    assert(rest[0] == rows[1]);
    lemma_det(rest, left, k - 1);
    lemma_det(rest, left, k);
    let below = |l: int| det_term(rest, left, k - 1, l);
    let same = |l: int| det_term(rest, left, k, l);
    let both = |l: int| times(x, below(l), same(l));
    lemma_times_total(x, below, same, both, less);
    let f = |m: int|
        signed(
            place_without(j, m),
            times(
                x,
                times(
                    rows[1][cols[m]],
                    det(last, left.remove(place_without(j, m)), k - 2),
                    det(last, left.remove(place_without(j, m)), k - 1),
                ),
                times(
                    rows[1][cols[m]],
                    det(last, left.remove(place_without(j, m)), k - 1),
                    det(last, left.remove(place_without(j, m)), k),
                ),
            ),
        );
    let filled = |m: int|
        if m == j {
            S::nought()
        } else {
            f(m)
        };
    assert forall|l: int| 0 <= l < n - 1 implies #[trigger] both(l) == f(
        if l < j {
            l
        } else {
            l + 1
        },
    ) by {
        let m = if l < j {
            l
        } else {
            l + 1
        };
        assert(left[l] == cols[m]);
        assert(place_without(j, m) == l);
        let y = rows[1][cols[m]];
        let (e2, e1, e0) = (
            det(last, left.remove(l), k - 2),
            det(last, left.remove(l), k - 1),
            det(last, left.remove(l), k),
        );
        assert(below(l) == signed(l, times(y, e2, e1)));
        assert(same(l) == signed(l, times(y, e1, e0)));
        lemma_times_signed(l, x, times(y, e2, e1), times(y, e1, e0));
    }
    lemma_total_without(f, both, filled, j, n);
    let pairs = |m: int| pair_term(rows[0], rows[1], last, cols, k, j, m);
    assert forall|m: int| 0 <= m < n implies #[trigger] pairs(m) == signed(j, filled(m)) by {
        if m == j {
            lemma_negation_twice(S::nought());
        } else {
            let l = place_without(j, m);
            let y = rows[1][cols[m]];
            let w = times(
                x,
                times(
                    y,
                    det(last, left.remove(l), k - 2),
                    det(last, left.remove(l), k - 1),
                ),
                times(y, det(last, left.remove(l), k - 1), det(last, left.remove(l), k)),
            );
            assert(filled(m) == signed(l, w));
            lemma_signed(j, l, w);
        }
    }
    lemma_total_signed(filled, pairs, j, n);
}

/// A sum with the sign of every term changed, or of none.
proof fn lemma_total_signed<S: Scalar>(
    f: spec_fn(int) -> S,
    g: spec_fn(int) -> S,
    place: int,
    n: nat,
)
    requires
        exact::<S>(),
        forall|i: int| 0 <= i < n ==> #[trigger] g(i) == signed(place, f(i)),
    ensures
        total(g, n) == signed(place, total(f, n)),
{
    if place % 2 == 0 {
        lemma_total_congruent(g, f, n);
    } else {
        lemma_total_negated(f, g, n);
    }
}

proof fn lemma_pair_swapped<S: Scalar>(
    first: Seq<(S, S)>,
    second: Seq<(S, S)>,
    rest: Seq<Seq<(S, S)>>,
    cols: Seq<int>,
    k: int,
    j: int,
    m: int,
)
    requires
        exact::<S>(),
        0 <= j < cols.len(),
        0 <= m < cols.len(),
    ensures
        pair_term(second, first, rest, cols, k, m, j) == pair_term(
            first,
            second,
            rest,
            cols,
            k,
            j,
            m,
        ).negation(),
{
    if j == m {
        lemma_negation_twice(S::nought());
    } else {
        let l = place_without(j, m);
        let o = place_without(m, j);
        let left = cols.remove(j).remove(l);
        assert(cols.remove(m).remove(o) =~= left);
        let (x, y) = (first[cols[j]], second[cols[m]]);
        let (e2, e1, e0) = (det(rest, left, k - 2), det(rest, left, k - 1), det(rest, left, k));
        lemma_times_commutes(x, y, e2, e1, e0);
        let w = times(x, times(y, e2, e1), times(y, e1, e0));
        if m < j {
            assert(j + l == (m + o) + 1);
            lemma_signed(m + o, 0, w);
            lemma_negation_twice(signed(m + o, w));
        } else {
            assert(m + o == (j + l) + 1);
            lemma_signed(j + l, 0, w);
        }
    }
}

/// A list of rows with two neighbours exchanged.
pub open spec fn neighbours_swapped<T>(rows: Seq<T>, p: int) -> Seq<T> {
    rows.update(p, rows[p + 1]).update(p + 1, rows[p])
}

proof fn lemma_det_as_pairs<S: Scalar>(rows: Seq<Seq<(S, S)>>, cols: Seq<int>, k: int)
    requires
        exact::<S>(),
        rows.len() >= 2,
    ensures
        det(rows, cols, k) == total(
            |j: int|
                total(
                    |m: int| pair_term(rows[0], rows[1], rows.skip(2), cols, k, j, m),
                    cols.len(),
                ),
            cols.len(),
        ),
{
    lemma_det(rows, cols, k);
    let f = |j: int| det_term(rows, cols, k, j);
    let g = |j: int|
        total(
            |m: int| pair_term(rows[0], rows[1], rows.skip(2), cols, k, j, m),
            cols.len(),
        );
    assert forall|j: int| 0 <= j < cols.len() implies #[trigger] f(j) == g(j) by {
        lemma_pair_row(rows, cols, k, j);
    }
    lemma_total_congruent(f, g, cols.len());
}

proof fn lemma_first_rows_swapped<S: Scalar>(
    rows: Seq<Seq<(S, S)>>,
    cols: Seq<int>,
    k: int,
)
    requires
        exact::<S>(),
        rows.len() >= 2,
    ensures
        det(neighbours_swapped(rows, 0), cols, k) == det(rows, cols, k).negation(),
{
    let n = cols.len();
    let swapped = neighbours_swapped(rows, 0);
    let (a, b) = (rows[0], rows[1]);
    let rest = rows.skip(2);
    assert(swapped.skip(2) =~= rest);
    assert(swapped[0] == b && swapped[1] == a);
    lemma_det_as_pairs(rows, cols, k);
    lemma_det_as_pairs(swapped, cols, k);
    let f = |j: int, m: int| pair_term(a, b, rest, cols, k, j, m);
    let g = |m: int, j: int| pair_term(b, a, rest, cols, k, m, j);
    let by_row = |j: int| total(|m: int| f(j, m), n);
    let by_col = |m: int| total(|j: int| f(j, m), n);
    lemma_total_swapped(f, n, n);
    let other = |m: int| total(|j: int| g(m, j), n);
    assert forall|m: int| 0 <= m < n implies #[trigger] other(m) == by_col(m).negation() by {
        let p = |j: int| f(j, m);
        let q = |j: int| g(m, j);
        assert forall|j: int| 0 <= j < n implies #[trigger] q(j) == p(j).negation() by {
            lemma_pair_swapped(a, b, rest, cols, k, j, m);
        }
        lemma_total_negated(p, q, n);
    }
    lemma_total_negated(by_col, other, n);
    let direct = |j: int| total(|m: int| pair_term(a, b, rest, cols, k, j, m), n);
    assert forall|j: int| 0 <= j < n implies #[trigger] direct(j) == by_row(j) by {
        lemma_total_congruent(
            |m: int| pair_term(a, b, rest, cols, k, j, m),
            |m: int| f(j, m),
            n,
        );
    }
    lemma_total_congruent(direct, by_row, n);
    let turned = |m: int| total(|j: int| pair_term(b, a, rest, cols, k, m, j), n);
    assert forall|m: int| 0 <= m < n implies #[trigger] turned(m) == other(m) by {
        lemma_total_congruent(
            |j: int| pair_term(b, a, rest, cols, k, m, j),
            |j: int| g(m, j),
            n,
        );
    }
    lemma_total_congruent(turned, other, n);
}

/// Exchanging two neighbouring rows changes the sign of a determinant.
pub proof fn lemma_neighbours_swapped<S: Scalar>(
    rows: Seq<Seq<(S, S)>>,
    cols: Seq<int>,
    k: int,
    p: int,
)
    requires
        exact::<S>(),
        0 <= p < rows.len() - 1,
    ensures
        det(neighbours_swapped(rows, p), cols, k) == det(rows, cols, k).negation(),
    decreases p,
{
    if p == 0 {
        lemma_first_rows_swapped(rows, cols, k);
    } else {
        let swapped = neighbours_swapped(rows, p);
        let rest = rows.skip(1);
        assert(swapped.skip(1) =~= neighbours_swapped(rest, p - 1));
        assert(swapped[0] == rows[0]);
        lemma_det(rows, cols, k);
        lemma_det(swapped, cols, k);
        let f = |j: int| det_term(rows, cols, k, j);
        let g = |j: int| det_term(swapped, cols, k, j);
        assert forall|j: int| 0 <= j < cols.len() implies #[trigger] g(j) == f(j).negation() by {
            let left = cols.remove(j);
            lemma_neighbours_swapped(rest, left, k - 1, p - 1);
            lemma_neighbours_swapped(rest, left, k, p - 1);
            let x = rows[0][cols[j]];
            lemma_times_negated(x, det(rest, left, k - 1), det(rest, left, k));
            lemma_signed(j, 0, times(x, det(rest, left, k - 1), det(rest, left, k)));
        }
        lemma_total_negated(f, g, cols.len());
    }
}

/// A list with one entry moved to its front.
pub open spec fn fronted<T>(rows: Seq<T>, p: int) -> Seq<T> {
    seq![rows[p]] + rows.remove(p)
}

/// Moving a row to the front changes the sign of a determinant once for each row it passes.
pub proof fn lemma_fronted<S: Scalar>(rows: Seq<Seq<(S, S)>>, cols: Seq<int>, k: int, p: int)
    requires
        exact::<S>(),
        0 <= p < rows.len(),
    ensures
        det(fronted(rows, p), cols, k) == signed(p, det(rows, cols, k)),
    decreases p,
{
    if p == 0 {
        assert(fronted(rows, 0) =~= rows);
    } else {
        let swapped = neighbours_swapped(rows, p - 1);
        lemma_neighbours_swapped(rows, cols, k, p - 1);
        lemma_fronted(swapped, cols, k, p - 1);
        assert(fronted(swapped, p - 1) =~= fronted(rows, p));
        let d = det(rows, cols, k);
        lemma_signed(p - 1, 0, d);
        lemma_signed(p - 1, 1, d);
    }
}

/// A determinant with two equal rows is zero, unless two is zero.
pub proof fn lemma_equal_rows<S: Scalar>(
    rows: Seq<Seq<(S, S)>>,
    cols: Seq<int>,
    k: int,
    a: int,
    b: int,
)
    requires
        exact::<S>(),
        0 <= a < b < rows.len(),
        rows[a] == rows[b],
        S::unit().sum(S::unit()) != S::nought(),
    ensures
        det(rows, cols, k) == S::nought(),
{
    let once = fronted(rows, b);
    let twice = fronted(once, a + 1);
    lemma_fronted(rows, cols, k, b);
    lemma_fronted(once, cols, k, a + 1);
    assert(once[a + 1] == rows[a]);
    assert(twice[0] == rows[a] && twice[1] == rows[b]);
    assert(neighbours_swapped(twice, 0) =~= twice);
    lemma_neighbours_swapped(twice, cols, k, 0);
    let d = det(twice, cols, k);
    lemma_negation(d);
    lemma_distributes(d, S::unit(), S::unit());
    lemma_product_one(d);
    if d != S::nought() {
        lemma_no_zero_divisors(S::unit().sum(S::unit()), d);
        lemma_product_commutes(d, S::unit().sum(S::unit()));
    }
    lemma_negation_twice(S::nought());
    lemma_negation_twice(det(rows, cols, k));
    lemma_negation_twice(det(once, cols, k));
}

// Cofactors

/// The coefficient of `s^k` in the cofactor of row `p` and the column in place `j`.
pub open spec fn cofactor<S: Scalar>(
    rows: Seq<Seq<(S, S)>>,
    cols: Seq<int>,
    p: int,
    j: int,
    k: int,
) -> S {
    signed(p + j, det(rows.remove(p), cols.remove(j), k))
}

/// A coefficient of a row, combined entry by entry with the cofactors of row `p`.
pub open spec fn combined<S: Scalar>(
    row: Seq<(S, S)>,
    rows: Seq<Seq<(S, S)>>,
    cols: Seq<int>,
    p: int,
    k: int,
) -> S {
    total(
        |j: int|
            times(
                row[cols[j]],
                cofactor(rows, cols, p, j, k - 1),
                cofactor(rows, cols, p, j, k),
            ),
        cols.len(),
    )
}

/// A row combined with the cofactors of row `p` is the determinant with that row in place of
/// row `p`.
pub proof fn lemma_expanded<S: Scalar>(
    row: Seq<(S, S)>,
    rows: Seq<Seq<(S, S)>>,
    cols: Seq<int>,
    p: int,
    k: int,
)
    requires
        exact::<S>(),
        0 <= p < rows.len(),
    ensures
        combined(row, rows, cols, p, k) == det(rows.update(p, row), cols, k),
{
    let n = cols.len();
    let changed = rows.update(p, row);
    let front = fronted(changed, p);
    let left = rows.remove(p);
    assert(changed.remove(p) =~= left);
    assert(front.skip(1) =~= left);
    assert(front[0] == row);
    lemma_fronted(changed, cols, k, p);
    lemma_det(front, cols, k);
    let f = |j: int| det_term(front, cols, k, j);
    let g = |j: int|
        times(
            row[cols[j]],
            cofactor(rows, cols, p, j, k - 1),
            cofactor(rows, cols, p, j, k),
        );
    assert forall|j: int| 0 <= j < n implies #[trigger] g(j) == signed(p, f(j)) by {
        let (b, s) = (det(left, cols.remove(j), k - 1), det(left, cols.remove(j), k));
        let x = row[cols[j]];
        lemma_times_signed(p + j, x, b, s);
        lemma_signed(p, j, times(x, b, s));
    }
    lemma_total_signed(f, g, p, n);
    lemma_signed(p, p, det(changed, cols, k));
}

/// The expansion along any row gives the determinant.
pub proof fn lemma_own_cofactors<S: Scalar>(
    rows: Seq<Seq<(S, S)>>,
    cols: Seq<int>,
    p: int,
    k: int,
)
    requires
        exact::<S>(),
        0 <= p < rows.len(),
    ensures
        combined(rows[p], rows, cols, p, k) == det(rows, cols, k),
{
    lemma_expanded(rows[p], rows, cols, p, k);
    assert(rows.update(p, rows[p]) =~= rows);
}

/// A row combined with the cofactors of another row gives zero.
pub proof fn lemma_alien_cofactors<S: Scalar>(
    rows: Seq<Seq<(S, S)>>,
    cols: Seq<int>,
    i: int,
    p: int,
    k: int,
)
    requires
        exact::<S>(),
        0 <= i < rows.len(),
        0 <= p < rows.len(),
        i != p,
        S::unit().sum(S::unit()) != S::nought(),
    ensures
        combined(rows[i], rows, cols, p, k) == S::nought(),
{
    lemma_expanded(rows[i], rows, cols, p, k);
    let changed = rows.update(p, rows[i]);
    if i < p {
        lemma_equal_rows(changed, cols, k, i, p);
    } else {
        lemma_equal_rows(changed, cols, k, p, i);
    }
}

// Degrees

/// A determinant has no negative powers, and none above its number of rows.
pub proof fn lemma_degree<S: Scalar>(rows: Seq<Seq<(S, S)>>, cols: Seq<int>, k: int)
    requires
        exact::<S>(),
        k < 0 || k > rows.len(),
    ensures
        det(rows, cols, k) == S::nought(),
    decreases rows.len(),
{
    if rows.len() > 0 {
        lemma_det(rows, cols, k);
        let f = |j: int| det_term(rows, cols, k, j);
        assert forall|j: int| 0 <= j < cols.len() implies #[trigger] f(j) == S::nought() by {
            lemma_degree(rows.skip(1), cols.remove(j), k - 1);
            lemma_degree(rows.skip(1), cols.remove(j), k);
            lemma_times_zero(rows[0][cols[j]]);
            lemma_negation_twice(S::nought());
        }
        lemma_total_zero(f, cols.len());
    }
}

// Derivatives

/// A row with every entry replaced by its derivative.
pub open spec fn derived<S: Scalar>(row: Seq<(S, S)>) -> Seq<(S, S)> {
    Seq::new(row.len(), |c: int| (S::nought(), row[c].0))
}

/// The columns are columns of every row.
pub open spec fn covers<S>(rows: Seq<Seq<(S, S)>>, cols: Seq<int>) -> bool {
    forall|i: int, j: int|
        0 <= i < rows.len() && 0 <= j < cols.len() ==> 0 <= #[trigger] cols[j] < (
        #[trigger] rows[i]).len()
}

/// Counting by one adds one.
pub open spec fn counts<S: Scalar>() -> bool {
    &&& S::of_count(0) == S::nought()
    &&& forall|n: nat| #[trigger] S::of_count(n + 1) == S::of_count(n).sum(S::unit())
}

/// The derivative of a determinant is the sum of the determinants with one row derived.
pub proof fn lemma_derivative<S: Scalar>(rows: Seq<Seq<(S, S)>>, cols: Seq<int>, k: nat)
    requires
        exact::<S>(),
        counts::<S>(),
        covers(rows, cols),
    ensures
        S::of_count(k + 1).product(det(rows, cols, (k + 1) as int)) == total(
            |i: int| det(rows.update(i, derived(rows[i])), cols, k as int),
            rows.len(),
        ),
    decreases rows.len(), 1nat,
{
    let n = cols.len();
    let m = rows.len();
    let each = |i: int| det(rows.update(i, derived(rows[i])), cols, k as int);
    let count = S::of_count(k + 1);
    if m == 0 {
        lemma_product_zero(count);
    } else {
        let rest = rows.skip(1);
        let less = (m - 1) as nat;
        let head = rows.update(0, derived(rows[0]));
        // The term of column j in the expansion, and its two parts.
        let whole = |j: int| count.product(det_term(rows, cols, (k + 1) as int, j));
        let own = |j: int| det_term(head, cols, k as int, j);
        let other = |j: int|
            total(
                |i: int| det_term(rows.update(i + 1, derived(rows[i + 1])), cols, k as int, j),
                less,
            );
        assert(head.skip(1) =~= rest);
        assert forall|j: int| 0 <= j < n implies #[trigger] whole(j) == own(j).sum(other(j)) by {
            lemma_derivative_term(rows, cols, k, j);
        }
        lemma_det(rows, cols, (k + 1) as int);
        lemma_det(head, cols, k as int);
        lemma_total_scaled(|j: int| det_term(rows, cols, (k + 1) as int, j), whole, count, n);
        lemma_total_added(own, other, whole, n);
        let f = |j: int, i: int|
            det_term(rows.update(i + 1, derived(rows[i + 1])), cols, k as int, j);
        let by_col = |j: int| total(|i: int| f(j, i), less);
        let by_row = |i: int| total(|j: int| f(j, i), n);
        lemma_total_swapped(f, n, less);
        assert forall|j: int| 0 <= j < n implies #[trigger] other(j) == by_col(j) by {
            lemma_total_congruent(
                |i: int| det_term(rows.update(i + 1, derived(rows[i + 1])), cols, k as int, j),
                |i: int| f(j, i),
                less,
            );
        }
        lemma_total_congruent(other, by_col, n);
        let later = |i: int| each(i + 1);
        assert forall|i: int| 0 <= i < less implies #[trigger] by_row(i) == later(i) by {
            let changed = rows.update(i + 1, derived(rows[i + 1]));
            lemma_det(changed, cols, k as int);
            lemma_total_congruent(
                |j: int| f(j, i),
                |j: int| det_term(changed, cols, k as int, j),
                n,
            );
        }
        lemma_total_congruent(by_row, later, less);
        lemma_total_first(each, later, m);
    }
}

/// A sum is its first value and the sum of the others.
proof fn lemma_total_first<S: Scalar>(
    f: spec_fn(int) -> S,
    later: spec_fn(int) -> S,
    n: nat,
)
    requires
        exact::<S>(),
        n > 0,
        forall|i: int| 0 <= i < n - 1 ==> #[trigger] later(i) == f(i + 1),
    ensures
        total(f, n) == f(0).sum(total(later, (n - 1) as nat)),
    decreases n,
{
    if n == 1 {
        assert(total(f, 0) == S::nought());
        lemma_sum_zero(f(0));
    } else {
        lemma_total_first(f, later, (n - 1) as nat);
        assert(later(n - 2) == f(n - 1));
        lemma_sum_associates(f(0), total(later, (n - 2) as nat), f(n - 1));
    }
}

/// The product rule for one term of an expansion.
proof fn lemma_derivative_term<S: Scalar>(
    rows: Seq<Seq<(S, S)>>,
    cols: Seq<int>,
    k: nat,
    j: int,
)
    requires
        exact::<S>(),
        counts::<S>(),
        covers(rows, cols),
        rows.len() > 0,
        0 <= j < cols.len(),
    ensures
        S::of_count(k + 1).product(det_term(rows, cols, (k + 1) as int, j)) == det_term(
            rows.update(0, derived(rows[0])),
            cols,
            k as int,
            j,
        ).sum(
            total(
                |i: int| det_term(rows.update(i + 1, derived(rows[i + 1])), cols, k as int, j),
                (rows.len() - 1) as nat,
            ),
        ),
    decreases rows.len(), 0nat,
{
    let rest = rows.skip(1);
    let left = cols.remove(j);
    let less = rest.len();
    let (a, b) = rows[0][cols[j]];
    let head = rows.update(0, derived(rows[0]));
    assert(head.skip(1) =~= rest);
    assert(covers(rest, left)) by {
        assert forall|i: int, l: int|
            0 <= i < rest.len() && 0 <= l < left.len() implies 0 <= #[trigger] left[l] < (
        #[trigger] rest[i]).len() by {
            let m = if l < j {
                l
            } else {
                l + 1
            };
            assert(left[l] == cols[m]);
            assert(rest[i] == rows[i + 1]);
        }
    }
    assert(0 <= cols[j] < rows[0].len());
    assert(head[0][cols[j]] == (S::nought(), a));
    let (d0, d1) = (det(rest, left, k as int), det(rest, left, (k + 1) as int));
    // (k + 1) * d1 and k * d0 are the derivatives one step down.
    lemma_derivative(rest, left, k);
    let high = |i: int| det(rest.update(i, derived(rest[i])), left, k as int);
    let low = |i: int| det(rest.update(i, derived(rest[i])), left, k - 1);
    let ck = S::of_count(k);
    let c1 = S::of_count(k + 1);
    assert(c1 == ck.sum(S::unit()));
    assert(ck.product(d0) == total(low, less)) by {
        if k == 0 {
            lemma_product_zero(d0);
            assert forall|i: int| 0 <= i < less implies #[trigger] low(i) == S::nought() by {
                lemma_degree(rest.update(i, derived(rest[i])), left, -1);
            }
            lemma_total_zero(low, less);
        } else {
            lemma_derivative(rest, left, (k - 1) as nat);
            lemma_total_congruent(
                |i: int| det(rest.update(i, derived(rest[i])), left, (k - 1) as nat as int),
                low,
                less,
            );
        }
    }
    // The left-hand side: (k + 1)*(a*d0 + b*d1) = a*d0 + (a*(k*d0) + b*((k + 1)*d1)).
    let x = rows[0][cols[j]];
    let t = times(x, d0, d1);
    lemma_distributes(c1, a.product(d0), b.product(d1));
    lemma_reordered(c1, a, d0);
    lemma_reordered(c1, b, d1);
    lemma_distributes(d0, ck, S::unit());
    lemma_product_one(d0);
    lemma_distributes(a, ck.product(d0), d0);
    let own = a.product(d0);
    let inner = times(x, total(low, less), total(high, less));
    lemma_sum_commutes(a.product(ck.product(d0)), own);
    lemma_sum_associates(own, a.product(ck.product(d0)), b.product(c1.product(d1)));
    assert(c1.product(t) == own.sum(inner));
    // The derived first row.
    lemma_product_zero(det(rest, left, k - 1));
    lemma_sum_zero(own);
    assert(times(head[0][cols[j]], det(rest, left, k - 1), d0) == own);
    // The other rows.
    let out = |i: int| times(x, low(i), high(i));
    lemma_times_total(x, low, high, out, less);
    let target = |i: int|
        det_term(rows.update(i + 1, derived(rows[i + 1])), cols, k as int, j);
    assert forall|i: int| 0 <= i < less implies #[trigger] target(i) == signed(j, out(i)) by {
        let changed = rows.update(i + 1, derived(rows[i + 1]));
        assert(changed.skip(1) =~= rest.update(i, derived(rest[i])));
        assert(changed[0] == rows[0]);
    }
    lemma_total_signed(out, target, j, less);
    lemma_signed_sum(j, own, inner);
    lemma_signed_product(j, c1, t);
}

/// `c*(a*d) == a*(c*d)`.
proof fn lemma_reordered<S: Scalar>(c: S, a: S, d: S)
    requires
        exact::<S>(),
    ensures
        c.product(a.product(d)) == a.product(c.product(d)),
{
    lemma_product_associates(c, a, d);
    lemma_product_commutes(c, a);
    lemma_product_associates(a, c, d);
}

} // verus!
