//! The courses of the waveforms, apart from rounding.

use crate::field::{
    exact, lemma_difference, lemma_equal, lemma_inverse, lemma_negation,
    lemma_negation_of_product, lemma_negation_of_sum, lemma_product_associates, lemma_product_commutes,
    lemma_product_one, lemma_product_zero, lemma_quotient, lemma_sum_associates,
    lemma_sum_commutes, lemma_sum_zero,
};
use crate::scalar::{at_most, Scalar};
use crate::transient_source::{between, interpolated, wave_of_call, wave_value, Wave};
use crate::wave_laws::{
    is_ordered, lemma_added, lemma_distance, lemma_magnitude, lemma_multiplied, lemma_put_back,
    lemma_since, lemma_total_order, lemma_transitive,
};
use vstd::prelude::*;

verus! {

// Arithmetic

/// `(a + b) - a == b`.
proof fn lemma_taken_off<S: Scalar>(a: S, b: S)
    requires
        exact::<S>(),
    ensures
        a.sum(b).difference(a) == b,
        a.difference(a) == S::nought(),
{
    lemma_difference(a.sum(b), a);
    lemma_difference(a, a);
    lemma_sum_commutes(a, b);
    lemma_sum_associates(b, a, a.negation());
    lemma_negation(a);
    lemma_sum_zero(b);
}

/// What lies `x` of `w` on the way from `a` to `b` is as far from `a`, `w` times, as `b` is, `x`
/// times.
proof fn lemma_share<S: Scalar>(a: S, b: S, x: S, w: S)
    requires
        exact::<S>(),
        w != S::nought(),
    ensures
        between(a, b, x.quotient(w)).difference(a).product(w) == b.difference(a).product(x),
{
    let d = b.difference(a);
    lemma_taken_off(a, d.product(x.quotient(w)));
    lemma_product_associates(d, x.quotient(w), w);
    lemma_quotient(x, w);
}

/// `-x / w == -(x / w)`.
proof fn lemma_negation_of_quotient<S: Scalar>(x: S, w: S)
    requires
        exact::<S>(),
        w != S::nought(),
    ensures
        x.negation().quotient(w) == x.quotient(w).negation(),
{
    lemma_inverse(x, w);
    lemma_inverse(x.negation(), w);
    lemma_negation_of_product(x, S::unit().quotient(w));
}

proof fn lemma_equal_both_ways<S: Scalar>(a: S, b: S)
    requires
        exact::<S>(),
        is_ordered::<S>(),
        at_most(a, b),
        at_most(b, a),
    ensures
        a == b,
{
    lemma_total_order(a, b);
    lemma_equal(a, b);
    lemma_equal(b, a);
}

// Sinusoids

/// The sine stays between minus one and one, the magnitude of a product is the product of the
/// magnitudes, and the exponential function never decreases, is never negative, and is one at
/// zero.
pub open spec fn is_analytic<S: Scalar>() -> bool {
    &&& forall|a: S| at_most((#[trigger] a.sine()).magnitude(), S::unit())
    &&& forall|a: S, b: S| (#[trigger] a.product(b)).magnitude() == a.magnitude().product(
        b.magnitude(),
    )
    &&& S::nought().exponential() == S::unit()
    &&& forall|a: S| at_most(S::nought(), #[trigger] a.exponential())
    &&& forall|a: S, b: S|
        at_most(a, b) ==> at_most(#[trigger] a.exponential(), #[trigger] b.exponential())
}

/// From its delay on a sinusoid without damping is its offset plus its amplitude times the sine
/// of an angle, which is its phase at the delay and grows by a full turn with every period.
pub proof fn law_undamped_sinusoid<S: Scalar>(v0: S, va: S, freq: S, td: S, phase: S, t: S)
    requires
        exact::<S>(),
        !t.below(td),
    ensures
        wave_value(Wave::Sin { v0, va, freq, td, theta: S::nought(), phase }, t) == v0.sum(
            va.product(
                S::turn().product(freq).product(t.difference(td)).sum(phase.radians()).sine(),
            ),
        ),
{
    lemma_equal(S::nought(), S::nought());
    lemma_product_one(
        va.product(S::turn().product(freq).product(t.difference(td)).sum(phase.radians()).sine()),
    );
}

/// Damping takes away from a sinusoid: its distance from the offset is that of the sinusoid
/// without damping, times `exp(-(t - td) * theta)`.
pub proof fn law_damping_is_exponential<S: Scalar>(
    v0: S,
    va: S,
    freq: S,
    td: S,
    theta: S,
    phase: S,
    t: S,
)
    requires
        exact::<S>(),
        S::nought().exponential() == S::unit(),
        !t.below(td),
    ensures
        wave_value(Wave::Sin { v0, va, freq, td, theta, phase }, t).difference(v0) == wave_value(
            Wave::Sin { v0, va, freq, td, theta: S::nought(), phase },
            t,
        ).difference(v0).product(t.difference(td).product(theta).negation().exponential()),
{
    let dt = t.difference(td);
    let swing = va.product(
        S::turn().product(freq).product(dt).sum(phase.radians()).sine(),
    );
    law_undamped_sinusoid(v0, va, freq, td, phase, t);
    lemma_taken_off(v0, swing);
    lemma_equal(theta, S::nought());
    lemma_negation_of_product(dt, theta);
    lemma_taken_off(v0, swing.product(dt.product(theta).negation().exponential()));
    lemma_product_one(swing);
    if theta == S::nought() {
        lemma_product_zero(dt);
        lemma_negation(S::nought());
        lemma_sum_zero(S::nought().negation());
    }
}

/// From its delay on a sinusoid with damping stays inside of an envelope that shrinks: it is
/// never further from its offset than its amplitude times `exp(-(t - td) * theta)`, which is
/// never more than the amplitude, nor more than at an earlier time.
pub proof fn law_sinusoid_stays_inside_its_envelope<S: Scalar>(
    v0: S,
    va: S,
    freq: S,
    td: S,
    theta: S,
    phase: S,
    earlier: S,
    t: S,
)
    requires
        exact::<S>(),
        is_ordered::<S>(),
        is_analytic::<S>(),
        at_most(S::nought(), theta),
        at_most(td, earlier),
        at_most(earlier, t),
    ensures
        at_most(
            wave_value(Wave::Sin { v0, va, freq, td, theta, phase }, t).difference(v0).magnitude(),
            va.magnitude().product(t.difference(td).product(theta).negation().exponential()),
        ),
        at_most(
            va.magnitude().product(t.difference(td).product(theta).negation().exponential()),
            va.magnitude(),
        ),
        at_most(
            va.magnitude().product(t.difference(td).product(theta).negation().exponential()),
            va.magnitude().product(
                earlier.difference(td).product(theta).negation().exponential(),
            ),
        ),
{
    lemma_since(td, earlier, t);
    lemma_transitive(td, earlier, t);
    lemma_total_order(td, t);
    let zero = S::nought();
    let dt = t.difference(td);
    let x = dt.product(theta).negation();
    let y = earlier.difference(td).product(theta).negation();
    let e = x.exponential();
    let sine = S::turn().product(freq).product(dt).sum(phase.radians()).sine();
    law_damping_is_exponential(v0, va, freq, td, theta, phase, t);
    law_undamped_sinusoid(v0, va, freq, td, phase, t);
    lemma_taken_off(v0, va.product(sine));
    // 0 <= dt*theta, so that x <= y <= 0.
    lemma_product_zero(theta);
    lemma_multiplied(zero, earlier.difference(td), theta);
    lemma_multiplied(earlier.difference(td), dt, theta);
    lemma_signs_change(zero, earlier.difference(td).product(theta));
    lemma_signs_change(earlier.difference(td).product(theta), dt.product(theta));
    lemma_negation(zero);
    lemma_sum_zero(zero.negation());
    lemma_transitive(x, y, zero);
    assert(at_most(e, S::unit()));
    assert(at_most(e, y.exponential()));
    // |va*sine*e| == |va|*|sine|*e <= |va|*e <= |va|
    lemma_magnitude(va.product(sine), e);
    lemma_magnitude(va, e);
    lemma_multiplied(sine.magnitude(), S::unit(), va.magnitude());
    lemma_product_commutes(sine.magnitude(), va.magnitude());
    lemma_product_one(va.magnitude());
    lemma_multiplied(va.product(sine).magnitude(), va.magnitude(), e);
    lemma_multiplied(e, S::unit(), va.magnitude());
    lemma_product_commutes(e, va.magnitude());
    lemma_multiplied(e, y.exponential(), va.magnitude());
    lemma_product_commutes(y.exponential(), va.magnitude());
}

/// Numbers change places with their signs.
proof fn lemma_signs_change<S: Scalar>(a: S, b: S)
    requires
        exact::<S>(),
        is_ordered::<S>(),
        at_most(a, b),
    ensures
        at_most(b.negation(), a.negation()),
{
    let (m, n) = (a.negation(), b.negation());
    // a + (m + n) <= b + (m + n)
    lemma_added(a, b, m.sum(n));
    lemma_sum_associates(a, m, n);
    lemma_negation(a);
    lemma_sum_zero(n);
    lemma_sum_commutes(m, n);
    lemma_sum_associates(b, n, m);
    lemma_negation(b);
    lemma_sum_zero(m);
}

/// A frequency-modulated sinusoid is at any time a sinusoid of the carrier frequency, whose
/// phase is the modulation index times the sine of the signal frequency's angle.
pub proof fn law_modulation_shifts_the_phase<S: Scalar>(
    v0: S,
    va: S,
    fc: S,
    mdi: S,
    fs: S,
    phase: S,
    t: S,
)
    requires
        exact::<S>(),
        !t.below(S::nought()),
        phase.radians() == mdi.product(S::turn().product(fs).product(t).sine()),
    ensures
        wave_value(Wave::Sffm { v0, va, fc, mdi, fs }, t) == wave_value(
            Wave::Sin { v0, va, freq: fc, td: S::nought(), theta: S::nought(), phase },
            t,
        ),
{
    law_undamped_sinusoid(v0, va, fc, S::nought(), phase, t);
    lemma_difference(t, S::nought());
    lemma_negation(S::nought());
    lemma_sum_zero(S::nought().negation());
    lemma_sum_zero(t);
}

/// Without modulation a frequency-modulated sinusoid is one of the carrier frequency; with any
/// it is never further from its offset than its amplitude.
pub proof fn law_modulation_keeps_the_amplitude<S: Scalar>(
    v0: S,
    va: S,
    fc: S,
    mdi: S,
    fs: S,
    t: S,
)
    requires
        exact::<S>(),
        is_ordered::<S>(),
        is_analytic::<S>(),
    ensures
        at_most(
            wave_value(Wave::Sffm { v0, va, fc, mdi, fs }, t).difference(v0).magnitude(),
            va.magnitude(),
        ),
        wave_value(Wave::Sffm { v0, va, fc, mdi: S::nought(), fs }, t) == v0.sum(
            va.product(S::turn().product(fc).product(t).sine()),
        ),
{
    let carrier = S::turn().product(fc).product(t);
    let signal = S::turn().product(fs).product(t).sine();
    let sine = carrier.sum(mdi.product(signal)).sine();
    lemma_taken_off(v0, va.product(sine));
    lemma_magnitude(va, S::unit());
    lemma_magnitude_of(va);
    lemma_multiplied(sine.magnitude(), S::unit(), va.magnitude());
    lemma_product_commutes(sine.magnitude(), va.magnitude());
    lemma_product_one(va.magnitude());
    lemma_product_zero(signal);
    lemma_sum_zero(carrier);
}

proof fn lemma_magnitude_of<S: Scalar>(a: S)
    requires
        exact::<S>(),
        is_ordered::<S>(),
    ensures
        at_most(S::nought(), a.magnitude()),
{
    let zero = S::nought();
    lemma_total_order(zero, zero);
    lemma_magnitude(a, zero);
}

// Exponentials

/// On its way up an exponential is as far from its second value as its first value is, times
/// `exp(-(t - td1) / tau1)`.
pub proof fn law_exponential_rises_at_its_rate<S: Scalar>(
    v1: S,
    v2: S,
    td1: S,
    tau1: S,
    td2: S,
    tau2: S,
    t: S,
)
    requires
        exact::<S>(),
        tau1.larger(S::tiny()) == tau1,
        tau1 != S::nought(),
        !t.below(td1),
        t.below(td2),
    ensures
        wave_value(Wave::Exp { v1, v2, td1, tau1, td2, tau2 }, t).difference(v2) == v1.difference(
            v2,
        ).product(t.difference(td1).quotient(tau1).negation().exponential()),
{
    lemma_negation_of_quotient(t.difference(td1), tau1);
    lemma_distance(v1, v2, t.difference(td1).quotient(tau1).negation().exponential());
}

/// On its way back an exponential is as far from its first value as it was when it turned, times
/// `exp(-(t - td2) / tau2)`; and it turns where its way up has led it.
pub proof fn law_exponential_falls_at_its_rate<S: Scalar>(
    v1: S,
    v2: S,
    td1: S,
    tau1: S,
    td2: S,
    tau2: S,
    t: S,
)
    requires
        exact::<S>(),
        S::nought().exponential() == S::unit(),
        tau1.larger(S::tiny()) == tau1,
        tau1 != S::nought(),
        tau2.larger(S::tiny()) == tau2,
        tau2 != S::nought(),
        !td2.below(td1),
        !td2.below(td2),
        !t.below(td1),
        !t.below(td2),
    ensures
        ({
            let wave = Wave::Exp { v1, v2, td1, tau1, td2, tau2 };
            &&& wave_value(wave, t).difference(v1) == wave_value(wave, td2).difference(
                v1,
            ).product(t.difference(td2).quotient(tau2).negation().exponential())
            &&& wave_value(wave, td2).difference(v2) == v1.difference(v2).product(
                td2.difference(td1).quotient(tau1).negation().exponential(),
            )
        }),
{
    let rise = td2.difference(td1).quotient(tau1).negation().exponential();
    lemma_negation_of_quotient(td2.difference(td1), tau1);
    lemma_distance(v1, v2, rise);
    let top = between(v1, v2, S::unit().difference(rise));
    lemma_negation_of_quotient(t.difference(td2), tau2);
    lemma_negation_of_quotient(td2.difference(td2), tau2);
    lemma_distance(top, v1, t.difference(td2).quotient(tau2).negation().exponential());
    // exp(-0 / tau2) == 1
    lemma_taken_off(td2, S::nought());
    lemma_inverse(S::nought(), tau2);
    lemma_product_zero(S::unit().quotient(tau2));
    lemma_negation(S::nought());
    lemma_sum_zero(S::nought().negation());
    lemma_taken_off(S::unit(), S::nought());
    lemma_product_zero(v1.difference(top));
    lemma_sum_zero(top);
    assert(wave_value(Wave::Exp { v1, v2, td1, tau1, td2, tau2 }, td2) == top);
}

// Pulses

/// In its first period a pulse rises from its first value to its second along a straight line
/// that takes `tr`, rests there for `pw`, falls back along a straight line that takes `tf`, and
/// rests at its first value.
pub proof fn law_pulse_is_a_trapezoid<S: Scalar>(
    v1: S,
    v2: S,
    td: S,
    tr: S,
    tf: S,
    pw: S,
    per: S,
    t: S,
)
    requires
        exact::<S>(),
        is_ordered::<S>(),
        per.larger(S::tiny()) == per,
        !t.below(td),
        at_most(S::nought(), t.difference(td)),
        t.difference(td).remainder(per) == t.difference(td),
        at_most(S::nought(), tf),
    ensures
        ({
            let value = wave_value(Wave::Pulse { v1, v2, td, tr, tf, pw, per }, t);
            let dt = t.difference(td);
            let top = tr.sum(pw);
            let bottom = tr.sum(pw).sum(tf);
            &&& dt.below(tr) ==> value.difference(v1).product(tr) == v2.difference(v1).product(dt)
            &&& !dt.below(tr) && dt.below(top) ==> value == v2
            &&& !dt.below(tr) && !dt.below(top) && dt.below(bottom) ==> value.difference(
                v2,
            ).product(tf) == v1.difference(v2).product(dt.difference(top))
            &&& !dt.below(tr) && !dt.below(top) && !dt.below(bottom) ==> value == v1
        }),
{
    let zero = S::nought();
    let dt = t.difference(td);
    let top = tr.sum(pw);
    lemma_total_order(zero, dt);
    lemma_total_order(tr, zero);
    if dt.below(tr) {
        if at_most(tr, zero) {
            lemma_transitive(tr, zero, dt);
            lemma_total_order(tr, dt);
        }
        lemma_equal(tr, zero);
        lemma_share(v1, v2, dt, tr);
    }
    if !dt.below(tr) && !dt.below(top) && dt.below(top.sum(tf)) {
        if at_most(tf, zero) {
            lemma_equal_both_ways(tf, zero);
            lemma_sum_zero(top);
        }
        lemma_total_order(tf, zero);
        lemma_equal(tf, zero);
        lemma_difference(dt, tr);
        lemma_difference(dt.difference(tr), pw);
        lemma_difference(dt, top);
        lemma_sum_associates(dt, tr.negation(), pw.negation());
        lemma_negation_of_sum(tr, pw);
        assert(dt.difference(tr).difference(pw) == dt.difference(top));
        lemma_share(v2, v1, dt.difference(top), tf);
    }
}

/// A pulse repeats after its period.
pub proof fn law_pulse_repeats_after_its_period<S: Scalar>(
    v1: S,
    v2: S,
    td: S,
    tr: S,
    tf: S,
    pw: S,
    per: S,
    t: S,
)
    requires
        exact::<S>(),
        per.larger(S::tiny()) == per,
        !t.below(td),
        !t.sum(per).below(td),
        t.difference(td).sum(per).remainder(per) == t.difference(td).remainder(per),
    ensures
        wave_value(Wave::Pulse { v1, v2, td, tr, tf, pw, per }, t.sum(per)) == wave_value(
            Wave::Pulse { v1, v2, td, tr, tf, pw, per },
            t,
        ),
{
    lemma_difference(t.sum(per), td);
    lemma_difference(t, td);
    lemma_sum_associates(t, per, td.negation());
    lemma_sum_commutes(per, td.negation());
    lemma_sum_associates(t, td.negation(), per);
}

// Piecewise-linear functions

/// The times of breakpoints ascend, by steps that are told apart from nothing.
pub open spec fn ascends<S: Scalar>(points: Seq<(S, S)>) -> bool {
    &&& forall|i: int, j: int|
        0 <= i < j < points.len() ==> (#[trigger] points[i]).0.below((#[trigger] points[j]).0)
    &&& forall|i: int, j: int|
        0 <= i < j < points.len() ==> !(#[trigger] points[j]).0.difference(
            (#[trigger] points[i]).0,
        ).magnitude().below(S::tiny())
}

/// A value lies on the straight line through two points.
pub open spec fn on_the_line<S: Scalar>(from: (S, S), to: (S, S), t: S, value: S) -> bool {
    value.difference(from.1).product(to.0.difference(from.0)) == to.1.difference(from.1).product(
        t.difference(from.0),
    )
}

proof fn lemma_line_ends<S: Scalar>(from: (S, S), to: (S, S))
    requires
        exact::<S>(),
    ensures
        on_the_line(from, to, from.0, from.1),
        on_the_line(from, to, to.0, to.1),
{
    lemma_taken_off(from.1, S::nought());
    lemma_taken_off(from.0, S::nought());
    lemma_product_zero(to.0.difference(from.0));
    lemma_product_zero(to.1.difference(from.1));
}

proof fn lemma_apart<S: Scalar>(a: S, b: S)
    requires
        exact::<S>(),
        is_ordered::<S>(),
        a.below(b),
    ensures
        b.difference(a) != S::nought(),
        !at_most(b, a),
        a != b,
{
    lemma_total_order(a, b);
    if b.difference(a) == S::nought() {
        lemma_put_back(b, a);
        lemma_sum_zero(a);
        lemma_total_order(a, a);
        lemma_equal(a, a);
    }
    lemma_equal(a, a);
    lemma_total_order(a, a);
}

proof fn lemma_interpolated<S: Scalar>(points: Seq<(S, S)>, t: S, from: int, i: int)
    requires
        exact::<S>(),
        is_ordered::<S>(),
        ascends(points),
        0 <= from <= i,
        i + 1 < points.len(),
        at_most(points[i].0, t),
        at_most(t, points[i + 1].0),
    ensures
        on_the_line(points[i], points[i + 1], t, interpolated(points, t, from)),
    decreases i - from,
{
    let (t0, v0) = points[from];
    let (t1, v1) = points[from + 1];
    assert(t0.below(t1)) by {
        assert(points[from].0.below(points[from + 1].0));
    }
    lemma_apart(t0, t1);
    assert(!points[from + 1].0.difference(points[from].0).magnitude().below(S::tiny()));
    if from == i {
        lemma_share(v0, v1, t.difference(t0), t1.difference(t0));
    } else {
        if at_most(t0, t) && at_most(t, t1) {
            if from + 1 < i {
                assert(points[from + 1].0.below(points[i].0));
                lemma_apart(t1, points[i].0);
                lemma_transitive(points[i].0, t, t1);
            }
            lemma_equal_both_ways(t, t1);
            // The end of the segment before is the start of this one.
            let d = t1.difference(t0);
            lemma_inverse(d, d);
            lemma_product_commutes(d, S::unit().quotient(d));
            lemma_product_one(v1.difference(v0));
            lemma_put_back(v1, v0);
            lemma_sum_commutes(v0, v1.difference(v0));
            assert(interpolated(points, t, from) == v1);
            lemma_line_ends(points[i], points[i + 1]);
        } else {
            lemma_interpolated(points, t, from + 1, i);
        }
    }
}

/// Between two neighbouring breakpoints a piecewise-linear function runs along the straight line
/// through them; so it passes through every breakpoint.
pub proof fn law_breakpoints_are_joined_by_lines<S: Scalar>(points: Seq<(S, S)>, t: S, i: int)
    requires
        exact::<S>(),
        is_ordered::<S>(),
        ascends(points),
        0 <= i,
        i + 1 < points.len(),
        at_most(points[i].0, t),
        at_most(t, points[i + 1].0),
    ensures
        on_the_line(points[i], points[i + 1], t, wave_value(Wave::Pwl(points), t)),
{
    let n = points.len() as int;
    lemma_line_ends(points[i], points[i + 1]);
    if at_most(t, points[0].0) {
        if i > 0 {
            assert(points[0].0.below(points[i].0));
            lemma_apart(points[0].0, points[i].0);
            lemma_transitive(points[i].0, t, points[0].0);
        }
        lemma_equal_both_ways(t, points[0].0);
    } else if at_most(points.last().0, t) {
        if i + 1 < n - 1 {
            assert(points[i + 1].0.below(points[n - 1].0));
            lemma_apart(points[i + 1].0, points[n - 1].0);
            lemma_transitive(points[n - 1].0, t, points[i + 1].0);
        }
        lemma_equal_both_ways(t, points[n - 1].0);
    } else {
        lemma_interpolated(points, t, 0, i);
    }
}

// Calls

/// The numbers of a call stand for the quantities of its function in the order in which SPICE
/// lists them.
pub proof fn law_arguments_are_in_order<S: Scalar>(args: Seq<S>, points: Seq<(S, S)>)
    ensures
        args.len() == 6 ==> wave_of_call("SIN"@, args) == Some(
            Wave::Sin {
                v0: args[0],
                va: args[1],
                freq: args[2],
                td: args[3],
                theta: args[4],
                phase: args[5],
            },
        ),
        args.len() == 7 ==> wave_of_call("PULSE"@, args) == Some(
            Wave::Pulse {
                v1: args[0],
                v2: args[1],
                td: args[2],
                tr: args[3],
                tf: args[4],
                pw: args[5],
                per: args[6],
            },
        ),
        args.len() == 6 ==> wave_of_call("EXP"@, args) == Some(
            Wave::Exp {
                v1: args[0],
                v2: args[1],
                td1: args[2],
                tau1: args[3],
                td2: args[4],
                tau2: args[5],
            },
        ),
        args.len() == 5 ==> wave_of_call("SFFM"@, args) == Some(
            Wave::Sffm { v0: args[0], va: args[1], fc: args[2], mdi: args[3], fs: args[4] },
        ),
        points.len() > 0 && args.len() == 2 * points.len() && (forall|i: int|
            0 <= i < points.len() ==> (#[trigger] points[i]).0 == args[2 * i] && points[i].1
                == args[2 * i + 1]) ==> wave_of_call("PWL"@, args) == Some(Wave::Pwl(points)),
{
    lemma_names_differ();
    if points.len() > 0 && args.len() == 2 * points.len() && (forall|i: int|
        0 <= i < points.len() ==> (#[trigger] points[i]).0 == args[2 * i] && points[i].1
            == args[2 * i + 1]) {
        let pairs = Seq::new(args.len() / 2, |i: int| (args[2 * i], args[2 * i + 1]));
        assert forall|i: int| 0 <= i < points.len() implies pairs[i] == points[i] by {
            assert(points[i].0 == args[2 * i]);
        }
        assert(pairs =~= points);
    }
}

proof fn lemma_names_differ()
    ensures
        "SIN"@ != "PULSE"@,
        "SIN"@ != "EXP"@,
        "SIN"@ != "PWL"@,
        "SIN"@ != "SFFM"@,
        "PULSE"@ != "EXP"@,
        "PULSE"@ != "PWL"@,
        "PULSE"@ != "SFFM"@,
        "EXP"@ != "PWL"@,
        "EXP"@ != "SFFM"@,
        "PWL"@ != "SFFM"@,
{
    reveal_strlit("SIN");
    reveal_strlit("PULSE");
    reveal_strlit("EXP");
    reveal_strlit("PWL");
    reveal_strlit("SFFM");
    assert("SIN"@[0] == 'S' && "EXP"@[0] == 'E' && "PWL"@[0] == 'P');
    assert("SIN"@.len() == 3 && "PULSE"@.len() == 5 && "SFFM"@.len() == 4);
}

/// A quantity that a call leaves out is zero, except that a pulse lasts forever and has no
/// second period, that a time constant is one, and that an exponential turns back where it sets
/// out.
pub proof fn law_omitted_arguments<S: Scalar>(args: Seq<S>)
    ensures
        args.len() < 6 ==> wave_of_call("SIN"@, args) == wave_of_call(
            "SIN"@,
            args.push(S::nought()),
        ),
        2 <= args.len() < 5 ==> wave_of_call("PULSE"@, args) == wave_of_call(
            "PULSE"@,
            args.push(S::nought()),
        ),
        5 <= args.len() < 7 ==> wave_of_call("PULSE"@, args) == wave_of_call(
            "PULSE"@,
            args.push(S::forever()),
        ),
        args.len() == 2 ==> wave_of_call("EXP"@, args) == wave_of_call(
            "EXP"@,
            args.push(S::nought()),
        ),
        args.len() == 3 || args.len() == 5 ==> wave_of_call("EXP"@, args) == wave_of_call(
            "EXP"@,
            args.push(S::unit()),
        ),
        args.len() == 4 ==> wave_of_call("EXP"@, args) == wave_of_call(
            "EXP"@,
            args.push(args[2]),
        ),
        args.len() < 5 ==> wave_of_call("SFFM"@, args) == wave_of_call(
            "SFFM"@,
            args.push(S::nought()),
        ),
        args.len() < 2 ==> wave_of_call("PULSE"@, args) is None && wave_of_call("EXP"@, args) is None
            && wave_of_call("PWL"@, args) is None,
        args.len() % 2 == 1 ==> wave_of_call("PWL"@, args) is None,
{
    lemma_names_differ();
}

} // verus!
