//! What holds of every transient function.

use crate::block_fields::number_or;
use crate::block_graph::Form;
use crate::field::{
    exact, lemma_difference, lemma_distributes, lemma_equal, lemma_negation,
    lemma_negation_of_product, lemma_negation_of_sum, lemma_negation_twice,
    lemma_product_commutes, lemma_product_one, lemma_product_zero, lemma_sum_associates,
    lemma_sum_commutes, lemma_sum_zero,
};
use crate::netlist::Block;
use crate::scalar::{at_most, Scalar};
use crate::static_blocks::{
    expwave_shape, pulsewave_shape, sffmwave_shape, sinwave_shape, source, Shape,
};
use crate::text;
use crate::transient_source::{
    argument_text, arguments, between, risen, wave, wave_of_call, wave_value, without_closing, Wave,
};
use vstd::prelude::*;

verus! {

/// A sinusoid is flat at its offset before its delay.
pub proof fn law_sinusoid_rests_before_its_delay<S: Scalar>(
    v0: S,
    va: S,
    freq: S,
    td: S,
    theta: S,
    phase: S,
    t: S,
)
    requires
        t.below(td),
    ensures
        wave_value(Wave::Sin { v0, va, freq, td, theta, phase }, t) == v0,
{
}

/// An exponential is flat at its first value before its first delay.
pub proof fn law_exponential_rests_before_its_delay<S: Scalar>(
    v1: S,
    v2: S,
    td1: S,
    tau1: S,
    td2: S,
    tau2: S,
    t: S,
)
    requires
        t.below(td1),
    ensures
        wave_value(Wave::Exp { v1, v2, td1, tau1, td2, tau2 }, t) == v1,
{
}

/// A pulse is flat at its first value before its delay, however steep its edges are.
pub proof fn law_pulse_rests_before_its_delay<S: Scalar>(
    v1: S,
    v2: S,
    td: S,
    tr: S,
    tf: S,
    pw: S,
    per: S,
    t: S,
)
    requires
        t.below(td),
    ensures
        wave_value(Wave::Pulse { v1, v2, td, tr, tf, pw, per }, t) == v1,
{
}

/// A piecewise-linear function is held at its first value up to its first breakpoint, and at
/// its last value from its last breakpoint on.
pub proof fn law_breakpoints_are_held<S: Scalar>(points: Seq<(S, S)>, t: S)
    requires
        points.len() > 0,
    ensures
        at_most(t, points[0].0) ==> wave_value(Wave::Pwl(points), t) == points[0].1,
        !at_most(t, points[0].0) && at_most(points.last().0, t) ==> wave_value(
            Wave::Pwl(points),
            t,
        ) == points.last().1,
{
}

/// A pulse repeats: where two times are the same distance into their periods, its values are
/// the same.
pub proof fn law_pulse_repeats<S: Scalar>(
    v1: S,
    v2: S,
    td: S,
    tr: S,
    tf: S,
    pw: S,
    per: S,
    t: S,
    other: S,
)
    requires
        !t.below(td),
        !other.below(td),
        t.difference(td).remainder(per.larger(S::tiny())) == other.difference(td).remainder(
            per.larger(S::tiny()),
        ),
    ensures
        wave_value(Wave::Pulse { v1, v2, td, tr, tf, pw, per }, t) == wave_value(
            Wave::Pulse { v1, v2, td, tr, tf, pw, per },
            other,
        ),
{
}

/// A block is a source of the waveform of a call.
pub open spec fn plays<S: Scalar>(shape: Shape<S>, name: Seq<char>, args: Seq<S>) -> bool {
    wave_of_call(name, args) matches Some(wave) && shape == source(Form::Waveform(wave))
}

/// A wave block is the same waveform as an independent source of the same numbers.
pub proof fn law_wave_blocks_are_sources<S: Scalar>(block: Block)
    ensures
        sinwave_shape::<S>(block) matches Ok(shape) ==> plays(
            shape,
            "SIN"@,
            seq![
                number_or(block, "v0"@, S::nought()),
                number_or(block, "va"@, S::nought()),
                number_or(block, "freq"@, S::nought()),
                number_or(block, "td"@, S::nought()),
                number_or(block, "theta"@, S::nought()),
                number_or(block, "phase"@, S::nought()),
            ],
        ),
        pulsewave_shape::<S>(block) matches Ok(shape) ==> plays(
            shape,
            "PULSE"@,
            seq![
                number_or(block, "v1"@, S::nought()),
                number_or(block, "v2"@, S::nought()),
                number_or(block, "td"@, S::nought()),
                number_or(block, "tr"@, S::nought()),
                number_or(block, "tf"@, S::nought()),
                number_or(block, "pw"@, S::forever()),
                number_or(block, "per"@, S::forever()),
            ],
        ),
        expwave_shape::<S>(block) matches Ok(shape) ==> plays(
            shape,
            "EXP"@,
            seq![
                number_or(block, "v1"@, S::nought()),
                number_or(block, "v2"@, S::nought()),
                number_or(block, "td1"@, S::nought()),
                number_or(block, "tau1"@, S::unit()),
                number_or(block, "td2"@, S::forever()),
                number_or(block, "tau2"@, S::unit()),
            ],
        ),
        sffmwave_shape::<S>(block) matches Ok(shape) ==> plays(
            shape,
            "SFFM"@,
            seq![
                number_or(block, "v0"@, S::nought()),
                number_or(block, "va"@, S::nought()),
                number_or(block, "fc"@, S::nought()),
                number_or(block, "mdi"@, S::nought()),
                number_or(block, "fs"@, S::nought()),
            ],
        ),
{
    reveal_strlit("SIN");
    reveal_strlit("PULSE");
    reveal_strlit("EXP");
    reveal_strlit("PWL");
    reveal_strlit("SFFM");
    assert("SIN"@[0] != "EXP"@[0]);
    assert("SIN"@.len() == 3 && "PULSE"@.len() == 5 && "SFFM"@.len() == 4);
}

// How a call is spelled

/// What the first `n` tokens of a call say: the arguments, without brackets and empty tokens.
pub open spec fn spoken(tokens: Seq<Seq<char>>, n: nat) -> Seq<Seq<char>>
    decreases n,
{
    if n == 0 {
        Seq::empty()
    } else {
        let piece = argument_text(tokens, n - 1);
        if piece.len() == 0 {
            spoken(tokens, (n - 1) as nat)
        } else {
            spoken(tokens, (n - 1) as nat).push(piece)
        }
    }
}

/// The numbers that a list of texts denotes; `None` where one is not a number.
spec fn numbers_in<S: Scalar>(list: Seq<Seq<char>>) -> Option<Seq<S>>
    decreases list.len(),
{
    if list.len() == 0 {
        Some(Seq::empty())
    } else {
        match numbers_in::<S>(list.drop_last()) {
            Some(before) => match S::read(list.last()) {
                Some(v) => Some(before.push(v)),
                None => None,
            },
            None => None,
        }
    }
}

proof fn lemma_arguments_are_spoken<S: Scalar>(tokens: Seq<Seq<char>>, n: nat)
    ensures
        arguments::<S>(tokens, n) == numbers_in::<S>(spoken(tokens, n)),
    decreases n,
{
    if n > 0 {
        lemma_arguments_are_spoken::<S>(tokens, (n - 1) as nat);
        let piece = argument_text(tokens, n - 1);
        if piece.len() > 0 {
            let before = spoken(tokens, (n - 1) as nat);
            assert(before.push(piece).drop_last() =~= before);
        }
    }
}

/// The tokens begin with a name and an opening bracket.
pub open spec fn is_call(tokens: Seq<Seq<char>>) -> bool {
    tokens.len() > 0 && text::find(tokens[0], '(') < tokens[0].len()
}

/// The name that a call begins with.
pub open spec fn called(tokens: Seq<Seq<char>>) -> Seq<char> {
    tokens[0].take(text::find(tokens[0], '('))
}

/// A call is its name, letter case aside, and its arguments: two calls that agree in these are
/// the same function, whatever their brackets are glued to.
pub proof fn law_call_is_its_name_and_arguments<S: Scalar>(
    first: Seq<Seq<char>>,
    other: Seq<Seq<char>>,
)
    requires
        is_call(first),
        is_call(other),
        text::eq_ignoring_case(called(first), called(other)),
        spoken(first, first.len()) == spoken(other, other.len()),
    ensures
        wave::<S>(first) == wave::<S>(other),
{
    lemma_arguments_are_spoken::<S>(first, first.len());
    lemma_arguments_are_spoken::<S>(other, other.len());
}

/// `name(` with the first argument glued to it, and the rest of a call.
pub open spec fn glued(name: Seq<char>, x: Seq<char>, rest: Seq<Seq<char>>) -> Seq<Seq<char>> {
    seq![name + seq!['('] + x] + rest
}

/// `name(`, the first argument, and the rest of a call.
pub open spec fn apart(name: Seq<char>, x: Seq<char>, rest: Seq<Seq<char>>) -> Seq<Seq<char>> {
    seq![name + seq!['('], x] + rest
}

proof fn lemma_find_after(name: Seq<char>, x: Seq<char>, from: int)
    requires
        0 <= from <= name.len(),
        forall|i: int| 0 <= i < name.len() ==> #[trigger] name[i] != '(',
    ensures
        text::find_from(name + seq!['('] + x, '(', from) == name.len(),
    decreases name.len() - from,
{
    let s = name + seq!['('] + x;
    if from < name.len() {
        assert(s[from] == name[from]);
        lemma_find_after(name, x, from + 1);
    } else {
        assert(s[from] == '(');
    }
}

proof fn lemma_opening_spoken(name: Seq<char>, x: Seq<char>, rest: Seq<Seq<char>>, n: nat)
    requires
        forall|i: int| 0 <= i < name.len() ==> #[trigger] name[i] != '(',
        n <= rest.len(),
    ensures
        spoken(glued(name, x, rest), n + 1) == spoken(apart(name, x, rest), n + 2),
    decreases n,
{
    let (a, b) = (glued(name, x, rest), apart(name, x, rest));
    if n == 0 {
        lemma_find_after(name, x, 0);
        lemma_find_after(name, Seq::empty(), 0);
        assert(name + seq!['('] + Seq::<char>::empty() =~= name + seq!['(']);
        assert((name + seq!['('] + x).skip((name.len() + 1) as int) =~= x);
        assert((name + seq!['(']).skip((name.len() + 1) as int) =~= Seq::<char>::empty());
        assert(a[0] == name + seq!['('] + x);
        assert(b[0] == name + seq!['('] && b[1] == x);
        reveal_with_fuel(spoken, 3);
    } else {
        lemma_opening_spoken(name, x, rest, (n - 1) as nat);
        assert(a[n as int] == rest[n - 1]);
        assert(b[(n + 1) as int] == rest[n - 1]);
        assert(spoken(a, n) == spoken(b, n + 1));
    }
}

/// The opening bracket of a call may stand apart from the first argument.
pub proof fn law_opening_bracket_may_stand_apart<S: Scalar>(
    name: Seq<char>,
    x: Seq<char>,
    rest: Seq<Seq<char>>,
)
    requires
        forall|i: int| 0 <= i < name.len() ==> #[trigger] name[i] != '(',
    ensures
        wave::<S>(glued(name, x, rest)) == wave::<S>(apart(name, x, rest)),
{
    let (a, b) = (glued(name, x, rest), apart(name, x, rest));
    lemma_find_after(name, x, 0);
    lemma_find_after(name, Seq::empty(), 0);
    assert(name + seq!['('] + Seq::<char>::empty() =~= name + seq!['(']);
    assert(a[0] == name + seq!['('] + x);
    assert(b[0] == name + seq!['(']);
    assert(called(a) =~= name);
    assert(called(b) =~= name);
    lemma_opening_spoken(name, x, rest, rest.len());
    law_call_is_its_name_and_arguments::<S>(a, b);
}

proof fn lemma_spoken_prefix(a: Seq<Seq<char>>, b: Seq<Seq<char>>, n: nat)
    requires
        n <= a.len(),
        n <= b.len(),
        forall|i: int| 0 <= i < n ==> #[trigger] argument_text(a, i) == argument_text(b, i),
    ensures
        spoken(a, n) == spoken(b, n),
    decreases n,
{
    if n > 0 {
        lemma_spoken_prefix(a, b, (n - 1) as nat);
        assert(argument_text(a, n - 1) == argument_text(b, n - 1));
    }
}

proof fn lemma_closing_goes(s: Seq<char>)
    ensures
        without_closing(s.push(')')) == without_closing(s),
        without_closing(seq![')']).len() == 0,
{
    assert(s.push(')').drop_last() =~= s);
    assert(seq![')'].drop_last() =~= Seq::<char>::empty());
    reveal_with_fuel(text::trim_end_by, 2);
}

proof fn lemma_find_before(s: Seq<char>, from: int)
    requires
        0 <= from <= s.len(),
        text::find_from(s, '(', from) < s.len(),
    ensures
        text::find_from(s.push(')'), '(', from) == text::find_from(s, '(', from),
    decreases s.len() - from,
{
    let longer = s.push(')');
    if from < s.len() {
        assert(longer[from] == s[from]);
        if s[from] != '(' {
            lemma_find_before(s, from + 1);
        }
    }
}

/// The closing bracket of a call may stand apart from the last argument.
pub proof fn law_closing_bracket_may_stand_apart<S: Scalar>(tokens: Seq<Seq<char>>)
    requires
        is_call(tokens),
    ensures
        wave::<S>(tokens.update(tokens.len() - 1, tokens.last().push(')'))) == wave::<S>(
            tokens.push(seq![')']),
        ),
{
    let n = tokens.len();
    let a = tokens.update(n - 1, tokens.last().push(')'));
    let b = tokens.push(seq![')']);
    let at = text::find(tokens[0], '(');
    text::lemma_find(tokens[0], '(', 0);
    lemma_find_before(tokens[0], 0);
    assert(a[n - 1] == tokens[n - 1].push(')'));
    assert(b[n as int] == seq![')']);
    assert(forall|i: int| 0 <= i < n ==> #[trigger] b[i] == tokens[i]);
    assert(tokens[0].push(')').skip(at + 1) =~= tokens[0].skip(at + 1).push(')'));
    assert(tokens[0].push(')').take(at) =~= tokens[0].take(at));
    lemma_closing_goes(tokens[0].skip(at + 1));
    lemma_closing_goes(tokens[n - 1]);
    assert(text::find(a[0], '(') == at);
    assert(called(a) == called(b));
    assert forall|i: int| 0 <= i < n implies #[trigger] argument_text(a, i) == argument_text(
        b,
        i,
    ) by {
        if i < n - 1 {
            assert(a[i] == tokens[i]);
        }
    }
    lemma_spoken_prefix(a, b, n);
    assert(argument_text(b, n as int).len() == 0);
    assert(spoken(b, n + 1) == spoken(b, n));
    law_call_is_its_name_and_arguments::<S>(a, b);
}

// The course of an exponential

/// The numbers are in an order that sums and products respect.
#[verifier::opaque]
pub open spec fn is_ordered<S: Scalar>() -> bool {
    &&& forall|a: S, b: S| #[trigger] at_most(a, b) || at_most(b, a)
    &&& forall|a: S, b: S| #[trigger] at_most(a, b) ==> !b.below(a)
    &&& forall|a: S, b: S, c: S| #[trigger]
        at_most(a, b) && #[trigger] at_most(b, c) ==> at_most(a, c)
    &&& forall|a: S, b: S, c: S|
        at_most(a, b) ==> at_most(#[trigger] a.sum(c), #[trigger] b.sum(c))
    &&& forall|a: S, b: S, x: S|
        at_most(S::nought(), x) && at_most(a, b) ==> at_most(
            #[trigger] a.product(x),
            #[trigger] b.product(x),
        )
    &&& forall|d: S| at_most(S::nought(), #[trigger] d.magnitude())
    &&& forall|d: S, x: S|
        at_most(S::nought(), x) ==> (#[trigger] d.product(x)).magnitude() == d.magnitude().product(
            x,
        )
}

pub proof fn lemma_total_order<S: Scalar>(a: S, b: S)
    requires
        is_ordered::<S>(),
    ensures
        at_most(a, b) || at_most(b, a),
        at_most(a, b) ==> !b.below(a),
        at_most(b, a) ==> !a.below(b),
{
    reveal(is_ordered);
}

pub proof fn lemma_transitive<S: Scalar>(a: S, b: S, c: S)
    requires
        is_ordered::<S>(),
        at_most(a, b),
        at_most(b, c),
    ensures
        at_most(a, c),
{
    reveal(is_ordered);
}

pub proof fn lemma_added<S: Scalar>(a: S, b: S, c: S)
    requires
        is_ordered::<S>(),
        at_most(a, b),
    ensures
        at_most(a.sum(c), b.sum(c)),
{
    reveal(is_ordered);
}

pub proof fn lemma_multiplied<S: Scalar>(a: S, b: S, x: S)
    requires
        is_ordered::<S>(),
        at_most(S::nought(), x),
        at_most(a, b),
    ensures
        at_most(a.product(x), b.product(x)),
{
    reveal(is_ordered);
}

pub proof fn lemma_magnitude<S: Scalar>(d: S, x: S)
    requires
        is_ordered::<S>(),
        at_most(S::nought(), x),
    ensures
        at_most(S::nought(), d.magnitude()),
        d.product(x).magnitude() == d.magnitude().product(x),
{
    reveal(is_ordered);
}

/// How much of an exponential is left after `dt`.
pub open spec fn decay<S: Scalar>(dt: S, tau: S) -> S {
    dt.negation().quotient(tau.larger(S::tiny())).exponential()
}

/// An exponential with a time constant falls from one towards zero.
pub open spec fn decays<S: Scalar>(tau: S) -> bool {
    &&& decay(S::nought(), tau) == S::unit()
    &&& forall|dt: S|
        at_most(S::nought(), dt) ==> at_most(S::nought(), #[trigger] decay(dt, tau)) && at_most(
            decay(dt, tau),
            S::unit(),
        )
    &&& forall|dt: S, later: S|
        at_most(S::nought(), dt) && at_most(dt, later) ==> at_most(
            #[trigger] decay(later, tau),
            #[trigger] decay(dt, tau),
        )
}

/// A value between two others, whichever of them is the larger.
pub open spec fn lies_between<S: Scalar>(x: S, a: S, b: S) -> bool {
    (at_most(a, x) && at_most(x, b)) || (at_most(b, x) && at_most(x, a))
}

/// `a + (b - a)*(1 - e)` is `(a - b)*e` away from `b`.
pub proof fn lemma_distance<S: Scalar>(a: S, b: S, e: S)
    requires
        exact::<S>(),
    ensures
        between(a, b, S::unit().difference(e)).difference(b) == a.difference(b).product(e),
{
    let d = b.difference(a);
    let n = e.negation();
    lemma_difference(S::unit(), e);
    lemma_distributes(d, S::unit(), n);
    lemma_product_one(d);
    let de = d.product(n);
    assert(d.product(S::unit().difference(e)) == d.sum(de));
    lemma_difference(b, a);
    lemma_difference(a, b);
    // a + ((b - a) + de) == b + de
    lemma_sum_associates(a, d, de);
    lemma_sum_commutes(b, a.negation());
    lemma_sum_associates(a, a.negation(), b);
    lemma_negation(a);
    lemma_sum_zero(b);
    assert(between(a, b, S::unit().difference(e)) == b.sum(de));
    // (b + de) - b == de
    lemma_difference(b.sum(de), b);
    lemma_sum_commutes(b, de);
    lemma_sum_associates(de, b, b.negation());
    lemma_negation(b);
    lemma_sum_zero(de);
    // (b - a)*(-e) == (a - b)*e
    lemma_negation_of_product(d, e);
    lemma_negation_of_sum(b, a.negation());
    lemma_negation_twice(a);
    lemma_sum_commutes(b.negation(), a);
}

/// Where numbers are ordered, so are their distances.
proof fn lemma_shorter<S: Scalar>(d: S, e: S, f: S)
    requires
        exact::<S>(),
        is_ordered::<S>(),
        at_most(S::nought(), e),
        at_most(e, f),
    ensures
        at_most(d.product(e).magnitude(), d.product(f).magnitude()),
{
    lemma_transitive(S::nought(), e, f);
    lemma_magnitude(d, e);
    lemma_magnitude(d, f);
    lemma_product_commutes(d.magnitude(), e);
    lemma_product_commutes(d.magnitude(), f);
    lemma_multiplied(e, f, d.magnitude());
}

/// A value on the way from one to another lies between them.
proof fn lemma_on_the_way<S: Scalar>(a: S, b: S, e: S)
    requires
        exact::<S>(),
        is_ordered::<S>(),
        at_most(S::nought(), e),
        at_most(e, S::unit()),
    ensures
        lies_between(between(a, b, S::unit().difference(e)), a, b),
{
    let x = between(a, b, S::unit().difference(e));
    let d = a.difference(b);
    lemma_distance(a, b, e);
    lemma_put_back(x, b);
    lemma_put_back(a, b);
    let de = d.product(e);
    assert(de.sum(b) == x);
    assert(d.sum(b) == a);
    lemma_sum_zero(b);
    lemma_product_commutes(d, e);
    lemma_product_one(d);
    lemma_product_zero(e);
    lemma_product_zero(d);
    let zero = S::nought();
    lemma_total_order(zero, d);
    if at_most(zero, d) {
        // 0 <= d*e <= d
        lemma_multiplied(zero, e, d);
        lemma_multiplied(e, S::unit(), d);
        lemma_added(zero, de, b);
        lemma_added(de, d, b);
    } else {
        // d <= d*e <= 0
        lemma_multiplied(d, zero, e);
        lemma_less_of_it(d, e);
        lemma_added(d, de, b);
        lemma_added(de, zero, b);
    }
}

/// `(x - b) + b == x`.
pub proof fn lemma_put_back<S: Scalar>(x: S, b: S)
    requires
        exact::<S>(),
    ensures
        x.difference(b).sum(b) == x,
{
    lemma_difference(x, b);
    lemma_sum_associates(x, b.negation(), b);
    lemma_sum_commutes(b.negation(), b);
    lemma_negation(b);
    lemma_sum_zero(x);
}

/// A negative number times a fraction is not below the number.
proof fn lemma_less_of_it<S: Scalar>(d: S, e: S)
    requires
        exact::<S>(),
        is_ordered::<S>(),
        at_most(d, S::nought()),
        at_most(e, S::unit()),
    ensures
        at_most(d, d.product(e)),
{
    // 0 <= -d, so e*(-d) <= -d, and both sides change places with their signs.
    let n = d.negation();
    lemma_negation(d);
    lemma_sum_zero(n);
    lemma_added(d, S::nought(), n);
    assert(at_most(S::nought(), n));
    lemma_multiplied(e, S::unit(), n);
    lemma_product_one(n);
    lemma_product_commutes(e, n);
    lemma_negation_of_product(d, e);
    let de = d.product(e);
    let m = de.negation();
    assert(e.product(n) == m);
    // m <= n gives m + (d + de) <= n + (d + de)
    let both = d.sum(de);
    lemma_added(m, n, both);
    lemma_sum_associates(n, d, de);
    lemma_sum_commutes(n, d);
    lemma_sum_zero(de);
    lemma_sum_commutes(d, de);
    lemma_sum_associates(m, de, d);
    lemma_sum_commutes(m, de);
    lemma_negation(de);
    lemma_sum_zero(d);
}

/// The time since a delay is over.
pub proof fn lemma_since<S: Scalar>(td: S, t: S, later: S)
    requires
        exact::<S>(),
        is_ordered::<S>(),
        at_most(td, t),
        at_most(t, later),
    ensures
        at_most(S::nought(), t.difference(td)),
        at_most(t.difference(td), later.difference(td)),
        at_most(S::nought(), later.difference(td)),
{
    let n = td.negation();
    lemma_difference(t, td);
    lemma_difference(later, td);
    lemma_negation(td);
    lemma_added(td, t, n);
    lemma_added(t, later, n);
    lemma_transitive(S::nought(), t.difference(td), later.difference(td));
}

/// The value of an exponential on its way to its second value.
pub open spec fn rising<S: Scalar>(v1: S, v2: S, td1: S, tau1: S, t: S) -> S {
    between(v1, v2, risen(t.difference(td1), tau1))
}

/// An exponential does not jump where it turns back: from its first delay up to and including
/// its second one it is on its way to its second value.
pub proof fn law_exponential_does_not_jump<S: Scalar>(
    v1: S,
    v2: S,
    td1: S,
    tau1: S,
    td2: S,
    tau2: S,
    t: S,
)
    requires
        exact::<S>(),
        is_ordered::<S>(),
        decays(tau2),
        at_most(td1, t),
        at_most(t, td2),
    ensures
        wave_value(Wave::Exp { v1, v2, td1, tau1, td2, tau2 }, t) == rising(v1, v2, td1, tau1, t),
{
    lemma_total_order(td1, t);
    if !t.below(td2) {
        lemma_equal(t, td2);
        let top = rising(v1, v2, td1, tau1, td2);
        lemma_difference(td2, td2);
        lemma_negation(td2);
        lemma_difference(S::unit(), S::unit());
        lemma_negation(S::unit());
        let d = v1.difference(top);
        lemma_product_zero(d);
        lemma_product_commutes(d, S::nought());
        lemma_sum_zero(top);
    }
}

/// On its way to its second value an exponential comes ever closer to it.
pub proof fn law_exponential_approaches_its_second_value<S: Scalar>(
    v1: S,
    v2: S,
    td1: S,
    tau1: S,
    td2: S,
    tau2: S,
    t: S,
    later: S,
)
    requires
        exact::<S>(),
        is_ordered::<S>(),
        decays(tau1),
        decays(tau2),
        at_most(td1, t),
        at_most(t, later),
        at_most(later, td2),
    ensures
        ({
            let wave = Wave::Exp { v1, v2, td1, tau1, td2, tau2 };
            at_most(
                wave_value(wave, later).difference(v2).magnitude(),
                wave_value(wave, t).difference(v2).magnitude(),
            )
        }),
{
    lemma_since(td1, t, later);
    lemma_transitive(t, later, td2);
    lemma_transitive(td1, t, later);
    law_exponential_does_not_jump(v1, v2, td1, tau1, td2, tau2, t);
    law_exponential_does_not_jump(v1, v2, td1, tau1, td2, tau2, later);
    let e = decay(t.difference(td1), tau1);
    let f = decay(later.difference(td1), tau1);
    lemma_distance(v1, v2, e);
    lemma_distance(v1, v2, f);
    lemma_shorter(v1.difference(v2), f, e);
}

/// From its second delay on an exponential comes ever closer to its first value again.
pub proof fn law_exponential_returns_to_its_first_value<S: Scalar>(
    v1: S,
    v2: S,
    td1: S,
    tau1: S,
    td2: S,
    tau2: S,
    t: S,
    later: S,
)
    requires
        exact::<S>(),
        is_ordered::<S>(),
        decays(tau2),
        at_most(td1, td2),
        at_most(td2, t),
        at_most(t, later),
    ensures
        ({
            let wave = Wave::Exp { v1, v2, td1, tau1, td2, tau2 };
            at_most(
                wave_value(wave, later).difference(v1).magnitude(),
                wave_value(wave, t).difference(v1).magnitude(),
            )
        }),
{
    lemma_since(td2, t, later);
    lemma_transitive(td2, t, later);
    lemma_transitive(td1, td2, t);
    lemma_transitive(td1, td2, later);
    lemma_total_order(td1, t);
    lemma_total_order(td1, later);
    lemma_total_order(td2, t);
    lemma_total_order(td2, later);
    let top = rising(v1, v2, td1, tau1, td2);
    let e = decay(t.difference(td2), tau2);
    let f = decay(later.difference(td2), tau2);
    lemma_distance(top, v1, e);
    lemma_distance(top, v1, f);
    lemma_shorter(top.difference(v1), f, e);
}

/// An exponential never leaves the range between its two values.
pub proof fn law_exponential_stays_between_its_values<S: Scalar>(
    v1: S,
    v2: S,
    td1: S,
    tau1: S,
    td2: S,
    tau2: S,
    t: S,
)
    requires
        exact::<S>(),
        is_ordered::<S>(),
        decays(tau1),
        decays(tau2),
        at_most(td1, td2),
    ensures
        lies_between(wave_value(Wave::Exp { v1, v2, td1, tau1, td2, tau2 }, t), v1, v2),
{
    lemma_total_order(v1, v1);
    lemma_total_order(v2, v2);
    lemma_total_order(v1, v2);
    if !t.below(td1) {
        lemma_not_below(td1, t);
        if t.below(td2) {
            law_exponential_does_not_jump(v1, v2, td1, tau1, td2, tau2, t);
            lemma_since(td1, t, td2);
            lemma_on_the_way(v1, v2, decay(t.difference(td1), tau1));
        } else {
            lemma_not_below(td2, t);
            lemma_since(td1, td2, t);
            lemma_total_order(t, t);
            lemma_since(td2, t, t);
            let top = rising(v1, v2, td1, tau1, td2);
            let x = between(top, v1, risen(t.difference(td2), tau2));
            lemma_on_the_way(v1, v2, decay(td2.difference(td1), tau1));
            lemma_on_the_way(top, v1, decay(t.difference(td2), tau2));
            lemma_between_within(x, top, v1, v2);
        }
    }
}

/// A value between one end of a range and a value in it is in the range.
proof fn lemma_between_within<S: Scalar>(x: S, top: S, v1: S, v2: S)
    requires
        is_ordered::<S>(),
        lies_between(top, v1, v2),
        lies_between(x, top, v1),
    ensures
        lies_between(x, v1, v2),
{
    lemma_total_order(x, top);
    if at_most(v1, top) && at_most(top, v2) {
        if at_most(v1, x) && at_most(x, top) {
            lemma_transitive(x, top, v2);
        } else {
            // top <= x <= v1 <= top
            lemma_transitive(x, v1, top);
            lemma_transitive(x, top, v2);
            lemma_transitive(v1, top, x);
        }
    } else {
        if at_most(top, x) && at_most(x, v1) {
            lemma_transitive(v2, top, x);
        } else {
            // v1 <= x <= top <= v1
            lemma_transitive(x, top, v1);
            lemma_transitive(top, v1, x);
            lemma_transitive(v2, top, x);
        }
    }
}

pub proof fn lemma_not_below<S: Scalar>(a: S, b: S)
    requires
        exact::<S>(),
        is_ordered::<S>(),
        !b.below(a),
    ensures
        at_most(a, b),
{
    lemma_total_order(a, b);
    lemma_equal(b, a);
    lemma_total_order(a, a);
}

} // verus!
