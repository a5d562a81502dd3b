//! What the fields of a block line mean: each parameter of a block is the number in the field
//! of its name, and each input is the signal that the field of its name names.

use crate::block_fields::{
    column, field, link, link_list, number, number_or, number_or_zero, value_of, vector,
};
use crate::block_graph::{
    Constant, CoordinateTransform, DiscreteIntegrationMethod, Factor, FlipFlopKind, Form, Link,
    LatchPriority, Linear, LogicOp, PidClamp, Quantity, Ratio, SampleTimeSpec, Vco,
};
use crate::block_kinds::{declared, kind_of, shape, Declared, IdealDiode};
use crate::dynamic_blocks::{
    cscript_shape, discretepid_shape, discretestatespace_shape, discretetf_shape,
    hysteresis_shape, linear, pid_shape, pmsm_shape, pspwm_shape, pwm_shape, ratio, sample_time,
    statespace_shape, tf_shape, vco_shape,
};
use crate::interface_blocks::{
    counter_shape, flip_flop_named, flip_flop_shape, logic_named, logic_shape, probe_shape,
    sig2phys_shape, srlatch_shape, transform_named, transform_shape,
};
use crate::list_laws::{is_list, is_schedule, is_table, lemma_lists};
use crate::netlist::Block;
use crate::scalar::Scalar;
use crate::static_blocks::{
    const_shape, expwave_shape, function_shape, gain_shape, product_shape, pulsewave_shape,
    pwc_shape, pwl_shape, saturation_shape, sffmwave_shape, signs_from, sinwave_shape, sum_shape,
    table_shape, with_input, Shape,
};
use crate::text;
use crate::transient_source::Wave;
use vstd::prelude::*;

verus! {

// What a line says

/// The last of the fields with the given key stands at `i` and has the given value.
pub open spec fn stands_last(
    fields: Seq<(Seq<char>, Seq<char>)>,
    i: int,
    key: Seq<char>,
    value: Seq<char>,
) -> bool {
    &&& 0 <= i < fields.len()
    &&& fields[i].0 == key
    &&& fields[i].1 == value
    &&& forall|j: int| i < j < fields.len() ==> (#[trigger] fields[j]).0 != key
}

/// The last of the fields with the given key has the given value.
pub open spec fn stands(
    fields: Seq<(Seq<char>, Seq<char>)>,
    key: Seq<char>,
    value: Seq<char>,
) -> bool {
    exists|i: int| stands_last(fields, i, key, value)
}

/// The line says `key=value`; where it says more than one thing of a key, the last one counts.
pub open spec fn says(block: Block, key: Seq<char>, value: Seq<char>) -> bool {
    stands(block.fields, key, value)
}

/// The line says nothing of a key.
pub open spec fn is_silent(block: Block, key: Seq<char>) -> bool {
    forall|i: int| 0 <= i < block.fields.len() ==> (#[trigger] block.fields[i]).0 != key
}

/// The value that the line gives a key is the text of a number.
pub open spec fn gives<S: Scalar>(block: Block, key: Seq<char>, x: S) -> bool {
    exists|value: Seq<char>| #[trigger] says(block, key, value) && S::read(value) == Some(x)
}

/// The value that the line gives a key is, surrounding space aside, the text of a number.
pub open spec fn gives_loosely<S: Scalar>(block: Block, key: Seq<char>, x: S) -> bool {
    exists|value: Seq<char>| #[trigger]
        says(block, key, value) && S::read(text::trim(value)) == Some(x)
}

/// The number that the line gives a key, or the default where it is silent.
pub open spec fn gives_or<S: Scalar>(block: Block, key: Seq<char>, x: S, default: S) -> bool {
    gives(block, key, x) || (is_silent(block, key) && x == default)
}

/// The number that the line gives a key, or the default where it gives none.
pub open spec fn gives_else<S: Scalar>(block: Block, key: Seq<char>, x: S, default: S) -> bool {
    gives(block, key, x) || (x == default && forall|y: S| !#[trigger] gives(block, key, y))
}

/// A signal has the given name: that of a block, or behind `prev:` that of a block whose
/// output in the step before is meant.
pub open spec fn is_named(signal: Link, name: Seq<char>) -> bool {
    match signal {
        Link::Block(block) => block == name && !(name.len() >= 5 && name.take(5) == "prev:"@),
        Link::BlockPrev(block) => name == "prev:"@ + block,
    }
}

/// The line gives a key the name of a signal.
pub open spec fn takes(block: Block, key: Seq<char>, signal: Link) -> bool {
    exists|value: Seq<char>| #[trigger] says(block, key, value) && is_named(signal, value)
}

/// Names with commas between them.
pub open spec fn written_out(names: Seq<Seq<char>>) -> Seq<char>
    decreases names.len(),
{
    if names.len() == 0 {
        Seq::empty()
    } else if names.len() == 1 {
        names[0]
    } else {
        names[0] + ","@ + written_out(names.skip(1))
    }
}

/// The value that the line gives a key is a list of names, none of which has a comma in it.
pub open spec fn lists(block: Block, key: Seq<char>, names: Seq<Seq<char>>) -> bool {
    &&& names.len() > 0
    &&& says(block, key, written_out(names))
    &&& forall|i: int| 0 <= i < names.len() ==> !(#[trigger] names[i]).contains(',')
}

/// Signals have the given names, each its own.
pub open spec fn are_named(signals: Seq<Link>, names: Seq<Seq<char>>) -> bool {
    &&& signals.len() == names.len()
    &&& forall|i: int| 0 <= i < names.len() ==> is_named(#[trigger] signals[i], names[i])
}

/// The line gives a key the names of signals, in order.
pub open spec fn takes_all(block: Block, key: Seq<char>, signals: Seq<Link>) -> bool {
    exists|names: Seq<Seq<char>>| #[trigger] lists(block, key, names) && are_named(signals, names)
}

/// Numbers have the given texts, each its own.
pub open spec fn are_read<S: Scalar>(numbers: Seq<S>, words: Seq<Seq<char>>) -> bool {
    &&& numbers.len() == words.len()
    &&& forall|i: int| 0 <= i < words.len() ==> S::read(#[trigger] words[i]) == Some(numbers[i])
}

/// The line gives a key numbers with commas between them.
pub open spec fn gives_all<S: Scalar>(block: Block, key: Seq<char>, numbers: Seq<S>) -> bool {
    exists|words: Seq<Seq<char>>| #[trigger] lists(block, key, words) && are_read(numbers, words)
}

/// The names of the outputs: those that the line lists, as many as there are, or the given
/// ones where it lists none.
pub open spec fn puts_out(block: Block, names: Seq<Seq<char>>, default: Seq<Seq<char>>) -> bool {
    &&& names.len() == default.len()
    &&& lists(block, "outputs"@, names) || (is_silent(block, "outputs"@) && names == default)
}

/// A name with a further part.
pub open spec fn with_part(name: Seq<char>, part: Seq<char>) -> Seq<char> {
    name + "_"@ + part
}

/// The line gives a key a list of numbers.
pub open spec fn gives_list<S: Scalar>(block: Block, key: Seq<char>, xs: Seq<S>) -> bool {
    exists|value: Seq<char>| #[trigger] says(block, key, value) && is_list(value, xs)
}

/// The line gives a key a list of lists of numbers.
pub open spec fn gives_table<S: Scalar>(block: Block, key: Seq<char>, rows: Seq<Seq<S>>) -> bool {
    exists|value: Seq<char>| #[trigger] says(block, key, value) && is_table(value, rows)
}

/// The line gives its points, in any order.
pub open spec fn gives_points<S: Scalar>(block: Block, list: Seq<(S, S)>) -> bool {
    exists|value: Seq<char>| #[trigger] says(block, "points"@, value) && is_schedule(value, list)
}

/// The only column of a matrix.
pub open spec fn is_column<S>(rows: Seq<Seq<S>>, xs: Seq<S>) -> bool {
    &&& rows.len() == xs.len()
    &&& forall|i: int| 0 <= i < rows.len() ==> #[trigger] rows[i] == seq![xs[i]]
}

/// The line gives a key the only column of a matrix.
pub open spec fn gives_column<S: Scalar>(block: Block, key: Seq<char>, rows: Seq<Seq<S>>) -> bool {
    exists|xs: Seq<S>| #[trigger] gives_list(block, key, xs) && is_column(rows, xs)
}

/// The line gives a key the only row of a matrix.
pub open spec fn gives_row<S: Scalar>(block: Block, key: Seq<char>, rows: Seq<Seq<S>>) -> bool {
    rows.len() == 1 && gives_list(block, key, rows[0])
}

/// A matrix of the given size that is zero.
pub open spec fn is_nothing<S: Scalar>(rows: Seq<Seq<S>>, height: nat, width: nat) -> bool {
    &&& rows.len() == height
    &&& forall|i: int, j: int|
        0 <= i < height && 0 <= j < width ==> #[trigger] rows[i][j] == S::nought()
    &&& forall|i: int| 0 <= i < height ==> (#[trigger] rows[i]).len() == width
}

/// The matrices of a linear system: `b` may be a single column and `c` a single row; `d` is
/// zero where it is not given, and may be a number where there is one input and one output.
pub open spec fn gives_system<S: Scalar>(block: Block, ss: Linear<S>) -> bool {
    &&& gives_table(block, "a"@, ss.a)
    &&& gives_table(block, "b"@, ss.b) || gives_column(block, "b"@, ss.b)
    &&& gives_table(block, "c"@, ss.c) || gives_row(block, "c"@, ss.c)
    &&& {
        ||| gives_table(block, "d"@, ss.d)
        ||| is_silent(block, "d"@) && is_nothing(
            ss.d,
            ss.c.len(),
            if ss.b.len() == 0 {
                0
            } else {
                ss.b[0].len()
            },
        )
        ||| ss.d.len() == 1 && ss.d[0].len() == 1 && gives_loosely(block, "d"@, ss.d[0][0])
    }
}

/// The coefficients of a rational function. Its denominator does not begin with zero, and its
/// numerator has no more coefficients.
pub open spec fn gives_ratio<S: Scalar>(block: Block, tf: Ratio<S>) -> bool {
    &&& gives_list(block, "num"@, tf.num)
    &&& gives_list(block, "den"@, tf.den)
    &&& tf.den.len() > 0
    &&& !tf.den[0].equal(S::nought())
    &&& tf.num.len() <= tf.den.len()
}

// How the fields are found

proof fn lemma_value_of(fields: Seq<(Seq<char>, Seq<char>)>, key: Seq<char>)
    ensures
        value_of(fields, key) is Some ==> stands(fields, key, value_of(fields, key)->0),
        value_of(fields, key) is None ==> forall|i: int|
            0 <= i < fields.len() ==> (#[trigger] fields[i]).0 != key,
    decreases fields.len(),
{
    if fields.len() > 0 {
        let before = fields.drop_last();
        let last = fields.len() - 1;
        lemma_value_of(before, key);
        if fields.last().0 == key {
            assert(stands_last(fields, last, key, fields.last().1));
        } else {
            assert(fields[last].0 != key);
            assert(value_of(fields, key) == value_of(before, key));
            match value_of(before, key) {
                Some(value) => {
                    let i = choose|i: int| stands_last(before, i, key, value);
                    assert forall|j: int| i < j < fields.len() implies (#[trigger] fields[j]).0
                        != key by {
                        if j < last {
                            assert(before[j].0 != key);
                        }
                    }
                    assert(fields[i] == before[i]);
                    assert(stands_last(fields, i, key, value));
                },
                None => {
                    assert forall|i: int| 0 <= i < fields.len() implies (#[trigger] fields[i]).0
                        != key by {
                        if i < last {
                            assert(before[i].0 != key);
                        }
                    }
                },
            }
        }
    }
}

/// A line does not say two things of one key.
proof fn lemma_says_one_thing(block: Block, key: Seq<char>, a: Seq<char>, b: Seq<char>)
    requires
        says(block, key, a),
        says(block, key, b),
    ensures
        a == b,
{
    let i = choose|i: int| stands_last(block.fields, i, key, a);
    let j = choose|j: int| stands_last(block.fields, j, key, b);
    if i < j {
        assert(block.fields[j].0 != key);
    } else if j < i {
        assert(block.fields[i].0 != key);
    }
}

pub proof fn lemma_fields(block: Block)
    ensures
        forall|key: Seq<char>|
            match #[trigger] field(block, key) {
                Some(value) => says(block, key, value),
                None => is_silent(block, key),
            },
{
    assert forall|key: Seq<char>|
        match #[trigger] field(block, key) {
            Some(value) => says(block, key, value),
            None => is_silent(block, key),
        } by {
        lemma_value_of(block.fields, key);
    }
}

proof fn lemma_numbers<S: Scalar>(block: Block)
    ensures
        forall|key: Seq<char>| (#[trigger] number::<S>(block, key)) matches Ok(x) ==> gives(
            block,
            key,
            x,
        ),
        forall|key: Seq<char>| (#[trigger] number_or_zero::<S>(block, key)) matches Ok(x)
            ==> gives_or(block, key, x, S::nought()),
        forall|key: Seq<char>, default: S|
            gives_else(block, key, #[trigger] number_or::<S>(block, key, default), default),
{
    lemma_fields(block);
    assert forall|key: Seq<char>| (#[trigger] number::<S>(block, key)) matches Ok(x) implies gives(
        block,
        key,
        number::<S>(block, key)->Ok_0,
    ) by {
        let value = field(block, key)->0;
        assert(says(block, key, value));
    }
    assert forall|key: Seq<char>| (#[trigger] number_or_zero::<S>(block, key)) matches Ok(x)
        implies gives_or(block, key, number_or_zero::<S>(block, key)->Ok_0, S::nought()) by {
        match field(block, key) {
            Some(value) => {
                assert(says(block, key, value));
            },
            None => {},
        }
    }
    assert forall|key: Seq<char>, default: S|
        gives_else(block, key, #[trigger] number_or::<S>(block, key, default), default) by {
        match field(block, key) {
            Some(value) => {
                assert(says(block, key, value));
                if S::read(value) is None {
                    assert forall|y: S| !#[trigger] gives(block, key, y) by {
                        if gives(block, key, y) {
                            let other = choose|other: Seq<char>| #[trigger]
                                says(block, key, other) && S::read(other) == Some(y);
                            lemma_says_one_thing(block, key, value, other);
                        }
                    }
                }
            },
            None => {
                assert forall|y: S| !#[trigger] gives(block, key, y) by {
                    if gives(block, key, y) {
                        let other = choose|other: Seq<char>| #[trigger]
                            says(block, key, other) && S::read(other) == Some(y);
                        let i = choose|i: int| stands_last(block.fields, i, key, other);
                        assert(block.fields[i].0 != key);
                    }
                }
            },
        }
    }
}

proof fn lemma_link(name: Seq<char>)
    ensures
        is_named(link(name), name),
{
    reveal_strlit("prev:");
    if name.len() >= 5 && name.take(5) == "prev:"@ {
        assert(name =~= name.take(5) + name.skip(5));
    }
}

proof fn lemma_links(block: Block)
    ensures
        forall|name: Seq<char>| is_named(#[trigger] link(name), name),
        forall|key: Seq<char>| (#[trigger] field(block, key)) matches Some(value) ==> takes(
            block,
            key,
            link(value),
        ),
        forall|key: Seq<char>| (#[trigger] field(block, key)) matches Some(value) ==> lists(
            block,
            key,
            text::split(value, ','),
        ),
        forall|key: Seq<char>| (#[trigger] field(block, key)) matches Some(value) ==> takes_all(
            block,
            key,
            link_list(value),
        ),
{
    lemma_fields(block);
    assert forall|name: Seq<char>| is_named(#[trigger] link(name), name) by {
        lemma_link(name);
    }
    assert forall|key: Seq<char>| (#[trigger] field(block, key)) is Some implies takes(
        block,
        key,
        link(field(block, key)->0),
    ) && lists(block, key, text::split(field(block, key)->0, ',')) && takes_all(
        block,
        key,
        link_list(field(block, key)->0),
    ) by {
        let value = field(block, key)->0;
        assert(says(block, key, value));
        lemma_link(value);
        let names = text::split(value, ',');
        lemma_split(value);
        assert(lists(block, key, names));
        assert(are_named(link_list(value), names));
    }
}

proof fn lemma_split(s: Seq<char>)
    ensures
        text::split(s, ',').len() > 0,
        written_out(text::split(s, ',')) == s,
        forall|i: int|
            0 <= i < text::split(s, ',').len() ==> !(#[trigger] text::split(s, ',')[i]).contains(','),
    decreases s.len(),
{
    let names = text::split(s, ',');
    let at = text::find(s, ',');
    text::lemma_find(s, ',', 0);
    reveal_strlit(",");
    if 0 <= at < s.len() {
        let rest = s.skip(at + 1);
        lemma_split(rest);
        let tail = text::split(rest, ',');
        assert(names == seq![s.take(at)] + tail);
        assert(names.skip(1) =~= tail);
        assert(names[0] == s.take(at));
        assert(written_out(names) == s.take(at) + ","@ + rest);
        assert(s =~= s.take(at) + ","@ + rest);
        assert forall|i: int| 0 <= i < names.len() implies !(#[trigger] names[i]).contains(',') by {
            if i > 0 {
                assert(names[i] == tail[i - 1]);
            }
        }
    }
}

// Diodes and switches

/// The line gives a diode each of its parameters, and its breakdown voltage is below its
/// threshold.
pub open spec fn gives_diode<S: Scalar>(block: Block, diode: IdealDiode<S>) -> bool {
    &&& gives(block, "g_breakdown"@, diode.g_breakdown)
    &&& gives(block, "v_breakdown"@, diode.v_breakdown)
    &&& gives(block, "g_off"@, diode.g_off)
    &&& gives(block, "v_th"@, diode.v_th)
    &&& gives(block, "g_on"@, diode.g_on)
    &&& diode.v_breakdown.below(diode.v_th)
}

/// A diode has the conductances and voltages that its line gives under their names, and so has
/// the body diode of a switch. A switch further has the resistance under `r_on`, and is driven
/// by the block that `ctrl` names. A line that says nothing of its kind is a diode.
pub proof fn law_diodes_and_switches_are_as_written<S: Scalar>(block: Block)
    ensures
        match declared::<S>(block) {
            Ok(Declared::IdealDiode(diode)) => {
                &&& says(block, "kind"@, "ideal_diode"@) || says(block, "kind"@, "diode"@)
                    || is_silent(block, "kind"@)
                &&& gives_diode(block, diode)
            },
            Ok(Declared::IdealSwitch { switch, driver }) => {
                &&& says(block, "kind"@, "ideal_switch"@) || says(block, "kind"@, "mosfet"@)
                &&& gives_diode(block, switch.body_diode)
                &&& gives(block, "r_on"@, switch.r_on)
                &&& says(block, "gate"@, "block"@)
                &&& says(block, "ctrl"@, driver)
            },
            _ => true,
        },
{
    lemma_fields(block);
    lemma_numbers::<S>(block);
    reveal_strlit("ideal_diode");
    reveal_strlit("ideal_switch");
    reveal_strlit("mosfet");
}

// Sources

/// A waveform has the parameters that the line gives under their names. The values and the
/// frequencies have to be given, except for the offset; a delay that is not given is zero, a
/// time constant one, and a width or a period without end.
pub open spec fn gives_wave<S: Scalar>(block: Block, wave: Wave<S>) -> bool {
    match wave {
        Wave::Sin { v0, va, freq, td, theta, phase } => {
            &&& says(block, "kind"@, "sinwave"@)
            &&& gives_else(block, "v0"@, v0, S::nought())
            &&& gives(block, "va"@, va)
            &&& gives(block, "freq"@, freq)
            &&& gives_else(block, "td"@, td, S::nought())
            &&& gives_else(block, "theta"@, theta, S::nought())
            &&& gives_else(block, "phase"@, phase, S::nought())
        },
        Wave::Pulse { v1, v2, td, tr, tf, pw, per } => {
            &&& says(block, "kind"@, "pulsewave"@)
            &&& gives(block, "v1"@, v1)
            &&& gives(block, "v2"@, v2)
            &&& gives_else(block, "td"@, td, S::nought())
            &&& gives_else(block, "tr"@, tr, S::nought())
            &&& gives_else(block, "tf"@, tf, S::nought())
            &&& gives_else(block, "pw"@, pw, S::forever())
            &&& gives_else(block, "per"@, per, S::forever())
        },
        Wave::Exp { v1, v2, td1, tau1, td2, tau2 } => {
            &&& says(block, "kind"@, "expwave"@)
            &&& gives(block, "v1"@, v1)
            &&& gives(block, "v2"@, v2)
            &&& gives_else(block, "td1"@, td1, S::nought())
            &&& gives_else(block, "tau1"@, tau1, S::unit())
            &&& gives_else(block, "td2"@, td2, S::forever())
            &&& gives_else(block, "tau2"@, tau2, S::unit())
        },
        Wave::Sffm { v0, va, fc, mdi, fs } => {
            &&& says(block, "kind"@, "sffmwave"@)
            &&& gives_else(block, "v0"@, v0, S::nought())
            &&& gives(block, "va"@, va)
            &&& gives(block, "fc"@, fc)
            &&& gives_else(block, "mdi"@, mdi, S::nought())
            &&& gives(block, "fs"@, fs)
        },
        Wave::Pwl(_) => false,
    }
}

// Controllers, oscillators and modulators

/// The gains of a controller.
pub open spec fn gives_gains<S: Scalar>(block: Block, kp: S, ki: S, kd: S, n: S) -> bool {
    &&& gives(block, "kp"@, kp)
    &&& gives(block, "ki"@, ki)
    &&& gives(block, "kd"@, kd)
    &&& gives(block, "n"@, n)
}

/// The bounds of a controller and its inputs: the error under `in`, and behind it the lower
/// and the upper bound where both are signals.
pub open spec fn gives_clamp<S: Scalar>(
    block: Block,
    clamp: PidClamp<S>,
    inputs: Seq<Link>,
) -> bool {
    &&& inputs.len() >= 1
    &&& takes(block, "in"@, inputs[0])
    &&& match clamp {
        PidClamp::Fixed(lo, hi) => {
            &&& inputs.len() == 1
            &&& is_silent(block, "clamp_lo_in"@)
            &&& is_silent(block, "clamp_hi_in"@)
            &&& gives(block, "clamp_lo"@, lo)
            &&& gives(block, "clamp_hi"@, hi)
        },
        PidClamp::Dynamic => {
            &&& inputs.len() == 3
            &&& takes(block, "clamp_lo_in"@, inputs[1])
            &&& takes(block, "clamp_hi_in"@, inputs[2])
        },
    }
}

/// The range of an oscillator; its lower end does not exceed the upper one.
pub open spec fn gives_range<S: Scalar>(block: Block, range: Vco<S>) -> bool {
    &&& gives(block, "f_min"@, range.f_min)
    &&& gives(block, "f_max"@, range.f_max)
    &&& !range.f_max.below(range.f_min)
}

/// The dead times of a modulator, none where they are not given, and the names of its outputs.
pub open spec fn gives_edges<S: Scalar>(
    block: Block,
    red: S,
    fed: S,
    outputs: Seq<Seq<char>>,
) -> bool {
    &&& gives_or(block, "red"@, red, S::nought())
    &&& gives_or(block, "fed"@, fed, S::nought())
    &&& puts_out(block, outputs, seq![block.name, with_part(block.name, "comp"@)])
}

/// The time between two samples: the number under `ts`, or the reciprocal of the one under
/// `freq`. A line gives one of them.
pub open spec fn gives_period<S: Scalar>(block: Block, period: S) -> bool {
    ||| gives(block, "ts"@, period) && is_silent(block, "freq"@)
    ||| is_silent(block, "ts"@) && exists|freq: S| #[trigger]
        gives(block, "freq"@, freq) && period == S::unit().quotient(freq)
}

/// The samples are taken from time zero on.
pub open spec fn gives_samples<S: Scalar>(block: Block, samples: SampleTimeSpec<S>) -> bool {
    match samples {
        SampleTimeSpec::Periodic { period, offset } => gives_period(block, period) && offset
            == S::nought(),
    }
}

/// The name of a way to integrate.
pub open spec fn method_word(method: DiscreteIntegrationMethod) -> Seq<char> {
    match method {
        DiscreteIntegrationMethod::ForwardEuler => "forward"@,
        DiscreteIntegrationMethod::BackwardEuler => "backward"@,
        DiscreteIntegrationMethod::Trapezoidal => "trapezoidal"@,
    }
}

/// The inputs of a block that takes one or more: those under `inputs`, or the one under `in`.
pub open spec fn takes_bundle(block: Block, inputs: Seq<Link>) -> bool {
    takes_all(block, "inputs"@, inputs) || (is_silent(block, "inputs"@) && inputs.len() == 1
        && takes(block, "in"@, inputs[0]))
}

/// The single input under `in`.
pub open spec fn takes_one(block: Block, inputs: Seq<Link>) -> bool {
    inputs.len() == 1 && takes(block, "in"@, inputs[0])
}

/// The three inputs of a block, in order.
pub open spec fn takes_three(block: Block, inputs: Seq<Link>) -> bool {
    inputs.len() == 3 && takes_all(block, "inputs"@, inputs)
}

// Logic

/// The name of a logic gate.
pub open spec fn gate_word(op: LogicOp) -> Seq<char> {
    match op {
        LogicOp::And => "and"@,
        LogicOp::Or => "or"@,
        LogicOp::Xor => "xor"@,
        LogicOp::Nand => "nand"@,
        LogicOp::Nor => "nor"@,
        LogicOp::Xnor => "xnor"@,
        LogicOp::Not => "not"@,
    }
}

/// The name of a change of basis, the number of its inputs, and the names of its second and
/// third output.
pub open spec fn basis_words(kind: CoordinateTransform) -> (Seq<char>, nat, Seq<char>, Seq<char>) {
    match kind {
        CoordinateTransform::Clarke => ("clarke"@, 3, "beta"@, "zero"@),
        CoordinateTransform::ClarkeInv => ("clarkeinv"@, 3, "b"@, "c"@),
        CoordinateTransform::Park => ("park"@, 4, "q"@, "zero"@),
        CoordinateTransform::ParkInv => ("parkinv"@, 4, "beta"@, "zero"@),
        CoordinateTransform::ClarkePark => ("clarkepark"@, 4, "q"@, "zero"@),
        CoordinateTransform::ClarkeParkInv => ("clarkeparkinv"@, 4, "b"@, "c"@),
    }
}

/// A further input stands behind the others where the line names it.
pub open spec fn takes_further(
    block: Block,
    key: Seq<char>,
    present: bool,
    inputs: Seq<Link>,
    at: int,
) -> bool {
    if present {
        at < inputs.len() && takes(block, key, inputs[at])
    } else {
        is_silent(block, key)
    }
}

/// The inputs of a flip-flop: its clock, what it takes over, and its reset where it has one.
pub open spec fn takes_edges(
    block: Block,
    kind: FlipFlopKind,
    reset: bool,
    inputs: Seq<Link>,
) -> bool {
    let own: int = match kind {
        FlipFlopKind::Jk => 3,
        _ => 2,
    };
    &&& inputs.len() == own + (if reset {
        1int
    } else {
        0int
    })
    &&& takes(block, "clk"@, inputs[0])
    &&& takes_further(block, "reset"@, reset, inputs, own)
    &&& match kind {
        FlipFlopKind::D => says(block, "kind"@, "dff"@) && takes(block, "d"@, inputs[1]),
        FlipFlopKind::T => says(block, "kind"@, "tff"@) && takes(block, "t"@, inputs[1]),
        FlipFlopKind::Jk => says(block, "kind"@, "jkff"@) && takes(block, "j"@, inputs[1])
            && takes(block, "k"@, inputs[2]),
    }
}

/// The inputs of a counter: its clock, its direction where it has one, and its reset where it
/// has one.
pub open spec fn takes_count(
    block: Block,
    up_down: bool,
    reset: bool,
    inputs: Seq<Link>,
) -> bool {
    let own: int = if up_down {
        2
    } else {
        1
    };
    &&& inputs.len() == own + (if reset {
        1int
    } else {
        0int
    })
    &&& takes(block, "clk"@, inputs[0])
    &&& takes_further(block, "up_down"@, up_down, inputs, 1)
    &&& takes_further(block, "reset"@, reset, inputs, own)
}

/// The number of steps after which a counter starts again: none where the line gives none.
pub open spec fn gives_steps(block: Block, key: Seq<char>, steps: Option<usize>) -> bool {
    match steps {
        Some(n) => exists|value: Seq<char>| #[trigger]
            says(block, key, value) && text::natural(value) == Some(n as nat),
        None => is_silent(block, key),
    }
}

/// A block is what its line says: it has the kind that the line names, its parameters are the
/// numbers under their names, and its inputs are the signals under theirs.
pub open spec fn is_as_written<S: Scalar>(block: Block, kind: Form<S>, inputs: Seq<Link>) -> bool {
    match kind {
        Form::Const(value) => {
            &&& says(block, "kind"@, "const"@)
            &&& inputs.len() == 0
            &&& match value {
                Constant::Scalar(x) => gives_loosely(block, "value"@, x),
                Constant::Vector(xs) => gives_list(block, "value"@, xs),
            }
        },
        Form::Time => says(block, "kind"@, "time"@) && inputs.len() == 0,
        Form::Pwc { points, repeat } => {
            &&& says(block, "kind"@, "pwc"@)
            &&& inputs.len() == 0
            &&& gives_points(block, points)
            &&& repeat == says(block, "repeat"@, "true"@)
        },
        Form::Pwl { points, repeat } => {
            &&& says(block, "kind"@, "pwl"@)
            &&& inputs.len() == 0
            &&& gives_points(block, points)
            &&& repeat == says(block, "repeat"@, "true"@)
        },
        Form::Waveform(wave) => gives_wave(block, wave) && inputs.len() == 0,
        Form::Sum(weights) => {
            &&& says(block, "kind"@, "sum"@)
            &&& takes_all(block, "inputs"@, inputs)
            &&& gives_all(block, "signs"@, weights)
            &&& weights.len() == inputs.len()
        },
        Form::Gain(factor) => {
            &&& says(block, "kind"@, "gain"@)
            &&& takes_one(block, inputs)
            &&& match factor {
                Factor::Scalar(k) => gives_loosely(block, "k"@, k),
                Factor::Matrix(rows) => gives_table(block, "k"@, rows),
            }
        },
        Form::Pid { pid, clamp } => {
            &&& says(block, "kind"@, "pid"@)
            &&& gives_gains(block, pid.kp, pid.ki, pid.kd, pid.n)
            &&& gives_clamp(block, clamp, inputs)
        },
        Form::StateSpace(ss) => {
            &&& says(block, "kind"@, "statespace"@)
            &&& gives_system(block, ss)
            &&& takes_bundle(block, inputs)
        },
        Form::TransferFunction(tf) => {
            &&& says(block, "kind"@, "tf"@)
            &&& gives_ratio(block, tf)
            &&& takes_one(block, inputs)
        },
        Form::Vco(range) => {
            &&& says(block, "kind"@, "vco"@)
            &&& gives_range(block, range)
            &&& takes_one(block, inputs)
        },
        Form::Pwm { freq_hz, red, fed, output_names } => {
            &&& says(block, "kind"@, "pwm"@)
            &&& gives(block, "freq"@, freq_hz)
            &&& gives_edges(block, red, fed, output_names)
            &&& takes_one(block, inputs)
        },
        Form::PhaseShiftPwm { osc, red, fed, output_names } => {
            &&& says(block, "kind"@, "pspwm"@)
            &&& gives_range(block, osc)
            &&& gives_edges(block, red, fed, output_names)
            &&& takes_three(block, inputs)
        },
        Form::Product => says(block, "kind"@, "product"@) && takes_all(block, "inputs"@, inputs),
        Form::Saturation(limit) => {
            &&& says(block, "kind"@, "saturation"@)
            &&& gives(block, "limit"@, limit)
            &&& takes_one(block, inputs)
        },
        Form::Table(points) => {
            &&& says(block, "kind"@, "table"@)
            &&& gives_points(block, points)
            &&& takes_one(block, inputs)
        },
        Form::MathFn1(name) => says(block, "kind"@, name) && takes_one(block, inputs),
        Form::MathFn2(name) => {
            &&& says(block, "kind"@, name)
            &&& inputs.len() == 2
            &&& takes(block, "in1"@, inputs[0])
            &&& takes(block, "in2"@, inputs[1])
        },
        Form::MathFn3(name) => {
            &&& says(block, "kind"@, name)
            &&& inputs.len() == 3
            &&& takes(block, "in1"@, inputs[0])
            &&& takes(block, "in2"@, inputs[1])
            &&& takes(block, "in3"@, inputs[2])
        },
        Form::Hysteresis(band) => {
            &&& says(block, "kind"@, "hysteresis"@)
            &&& gives(block, "high"@, band.high)
            &&& gives(block, "low"@, band.low)
            &&& !band.high.below(band.low)
            &&& takes_one(block, inputs)
        },
        Form::CScript { lib, output_names, sample_time, xc_count } => {
            &&& says(block, "kind"@, "cscript"@)
            &&& says(block, "lib"@, lib)
            &&& lists(block, "outputs"@, output_names) || (is_silent(block, "outputs"@)
                && output_names == seq![block.name])
            &&& match sample_time {
                Some(period) => gives_period(block, period),
                None => is_silent(block, "ts"@) && is_silent(block, "freq"@),
            }
            &&& gives_steps(block, "xc_count"@, Some(xc_count)) || (is_silent(block, "xc_count"@)
                && xc_count == 0)
            &&& takes_bundle(block, inputs)
        },
        Form::CoordinateTransform { kind, output_names } => {
            let (word, count, second, third) = basis_words(kind);
            &&& says(block, "kind"@, word)
            &&& inputs.len() == count
            &&& takes_all(block, "inputs"@, inputs)
            &&& puts_out(
                block,
                output_names,
                seq![block.name, with_part(block.name, second), with_part(block.name, third)],
            )
        },
        Form::Pmsm { pmsm, output_names } => {
            &&& says(block, "kind"@, "pmsm"@)
            &&& gives(block, "r_s"@, pmsm.r_s)
            &&& gives(block, "l_d"@, pmsm.l_d)
            &&& gives(block, "l_q"@, pmsm.l_q)
            &&& gives(block, "lambda_pm"@, pmsm.lambda_pm)
            &&& gives(block, "pole_pairs"@, pmsm.pole_pairs)
            &&& gives(block, "inertia"@, pmsm.inertia)
            &&& gives(block, "friction"@, pmsm.friction)
            &&& takes_three(block, inputs)
            &&& puts_out(
                block,
                output_names,
                seq![
                    block.name,
                    with_part(block.name, "iq"@),
                    with_part(block.name, "omega_m"@),
                    with_part(block.name, "theta_e"@),
                ],
            )
        },
        Form::Probe(quantity) => {
            &&& says(block, "kind"@, "probe"@) || says(block, "kind"@, "phys2sig"@)
            &&& inputs.len() == 0
            &&& match quantity {
                Quantity::Voltage(node) => says(block, "node"@, node),
                Quantity::Current(branch) => says(block, "branch"@, branch),
            }
        },
        Form::Sig2Gate => says(block, "kind"@, "sig2gate"@) && takes_one(block, inputs),
        Form::Sig2Voltage => {
            &&& says(block, "kind"@, "sig2voltage"@) || (says(block, "kind"@, "sig2phys"@) && says(
                block,
                "domain"@,
                "voltage"@,
            ))
            &&& takes_one(block, inputs)
        },
        Form::Sig2Current => {
            &&& says(block, "kind"@, "sig2current"@) || (says(block, "kind"@, "sig2phys"@) && says(
                block,
                "domain"@,
                "current"@,
            ))
            &&& takes_one(block, inputs)
        },
        Form::LogicGate(op) => {
            &&& says(block, "kind"@, gate_word(op))
            &&& if op == LogicOp::Not {
                takes_one(block, inputs)
            } else {
                inputs.len() >= 2 && takes_all(block, "inputs"@, inputs)
            }
        },
        Form::SrLatch { priority } => {
            &&& says(block, "kind"@, "srlatch"@)
            &&& inputs.len() == 2
            &&& takes(block, "set"@, inputs[0])
            &&& takes(block, "reset"@, inputs[1])
            &&& match priority {
                LatchPriority::SetWins => is_silent(block, "priority"@) || says(
                    block,
                    "priority"@,
                    "set"@,
                ),
                LatchPriority::ResetWins => says(block, "priority"@, "reset"@),
            }
        },
        Form::FlipFlop { kind, reset } => takes_edges(block, kind, reset, inputs),
        Form::Counter { up_down, modulus, reset } => {
            &&& says(block, "kind"@, "counter"@)
            &&& gives_steps(block, "modulus"@, modulus)
            &&& modulus != Some(0usize)
            &&& takes_count(block, up_down, reset, inputs)
        },
        Form::DiscreteStateSpace { ss, sample_time } => {
            &&& says(block, "kind"@, "discretestatespace"@)
            &&& gives_system(block, ss)
            &&& gives_samples(block, sample_time)
            &&& takes_bundle(block, inputs)
        },
        Form::DiscreteTransferFunction { tf, sample_time } => {
            &&& says(block, "kind"@, "discretetf"@)
            &&& gives_ratio(block, tf)
            &&& gives_samples(block, sample_time)
            &&& takes_one(block, inputs)
        },
        Form::DiscretePid { pid, clamp, sample_time } => {
            &&& says(block, "kind"@, "discretepid"@)
            &&& gives_gains(block, pid.kp, pid.ki, pid.kd, pid.n)
            &&& gives_clamp(block, clamp, inputs)
            &&& gives_samples(block, sample_time)
            &&& sample_time matches SampleTimeSpec::Periodic { period, .. } && pid.period == period
            &&& says(block, "integration_method"@, method_word(pid.method)) || (is_silent(
                block,
                "integration_method"@,
            ) && pid.method == DiscreteIntegrationMethod::ForwardEuler)
        },
        _ => false,
    }
}

// Every kind of block

spec fn agrees<S: Scalar>(block: Block, r: Result<Shape<S>, Seq<char>>) -> bool {
    r matches Ok(shape) ==> is_as_written(block, shape.kind, shape.inputs)
}

proof fn lemma_schedules_agree<S: Scalar>(block: Block)
    ensures
        says(block, "kind"@, "const"@) ==> agrees(block, const_shape::<S>(block)),
        says(block, "kind"@, "pwc"@) ==> agrees(block, pwc_shape::<S>(block)),
        says(block, "kind"@, "pwl"@) ==> agrees(block, pwl_shape::<S>(block)),
        says(block, "kind"@, "table"@) ==> agrees(block, table_shape::<S>(block)),
{
    lemma_fields(block);
    lemma_numbers::<S>(block);
    lemma_lists::<S>(block);
    lemma_links(block);
    lemma_repeats(block);
}

proof fn lemma_waves_agree<S: Scalar>(block: Block)
    ensures
        says(block, "kind"@, "sinwave"@) ==> agrees(block, sinwave_shape::<S>(block)),
        says(block, "kind"@, "pulsewave"@) ==> agrees(block, pulsewave_shape::<S>(block)),
        says(block, "kind"@, "expwave"@) ==> agrees(block, expwave_shape::<S>(block)),
        says(block, "kind"@, "sffmwave"@) ==> agrees(block, sffmwave_shape::<S>(block)),
{
    lemma_fields(block);
    lemma_numbers::<S>(block);
    lemma_links(block);
}

proof fn lemma_scalings_agree<S: Scalar>(block: Block)
    ensures
        says(block, "kind"@, "gain"@) ==> agrees(block, gain_shape::<S>(block)),
        says(block, "kind"@, "product"@) ==> agrees(block, product_shape::<S>(block)),
        says(block, "kind"@, "saturation"@) ==> agrees(block, saturation_shape::<S>(block)),
        says(block, "kind"@, "hysteresis"@) ==> agrees(block, hysteresis_shape::<S>(block)),
{
    lemma_fields(block);
    lemma_numbers::<S>(block);
    lemma_lists::<S>(block);
    lemma_links(block);
}

proof fn lemma_controllers_agree<S: Scalar>(block: Block)
    ensures
        says(block, "kind"@, "pid"@) ==> agrees(block, pid_shape::<S>(block)),
{
    lemma_fields(block);
    lemma_numbers::<S>(block);
    lemma_links(block);
}

proof fn lemma_oscillators_agree<S: Scalar>(block: Block)
    ensures
        says(block, "kind"@, "vco"@) ==> agrees(block, vco_shape::<S>(block)),
        says(block, "kind"@, "pwm"@) ==> agrees(block, pwm_shape::<S>(block)),
        says(block, "kind"@, "pspwm"@) ==> agrees(block, pspwm_shape::<S>(block)),
{
    lemma_fields(block);
    lemma_numbers::<S>(block);
    lemma_links(block);
}

proof fn lemma_linear_agree<S: Scalar>(block: Block)
    ensures
        says(block, "kind"@, "statespace"@) ==> agrees(block, statespace_shape::<S>(block)),
        says(block, "kind"@, "tf"@) ==> agrees(block, tf_shape::<S>(block)),
{
    lemma_fields(block);
    lemma_numbers::<S>(block);
    lemma_lists::<S>(block);
    lemma_systems::<S>(block);
    lemma_links(block);
}

proof fn lemma_sampled_agree<S: Scalar>(block: Block)
    ensures
        says(block, "kind"@, "discretestatespace"@) ==> agrees(block, discretestatespace_shape::<S>(block)),
        says(block, "kind"@, "discretetf"@) ==> agrees(block, discretetf_shape::<S>(block)),
{
    lemma_fields(block);
    lemma_numbers::<S>(block);
    lemma_lists::<S>(block);
    lemma_systems::<S>(block);
    lemma_links(block);
    lemma_samples::<S>(block);
}

proof fn lemma_sampled_controllers_agree<S: Scalar>(block: Block)
    ensures
        says(block, "kind"@, "discretepid"@) ==> agrees(block, discretepid_shape::<S>(block)),
{
    lemma_fields(block);
    lemma_numbers::<S>(block);
    lemma_links(block);
    lemma_samples::<S>(block);
}

proof fn lemma_scripts_agree<S: Scalar>(block: Block)
    ensures
        says(block, "kind"@, "cscript"@) ==> agrees(block, cscript_shape::<S>(block)),
{
    lemma_fields(block);
    lemma_numbers::<S>(block);
    lemma_links(block);
    lemma_samples::<S>(block);
}

proof fn lemma_motors_agree<S: Scalar>(block: Block)
    ensures
        says(block, "kind"@, "pmsm"@) ==> agrees(block, pmsm_shape::<S>(block)),
{
    lemma_fields(block);
    lemma_numbers::<S>(block);
    lemma_links(block);
}

proof fn lemma_probes_agree<S: Scalar>(block: Block)
    ensures
        says(block, "kind"@, "probe"@) ==> agrees(block, probe_shape::<S>(block, "probe"@)),
        says(block, "kind"@, "phys2sig"@) ==> agrees(block, probe_shape::<S>(block, "phys2sig"@)),
        says(block, "kind"@, "sig2gate"@) ==> agrees(block, with_input::<S>(block, Form::Sig2Gate)),
        says(block, "kind"@, "sig2voltage"@) ==> agrees(block, with_input::<S>(block, Form::Sig2Voltage)),
        says(block, "kind"@, "sig2current"@) ==> agrees(block, with_input::<S>(block, Form::Sig2Current)),
        says(block, "kind"@, "sig2phys"@) ==> agrees(block, sig2phys_shape::<S>(block)),
{
    lemma_fields(block);
    lemma_numbers::<S>(block);
    lemma_links(block);
}

proof fn lemma_latches_agree<S: Scalar>(block: Block)
    ensures
        says(block, "kind"@, "srlatch"@) ==> agrees(block, srlatch_shape::<S>(block)),
        says(block, "kind"@, "counter"@) ==> agrees(block, counter_shape::<S>(block)),
{
    lemma_fields(block);
    lemma_numbers::<S>(block);
    lemma_links(block);
}

proof fn lemma_systems<S: Scalar>(block: Block)
    ensures
        linear::<S>(block) matches Ok(ss) ==> gives_system(block, ss),
        ratio::<S>(block) matches Ok(tf) ==> gives_ratio(block, tf),
{
    lemma_fields(block);
    lemma_lists::<S>(block);
    if let Ok(ss) = linear::<S>(block) {
        let a = field(block, "a"@)->0;
        let b = field(block, "b"@)->0;
        let c = field(block, "c"@)->0;
        assert(says(block, "a"@, a));
        assert(says(block, "b"@, b));
        assert(says(block, "c"@, c));
        assert(gives_table(block, "a"@, ss.a));
        if let Ok(xs) = vector::<S>(block, "b"@, b) {
            assert(gives_list(block, "b"@, xs));
            if ss.b == column(xs) {
                assert(is_column(ss.b, xs));
            }
        }
        if let Ok(xs) = vector::<S>(block, "c"@, c) {
            assert(gives_list(block, "c"@, xs));
        }
        assert(gives_table(block, "b"@, ss.b) || gives_column(block, "b"@, ss.b));
        assert(gives_table(block, "c"@, ss.c) || gives_row(block, "c"@, ss.c));
        if let Some(d) = field(block, "d"@) {
            assert(says(block, "d"@, d));
        }
    }
    if let Ok(tf) = ratio::<S>(block) {
        let num = field(block, "num"@)->0;
        let den = field(block, "den"@)->0;
        assert(says(block, "num"@, num));
        assert(says(block, "den"@, den));
    }
}

proof fn lemma_repeats(block: Block)
    ensures
        (field(block, "repeat"@) == Some("true"@)) == says(block, "repeat"@, "true"@),
{
    lemma_fields(block);
    if says(block, "repeat"@, "true"@) {
        lemma_is_said(block, "repeat"@, "true"@);
    }
}

pub proof fn lemma_is_said(block: Block, key: Seq<char>, value: Seq<char>)
    requires
        says(block, key, value),
    ensures
        field(block, key) == Some(value),
{
    lemma_fields(block);
    match field(block, key) {
        Some(other) => lemma_says_one_thing(block, key, value, other),
        None => {
            let i = choose|i: int| stands_last(block.fields, i, key, value);
            assert(block.fields[i].0 != key);
        },
    }
}

proof fn lemma_samples<S: Scalar>(block: Block)
    ensures
        sample_time::<S>(block) matches Ok(Some(period)) ==> gives_period(block, period),
        sample_time::<S>(block) matches Ok(None) ==> is_silent(block, "ts"@) && is_silent(
            block,
            "freq"@,
        ),
{
    lemma_fields(block);
    lemma_numbers::<S>(block);
    if let Ok(x) = number::<S>(block, "freq"@) {
        assert(gives(block, "freq"@, x));
    }
}

proof fn lemma_weights<S: Scalar>(block: Block, words: Seq<Seq<char>>, i: int, read: Seq<S>)
    requires
        0 <= i <= words.len(),
        read.len() == i,
        forall|j: int| 0 <= j < i ==> S::read(#[trigger] words[j]) == Some(read[j]),
    ensures
        signs_from::<S>(block, words, i, read) matches Ok(all) ==> are_read(all, words),
    decreases words.len() - i,
{
    if i < words.len() {
        match S::read(words[i]) {
            Some(x) => lemma_weights(block, words, i + 1, read.push(x)),
            None => {},
        }
    }
}

proof fn lemma_sums_agree<S: Scalar>(block: Block)
    ensures
        says(block, "kind"@, "sum"@) ==> agrees(block, sum_shape::<S>(block)),
{
    lemma_fields(block);
    lemma_links(block);
    if let Some(value) = field(block, "signs"@) {
        let words = text::split(value, ',');
        lemma_weights::<S>(block, words, 0, Seq::empty());
        assert(lists(block, "signs"@, words));
    }
}

proof fn lemma_transforms_agree<S: Scalar>(block: Block, kind: CoordinateTransform)
    ensures
        says(block, "kind"@, basis_words(kind).0) ==> agrees(
            block,
            transform_shape::<S>(block, kind),
        ),
{
    lemma_fields(block);
    lemma_links(block);
}

proof fn lemma_gates_agree<S: Scalar>(block: Block, op: LogicOp)
    ensures
        says(block, "kind"@, gate_word(op)) ==> agrees(block, logic_shape::<S>(block, op)),
{
    lemma_fields(block);
    lemma_links(block);
}

proof fn lemma_flip_flops_agree<S: Scalar>(block: Block, kind: Seq<char>)
    requires
        flip_flop_named(kind) is Some,
    ensures
        says(block, "kind"@, kind) ==> agrees(
            block,
            flip_flop_shape::<S>(block, flip_flop_named(kind)->0),
        ),
{
    lemma_fields(block);
    lemma_links(block);
}

proof fn lemma_functions_agree<S: Scalar>(block: Block, kind: Seq<char>)
    ensures
        says(block, "kind"@, kind) ==> agrees(block, function_shape::<S>(block, kind)),
{
    lemma_fields(block);
    lemma_links(block);
}

/// Every block of the signal graph is what its line says: it has the kind that the line names,
/// each parameter is the number under its name, and each input is the signal under its name.
pub proof fn law_blocks_are_as_written<S: Scalar>(block: Block)
    ensures
        declared::<S>(block) matches Ok(Declared::Block(instance)) ==> instance.name == block.name
            && is_as_written(block, instance.kind, instance.inputs),
{
    let kind = kind_of(block);
    lemma_fields(block);
    lemma_schedules_agree::<S>(block);
    lemma_waves_agree::<S>(block);
    lemma_sums_agree::<S>(block);
    lemma_scalings_agree::<S>(block);
    lemma_controllers_agree::<S>(block);
    lemma_oscillators_agree::<S>(block);
    lemma_linear_agree::<S>(block);
    lemma_sampled_agree::<S>(block);
    lemma_sampled_controllers_agree::<S>(block);
    lemma_scripts_agree::<S>(block);
    lemma_motors_agree::<S>(block);
    lemma_probes_agree::<S>(block);
    lemma_latches_agree::<S>(block);
    if let Some(transform) = transform_named(kind) {
        lemma_transforms_agree::<S>(block, transform);
    }
    if let Some(op) = logic_named(kind) {
        lemma_gates_agree::<S>(block, op);
    }
    if flip_flop_named(kind) is Some {
        lemma_flip_flops_agree::<S>(block, kind);
    }
    lemma_functions_agree::<S>(block, kind);
    if says(block, "kind"@, kind) {
        assert(agrees(block, shape::<S>(block, kind)));
    }
}

} // verus!
