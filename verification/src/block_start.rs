//! The state a block starts in: `ic=` gives it, `y0=` gives the output that it holds.

use crate::block_fields::{
    begins_list, complain, complain_of_field, complaint, field, field_complaint, get, number_in,
    opens_list, parse_vector, read_number, seen, told, vector,
};
use crate::block_graph::{
    BlockKind, DiscretePid, Form, Pid, Ratio, TransferFunction,
};
use crate::netlist::{Block, BlockInstance};
use crate::scalar;
use crate::scalar::Scalar;
use crate::text;
use vstd::prelude::*;

verus! {

/// The finite number that the text of a field denotes.
pub open spec fn finite<S: Scalar>(block: Block, key: Seq<char>, value: Seq<char>) -> Result<
    S,
    Seq<char>,
> {
    match number_in::<S>(block, key, text::trim(value)) {
        Ok(x) => if x.is_ordinary() {
            Ok(x)
        } else {
            Err(
                field_complaint(
                    block,
                    key,
                    " must be a finite number (got "@ + x.shown() + ")"@,
                ),
            )
        },
        Err(e) => Err(e),
    }
}

fn read_finite<S: Scalar>(block: &BlockInstance, key: &str, value: &str) -> (r: Result<S, String>)
    ensures
        told(r) == finite::<S>(block@, key@, value@),
{
    let x: S = match read_number(block, key, text::trimmed(value).as_str()) {
        Ok(x) => x,
        Err(e) => return Err(e),
    };
    if x.is_finite() {
        return Ok(x);
    }
    let what = text::concat3(" must be a finite number (got ", x.text().as_str(), ")");
    Err(complain_of_field(block, key, what.as_str()))
}

// State vectors

/// The numbers of a list literal, or a single number.
pub open spec fn numbers<S: Scalar>(block: Block, value: Seq<char>) -> Result<Seq<S>, Seq<char>> {
    if opens_list(value) {
        vector(block, "ic"@, value)
    } else {
        match finite::<S>(block, "ic"@, value) {
            Ok(x) => Ok(seq![x]),
            Err(e) => Err(e),
        }
    }
}

/// As many numbers as a block has states.
pub open spec fn state_vector<S: Scalar>(block: Block, value: Seq<char>, states: nat) -> Result<
    Seq<S>,
    Seq<char>,
> {
    match numbers::<S>(block, value) {
        Ok(v) => if v.len() == states {
            Ok(v)
        } else {
            Err(
                field_complaint(
                    block,
                    "ic"@,
                    " has "@ + text::decimal(v.len()) + " value(s), but this block has "@
                        + text::decimal(states) + " state(s)"@,
                ),
            )
        },
        Err(e) => Err(e),
    }
}

fn one<S: Scalar>(x: S) -> (r: Vec<S>)
    ensures
        r@ == seq![x],
{
    let mut v: Vec<S> = Vec::new();
    v.push(x);
    assert(v@ =~= seq![x]);
    v
}

fn read_state_vector<S: Scalar>(block: &BlockInstance, value: &str, states: usize) -> (r: Result<
    Vec<S>,
    String,
>)
    ensures
        seen(r) == state_vector::<S>(block@, value@, states as nat),
{
    let v: Vec<S> = if begins_list(value) {
        match parse_vector(block, "ic", value) {
            Ok(v) => v,
            Err(e) => return Err(e),
        }
    } else {
        match read_finite(block, "ic", value) {
            Ok(x) => one(x),
            Err(e) => return Err(e),
        }
    };
    if v.len() == states {
        return Ok(v);
    }
    let what = text::concat5(
        " has ",
        text::number_text(v.len()).as_str(),
        " value(s), but this block has ",
        text::number_text(states).as_str(),
        " state(s)",
    );
    Err(complain_of_field(block, "ic", what.as_str()))
}

// Settled states

/// The coefficient of the numerator that stands over the given one of the denominator, scaled
/// so that the denominator begins with one.
pub open spec fn over<S: Scalar>(tf: Ratio<S>, i: int) -> S {
    let missing = tf.den.len() - tf.num.len();
    if i < missing {
        S::nought()
    } else {
        tf.num[i - missing].quotient(tf.den[0])
    }
}

/// A coefficient of the denominator, scaled so that it begins with one.
pub open spec fn under<S: Scalar>(tf: Ratio<S>, i: int) -> S {
    if i == 0 {
        S::unit()
    } else {
        tf.den[i].quotient(tf.den[0])
    }
}

/// The coefficient that is left of the numerator once the direct feedthrough, its first
/// coefficient, is taken out.
pub open spec fn remaining<S: Scalar>(tf: Ratio<S>, i: int) -> S {
    over(tf, i).difference(over(tf, 0).product(under(tf, i)))
}

/// The sum of the last `k` remaining coefficients.
pub open spec fn remaining_total<S: Scalar>(tf: Ratio<S>, k: int) -> S
    decreases k,
{
    if k <= 0 {
        S::nought()
    } else {
        remaining_total(tf, k - 1).sum(remaining(tf, tf.den.len() - k))
    }
}

/// The sum of the last `k` coefficients of the denominator, each with its sign changed.
pub open spec fn feedback_total<S: Scalar>(tf: Ratio<S>, k: int) -> S
    decreases k,
{
    if k <= 0 {
        S::nought()
    } else {
        feedback_total(tf, k - 1).sum(under(tf, tf.den.len() - k).negation())
    }
}

/// The output in a settled state of which the first coordinate is one: the numerator at zero.
pub open spec fn resting_gain<S: Scalar>(tf: Ratio<S>) -> S {
    let last = tf.den.len() - 1;
    remaining(tf, last).sum(over(tf, 0).product(under(tf, last).negation().negation()))
}

/// The output of a sampled system in a settled state of which every coordinate is one: the
/// numerator at one.
pub open spec fn resting_gain_sampled<S: Scalar>(tf: Ratio<S>) -> S {
    let states = tf.den.len() - 1;
    remaining_total(tf, states).sum(
        over(tf, 0).product(S::unit().difference(feedback_total(tf, states))),
    )
}

/// The state in which a system holds an output: the first coordinate alone in continuous time,
/// where each coordinate is the derivative of the one before it; all coordinates alike in
/// sampled time, where each is the one before it delayed.
pub open spec fn settled<S: Scalar>(tf: Ratio<S>, sampled: bool, y0: S) -> Result<
    Seq<S>,
    Seq<char>,
> {
    if tf.den.len() <= 1 || tf.num.len() > tf.den.len() {
        Err(": this block has no state"@)
    } else {
        let states = (tf.den.len() - 1) as nat;
        let gain = if sampled {
            resting_gain_sampled(tf)
        } else {
            resting_gain(tf)
        };
        if gain.equal(S::nought()) {
            Err(": the numerator is zero at DC, so no state holds an output"@)
        } else if sampled {
            Ok(Seq::new(states, |i: int| y0.quotient(gain)))
        } else {
            Ok(
                Seq::new(
                    states,
                    |i: int|
                        if i == 0 {
                            y0.quotient(gain)
                        } else {
                            S::nought()
                        },
                ),
            )
        }
    }
}

fn compute_over<S: Scalar>(tf: &TransferFunction<S>, i: usize) -> (r: S)
    requires
        i < tf.den@.len(),
        tf.num@.len() <= tf.den@.len(),
    ensures
        r == over(tf@, i as int),
{
    let missing: usize = tf.den.len() - tf.num.len();
    if i < missing {
        S::zero()
    } else {
        tf.num[i - missing].over(tf.den[0])
    }
}

fn compute_under<S: Scalar>(tf: &TransferFunction<S>, i: usize) -> (r: S)
    requires
        i < tf.den@.len(),
    ensures
        r == under(tf@, i as int),
{
    if i == 0 {
        S::one()
    } else {
        tf.den[i].over(tf.den[0])
    }
}

fn compute_remaining<S: Scalar>(tf: &TransferFunction<S>, i: usize) -> (r: S)
    requires
        i < tf.den@.len(),
        tf.num@.len() <= tf.den@.len(),
    ensures
        r == remaining(tf@, i as int),
{
    compute_over(tf, i).minus(compute_over(tf, 0).times(compute_under(tf, i)))
}

fn compute_resting_gain<S: Scalar>(tf: &TransferFunction<S>, sampled: bool) -> (r: S)
    requires
        1 < tf.den@.len(),
        tf.num@.len() <= tf.den@.len(),
    ensures
        r == (if sampled {
            resting_gain_sampled(tf@)
        } else {
            resting_gain(tf@)
        }),
{
    let through = compute_over(tf, 0);
    let states: usize = tf.den.len() - 1;
    if !sampled {
        let back = compute_under(tf, states).negated().negated();
        return compute_remaining(tf, states).plus(through.times(back));
    }
    let mut forward = S::zero();
    let mut feedback = S::zero();
    let mut k: usize = 0;
    while k < states
        invariant
            k <= states,
            states + 1 == tf.den@.len(),
            tf.num@.len() <= tf.den@.len(),
            forward == remaining_total(tf@, k as int),
            feedback == feedback_total(tf@, k as int),
        decreases states - k,
    {
        forward = forward.plus(compute_remaining(tf, states - k));
        feedback = feedback.plus(compute_under(tf, states - k).negated());
        k = k + 1;
    }
    forward.plus(through.times(S::one().minus(feedback)))
}

fn settle<S: Scalar>(tf: &TransferFunction<S>, sampled: bool, y0: S) -> (r: Result<
    Vec<S>,
    &'static str,
>)
    ensures
        match r {
            Ok(v) => settled(tf@, sampled, y0) == Ok::<Seq<S>, Seq<char>>(v@),
            Err(what) => settled(tf@, sampled, y0) == Err::<Seq<S>, Seq<char>>(what@),
        },
{
    if tf.den.len() <= 1 || tf.num.len() > tf.den.len() {
        return Err(": this block has no state");
    }
    let states: usize = tf.den.len() - 1;
    let gain = compute_resting_gain(tf, sampled);
    if gain.same_as(S::zero()) {
        return Err(": the numerator is zero at DC, so no state holds an output");
    }
    let held = y0.over(gain);
    let mut v: Vec<S> = Vec::new();
    while v.len() < states
        invariant
            v@.len() <= states,
            forall|i: int|
                0 <= i < v@.len() ==> #[trigger] v@[i] == (if sampled || i == 0 {
                    held
                } else {
                    S::nought()
                }),
        decreases states - v@.len(),
    {
        if sampled || v.len() == 0 {
            v.push(held);
        } else {
            v.push(S::zero());
        }
    }
    proof {
        match settled(tf@, sampled, y0) {
            Ok(s) => {
                assert(v@ =~= s);
            },
            Err(_) => {},
        }
    }
    Ok(v)
}

/// The state that holds the output in the field `y0`.
pub open spec fn held<S: Scalar>(block: Block, tf: Ratio<S>, sampled: bool, value: Seq<char>) ->
    Result<Seq<S>, Seq<char>> {
    match finite::<S>(block, "y0"@, value) {
        Ok(y0) => match settled(tf, sampled, y0) {
            Ok(v) => Ok(v),
            Err(what) => Err(field_complaint(block, "y0"@, what)),
        },
        Err(e) => Err(e),
    }
}

fn hold<S: Scalar>(
    block: &BlockInstance,
    tf: &TransferFunction<S>,
    sampled: bool,
    value: &str,
) -> (r: Result<Vec<S>, String>)
    ensures
        seen(r) == held::<S>(block@, tf@, sampled, value@),
{
    let y0: S = match read_finite(block, "y0", value) {
        Ok(x) => x,
        Err(e) => return Err(e),
    };
    match settle(tf, sampled, y0) {
        Ok(v) => Ok(v),
        Err(what) => Err(complain_of_field(block, "y0", what)),
    }
}

// States of single blocks

/// A controller as a rational function, over the common denominator `s*(s + n)`.
pub open spec fn pid_ratio<S: Scalar>(pid: Pid<S>) -> Ratio<S> {
    Ratio {
        num: seq![
            pid.kp.sum(pid.kd.product(pid.n)),
            pid.kp.product(pid.n).sum(pid.ki),
            pid.ki.product(pid.n),
        ],
        den: seq![S::unit(), pid.n, S::nought()],
    }
}

/// The complaint that a controller does not integrate.
pub open spec fn no_integrator(block: Block) -> Seq<char> {
    field_complaint(block, "ic"@, ": with ki=0 there is no integrator to hold an output"@)
}

/// The state in which a controller puts out the given value at zero error.
pub open spec fn pid_state<S: Scalar>(block: Block, pid: Pid<S>, value: Seq<char>) -> Result<
    Seq<S>,
    Seq<char>,
> {
    match finite::<S>(block, "ic"@, value) {
        Ok(x) => if pid.ki.equal(S::nought()) {
            Err(no_integrator(block))
        } else {
            match settled(pid_ratio(pid), false, x) {
                Ok(v) => Ok(v),
                Err(what) => Err(field_complaint(block, "ic"@, what)),
            }
        },
        Err(e) => Err(e),
    }
}

fn pid_start<S: Scalar>(block: &BlockInstance, pid: &Pid<S>, value: &str) -> (r: Result<
    Vec<S>,
    String,
>)
    ensures
        seen(r) == pid_state::<S>(block@, *pid, value@),
{
    let x: S = match read_finite(block, "ic", value) {
        Ok(x) => x,
        Err(e) => return Err(e),
    };
    if pid.ki.same_as(S::zero()) {
        return Err(
            complain_of_field(block, "ic", ": with ki=0 there is no integrator to hold an output"),
        );
    }
    let mut num: Vec<S> = Vec::new();
    num.push(pid.kp.plus(pid.kd.times(pid.n)));
    num.push(pid.kp.times(pid.n).plus(pid.ki));
    num.push(pid.ki.times(pid.n));
    let mut den: Vec<S> = Vec::new();
    den.push(S::one());
    den.push(pid.n);
    den.push(S::zero());
    let tf = TransferFunction { num, den };
    proof {
        assert(tf@.num =~= pid_ratio(*pid).num);
        assert(tf@.den =~= pid_ratio(*pid).den);
    }
    match settle(&tf, false, x) {
        Ok(v) => Ok(v),
        Err(what) => Err(complain_of_field(block, "ic", what)),
    }
}

/// The accumulated error with which a sampled controller puts out the given value at zero
/// error.
pub open spec fn sampled_pid_state<S: Scalar>(
    block: Block,
    pid: DiscretePid<S>,
    value: Seq<char>,
) -> Result<Seq<S>, Seq<char>> {
    match finite::<S>(block, "ic"@, value) {
        Ok(x) => if pid.ki.equal(S::nought()) {
            Err(no_integrator(block))
        } else {
            Ok(seq![x.quotient(pid.ki)])
        },
        Err(e) => Err(e),
    }
}

fn sampled_pid_start<S: Scalar>(block: &BlockInstance, pid: &DiscretePid<S>, value: &str) -> (r:
    Result<Vec<S>, String>)
    ensures
        seen(r) == sampled_pid_state::<S>(block@, *pid, value@),
{
    let x: S = match read_finite(block, "ic", value) {
        Ok(x) => x,
        Err(e) => return Err(e),
    };
    if pid.ki.same_as(S::zero()) {
        return Err(
            complain_of_field(block, "ic", ": with ki=0 there is no integrator to hold an output"),
        );
    }
    Ok(one(x.over(pid.ki)))
}

/// A phase: at least zero and less than one.
pub open spec fn phase_state<S: Scalar>(block: Block, value: Seq<char>) -> Result<
    Seq<S>,
    Seq<char>,
> {
    match finite::<S>(block, "ic"@, value) {
        Ok(x) => if scalar::at_most(S::nought(), x) && x.below(S::unit()) {
            Ok(seq![x])
        } else {
            Err(
                field_complaint(
                    block,
                    "ic"@,
                    " must satisfy 0 <= ic < 1 (got "@ + x.shown() + ")"@,
                ),
            )
        },
        Err(e) => Err(e),
    }
}

fn phase_start<S: Scalar>(block: &BlockInstance, value: &str) -> (r: Result<Vec<S>, String>)
    ensures
        seen(r) == phase_state::<S>(block@, value@),
{
    let x: S = match read_finite(block, "ic", value) {
        Ok(x) => x,
        Err(e) => return Err(e),
    };
    if scalar::is_at_most(S::zero(), x) && x.less_than(S::one()) {
        return Ok(one(x));
    }
    let what = text::concat3(" must satisfy 0 <= ic < 1 (got ", x.text().as_str(), ")");
    Err(complain_of_field(block, "ic", what.as_str()))
}

/// A truth value: zero or one.
pub open spec fn bit_state<S: Scalar>(block: Block, value: Seq<char>) -> Result<Seq<S>, Seq<char>> {
    match S::read(text::trim(value)) {
        Some(x) => if x.equal(S::nought()) || x.equal(S::unit()) {
            Ok(seq![x])
        } else {
            Err(not_a_bit(block, value))
        },
        None => Err(not_a_bit(block, value)),
    }
}

/// The complaint that a value is neither zero nor one.
pub open spec fn not_a_bit(block: Block, value: Seq<char>) -> Seq<char> {
    field_complaint(block, "ic"@, " must be 0 or 1 (got '"@ + value + "')"@)
}

fn bit_start<S: Scalar>(block: &BlockInstance, value: &str) -> (r: Result<Vec<S>, String>)
    ensures
        seen(r) == bit_state::<S>(block@, value@),
{
    if let Some(x) = S::parse(text::trimmed(value).as_str()) {
        if x.same_as(S::zero()) || x.same_as(S::one()) {
            return Ok(one(x));
        }
    }
    let what = text::concat3(" must be 0 or 1 (got '", value, "')");
    Err(complain_of_field(block, "ic", what.as_str()))
}

/// A count: an integer, and where there is a modulus at least zero and less than it.
pub open spec fn count_state<S: Scalar>(
    block: Block,
    modulus: Option<usize>,
    value: Seq<char>,
) -> Result<Seq<S>, Seq<char>> {
    match finite::<S>(block, "ic"@, value) {
        Ok(x) => if !x.remainder(S::unit()).equal(S::nought()) {
            Err(field_complaint(block, "ic"@, " is not an integer (got "@ + x.shown() + ")"@))
        } else {
            match modulus {
                Some(m) => if scalar::at_most(S::nought(), x) && x.below(S::of_count(m as nat)) {
                    Ok(seq![x])
                } else {
                    Err(
                        field_complaint(
                            block,
                            "ic"@,
                            " must satisfy 0 <= ic < modulus ("@ + text::decimal(m as nat)
                                + ") (got "@ + x.shown() + ")"@,
                        ),
                    )
                },
                None => Ok(seq![x]),
            }
        },
        Err(e) => Err(e),
    }
}

fn count_start<S: Scalar>(block: &BlockInstance, modulus: Option<usize>, value: &str) -> (r: Result<
    Vec<S>,
    String,
>)
    ensures
        seen(r) == count_state::<S>(block@, modulus, value@),
{
    let x: S = match read_finite(block, "ic", value) {
        Ok(x) => x,
        Err(e) => return Err(e),
    };
    if !x.modulo(S::one()).same_as(S::zero()) {
        let what = text::concat3(" is not an integer (got ", x.text().as_str(), ")");
        return Err(complain_of_field(block, "ic", what.as_str()));
    }
    if let Some(m) = modulus {
        if !(scalar::is_at_most(S::zero(), x) && x.less_than(S::from_count(m))) {
            let what = text::concat5(
                " must satisfy 0 <= ic < modulus (",
                text::number_text(m).as_str(),
                ") (got ",
                x.text().as_str(),
                ")",
            );
            return Err(complain_of_field(block, "ic", what.as_str()));
        }
    }
    Ok(one(x))
}

// All blocks

/// The state in the field `ic`, as the kind of block understands it.
pub open spec fn given_state<S: Scalar>(block: Block, kind: Form<S>, value: Seq<char>) -> Result<
    Seq<S>,
    Seq<char>,
> {
    match kind {
        Form::StateSpace(ss) => state_vector(block, value, ss.a.len()),
        Form::DiscreteStateSpace { ss, .. } => state_vector(block, value, ss.a.len()),
        Form::TransferFunction(tf) => state_vector(block, value, states_of(tf)),
        Form::DiscreteTransferFunction { tf, .. } => state_vector(block, value, states_of(tf)),
        Form::Pmsm { .. } => state_vector(block, value, 4),
        Form::Pid { pid, .. } => pid_state(block, pid, value),
        Form::DiscretePid { pid, .. } => sampled_pid_state(block, pid, value),
        Form::Vco(_) => phase_state(block, value),
        Form::PhaseShiftPwm { .. } => phase_state(block, value),
        Form::Hysteresis(_) => bit_state(block, value),
        Form::SrLatch { .. } => bit_state(block, value),
        Form::FlipFlop { .. } => bit_state(block, value),
        Form::Counter { modulus, .. } => count_state(block, modulus, value),
        _ => Err(field_complaint(block, "ic"@, ": this kind has no state"@)),
    }
}

/// The number of states of a rational function.
pub open spec fn states_of<S>(tf: Ratio<S>) -> nat {
    if tf.den.len() == 0 {
        0
    } else {
        (tf.den.len() - 1) as nat
    }
}

/// The state that holds the output in the field `y0`, for the kinds that understand it.
pub open spec fn output_state<S: Scalar>(block: Block, kind: Form<S>, value: Seq<char>) -> Result<
    Seq<S>,
    Seq<char>,
> {
    match kind {
        Form::TransferFunction(tf) => held(block, tf, false, value),
        Form::DiscreteTransferFunction { tf, .. } => held(block, tf, true, value),
        _ => Err(
            field_complaint(block, "y0"@, ": only valid on kind=tf/kind=discretetf"@),
        ),
    }
}

/// The state a block starts in, where it says so.
pub open spec fn starting_state<S: Scalar>(block: Block, kind: Form<S>) -> Result<
    Option<Seq<S>>,
    Seq<char>,
> {
    match field(block, "ic"@) {
        Some(value) => if field(block, "y0"@) is Some {
            Err(
                complaint(
                    block,
                    ": 'ic' and 'y0' both set the state this block starts in -- give one or the other"@,
                ),
            )
        } else {
            match given_state(block, kind, value) {
                Ok(v) => Ok(Some(v)),
                Err(e) => Err(e),
            }
        },
        None => match field(block, "y0"@) {
            Some(value) => match output_state(block, kind, value) {
                Ok(v) => Ok(Some(v)),
                Err(e) => Err(e),
            },
            None => Ok(None),
        },
    }
}

fn count_states<S: Scalar>(tf: &TransferFunction<S>) -> (r: usize)
    ensures
        r == states_of(tf@),
{
    if tf.den.len() == 0 {
        0
    } else {
        tf.den.len() - 1
    }
}

fn give_state<S: Scalar>(block: &BlockInstance, kind: &BlockKind<S>, value: &str) -> (r: Result<
    Vec<S>,
    String,
>)
    ensures
        seen(r) == given_state::<S>(block@, kind@, value@),
{
    match kind {
        BlockKind::StateSpace(ss) => read_state_vector(block, value, ss.a.len()),
        BlockKind::DiscreteStateSpace { ss, .. } => read_state_vector(block, value, ss.a.len()),
        BlockKind::TransferFunction(tf) => read_state_vector(block, value, count_states(tf)),
        BlockKind::DiscreteTransferFunction { tf, .. } => {
            read_state_vector(block, value, count_states(tf))
        },
        BlockKind::Pmsm { .. } => read_state_vector(block, value, 4),
        BlockKind::Pid { pid, .. } => pid_start(block, pid, value),
        BlockKind::DiscretePid { pid, .. } => sampled_pid_start(block, pid, value),
        BlockKind::Vco(_) => phase_start(block, value),
        BlockKind::PhaseShiftPwm { .. } => phase_start(block, value),
        BlockKind::Hysteresis(_) => bit_start(block, value),
        BlockKind::SrLatch { .. } => bit_start(block, value),
        BlockKind::FlipFlop { .. } => bit_start(block, value),
        BlockKind::Counter { modulus, .. } => count_start(block, *modulus, value),
        _ => Err(complain_of_field(block, "ic", ": this kind has no state")),
    }
}

/// The state a block starts in.
pub fn get_starting_state<S: Scalar>(block: &BlockInstance, kind: &BlockKind<S>) -> (r: Result<
    Option<Vec<S>>,
    String,
>)
    ensures
        seen_start(r) == starting_state::<S>(block@, kind@),
{
    match get(block, "ic") {
        Some(value) => {
            if get(block, "y0").is_some() {
                return Err(
                    complain(
                        block,
                        ": 'ic' and 'y0' both set the state this block starts in -- give one or the other",
                    ),
                );
            }
            match give_state(block, kind, value) {
                Ok(v) => Ok(Some(v)),
                Err(e) => Err(e),
            }
        },
        None => match get(block, "y0") {
            Some(value) => {
                let r = match kind {
                    BlockKind::TransferFunction(tf) => hold(block, tf, false, value),
                    BlockKind::DiscreteTransferFunction { tf, .. } => hold(block, tf, true, value),
                    _ => Err(
                        complain_of_field(
                            block,
                            "y0",
                            ": only valid on kind=tf/kind=discretetf",
                        ),
                    ),
                };
                match r {
                    Ok(v) => Ok(Some(v)),
                    Err(e) => Err(e),
                }
            },
            None => Ok(None),
        },
    }
}

/// What a starting state is seen as, or the message.
pub open spec fn seen_start<S>(r: Result<Option<Vec<S>>, String>) -> Result<
    Option<Seq<S>>,
    Seq<char>,
> {
    match r {
        Ok(Some(v)) => Ok(Some(v@)),
        Ok(None) => Ok(None),
        Err(message) => Err(message@),
    }
}

} // verus!
