//! The states that blocks start in: given as they are, or by the output that they hold.

use crate::block_fields::field;
use crate::block_graph::{Form, Instance, Pid, Ratio};
use crate::block_kinds::{declared, Declared};
use crate::block_laws::{
    law_resting_gain_is_numerator_at_zero, law_sampled_resting_gain_is_numerator_at_one,
    law_settled_state_holds_output, over_total,
};
use crate::block_start::{over, pid_ratio, resting_gain, settled, starting_state};
use crate::field::{
    exact, lemma_distributes, lemma_equal, lemma_one_is_not_zero, lemma_product_associates,
    lemma_product_commutes, lemma_product_one, lemma_product_zero, lemma_quotient, lemma_sum_zero,
};
use crate::list_laws::lemma_lists;
use crate::netlist::Block;
use crate::parameter_laws::{
    gives_list, gives_loosely, is_silent, lemma_fields, lemma_is_said, says, stands_last,
};
use crate::scalar::Scalar;
use crate::text;
use vstd::prelude::*;

verus! {

/// The line declares a block of the signal graph.
pub open spec fn declares<S: Scalar>(block: Block, instance: Instance<S>) -> bool {
    declared::<S>(block) == Ok::<Declared<S>, Seq<char>>(Declared::Block(instance))
}

/// The sum of the last `k` numbers of a list.
pub open spec fn sum_of_last<S: Scalar>(xs: Seq<S>, k: int) -> S
    decreases k,
{
    if k <= 0 {
        S::nought()
    } else {
        sum_of_last(xs, k - 1).sum(xs[xs.len() - k])
    }
}

/// The number of states of a kind of block that takes a state as a list, if it is one.
pub open spec fn listed_states<S>(kind: Form<S>) -> Option<int> {
    match kind {
        Form::StateSpace(ss) => Some(ss.a.len() as int),
        Form::DiscreteStateSpace { ss, .. } => Some(ss.a.len() as int),
        Form::TransferFunction(tf) => Some(tf.den.len() - 1),
        Form::DiscreteTransferFunction { tf, .. } => Some(tf.den.len() - 1),
        Form::Pmsm { .. } => Some(4),
        _ => None,
    }
}

/// A block of which the line says nothing starts from rest, and otherwise it says one thing:
/// a state or an output.
pub proof fn law_silent_blocks_start_from_rest<S: Scalar>(block: Block, instance: Instance<S>)
    requires
        declares(block, instance),
    ensures
        instance.ic is None <==> is_silent(block, "ic"@) && is_silent(block, "y0"@),
        is_silent(block, "ic"@) || is_silent(block, "y0"@),
{
    lemma_fields(block);
    lemma_never_both(block, "ic"@);
    lemma_never_both(block, "y0"@);
}

proof fn lemma_never_both(block: Block, key: Seq<char>)
    ensures
        field(block, key) is Some <==> !is_silent(block, key),
{
    lemma_fields(block);
    if let Some(value) = field(block, key) {
        let i = choose|i: int|
            stands_last(block.fields, i, key, value);
        assert(block.fields[i].0 == key);
    }
}

/// A system of equations starts in the state that its line gives, one finite number for each of
/// its states.
pub proof fn law_state_is_the_given_list<S: Scalar>(block: Block, instance: Instance<S>)
    requires
        declares(block, instance),
        !is_silent(block, "ic"@),
    ensures
        listed_states(instance.kind) matches Some(count) ==> (instance.ic matches Some(state)
            && state.len() == (if count < 0 {
            0
        } else {
            count
        }) && (gives_list(block, "ic"@, state) || (state.len() == 1 && gives_loosely(
            block,
            "ic"@,
            state[0],
        ) && state[0].is_ordinary()))),
{
    lemma_fields(block);
    lemma_never_both(block, "ic"@);
    lemma_lists::<S>(block);
    let value = field(block, "ic"@)->0;
    assert(says(block, "ic"@, value));
}

/// An oscillator starts at a phase from zero up to, but not at, one; a comparator, a latch and a
/// flip-flop at zero or one; and a counter at a whole number, which is below the modulus and
/// not negative where there is a modulus.
pub proof fn law_state_is_the_given_number<S: Scalar>(block: Block, instance: Instance<S>)
    requires
        declares(block, instance),
        !is_silent(block, "ic"@),
    ensures
        match instance.kind {
            Form::Vco(_) | Form::PhaseShiftPwm { .. } => instance.ic matches Some(state)
                && state.len() == 1 && gives_loosely(block, "ic"@, state[0]) && (
            S::nought().below(state[0]) || S::nought().equal(state[0])) && state[0].below(
                S::unit(),
            ),
            Form::Hysteresis(_) | Form::SrLatch { .. } | Form::FlipFlop { .. } => instance.ic
                matches Some(state) && state.len() == 1 && gives_loosely(block, "ic"@, state[0])
                && (state[0].equal(S::nought()) || state[0].equal(S::unit())),
            Form::Counter { modulus, .. } => instance.ic matches Some(state) && state.len() == 1
                && gives_loosely(block, "ic"@, state[0]) && state[0].remainder(S::unit()).equal(
                S::nought(),
            ) && (modulus matches Some(m) ==> (S::nought().below(state[0]) || S::nought().equal(
                state[0],
            )) && state[0].below(S::of_count(m as nat))),
            _ => true,
        },
{
    lemma_fields(block);
    lemma_never_both(block, "ic"@);
    let value = field(block, "ic"@)->0;
    assert(says(block, "ic"@, value));
}

proof fn lemma_over_one<S: Scalar>(a: S)
    requires
        exact::<S>(),
    ensures
        a.quotient(S::unit()) == a,
{
    lemma_one_is_not_zero::<S>();
    lemma_quotient(a, S::unit());
    lemma_product_one(a.quotient(S::unit()));
}

proof fn lemma_controller_state<S: Scalar>(pid: Pid<S>, x: S)
    requires
        exact::<S>(),
    ensures
        settled(pid_ratio(pid), false, x) matches Ok(state) ==> state.len() == 2
            && state[0].product(pid.ki.product(pid.n)) == x && state[1] == S::nought(),
{
    let tf = pid_ratio(pid);
    law_settled_state_holds_output(tf, false, x);
    law_resting_gain_is_numerator_at_zero(tf);
    lemma_over_one(pid.ki.product(pid.n));
    assert(over(tf, 2) == tf.num[2].quotient(tf.den[0]));
}

proof fn lemma_starting_state<S: Scalar>(block: Block, instance: Instance<S>)
    requires
        declares(block, instance),
    ensures
        starting_state(block, instance.kind) == Ok::<Option<Seq<S>>, Seq<char>>(instance.ic),
{
}

/// A controller starts with the output that its line gives at zero error: the integral gain
/// times what it has integrated is that output. The state of a continuous controller is that
/// of its rational function, in which the first coordinate is scaled by the filter coefficient
/// too, and the second is at rest.
pub proof fn law_controller_starts_with_its_output<S: Scalar>(
    block: Block,
    instance: Instance<S>,
    x: S,
)
    requires
        exact::<S>(),
        declares(block, instance),
        gives_loosely(block, "ic"@, x),
    ensures
        match instance.kind {
            Form::Pid { pid, .. } => instance.ic matches Some(state) && pid.ki != S::nought()
                && state.len() == 2 && state[0].product(pid.ki.product(pid.n)) == x && state[1]
                == S::nought(),
            Form::DiscretePid { pid, .. } => instance.ic matches Some(state) && pid.ki
                != S::nought() && state.len() == 1 && state[0].product(pid.ki) == x,
            _ => true,
        },
{
    lemma_fields(block);
    let said = choose|value: Seq<char>| #[trigger]
        says(block, "ic"@, value) && S::read(text::trim(value)) == Some(x);
    lemma_is_said(block, "ic"@, said);
    lemma_starting_state(block, instance);
    match instance.kind {
        Form::Pid { pid, .. } => {
            lemma_equal(pid.ki, S::nought());
            lemma_controller_state(pid, x);
        },
        Form::DiscretePid { pid, .. } => {
            lemma_equal(pid.ki, S::nought());
            if pid.ki != S::nought() {
                lemma_quotient(x, pid.ki);
            }
        },
        _ => {},
    }
}

proof fn lemma_sum_of_numerator<S: Scalar>(tf: Ratio<S>, k: int)
    requires
        exact::<S>(),
        tf.den.len() > 0,
        tf.den[0] != S::nought(),
        tf.num.len() <= tf.den.len(),
        0 <= k <= tf.den.len(),
    ensures
        over_total(tf, k).product(tf.den[0]) == sum_of_last(
            tf.num,
            if k <= tf.num.len() {
                k
            } else {
                tf.num.len() as int
            },
        ),
    decreases k,
{
    let d = tf.den[0];
    if k == 0 {
        lemma_product_zero(d);
        lemma_product_commutes(S::nought(), d);
    } else {
        lemma_sum_of_numerator(tf, k - 1);
        let i = tf.den.len() - k;
        let before = over_total(tf, k - 1);
        let x = over(tf, i);
        lemma_product_commutes(before.sum(x), d);
        lemma_distributes(d, before, x);
        lemma_product_commutes(d, before);
        lemma_product_commutes(d, x);
        if k <= tf.num.len() {
            lemma_quotient(tf.num[tf.num.len() - k], d);
        } else {
            lemma_product_zero(d);
            lemma_sum_zero(before.product(d));
        }
    }
}

proof fn lemma_held<S: Scalar>(tf: Ratio<S>, y0: S)
    requires
        exact::<S>(),
    ensures
        settled(tf, false, y0) matches Ok(state) ==> {
            &&& state.len() == tf.den.len() - 1
            &&& state.len() > 0
            &&& tf.num.len() > 0
            &&& tf.den[0] != S::nought() ==> state[0].product(tf.num.last()) == y0.product(
                tf.den[0],
            )
            &&& forall|i: int| 0 < i < state.len() ==> #[trigger] state[i] == S::nought()
        },
{
    if let Ok(state) = settled(tf, false, y0) {
        law_settled_state_holds_output(tf, false, y0);
        law_resting_gain_is_numerator_at_zero(tf);
        lemma_equal(resting_gain(tf), S::nought());
        let last = tf.den.len() - 1;
        let d = tf.den[0];
        if d != S::nought() && tf.num.len() > 0 {
            let top = tf.num.last();
            assert(over(tf, last) == top.quotient(d));
            lemma_quotient(top, d);
            lemma_product_associates(state[0], top.quotient(d), d);
        }
    }
}

proof fn lemma_held_in_samples<S: Scalar>(tf: Ratio<S>, y0: S)
    requires
        exact::<S>(),
    ensures
        settled(tf, true, y0) matches Ok(state) ==> {
            &&& state.len() == tf.den.len() - 1
            &&& state.len() > 0
            &&& tf.den[0] != S::nought() ==> state[0].product(
                sum_of_last(tf.num, tf.num.len() as int),
            ) == y0.product(tf.den[0])
            &&& forall|i: int| 0 < i < state.len() ==> #[trigger] state[i] == state[0]
        },
{
    if let Ok(state) = settled(tf, true, y0) {
        law_settled_state_holds_output(tf, true, y0);
        law_sampled_resting_gain_is_numerator_at_one(tf);
        let d = tf.den[0];
        if d != S::nought() {
            lemma_sum_of_numerator(tf, tf.den.len() as int);
            lemma_product_associates(state[0], over_total(tf, tf.den.len() as int), d);
        }
    }
}

/// A transfer function starts in the state that holds the output its line gives. In continuous
/// time only the first coordinate is not at rest, and times the numerator at zero it is the
/// output times the leading coefficient of the denominator. In sampled time all coordinates are
/// alike, and the numerator is taken at one.
pub proof fn law_transfer_function_holds_its_output<S: Scalar>(
    block: Block,
    instance: Instance<S>,
    y0: S,
)
    requires
        exact::<S>(),
        declares(block, instance),
        gives_loosely(block, "y0"@, y0),
    ensures
        match instance.kind {
            Form::TransferFunction(tf) => instance.ic matches Some(state) && state.len()
                == tf.den.len() - 1 && state.len() > 0 && tf.num.len() > 0 && (tf.den[0]
                != S::nought() ==> state[0].product(tf.num.last()) == y0.product(tf.den[0])) && (
            forall|i: int| 0 < i < state.len() ==> #[trigger] state[i] == S::nought()),
            Form::DiscreteTransferFunction { tf, .. } => instance.ic matches Some(state)
                && state.len() == tf.den.len() - 1 && state.len() > 0 && (tf.den[0]
                != S::nought() ==> state[0].product(sum_of_last(tf.num, tf.num.len() as int))
                == y0.product(tf.den[0])) && (forall|i: int|
                0 < i < state.len() ==> #[trigger] state[i] == state[0]),
            _ => false,
        },
{
    lemma_starting_state(block, instance);
    law_silent_blocks_start_from_rest(block, instance);
    lemma_never_both(block, "ic"@);
    lemma_never_both(block, "y0"@);
    let said = choose|value: Seq<char>| #[trigger]
        says(block, "y0"@, value) && S::read(text::trim(value)) == Some(y0);
    lemma_is_said(block, "y0"@, said);
    match instance.kind {
        Form::TransferFunction(tf) => lemma_held(tf, y0),
        Form::DiscreteTransferFunction { tf, .. } => lemma_held_in_samples(tf, y0),
        _ => {},
    }
}

} // verus!
