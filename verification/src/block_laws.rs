//! What holds of every block: how many inputs and outputs it has and, apart from rounding, the
//! states it starts in.

use crate::block_fields::{field, required_links};
use crate::block_graph::{CoordinateTransform, FlipFlopKind, Form, LogicOp, PidClamp, Ratio};
use crate::block_kinds::{declared, kind_of, shape, Declared};
use crate::block_start::{
    feedback_total, over, remaining_total, resting_gain, resting_gain_sampled, settled, under,
};
use crate::dynamic_blocks::{
    bundle, cscript_shape, discretepid_shape, discretestatespace_shape, discretetf_shape,
    hysteresis_shape, pid_shape, pmsm_shape, pspwm_shape, pwm_shape, statespace_shape, tf_shape,
    vco_shape,
};
use crate::field::{
    exact, lemma_difference, lemma_distributes, lemma_equal, lemma_exchange, lemma_negation,
    lemma_negation_of_product, lemma_negation_twice, lemma_product_one, lemma_product_zero,
    lemma_quotient, lemma_sum_associates, lemma_sum_commutes, lemma_sum_zero,
};
use crate::interface_blocks::{
    counter_shape, flip_flop_named, flip_flop_shape, logic_named, logic_shape, probe_shape,
    sig2phys_shape, srlatch_shape, transform_inputs, transform_named, transform_shape,
};
use crate::netlist::Block;
use crate::scalar::Scalar;
use crate::static_blocks::{
    const_shape, expwave_shape, function_shape, gain_shape, product_shape, pulsewave_shape,
    pwc_shape, pwl_shape, saturation_shape, sffmwave_shape, sinwave_shape, sum_shape, table_shape,
    with_input, Shape,
};
use crate::text;
use vstd::prelude::*;

verus! {

/// The sum of the last `k` coefficients of the numerator.
pub open spec fn over_total<S: Scalar>(tf: Ratio<S>, k: int) -> S
    decreases k,
{
    if k <= 0 {
        S::nought()
    } else {
        over_total(tf, k - 1).sum(over(tf, tf.den.len() - k))
    }
}

/// `(x - d*y) + d*y == x`.
proof fn lemma_put_back<S: Scalar>(x: S, d: S, y: S)
    requires
        exact::<S>(),
    ensures
        x.difference(d.product(y)).sum(d.product(y)) == x,
{
    let p = d.product(y);
    lemma_difference(x, p);
    lemma_sum_associates(x, p.negation(), p);
    lemma_negation(p);
    lemma_sum_zero(x);
}

/// The output in a settled state of which the first coordinate is one is the last coefficient
/// of the numerator: the numerator at zero.
pub proof fn law_resting_gain_is_numerator_at_zero<S: Scalar>(tf: Ratio<S>)
    requires
        exact::<S>(),
        tf.den.len() > 1,
    ensures
        resting_gain(tf) == over(tf, tf.den.len() - 1),
{
    let last = tf.den.len() - 1;
    lemma_negation_twice(under(tf, last));
    lemma_put_back(over(tf, last), over(tf, 0), under(tf, last));
}

/// `remaining_total == over_total - d * under_total`, where `feedback_total` is `-under_total`.
proof fn lemma_totals<S: Scalar>(tf: Ratio<S>, k: int)
    requires
        exact::<S>(),
        0 <= k < tf.den.len(),
    ensures
        remaining_total(tf, k) == over_total(tf, k).sum(
            over(tf, 0).product(feedback_total(tf, k)),
        ),
    decreases k,
{
    let d = over(tf, 0);
    if k == 0 {
        lemma_product_zero(d);
        lemma_sum_zero(S::nought());
    } else {
        lemma_totals(tf, k - 1);
        let i = tf.den.len() - k;
        let (x, y) = (over(tf, i), under(tf, i));
        lemma_difference(x, d.product(y));
        lemma_negation_of_product(d, y);
        lemma_distributes(d, feedback_total(tf, k - 1), y.negation());
        lemma_exchange(
            over_total(tf, k - 1),
            d.product(feedback_total(tf, k - 1)),
            x,
            d.product(y.negation()),
        );
    }
}

/// The output of a sampled system in a settled state of which every coordinate is one is the
/// sum of the numerator's coefficients: the numerator at one.
pub proof fn law_sampled_resting_gain_is_numerator_at_one<S: Scalar>(tf: Ratio<S>)
    requires
        exact::<S>(),
        tf.den.len() > 1,
    ensures
        resting_gain_sampled(tf) == over_total(tf, tf.den.len() as int),
{
    let n = tf.den.len() - 1;
    let d = over(tf, 0);
    let f = feedback_total(tf, n);
    lemma_totals(tf, n);
    lemma_difference(S::unit(), f);
    lemma_distributes(d, S::unit(), f.negation());
    lemma_product_one(d);
    lemma_negation_of_product(d, f);
    let (t, p) = (over_total(tf, n), d.product(f));
    lemma_sum_associates(t, p, d.sum(p.negation()));
    lemma_sum_commutes(d, p.negation());
    lemma_sum_associates(p, p.negation(), d);
    lemma_negation(p);
    lemma_sum_zero(d);
}

/// A settled state holds the output that is asked for: its first coordinate, times the output
/// of the settled state of which that coordinate is one, is the output.
pub proof fn law_settled_state_holds_output<S: Scalar>(tf: Ratio<S>, sampled: bool, y0: S)
    requires
        exact::<S>(),
    ensures
        settled(tf, sampled, y0) matches Ok(state) ==> {
            &&& state.len() == tf.den.len() - 1
            &&& state[0].product(
                if sampled {
                    resting_gain_sampled(tf)
                } else {
                    resting_gain(tf)
                },
            ) == y0
            &&& forall|i: int|
                0 < i < state.len() ==> #[trigger] state[i] == (if sampled {
                    state[0]
                } else {
                    S::nought()
                })
        },
{
    let gain = if sampled {
        resting_gain_sampled(tf)
    } else {
        resting_gain(tf)
    };
    lemma_equal(gain, S::nought());
    if gain != S::nought() {
        lemma_quotient(y0, gain);
    }
}

// Inputs and outputs

/// A block has as many inputs and outputs as its kind takes and gives: none for a source, one
/// per weight for a sum, one more than its bounds for a controller, and so on.
pub open spec fn fitting<S: Scalar>(kind: Form<S>, inputs: nat) -> bool {
    match kind {
        Form::Const(_) => inputs == 0,
        Form::Time => inputs == 0,
        Form::Pwc { .. } => inputs == 0,
        Form::Pwl { .. } => inputs == 0,
        Form::Waveform(_) => inputs == 0,
        Form::Probe(_) => inputs == 0,
        Form::Sum(signs) => inputs == signs.len(),
        Form::Product => inputs >= 1,
        Form::Pid { clamp, .. } => inputs == clamped_inputs(clamp),
        Form::DiscretePid { clamp, .. } => inputs == clamped_inputs(clamp),
        Form::StateSpace(_) => inputs >= 1,
        Form::DiscreteStateSpace { .. } => inputs >= 1,
        Form::MathFn2(_) => inputs == 2,
        Form::MathFn3(_) => inputs == 3,
        Form::Pwm { output_names, .. } => inputs == 1 && output_names.len() == 2,
        Form::PhaseShiftPwm { output_names, .. } => inputs == 3 && output_names.len() == 2,
        Form::CScript { output_names, .. } => inputs >= 1 && output_names.len() >= 1,
        Form::CoordinateTransform { kind, output_names } => inputs == transform_inputs(kind)
            && output_names.len() == 3,
        Form::Pmsm { output_names, .. } => inputs == 3 && output_names.len() == 4,
        Form::LogicGate(op) => if op == LogicOp::Not {
            inputs == 1
        } else {
            inputs >= 2
        },
        Form::SrLatch { .. } => inputs == 2,
        Form::FlipFlop { kind, reset } => inputs == (if kind == FlipFlopKind::Jk {
            3nat
        } else {
            2nat
        }) + present(reset),
        Form::Counter { up_down, reset, .. } => inputs == 1 + present(up_down) + present(reset),
        Form::PyBlock { .. } => false,
        Form::PyFunction { .. } => false,
        _ => inputs == 1,
    }
}

/// One for what is there, none for what is not.
pub open spec fn present(there: bool) -> nat {
    if there {
        1
    } else {
        0
    }
}

/// The inputs of a controller: its error, and its bounds where they are signals.
pub open spec fn clamped_inputs<S>(clamp: PidClamp<S>) -> nat {
    match clamp {
        PidClamp::Fixed(_, _) => 1,
        PidClamp::Dynamic => 3,
    }
}

proof fn lemma_split_is_inhabited(s: Seq<char>)
    ensures
        text::split(s, ',').len() >= 1,
{
}

proof fn lemma_required_links(block: Block)
    ensures
        required_links(block, "inputs"@) matches Ok(inputs) ==> inputs.len() >= 1,
        bundle(block) matches Ok(inputs) ==> inputs.len() >= 1,
{
    if let Some(value) = field(block, "inputs"@) {
        lemma_split_is_inhabited(value);
    }
}

spec fn fits<S: Scalar>(r: Result<Shape<S>, Seq<char>>) -> bool {
    r matches Ok(shape) ==> fitting(shape.kind, shape.inputs.len())
}

proof fn lemma_sources_fit<S: Scalar>(block: Block)
    ensures
        fits(const_shape::<S>(block)),
        fits(pwc_shape::<S>(block)),
        fits(pwl_shape::<S>(block)),
        fits(sinwave_shape::<S>(block)),
        fits(pulsewave_shape::<S>(block)),
        fits(expwave_shape::<S>(block)),
        fits(sffmwave_shape::<S>(block)),
{
}

proof fn lemma_static_blocks_fit<S: Scalar>(block: Block, kind: Seq<char>)
    ensures
        fits(sum_shape::<S>(block)),
        fits(gain_shape::<S>(block)),
        fits(product_shape::<S>(block)),
        fits(saturation_shape::<S>(block)),
        fits(table_shape::<S>(block)),
        fits(function_shape::<S>(block, kind)),
{
    lemma_required_links(block);
}

proof fn lemma_controllers_fit<S: Scalar>(block: Block)
    ensures
        fits(pid_shape::<S>(block)),
        fits(discretepid_shape::<S>(block)),
        fits(hysteresis_shape::<S>(block)),
        fits(vco_shape::<S>(block)),
        fits(tf_shape::<S>(block)),
        fits(discretetf_shape::<S>(block)),
{
}

proof fn lemma_bundles_fit<S: Scalar>(block: Block)
    ensures
        fits(statespace_shape::<S>(block)),
        fits(discretestatespace_shape::<S>(block)),
        fits(cscript_shape::<S>(block)),
{
    lemma_required_links(block);
    if let Some(value) = field(block, "outputs"@) {
        lemma_split_is_inhabited(value);
    }
}

proof fn lemma_named_outputs_fit<S: Scalar>(block: Block, transform: CoordinateTransform)
    ensures
        fits(pwm_shape::<S>(block)),
        fits(pspwm_shape::<S>(block)),
        fits(pmsm_shape::<S>(block)),
        fits(transform_shape::<S>(block, transform)),
{
}

proof fn lemma_interfaces_fit<S: Scalar>(
    block: Block,
    kind: Seq<char>,
    op: LogicOp,
    flip_flop: FlipFlopKind,
)
    ensures
        fits(probe_shape::<S>(block, kind)),
        fits(with_input(block, Form::<S>::Sig2Gate)),
        fits(with_input(block, Form::<S>::Sig2Voltage)),
        fits(with_input(block, Form::<S>::Sig2Current)),
        fits(sig2phys_shape::<S>(block)),
        fits(logic_shape::<S>(block, op)),
        fits(srlatch_shape::<S>(block)),
        fits(counter_shape::<S>(block)),
        fits(flip_flop_shape::<S>(block, flip_flop)),
{
}

/// Every block that a block line declares has as many inputs and outputs as its kind takes and
/// gives. Python blocks are not declared by any line.
pub proof fn law_blocks_have_their_inputs<S: Scalar>(block: Block)
    ensures
        declared::<S>(block) matches Ok(Declared::Block(instance)) ==> fitting(
            instance.kind,
            instance.inputs.len(),
        ),
{
    let kind = kind_of(block);
    lemma_sources_fit::<S>(block);
    lemma_static_blocks_fit::<S>(block, kind);
    lemma_controllers_fit::<S>(block);
    lemma_bundles_fit::<S>(block);
    match transform_named(kind) {
        Some(transform) => lemma_named_outputs_fit::<S>(block, transform),
        None => lemma_named_outputs_fit::<S>(block, CoordinateTransform::Clarke),
    }
    let op = match logic_named(kind) {
        Some(op) => op,
        None => LogicOp::Not,
    };
    let flip_flop = match flip_flop_named(kind) {
        Some(flip_flop) => flip_flop,
        None => FlipFlopKind::D,
    };
    lemma_interfaces_fit::<S>(block, kind, op, flip_flop);
    assert(fits(shape::<S>(block, kind)));
}

/// The names of the outputs of a block with more than one.
pub open spec fn outputs_of<S>(kind: Form<S>) -> Option<Seq<Seq<char>>> {
    match kind {
        Form::Pwm { output_names, .. } => Some(output_names),
        Form::PhaseShiftPwm { output_names, .. } => Some(output_names),
        Form::CScript { output_names, .. } => Some(output_names),
        Form::CoordinateTransform { output_names, .. } => Some(output_names),
        Form::Pmsm { output_names, .. } => Some(output_names),
        _ => None,
    }
}

/// Where a block line names no outputs, the first output has the name of the block.
pub proof fn law_first_output_has_the_name_of_the_block<S: Scalar>(block: Block)
    requires
        field(block, "outputs"@) is None,
    ensures
        declared::<S>(block) matches Ok(Declared::Block(instance)) ==> (outputs_of(
            instance.kind,
        ) matches Some(names) ==> names[0] == instance.name),
{
    let kind = kind_of(block);
    lemma_single_outputs::<S>(block, kind);
    lemma_named_outputs::<S>(block);
    lemma_other_outputs::<S>(block, kind);
    if let Some(transform) = transform_named(kind) {
        lemma_transform_outputs::<S>(block, transform);
    }
    if let Some(op) = logic_named(kind) {
        lemma_logic_outputs::<S>(block, op);
    }
    if let Some(flip_flop) = flip_flop_named(kind) {
        lemma_flip_flop_outputs::<S>(block, flip_flop);
    }
    assert(starts_with_name(shape::<S>(block, kind), block));
}

spec fn starts_with_name<S: Scalar>(r: Result<Shape<S>, Seq<char>>, block: Block) -> bool {
    r matches Ok(shape) ==> (outputs_of(shape.kind) matches Some(names) ==> names[0] == block.name)
}

proof fn lemma_single_outputs<S: Scalar>(block: Block, kind: Seq<char>)
    ensures
        starts_with_name(const_shape::<S>(block), block),
        starts_with_name(pwc_shape::<S>(block), block),
        starts_with_name(pwl_shape::<S>(block), block),
        starts_with_name(sinwave_shape::<S>(block), block),
        starts_with_name(pulsewave_shape::<S>(block), block),
        starts_with_name(expwave_shape::<S>(block), block),
        starts_with_name(sffmwave_shape::<S>(block), block),
        starts_with_name(sum_shape::<S>(block), block),
        starts_with_name(gain_shape::<S>(block), block),
        starts_with_name(product_shape::<S>(block), block),
        starts_with_name(saturation_shape::<S>(block), block),
        starts_with_name(table_shape::<S>(block), block),
        starts_with_name(function_shape::<S>(block, kind), block),
{
}

proof fn lemma_other_outputs<S: Scalar>(block: Block, kind: Seq<char>)
    ensures
        starts_with_name(pid_shape::<S>(block), block),
        starts_with_name(discretepid_shape::<S>(block), block),
        starts_with_name(hysteresis_shape::<S>(block), block),
        starts_with_name(vco_shape::<S>(block), block),
        starts_with_name(tf_shape::<S>(block), block),
        starts_with_name(discretetf_shape::<S>(block), block),
        starts_with_name(statespace_shape::<S>(block), block),
        starts_with_name(discretestatespace_shape::<S>(block), block),
        starts_with_name(probe_shape::<S>(block, kind), block),
        starts_with_name(with_input(block, Form::<S>::Sig2Gate), block),
        starts_with_name(with_input(block, Form::<S>::Sig2Voltage), block),
        starts_with_name(with_input(block, Form::<S>::Sig2Current), block),
        starts_with_name(sig2phys_shape::<S>(block), block),
        starts_with_name(srlatch_shape::<S>(block), block),
        starts_with_name(counter_shape::<S>(block), block),
{
}

proof fn lemma_logic_outputs<S: Scalar>(block: Block, op: LogicOp)
    ensures
        starts_with_name(logic_shape::<S>(block, op), block),
{
}

proof fn lemma_flip_flop_outputs<S: Scalar>(block: Block, kind: FlipFlopKind)
    ensures
        starts_with_name(flip_flop_shape::<S>(block, kind), block),
{
}

proof fn lemma_named_outputs<S: Scalar>(block: Block)
    requires
        field(block, "outputs"@) is None,
    ensures
        starts_with_name(pwm_shape::<S>(block), block),
        starts_with_name(pspwm_shape::<S>(block), block),
        starts_with_name(pmsm_shape::<S>(block), block),
        starts_with_name(cscript_shape::<S>(block), block),
{
}

proof fn lemma_transform_outputs<S: Scalar>(block: Block, transform: CoordinateTransform)
    requires
        field(block, "outputs"@) is None,
    ensures
        starts_with_name(transform_shape::<S>(block, transform), block),
{
}

} // verus!
