//! Time-varying independent-source functions: `SIN`, `PULSE`, `EXP`, `PWL`, `SFFM`.
//!
//! A netlist hands a source's parameters over as plain tokens, with the parentheses left on
//! whichever token they landed on: `SIN(0 10 1000)` arrives as `SIN(0`, `10`, `1000)`. This
//! module puts such a call together again and evaluates it at a given time.

use crate::scalar::{at_most, is_at_most, Scalar};
use crate::text;
use vstd::prelude::*;

verus! {

/// The mathematical form of a transient function.
#[verifier::ext_equal]
pub enum Wave<S> {
    Sin { v0: S, va: S, freq: S, td: S, theta: S, phase: S },
    Pulse { v1: S, v2: S, td: S, tr: S, tf: S, pw: S, per: S },
    Exp { v1: S, v2: S, td1: S, tau1: S, td2: S, tau2: S },
    Pwl(Seq<(S, S)>),
    Sffm { v0: S, va: S, fc: S, mdi: S, fs: S },
}

/// One parsed transient-function call, with the field order and names SPICE uses.
#[derive(Debug, Clone, PartialEq)]
pub enum TransientFunction<S> {
    /// `SIN(V0 VA FREQ TD THETA PHASE)`: a damped sinusoid on an offset, flat at `V0` until
    /// `TD`; `FREQ` in hertz, `PHASE` in degrees.
    Sin { v0: S, va: S, freq: S, td: S, theta: S, phase: S },
    /// `PULSE(V1 V2 TD TR TF PW PER)`: a periodic trapezoid, flat at `V1` until `TD`; a ramp
    /// time of zero or less is an instantaneous edge.
    Pulse { v1: S, v2: S, td: S, tr: S, tf: S, pw: S, per: S },
    /// `EXP(V1 V2 TD1 TAU1 TD2 TAU2)`: an exponential transition to `V2` from `TD1` on, and
    /// back to `V1` from `TD2` on.
    Exp { v1: S, v2: S, td1: S, tau1: S, td2: S, tau2: S },
    /// `PWL(t1 v1 t2 v2 ...)`: linear interpolation between breakpoints, held at both ends.
    Pwl(PwlPoints<S>),
    /// `SFFM(V0 VA FC MDI FS)`: single-frequency FM.
    Sffm { v0: S, va: S, fc: S, mdi: S, fs: S },
}

/// The breakpoints of a [`TransientFunction::Pwl`], at least one.
#[derive(Debug, PartialEq)]
pub struct PwlPoints<S>(Vec<(S, S)>);

impl<S> View for PwlPoints<S> {
    type V = Seq<(S, S)>;

    closed spec fn view(&self) -> Seq<(S, S)> {
        self.0@
    }
}

impl<S> PwlPoints<S> {
    /// There is a first breakpoint.
    #[verifier::type_invariant]
    pub closed spec fn is_inhabited(&self) -> bool {
        self.0@.len() > 0
    }
}

impl<S: Clone> Clone for PwlPoints<S> {
    fn clone(&self) -> (r: Self)
        ensures
            r@.len() == self@.len(),
            forall|i: int| 0 <= i < self@.len() ==> cloned(#[trigger] self@[i], r@[i]),
    {
        proof {
            use_type_invariant(self);
        }
        PwlPoints(self.0.clone())
    }
}

impl<S: Scalar> PwlPoints<S> {
    /// Creates a breakpoint list; `None` where there is no point.
    pub fn new(points: &[(S, S)]) -> (r: Option<Self>)
        ensures
            match r {
                Some(list) => points@.len() > 0 && list@ == points@,
                None => points@.len() == 0,
            },
    {
        if points.len() == 0 {
            return None;
        }
        let list = copy_points(points);
        Some(PwlPoints(list))
    }

    /// A copy of the breakpoint list.
    pub fn copy(&self) -> (r: Self)
        ensures
            r@ == self@,
    {
        let list = copy_points(self.as_slice());
        PwlPoints(list)
    }

    /// The breakpoints.
    pub fn as_slice(&self) -> (r: &[(S, S)])
        ensures
            r@ == self@,
            r@.len() > 0,
    {
        proof {
            use_type_invariant(self);
        }
        self.0.as_slice()
    }
}

fn copy_points<S: Scalar>(points: &[(S, S)]) -> (r: Vec<(S, S)>)
    ensures
        r@ == points@,
{
    let mut list: Vec<(S, S)> = Vec::new();
    let mut i: usize = 0;
    while i < points.len()
        invariant
            i <= points@.len(),
            list@ == points@.take(i as int),
        decreases points@.len() - i,
    {
        let point = points[i];
        list.push(point);
        i = i + 1;
        assert(points@.take(i as int) =~= points@.take(i - 1).push(points@[i - 1]));
    }
    assert(points@.take(i as int) =~= points@);
    list
}

impl<S: Scalar> View for TransientFunction<S> {
    type V = Wave<S>;

    open spec fn view(&self) -> Wave<S> {
        match *self {
            TransientFunction::Sin { v0, va, freq, td, theta, phase } => Wave::Sin {
                v0,
                va,
                freq,
                td,
                theta,
                phase,
            },
            TransientFunction::Pulse { v1, v2, td, tr, tf, pw, per } => Wave::Pulse {
                v1,
                v2,
                td,
                tr,
                tf,
                pw,
                per,
            },
            TransientFunction::Exp { v1, v2, td1, tau1, td2, tau2 } => Wave::Exp {
                v1,
                v2,
                td1,
                tau1,
                td2,
                tau2,
            },
            TransientFunction::Pwl(points) => Wave::Pwl(points@),
            TransientFunction::Sffm { v0, va, fc, mdi, fs } => Wave::Sffm { v0, va, fc, mdi, fs },
        }
    }
}

/// The straight line from `v0` to `v1`, a fraction of the way along it.
pub open spec fn between<S: Scalar>(v0: S, v1: S, fraction: S) -> S {
    v0.sum(v1.difference(v0).product(fraction))
}

/// How far an exponential with the given time constant has risen from 0 to 1 after `dt`.
pub open spec fn risen<S: Scalar>(dt: S, tau: S) -> S {
    S::unit().difference(dt.negation().quotient(tau.larger(S::tiny())).exponential())
}

/// The value of a trapezoid a time `t` into its period.
pub open spec fn trapezoid<S: Scalar>(v1: S, v2: S, tr: S, tf: S, pw: S, t: S) -> S {
    if t.below(tr) {
        if at_most(tr, S::nought()) {
            v2
        } else {
            between(v1, v2, t.quotient(tr))
        }
    } else if t.below(tr.sum(pw)) {
        v2
    } else if t.below(tr.sum(pw).sum(tf)) {
        if at_most(tf, S::nought()) {
            v1
        } else {
            between(v2, v1, t.difference(tr).difference(pw).quotient(tf))
        }
    } else {
        v1
    }
}

/// The interpolated value at `t`, from segment `from` on; the last value where no segment
/// holds `t`.
pub open spec fn interpolated<S: Scalar>(points: Seq<(S, S)>, t: S, from: int) -> S
    decreases points.len() - from,
{
    if from < 0 || from + 1 >= points.len() {
        points.last().1
    } else {
        let (t0, v0) = points[from];
        let (t1, v1) = points[from + 1];
        if at_most(t0, t) && at_most(t, t1) {
            if t1.difference(t0).magnitude().below(S::tiny()) {
                v1
            } else {
                between(v0, v1, t.difference(t0).quotient(t1.difference(t0)))
            }
        } else {
            interpolated(points, t, from + 1)
        }
    }
}

/// The value of a transient function at a time.
pub open spec fn wave_value<S: Scalar>(wave: Wave<S>, t: S) -> S {
    match wave {
        Wave::Sin { v0, va, freq, td, theta, phase } => if t.below(td) {
            v0
        } else {
            let dt = t.difference(td);
            let envelope = if theta.equal(S::nought()) {
                S::unit()
            } else {
                dt.negation().product(theta).exponential()
            };
            v0.sum(
                va.product(
                    S::turn().product(freq).product(dt).sum(phase.radians()).sine(),
                ).product(envelope),
            )
        },
        Wave::Pulse { v1, v2, td, tr, tf, pw, per } => if t.below(td) {
            v1
        } else {
            trapezoid(
                v1,
                v2,
                tr,
                tf,
                pw,
                t.difference(td).remainder(per.larger(S::tiny())),
            )
        },
        Wave::Exp { v1, v2, td1, tau1, td2, tau2 } => if t.below(td1) {
            v1
        } else if t.below(td2) {
            between(v1, v2, risen(t.difference(td1), tau1))
        } else {
            between(
                between(v1, v2, risen(td2.difference(td1), tau1)),
                v1,
                risen(t.difference(td2), tau2),
            )
        },
        Wave::Pwl(points) => if at_most(t, points[0].0) {
            points[0].1
        } else if at_most(points.last().0, t) {
            points.last().1
        } else {
            interpolated(points, t, 0)
        },
        Wave::Sffm { v0, va, fc, mdi, fs } => v0.sum(
            va.product(
                S::turn().product(fc).product(t).sum(
                    mdi.product(S::turn().product(fs).product(t).sine()),
                ).sine(),
            ),
        ),
    }
}

/// A token without closing parentheses at its end.
pub open spec fn without_closing(token: Seq<char>) -> Seq<char> {
    text::trim_end_by(token, |c: char| c == ')')
}

/// The text of one argument: the first token is read from behind its opening parenthesis.
pub open spec fn argument_text(tokens: Seq<Seq<char>>, i: int) -> Seq<char> {
    if i == 0 {
        without_closing(tokens[0].skip(text::find(tokens[0], '(') + 1))
    } else {
        without_closing(tokens[i])
    }
}

/// The numbers in the first `n` tokens of a call, empty ones skipped; `None` where one is not
/// a number.
pub open spec fn arguments<S: Scalar>(tokens: Seq<Seq<char>>, n: nat) -> Option<Seq<S>>
    decreases n,
{
    if n == 0 {
        Some(Seq::empty())
    } else {
        match arguments::<S>(tokens, (n - 1) as nat) {
            Some(before) => {
                let piece = argument_text(tokens, n - 1);
                if piece.len() == 0 {
                    Some(before)
                } else {
                    match S::read(piece) {
                        Some(v) => Some(before.push(v)),
                        None => None,
                    }
                }
            },
            None => None,
        }
    }
}

/// An argument, or a default where the call does not give it.
pub open spec fn argument<S: Scalar>(args: Seq<S>, i: int, default: S) -> S {
    if i < args.len() {
        args[i]
    } else {
        default
    }
}

/// The function that a name and its arguments stand for.
pub open spec fn wave_of_call<S: Scalar>(name: Seq<char>, args: Seq<S>) -> Option<Wave<S>> {
    if name == "SIN"@ {
        Some(
            Wave::Sin {
                v0: argument(args, 0, S::nought()),
                va: argument(args, 1, S::nought()),
                freq: argument(args, 2, S::nought()),
                td: argument(args, 3, S::nought()),
                theta: argument(args, 4, S::nought()),
                phase: argument(args, 5, S::nought()),
            },
        )
    } else if name == "PULSE"@ {
        if args.len() < 2 {
            None
        } else {
            Some(
                Wave::Pulse {
                    v1: args[0],
                    v2: args[1],
                    td: argument(args, 2, S::nought()),
                    tr: argument(args, 3, S::nought()),
                    tf: argument(args, 4, S::nought()),
                    pw: argument(args, 5, S::forever()),
                    per: argument(args, 6, S::forever()),
                },
            )
        }
    } else if name == "EXP"@ {
        if args.len() < 2 {
            None
        } else {
            Some(
                Wave::Exp {
                    v1: args[0],
                    v2: args[1],
                    td1: argument(args, 2, S::nought()),
                    tau1: argument(args, 3, S::unit()),
                    td2: argument(args, 4, argument(args, 2, S::nought())),
                    tau2: argument(args, 5, S::unit()),
                },
            )
        }
    } else if name == "PWL"@ {
        if args.len() < 2 || args.len() % 2 != 0 {
            None
        } else {
            Some(Wave::Pwl(Seq::new(args.len() / 2, |i: int| (args[2 * i], args[2 * i + 1]))))
        }
    } else if name == "SFFM"@ {
        Some(
            Wave::Sffm {
                v0: argument(args, 0, S::nought()),
                va: argument(args, 1, S::nought()),
                fc: argument(args, 2, S::nought()),
                mdi: argument(args, 3, S::nought()),
                fs: argument(args, 4, S::nought()),
            },
        )
    } else {
        None
    }
}

/// The transient function a list of tokens stands for, if any.
pub open spec fn wave<S: Scalar>(tokens: Seq<Seq<char>>) -> Option<Wave<S>> {
    if tokens.len() == 0 || text::find(tokens[0], '(') >= tokens[0].len() {
        None
    } else {
        match arguments::<S>(tokens, tokens.len()) {
            Some(args) => wave_of_call(
                text::upper(tokens[0].take(text::find(tokens[0], '('))),
                args,
            ),
            None => None,
        }
    }
}

fn on_line<S: Scalar>(v0: S, v1: S, fraction: S) -> (r: S)
    ensures
        r == between(v0, v1, fraction),
{
    v0.plus(v1.minus(v0).times(fraction))
}

fn rise<S: Scalar>(dt: S, tau: S) -> (r: S)
    ensures
        r == risen(dt, tau),
{
    S::one().minus(dt.negated().over(tau.max(S::epsilon())).exp())
}

fn on_trapezoid<S: Scalar>(v1: S, v2: S, tr: S, tf: S, pw: S, t: S) -> (r: S)
    ensures
        r == trapezoid(v1, v2, tr, tf, pw, t),
{
    if t.less_than(tr) {
        if is_at_most(tr, S::zero()) {
            v2
        } else {
            on_line(v1, v2, t.over(tr))
        }
    } else if t.less_than(tr.plus(pw)) {
        v2
    } else if t.less_than(tr.plus(pw).plus(tf)) {
        if is_at_most(tf, S::zero()) {
            v1
        } else {
            on_line(v2, v1, t.minus(tr).minus(pw).over(tf))
        }
    } else {
        v1
    }
}

fn get<S: Scalar>(args: &Vec<S>, i: usize, default: S) -> (r: S)
    ensures
        r == argument(args@, i as int, default),
{
    if i < args.len() {
        args[i]
    } else {
        default
    }
}

fn strip_closing(s: &str) -> (r: String)
    ensures
        r@ == without_closing(s@),
{
    let v = text::chars_of(s);
    let ghost drop = |c: char| c == ')';
    let mut to: usize = v.len();
    assert(v@.take(to as int) =~= v@);
    while to > 0 && v[to - 1] == ')'
        invariant
            to <= v@.len(),
            drop == (|c: char| c == ')'),
            text::trim_end_by(v@.take(to as int), drop) == text::trim_end_by(v@, drop),
        decreases to,
    {
        assert(v@.take(to as int).drop_last() =~= v@.take(to - 1));
        to = to - 1;
    }
    assert(v@.subrange(0, to as int) =~= v@.take(to as int));
    text::text_of(&v, 0, to)
}

/// A call one of whose first `m` arguments is not a number has no argument list.
proof fn lemma_no_arguments<S: Scalar>(tokens: Seq<Seq<char>>, m: nat, n: nat)
    requires
        m <= n,
        arguments::<S>(tokens, m) is None,
    ensures
        arguments::<S>(tokens, n) is None,
    decreases n,
{
    if m < n {
        lemma_no_arguments::<S>(tokens, m, (n - 1) as nat);
    }
}

impl<S: Scalar> TransientFunction<S> {
    /// A copy of the function.
    pub fn copy(&self) -> (r: Self)
        ensures
            r@ == self@,
    {
        match self {
            TransientFunction::Sin { v0, va, freq, td, theta, phase } => TransientFunction::Sin {
                v0: *v0,
                va: *va,
                freq: *freq,
                td: *td,
                theta: *theta,
                phase: *phase,
            },
            TransientFunction::Pulse { v1, v2, td, tr, tf, pw, per } => TransientFunction::Pulse {
                v1: *v1,
                v2: *v2,
                td: *td,
                tr: *tr,
                tf: *tf,
                pw: *pw,
                per: *per,
            },
            TransientFunction::Exp { v1, v2, td1, tau1, td2, tau2 } => TransientFunction::Exp {
                v1: *v1,
                v2: *v2,
                td1: *td1,
                tau1: *tau1,
                td2: *td2,
                tau2: *tau2,
            },
            TransientFunction::Pwl(points) => TransientFunction::Pwl(points.copy()),
            TransientFunction::Sffm { v0, va, fc, mdi, fs } => TransientFunction::Sffm {
                v0: *v0,
                va: *va,
                fc: *fc,
                mdi: *mdi,
                fs: *fs,
            },
        }
    }

    /// Evaluates this source at time `t` (seconds).
    pub fn value_at(&self, t: S) -> (r: S)
        ensures
            r == wave_value(self@, t),
    {
        match self {
            TransientFunction::Sin { v0, va, freq, td, theta, phase } => {
                if t.less_than(*td) {
                    *v0
                } else {
                    let dt = t.minus(*td);
                    let envelope = if theta.same_as(S::zero()) {
                        S::one()
                    } else {
                        dt.negated().times(*theta).exp()
                    };
                    let angle = S::full_turn().times(*freq).times(dt).plus(phase.to_radians());
                    v0.plus(va.times(angle.sin()).times(envelope))
                }
            },
            TransientFunction::Pulse { v1, v2, td, tr, tf, pw, per } => {
                if t.less_than(*td) {
                    *v1
                } else {
                    let into = t.minus(*td).modulo(per.max(S::epsilon()));
                    on_trapezoid(*v1, *v2, *tr, *tf, *pw, into)
                }
            },
            TransientFunction::Exp { v1, v2, td1, tau1, td2, tau2 } => {
                if t.less_than(*td1) {
                    *v1
                } else if t.less_than(*td2) {
                    on_line(*v1, *v2, rise(t.minus(*td1), *tau1))
                } else {
                    let top = on_line(*v1, *v2, rise(td2.minus(*td1), *tau1));
                    on_line(top, *v1, rise(t.minus(*td2), *tau2))
                }
            },
            TransientFunction::Pwl(list) => {
                let points = list.as_slice();
                if is_at_most(t, points[0].0) {
                    return points[0].1;
                }
                let last = points[points.len() - 1];
                if is_at_most(last.0, t) {
                    return last.1;
                }
                let count: usize = points.len();
                let mut i: usize = 0;
                while i + 1 < count
                    invariant
                        i + 1 <= count == points@.len(),
                        last == points@.last(),
                        list@ == points@,
                        self@ == Wave::Pwl(points@),
                        wave_value(self@, t) == interpolated(points@, t, i as int),
                    decreases points@.len() - i,
                {
                    let (t0, v0) = points[i];
                    let (t1, v1) = points[i + 1];
                    if is_at_most(t0, t) && is_at_most(t, t1) {
                        if t1.minus(t0).abs().less_than(S::epsilon()) {
                            return v1;
                        }
                        return on_line(v0, v1, t.minus(t0).over(t1.minus(t0)));
                    }
                    i = i + 1;
                }
                last.1
            },
            TransientFunction::Sffm { v0, va, fc, mdi, fs } => {
                let inner = S::full_turn().times(*fs).times(t).sin();
                let angle = S::full_turn().times(*fc).times(t).plus(mdi.times(inner));
                v0.plus(va.times(angle.sin()))
            },
        }
    }

    /// Puts a transient-function call together from its tokens. Returns `None` where the
    /// tokens are not such a call, so that the source has an ordinary static value.
    pub fn parse(tokens: &[String]) -> (r: Option<TransientFunction<S>>)
        ensures
            match r {
                Some(function) => wave::<S>(text::texts(tokens@)) == Some(function@),
                None => wave::<S>(text::texts(tokens@)) is None,
            },
    {
        if tokens.len() == 0 {
            return None;
        }
        let ghost views = text::texts(tokens@);
        let (name, first) = match text::split_once(tokens[0].as_str(), '(') {
            Some((before, after)) => (text::to_upper(before.as_str()), after),
            None => {
                return None;
            },
        };
        let mut args: Vec<S> = Vec::new();
        let mut i: usize = 0;
        while i < tokens.len()
            invariant
                i <= tokens@.len(),
                views == text::texts(tokens@),
                first@ == tokens@[0]@.skip(text::find(tokens@[0]@, '(') + 1),
                text::find(views[0], '(') < views[0].len(),
                arguments::<S>(views, i as nat) == Some(args@),
            decreases tokens@.len() - i,
        {
            assert(views[i as int] == tokens@[i as int]@);
            let piece = if i == 0 {
                strip_closing(first.as_str())
            } else {
                strip_closing(tokens[i].as_str())
            };
            if piece.as_str().unicode_len() > 0 {
                match S::parse(piece.as_str()) {
                    Some(v) => {
                        args.push(v);
                    },
                    None => {
                        proof {
                            lemma_no_arguments::<S>(views, (i + 1) as nat, views.len());
                        }
                        return None;
                    },
                }
            }
            i = i + 1;
        }
        assert(views[0] == tokens@[0]@);
        Self::from_call(name.as_str(), &args)
    }

    fn from_call(name: &str, args: &Vec<S>) -> (r: Option<TransientFunction<S>>)
        ensures
            match r {
                Some(function) => wave_of_call(name@, args@) == Some(function@),
                None => wave_of_call(name@, args@) is None,
            },
    {
        if text::same(name, "SIN") {
            Some(
                TransientFunction::Sin {
                    v0: get(args, 0, S::zero()),
                    va: get(args, 1, S::zero()),
                    freq: get(args, 2, S::zero()),
                    td: get(args, 3, S::zero()),
                    theta: get(args, 4, S::zero()),
                    phase: get(args, 5, S::zero()),
                },
            )
        } else if text::same(name, "PULSE") {
            if args.len() < 2 {
                return None;
            }
            Some(
                TransientFunction::Pulse {
                    v1: args[0],
                    v2: args[1],
                    td: get(args, 2, S::zero()),
                    tr: get(args, 3, S::zero()),
                    tf: get(args, 4, S::zero()),
                    pw: get(args, 5, S::never()),
                    per: get(args, 6, S::never()),
                },
            )
        } else if text::same(name, "EXP") {
            if args.len() < 2 {
                return None;
            }
            Some(
                TransientFunction::Exp {
                    v1: args[0],
                    v2: args[1],
                    td1: get(args, 2, S::zero()),
                    tau1: get(args, 3, S::one()),
                    td2: get(args, 4, get(args, 2, S::zero())),
                    tau2: get(args, 5, S::one()),
                },
            )
        } else if text::same(name, "PWL") {
            if args.len() < 2 || args.len() % 2 != 0 {
                return None;
            }
            let ghost pairs = Seq::new(
                args@.len() / 2,
                |i: int| (args@[2 * i], args@[2 * i + 1]),
            );
            let mut points: Vec<(S, S)> = Vec::new();
            let mut i: usize = 0;
            while i + 1 < args.len()
                invariant
                    i <= args@.len(),
                    i % 2 == 0,
                    args@.len() % 2 == 0,
                    args@.len() >= 2,
                    pairs == Seq::new(
                        args@.len() / 2,
                        |i: int| (args@[2 * i], args@[2 * i + 1]),
                    ),
                    points@ == pairs.take(i as int / 2),
                decreases args@.len() - i,
            {
                points.push((args[i], args[i + 1]));
                i = i + 2;
                assert(pairs.take(i as int / 2) =~= pairs.take(i as int / 2 - 1).push(
                    pairs[i as int / 2 - 1],
                ));
            }
            assert(pairs.take(i as int / 2) =~= pairs);
            match PwlPoints::new(points.as_slice()) {
                Some(list) => Some(TransientFunction::Pwl(list)),
                None => None,
            }
        } else if text::same(name, "SFFM") {
            Some(
                TransientFunction::Sffm {
                    v0: get(args, 0, S::zero()),
                    va: get(args, 1, S::zero()),
                    fc: get(args, 2, S::zero()),
                    mdi: get(args, 3, S::zero()),
                    fs: get(args, 4, S::zero()),
                },
            )
        } else {
            None
        }
    }
}

} // verus!
