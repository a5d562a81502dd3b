//! Build options from plain texts, as language bindings hand them over.

use crate::builder::BuildOptions;
use crate::circuit::{default_settings, Settings, SwitchState};
use crate::expr;
use crate::expression::Expression;
use crate::scalar::Scalar;
use crate::text;
use vstd::prelude::*;

verus! {

/// A dialect that can be named.
#[derive(Debug, Clone, Copy, PartialEq, Eq, Structural)]
pub enum DialectName {
    /// `ngspice`.
    Ngspice,
    /// `xyce`.
    Xyce,
}

/// The dialect a text names, letter case aside, or the message that there is none.
pub open spec fn dialect_named(name: Seq<char>) -> Result<DialectName, Seq<char>> {
    if text::lower(name) == "ngspice"@ {
        Ok(DialectName::Ngspice)
    } else if text::lower(name) == "xyce"@ {
        Ok(DialectName::Xyce)
    } else {
        Err("unknown SPICE dialect '"@ + text::lower(name) + "'"@)
    }
}

/// Finds the dialect a text names.
pub fn find_dialect(name: &str) -> (r: Result<DialectName, String>)
    ensures
        match r {
            Ok(dialect) => dialect_named(name@) == Ok::<DialectName, Seq<char>>(dialect),
            Err(message) => dialect_named(name@) == Err::<DialectName, Seq<char>>(message@),
        },
{
    let lower = text::to_lower(name);
    if text::same(lower.as_str(), "ngspice") {
        Ok(DialectName::Ngspice)
    } else if text::same(lower.as_str(), "xyce") {
        Ok(DialectName::Xyce)
    } else {
        Err(text::concat3("unknown SPICE dialect '", lower.as_str(), "'"))
    }
}

/// The state that a flag stands for.
pub open spec fn state_of(on: bool) -> SwitchState {
    if on {
        SwitchState::On
    } else {
        SwitchState::Off
    }
}

/// The switch states after the first `n` flags; a later one overrides an earlier one of the
/// same name, letter case aside.
pub open spec fn flagged(flags: Seq<(String, bool)>, n: nat) -> Map<Seq<char>, SwitchState>
    decreases n,
{
    if n == 0 {
        Map::empty()
    } else {
        flagged(flags, (n - 1) as nat).insert(
            text::upper(flags[n - 1].0@),
            state_of(flags[n - 1].1),
        )
    }
}

/// The settings with the given switch states and resistances, or what is wrong with the first
/// resistance that is no scalar.
pub open spec fn configured<S: Scalar>(flags: Seq<(String, bool)>, on: Seq<char>, off: Seq<char>) -> Result<
    Settings<S>,
    Seq<char>,
> {
    match expr::scalar::<S>(on) {
        Err(message) => Err(message),
        Ok(on) => match expr::scalar::<S>(off) {
            Err(message) => Err(message),
            Ok(off) => Ok(
                Settings { switches: flagged(flags, flags.len()), on, off, ..default_settings() },
            ),
        },
    }
}

/// Puts build options together.
pub fn configured_options<S: Scalar>(flags: &[(String, bool)], on: &str, off: &str) -> (r: Result<
    BuildOptions<S>,
    String,
>)
    ensures
        match r {
            Ok(options) => configured::<S>(flags@, on@, off@) == Ok::<Settings<S>, Seq<char>>(
                options@,
            ),
            Err(message) => configured::<S>(flags@, on@, off@) == Err::<Settings<S>, Seq<char>>(
                message@,
            ),
        },
{
    let mut options: BuildOptions<S> = BuildOptions::default();
    options.on_resistance = match Expression::parse_scalar(on) {
        Ok(e) => e,
        Err(message) => return Err(message),
    };
    options.off_resistance = match Expression::parse_scalar(off) {
        Ok(e) => e,
        Err(message) => return Err(message),
    };
    let ghost start = options@;
    let mut i: usize = 0;
    while i < flags.len()
        invariant
            i <= flags@.len(),
            options@ == (Settings { switches: flagged(flags@, i as nat), ..start }),
        decreases flags@.len() - i,
    {
        let state = if flags[i].1 {
            SwitchState::On
        } else {
            SwitchState::Off
        };
        options.set_switch(flags[i].0.as_str(), state);
        i = i + 1;
    }
    Ok(options)
}

} // verus!
