//! What symbolic and numeric state-space reduction have in common.

use crate::text;
use vstd::prelude::*;

verus! {

/// Why a descriptor system has no explicit state-space form.
#[verifier::ext_equal]
pub enum Breakdown {
    InconsistentDimensions,
    NoDynamicVariables,
    SingularAlgebraicBlock { unknown: Seq<char>, block: Seq<Seq<char>> },
    SingularStorageBlock { unknown: Seq<char>, block: Seq<Seq<char>> },
}

/// Error returned during descriptor-to-state-space reduction.
#[derive(Debug, Clone, PartialEq)]
pub enum StateSpaceError {
    /// Matrix and name dimensions do not agree.
    InconsistentDimensions,
    /// No row of the storage matrix is dynamic.
    NoDynamicVariables,
    /// Algebraic constraints cannot be uniquely eliminated.
    SingularAlgebraicBlock {
        /// The algebraic unknown whose equation had no usable pivot.
        unknown: String,
        /// All algebraic unknowns considered in the same elimination.
        block: Vec<String>,
    },
    /// The reduced storage (capacitor/inductor) block is singular: the circuit has fewer
    /// independent dynamic states than reactive elements.
    SingularStorageBlock {
        /// The state variable that turned out not to be independent.
        unknown: String,
        /// All capacitor-voltage/inductor-current states in the same block.
        block: Vec<String>,
    },
}

impl View for StateSpaceError {
    type V = Breakdown;

    open spec fn view(&self) -> Breakdown {
        match self {
            StateSpaceError::InconsistentDimensions => Breakdown::InconsistentDimensions,
            StateSpaceError::NoDynamicVariables => Breakdown::NoDynamicVariables,
            StateSpaceError::SingularAlgebraicBlock { unknown, block } => {
                Breakdown::SingularAlgebraicBlock { unknown: unknown@, block: text::texts(block@) }
            },
            StateSpaceError::SingularStorageBlock { unknown, block } => {
                Breakdown::SingularStorageBlock { unknown: unknown@, block: text::texts(block@) }
            },
        }
    }
}

/// A text begins with `V(`.
pub open spec fn is_voltage(name: Seq<char>) -> bool {
    name.len() >= 2 && name[0] == 'V' && name[1] == '('
}

/// The message for a breakdown.
pub open spec fn breakdown_text(breakdown: Breakdown) -> Seq<char> {
    match breakdown {
        Breakdown::InconsistentDimensions => "inconsistent MNA matrix dimensions"@,
        Breakdown::NoDynamicVariables => "the circuit has no capacitor or inductor state"@,
        Breakdown::SingularAlgebraicBlock { unknown, block } => "no unique solution for "@
            + unknown + ": the algebraic (non-storage) equations for {"@ + text::join(block, ", "@)
            + "} are linearly dependent — check for a loop of ideal voltage sources/VCVS elements or a cut-set of ideal current sources/VCCS elements among them"@,
        Breakdown::SingularStorageBlock { unknown, block } => unknown
            + " is not an independent state variable among {"@ + text::join(block, ", "@)
            + "}: likely "@ + (if is_voltage(unknown) {
            "a capacitor-only loop with no resistive path, so its voltage is not independent of the others — add a series resistor to break the loop"@
        } else {
            "an inductor-only cut-set with no resistive path, so its current is not independent of the others (or a redundant coupled-inductor `K` specification) — add a parallel resistor or check the coupling coefficients"@
        }),
    }
}

impl StateSpaceError {
    /// The message for a reader.
    pub fn to_text(&self) -> (r: String)
        ensures
            r@ == breakdown_text(self@),
    {
        match self {
            StateSpaceError::InconsistentDimensions => text::copy(
                "inconsistent MNA matrix dimensions",
            ),
            StateSpaceError::NoDynamicVariables => text::copy(
                "the circuit has no capacitor or inductor state",
            ),
            StateSpaceError::SingularAlgebraicBlock { unknown, block } => text::concat5(
                "no unique solution for ",
                unknown.as_str(),
                ": the algebraic (non-storage) equations for {",
                text::joined(block, ", ").as_str(),
                "} are linearly dependent — check for a loop of ideal voltage sources/VCVS elements or a cut-set of ideal current sources/VCCS elements among them",
            ),
            StateSpaceError::SingularStorageBlock { unknown, block } => {
                let v = text::chars_of(unknown.as_str());
                let hint = if v.len() >= 2 && v[0] == 'V' && v[1] == '(' {
                    "a capacitor-only loop with no resistive path, so its voltage is not independent of the others — add a series resistor to break the loop"
                } else {
                    "an inductor-only cut-set with no resistive path, so its current is not independent of the others (or a redundant coupled-inductor `K` specification) — add a parallel resistor or check the coupling coefficients"
                };
                text::concat5(
                    unknown.as_str(),
                    " is not an independent state variable among {",
                    text::joined(block, ", ").as_str(),
                    "}: likely ",
                    hint,
                )
            },
        }
    }
}

/// The chosen names.
pub open spec fn picked_names(names: Seq<Seq<char>>, indices: Seq<usize>) -> Seq<Seq<char>> {
    Seq::new(indices.len(), |i: int| names[indices[i] as int])
}

/// Every index is below a bound.
pub open spec fn all_below(indices: Seq<usize>, bound: nat) -> bool {
    forall|i: int| 0 <= i < indices.len() ==> (#[trigger] indices[i]) < bound
}

/// The names in the given positions.
pub fn pick_names(names: &Vec<String>, indices: &Vec<usize>) -> (r: Vec<String>)
    requires
        all_below(indices@, names@.len()),
    ensures
        text::texts(r@) == picked_names(text::texts(names@), indices@),
        r@.len() == indices@.len(),
        forall|i: int|
            0 <= i < r@.len() ==> (#[trigger] r@[i])@ == names@[indices@[i] as int]@,
{
    let mut out: Vec<String> = Vec::new();
    let mut i: usize = 0;
    while i < indices.len()
        invariant
            i <= indices@.len(),
            all_below(indices@, names@.len()),
            out@.len() == i,
            forall|j: int|
                0 <= j < i ==> (#[trigger] out@[j])@ == names@[indices@[j] as int]@,
        decreases indices@.len() - i,
    {
        out.push(names[indices[i]].clone());
        i = i + 1;
    }
    assert(text::texts(out@) =~= picked_names(text::texts(names@), indices@));
    out
}

/// The breakdown of an algebraic block.
pub open spec fn algebraic_breakdown(
    unknowns: Seq<Seq<char>>,
    indices: Seq<usize>,
    pivot: int,
) -> Breakdown {
    Breakdown::SingularAlgebraicBlock {
        unknown: unknowns[indices[pivot] as int],
        block: picked_names(unknowns, indices),
    }
}

/// The breakdown of a storage block.
pub open spec fn storage_breakdown(
    unknowns: Seq<Seq<char>>,
    indices: Seq<usize>,
    pivot: int,
) -> Breakdown {
    Breakdown::SingularStorageBlock {
        unknown: unknowns[indices[pivot] as int],
        block: picked_names(unknowns, indices),
    }
}

/// Reports an algebraic block without a usable pivot.
pub fn singular_algebraic(unknowns: &Vec<String>, indices: &Vec<usize>, pivot: usize) -> (r:
    StateSpaceError)
    requires
        all_below(indices@, unknowns@.len()),
        pivot < indices@.len(),
    ensures
        r@ == algebraic_breakdown(text::texts(unknowns@), indices@, pivot as int),
{
    StateSpaceError::SingularAlgebraicBlock {
        unknown: unknowns[indices[pivot]].clone(),
        block: pick_names(unknowns, indices),
    }
}

/// Reports a storage block without a usable pivot.
pub fn singular_storage(unknowns: &Vec<String>, indices: &Vec<usize>, pivot: usize) -> (r:
    StateSpaceError)
    requires
        all_below(indices@, unknowns@.len()),
        pivot < indices@.len(),
    ensures
        r@ == storage_breakdown(text::texts(unknowns@), indices@, pivot as int),
{
    StateSpaceError::SingularStorageBlock {
        unknown: unknowns[indices[pivot]].clone(),
        block: pick_names(unknowns, indices),
    }
}

} // verus!
