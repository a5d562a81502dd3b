//! Which unknowns the states of an explicit form are.

use crate::expr::{is_zero, Expr};
use crate::numeric;
use crate::numeric::{NumericMnaSystem, NumericStateSpace};
use crate::scalar::Scalar;
use crate::symbolic;
use crate::symbolic::SymbolicStateSpace;
use crate::system::MnaSystem;
use crate::text;
use vstd::prelude::*;

verus! {

/// The indices of the rows that satisfy a condition, among the first `n`: all of them, each
/// once, in ascending order.
pub open spec fn lists_rows(indices: Seq<usize>, chosen: spec_fn(int) -> bool, n: nat) -> bool {
    &&& forall|i: int|
        0 <= i < indices.len() ==> (#[trigger] indices[i]) < n && chosen(indices[i] as int)
    &&& forall|i: int, j: int|
        0 <= i < j < indices.len() ==> (#[trigger] indices[i]) < (#[trigger] indices[j])
    &&& forall|row: usize| row < n && #[trigger] chosen(row as int) ==> indices.contains(row)
}

proof fn lemma_one_more_row(indices: Seq<usize>, chosen: spec_fn(int) -> bool, n: nat)
    requires
        n < usize::MAX,
        lists_rows(indices, chosen, n),
    ensures
        chosen(n as int) ==> lists_rows(indices.push(n as usize), chosen, n + 1),
        !chosen(n as int) ==> lists_rows(indices, chosen, n + 1),
{
    let longer = indices.push(n as usize);
    if chosen(n as int) {
        assert(longer[indices.len() as int] == n as usize);
        assert forall|row: usize| row < n + 1 && #[trigger] chosen(
            row as int,
        ) implies longer.contains(row) by {
            if row < n {
                assert(indices.contains(row));
                let i = choose|i: int| 0 <= i < indices.len() && indices[i] == row;
                assert(longer[i] == row);
            }
        }
    }
}

proof fn lemma_numeric_rows<S: Scalar>(dynamic: bool, k: Seq<Seq<S>>, tolerance: S, n: nat)
    requires
        n <= usize::MAX,
    ensures
        lists_rows(
            numeric::rows_that_are(dynamic, k, tolerance, n),
            |row: int| numeric::is_dynamic(k[row], tolerance) == dynamic,
            n,
        ),
    decreases n,
{
    if n > 0 {
        let less = (n - 1) as nat;
        lemma_numeric_rows(dynamic, k, tolerance, less);
        lemma_one_more_row(
            numeric::rows_that_are(dynamic, k, tolerance, less),
            |row: int| numeric::is_dynamic(k[row], tolerance) == dynamic,
            less,
        );
    }
}

proof fn lemma_symbolic_rows<S: Scalar>(
    dynamic: bool,
    k: Seq<Seq<Expr<S>>>,
    n: nat,
)
    requires
        n <= usize::MAX,
    ensures
        lists_rows(
            symbolic::rows_that_are(dynamic, k, n),
            |row: int| symbolic::is_dynamic(k[row]) == dynamic,
            n,
        ),
    decreases n,
{
    if n > 0 {
        let less = (n - 1) as nat;
        lemma_symbolic_rows(dynamic, k, less);
        lemma_one_more_row(
            symbolic::rows_that_are(dynamic, k, less),
            |row: int| symbolic::is_dynamic(k[row]) == dynamic,
            less,
        );
    }
}

/// Every state of a numeric explicit form is the unknown that its row describes: it bears the
/// name of the unknown with its index. The states are the unknowns whose equation holds a
/// derivative beyond the tolerance, in the order of the unknowns.
pub proof fn law_numeric_states_are_unknowns<S: Scalar>(
    system: NumericMnaSystem<S>,
    tolerance: S,
    space: NumericStateSpace<S>,
)
    requires
        numeric::dimensions_agree(system),
        numeric::is_explicit_form(system, tolerance, space),
    ensures
        space.states@.len() == space.mna_state_indices@.len(),
        forall|i: int|
            0 <= i < space.states@.len() ==> space.mna_state_indices@[i] < system.unknowns@.len()
                && (#[trigger] space.states@[i])@
                == system.unknowns@[space.mna_state_indices@[i] as int]@,
        lists_rows(
            space.mna_state_indices@,
            |row: int|
                exists|col: int|
                    0 <= col < system.unknowns@.len() && tolerance.below(
                        (#[trigger] system.k@[row][col]).magnitude(),
                    ),
            system.unknowns@.len(),
        ),
        space.a.row_count() == space.states@.len(),
        space.a.col_count() == space.states@.len(),
        space.b.row_count() == space.states@.len(),
        space.inputs@.len() == system.inputs@.len(),
        forall|i: int|
            0 <= i < space.inputs@.len() ==> (#[trigger] space.inputs@[i])@
                == system.inputs@[i]@,
{
    let names = text::texts(system.unknowns@);
    let n = system.unknowns@.len();
    assert(system.unknowns.len() == n);
    assert(names.len() == n);
    lemma_numeric_rows(true, system.k@, tolerance, n);
    let indices = space.mna_state_indices@;
    assert(indices == numeric::rows_that_are(true, system.k@, tolerance, n));
    assert(text::texts(space.states@).len() == space.states@.len());
    assert forall|i: int| 0 <= i < space.states@.len() implies indices[i] < n && (
    #[trigger] space.states@[i])@ == system.unknowns@[indices[i] as int]@ by {
        assert(text::texts(space.states@)[i] == space.states@[i]@);
        assert(names[indices[i] as int] == system.unknowns@[indices[i] as int]@);
    }
    let before = |row: int| numeric::is_dynamic(system.k@[row], tolerance) == true;
    let after = |row: int|
        exists|col: int|
            0 <= col < n && tolerance.below((#[trigger] system.k@[row][col]).magnitude());
    assert forall|row: int| 0 <= row < n implies #[trigger] before(row) == after(row) by {
        assert(system.k@[row].len() == n);
    }
    assert forall|row: usize| row < n && #[trigger] after(row as int) implies indices.contains(
        row,
    ) by {
        assert(before(row as int));
    }
    assert forall|i: int| 0 <= i < indices.len() implies (#[trigger] indices[i]) < n && after(
        indices[i] as int,
    ) by {
        assert(before(indices[i] as int));
    }
    assert(text::texts(space.inputs@).len() == text::texts(system.inputs@).len());
    assert forall|i: int| 0 <= i < space.inputs@.len() implies (#[trigger] space.inputs@[i])@
        == system.inputs@[i]@ by {
        assert(text::texts(space.inputs@)[i] == text::texts(system.inputs@)[i]);
    }
}

/// Every state of a symbolic explicit form is the unknown that its row describes: it bears the
/// name of the unknown with its index. The states are the unknowns whose equation holds a
/// derivative, in the order of the unknowns.
pub proof fn law_symbolic_states_are_unknowns<S: Scalar>(
    system: MnaSystem<S>,
    space: SymbolicStateSpace<S>,
)
    requires
        symbolic::dimensions_agree(system),
        symbolic::is_explicit_form(system, space),
    ensures
        space.states@.len() == space.mna_state_indices@.len(),
        forall|i: int|
            0 <= i < space.states@.len() ==> space.mna_state_indices@[i] < system.unknowns@.len()
                && (#[trigger] space.states@[i])@
                == system.unknowns@[space.mna_state_indices@[i] as int]@,
        lists_rows(
            space.mna_state_indices@,
            |row: int|
                exists|col: int|
                    0 <= col < system.unknowns@.len() && !is_zero(#[trigger] system@.k[row][col]),
            system.unknowns@.len(),
        ),
        space.a.row_count() == space.states@.len(),
        space.a.col_count() == space.states@.len(),
        space.b.row_count() == space.states@.len(),
        space.inputs@.len() == system.inputs@.len(),
        forall|i: int|
            0 <= i < space.inputs@.len() ==> (#[trigger] space.inputs@[i])@
                == system.inputs@[i]@,
{
    let names = text::texts(system.unknowns@);
    let n = system.unknowns@.len();
    assert(system.unknowns.len() == n);
    assert(names.len() == n);
    lemma_symbolic_rows(true, system@.k, n);
    let indices = space.mna_state_indices@;
    assert(indices == symbolic::rows_that_are(true, system@.k, n));
    assert(text::texts(space.states@).len() == space.states@.len());
    assert forall|i: int| 0 <= i < space.states@.len() implies indices[i] < n && (
    #[trigger] space.states@[i])@ == system.unknowns@[indices[i] as int]@ by {
        assert(text::texts(space.states@)[i] == space.states@[i]@);
        assert(names[indices[i] as int] == system.unknowns@[indices[i] as int]@);
    }
    let before = |row: int| symbolic::is_dynamic(system@.k[row]) == true;
    let after = |row: int|
        exists|col: int| 0 <= col < n && !is_zero(#[trigger] system@.k[row][col]);
    assert forall|row: int| 0 <= row < n implies #[trigger] before(row) == after(row) by {
        assert(system@.k[row].len() == n);
    }
    assert forall|row: usize| row < n && #[trigger] after(row as int) implies indices.contains(
        row,
    ) by {
        assert(before(row as int));
    }
    assert forall|i: int| 0 <= i < indices.len() implies (#[trigger] indices[i]) < n && after(
        indices[i] as int,
    ) by {
        assert(before(indices[i] as int));
    }
    assert(text::texts(space.inputs@).len() == text::texts(system.inputs@).len());
    assert forall|i: int| 0 <= i < space.inputs@.len() implies (#[trigger] space.inputs@[i])@
        == system.inputs@[i]@ by {
        assert(text::texts(space.inputs@)[i] == text::texts(system.inputs@)[i]);
    }
}

} // verus!
