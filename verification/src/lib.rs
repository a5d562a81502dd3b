//! Modified nodal analysis (MNA) of circuits given as SPICE netlists.
//!
//! A netlist is turned into the descriptor equation
//!
//! ```text
//! A x(t) + K dx(t)/dt = B u(t)
//! ```
//!
//! `A` is the memoryless matrix, `K` is the storage matrix, and `B` maps independent sources
//! into the equation. The matrices hold [`Expression`] values, so component names survive.
//! From there a system can be averaged over switching phases, evaluated to numbers, reduced
//! to a state space, and turned into transfer functions. Block lines in the same netlist
//! become a graph of signal blocks.
//!
//! Each executable function has a contract over mathematical forms of its data: expressions
//! are [`expr::Expr`], statements are [`netlist::Card`], circuits are described in
//! [`circuit`]. Numbers are of any type that is a [`scalar::Scalar`].

pub mod assembly_laws;
pub mod averaging;
pub mod averaging_laws;
pub mod block_fields;
pub mod block_graph;
pub mod block_kinds;
pub mod block_laws;
pub mod block_start;
pub mod builder;
pub mod circuit;
pub mod circuit_laws;
pub mod circuit_symmetry;
pub mod condition_laws;
pub mod configuration;
pub mod course_laws;
pub mod determinant;
pub mod dynamic_blocks;
pub mod elimination_laws;
pub mod evaluation_laws;
pub mod expr;
pub mod expression;
pub mod expression_laws;
pub mod field;
pub mod hierarchy;
pub mod hierarchy_laws;
pub mod initial_laws;
pub mod initial_state;
pub mod instance_laws;
pub mod interface_blocks;
pub mod kirchhoff_laws;
pub mod list_laws;
pub mod matrix;
pub mod name_map;
pub mod netlist;
pub mod netlist_laws;
pub mod numeric;
pub mod parameter_laws;
pub mod printing_laws;
pub mod readability;
pub mod reduction_laws;
pub mod residue;
pub mod rest_laws;
pub mod scalar;
pub mod scalar_laws;
pub mod state_laws;
pub mod state_space;
pub mod static_blocks;
pub mod symbolic;
pub mod symbolic_laws;
pub mod system;
pub mod system_builder;
pub mod system_laws;
pub mod text;
pub mod transfer_laws;
pub mod transient_source;
pub mod wave_laws;

pub use averaging::{average, small_signal_duty_input, AveragingError, WeightedPhase};
pub use builder::{BuildError, BuildOptions, MnaBuilder, UnsupportedElementPolicy};
pub use circuit::SwitchState;
pub use expression::{EvaluationError, Expression};
pub use initial_state::{default_initial_state_tolerance, InitialStateError};
pub use matrix::{Matrix, MatrixShapeError};
pub use name_map::NameMap;
pub use numeric::{NumericMnaSystem, NumericStateSpace};
pub use scalar::Scalar;
pub use state_space::StateSpaceError;
pub use symbolic::{
    faddeev_leverrier, SymbolicStateSpace, SymbolicTransferFunction, TransferFunctionError,
};
pub use system::{InitialCondition, MnaSystem, StringMnaSystem};
pub use system_builder::{build_system, parse_and_flatten, System};
pub use transient_source::{PwlPoints, TransientFunction};
