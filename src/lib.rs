//! Deadlock-free lock builders.
//!
//! An aggregate declares several independently locked resources. This library
//! classifies each resource from its directives, enumerates every subset of the
//! participating resources as a builder state, names each state, and plans the
//! acquisition of a state's resources in one canonical order: the order in which
//! the resources were declared.
use vstd::prelude::*;

pub mod acquire;
pub mod attribute;
pub mod field;
pub mod generators;
pub mod names;
pub mod path;
pub mod state;

verus! {

/// Directive that overrides the wrapper pattern stripped from a declared type.
pub const OUTER_TYPE: &'static str = "outer_type";

/// Directive that gives the inner value type verbatim.
pub const INNER_TYPE: &'static str = "inner_type";

/// Directive that marks a resource whose acquisition suspends.
pub const ASYNC: &'static str = "is_async";

/// Directive that marks a resource whose acquisition may fail.
pub const RESULT: &'static str = "result";

/// Directive that overrides the acquisition expression.
pub const LOCK_METHOD: &'static str = "lock_method";

/// Directive that selects a resource explicitly.
pub const INCLUDE: &'static str = "include";

/// Directive that leaves a resource out.
pub const EXCLUDE: &'static str = "exclude";

/// The wrapper pattern used when no `outer_type` directive is given.
pub const DEFAULT_OUTER_TYPE: &'static str = "Arc<Mutex<(.*)>>";

/// Implemented for an aggregate by the generated code: hands out the root
/// builder, which borrows every participating resource.
pub trait Locker<'a> {
    type LockBuilder where Self: 'a;

    fn locker(&'a mut self) -> Self::LockBuilder;
}

} // verus!
