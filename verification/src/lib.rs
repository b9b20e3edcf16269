//! A minimal reactive UI component layer with scoped dependency injection.
//!
//! Components render into an element-tree model held by [`ui::Ui`]. A stack of
//! nested component scopes, each owning a service registry and a reactive
//! lifetime handle, lets components provide and consume shared services
//! without explicit prop threading. Dynamic bindings (text and subtree)
//! record which parts of the tree must be rebuilt when their reactive
//! dependencies change; an external reactive system drives the re-renders
//! through the binding entry points of [`ui::Ui`].

use vstd::prelude::*;

pub mod component;
pub mod registry;
pub mod ui;

verus! {

/// The errors this layer raises. An injection miss is deliberately not an
/// error (it is an absent value), and `provide` without an ambient scope is
/// deliberately silent; only constructing a dynamic binding with no ambient
/// scope fails, since it cannot proceed without a reactive lifetime.
#[derive(Clone, Copy, Debug, PartialEq, Eq, Structural)]
pub enum UiError {
    /// A dynamic binding was constructed while no component scope was ambient.
    AmbientContextMissing,
}

} // verus!
