//! Components and the balanced scoped-execution entry points.
//!
//! User code enters the library through two traits. [`Component`] is the
//! render protocol every user-defined component implements: optional
//! one-time initialization, then rendering to an element tree.
//! [`RenderBody`] stands for the render closures of the dynamic parts — a
//! subtree producer, or any body that must run with a chosen scope ambient.
//! Both promise, as part of their contract, to leave the scope stack as they
//! found it and never to discard existing state; everything a well-behaved
//! body can do through this library's operations keeps that promise.

use vstd::prelude::*;

use crate::ui::{BindingKind, ComponentScope, El, Ui};

verus! {

/// What any render body leaves intact: the state stays well-formed, the
/// scope stack is exactly restored, the arenas only grow, and the bindings
/// registered before the body ran are untouched.
pub open spec fn frame_preserved<S>(pre: Ui<S>, post: Ui<S>) -> bool {
    &&& post.wf()
    &&& post.stack() == pre.stack()
    &&& pre.dom().len() <= post.dom().len()
    &&& pre.scopes().len() <= post.scopes().len()
    &&& pre.services().len() <= post.services().len()
    &&& pre.bindings().len() <= post.bindings().len()
    &&& forall|b: int| 0 <= b < pre.bindings().len() ==> post.bindings()[b] == pre.bindings()[b]
}

/// A body run while some scope is ambient: the render part of a subtree
/// binding's producer, or the body handed to [`ComponentScope::with`]. It
/// may provide and inject services, build elements and register bindings; it
/// returns the element to show, if any.
pub trait RenderBody<S> {
    fn run(&mut self, ui: &mut Ui<S>) -> (r: Option<El>)
        requires
            old(ui).wf(),
        ensures
            frame_preserved(*old(ui), *final(ui)),
            r is Some ==> r.unwrap().node < final(ui).dom().len(),
    ;
}

/// The capability set of a user-defined component: one-time initialization,
/// and rendering to an element tree under the ambient scope.
pub trait Component<S> {
    /// Optional one-time initialization, run exactly once before the first
    /// render.
    fn on_init(&mut self) {
    }

    /// Produces this component's element tree. May provide and inject
    /// services in the ambient scope and register dynamic bindings.
    fn render(&self, ui: &mut Ui<S>) -> (r: El)
        requires
            old(ui).wf(),
        ensures
            frame_preserved(*old(ui), *final(ui)),
            r.node < final(ui).dom().len(),
    ;

    /// Mounts the component: initializes it exactly once, then renders it
    /// exactly once, synchronously, handing back the resulting element-tree
    /// node. The scope that is ambient at the call stays ambient throughout.
    fn mount(self, ui: &mut Ui<S>) -> (r: El) where Self: Sized
        requires
            old(ui).wf(),
        ensures
            frame_preserved(*old(ui), *final(ui)),
            r.node < final(ui).dom().len(),
    {
        let mut component = self;
        component.on_init();
        component.render(ui)
    }
}

impl ComponentScope {
    /// Runs `body` with this scope ambient: pushes the scope, runs the body,
    /// and pops on the way out, so the previous ambient scope is restored
    /// exactly — the sole mechanism for making a scope ambient.
    pub fn with<S, B: RenderBody<S>>(&self, ui: &mut Ui<S>, body: &mut B) -> (r: Option<El>)
        requires
            old(ui).wf(),
            self.id < old(ui).scopes().len(),
        ensures
            frame_preserved(*old(ui), *final(ui)),
            final(ui).stack() == old(ui).stack(),
            r is Some ==> r.unwrap().node < final(ui).dom().len(),
    {
        ui.push_scope(*self);
        let r = body.run(ui);
        ui.pop_scope();
        proof {
            assert(final(ui).stack() =~= old(ui).stack());
        }
        r
    }
}

impl<S> Ui<S> {
    /// One whole re-run of a subtree binding, as the reactive system's
    /// re-execution of its computation performs it: derive a fresh child
    /// scope from the binding's snapshot, make it ambient, clear the
    /// container, run the producer, append what it returned, and restore the
    /// previous ambient scope — on every exit path.
    pub fn rerun_subtree<B: RenderBody<S>>(&mut self, binding: usize, body: &mut B)
        requires
            old(self).wf(),
            binding < old(self).bindings().len(),
            old(self).bindings()[binding as int].kind() == BindingKind::Subtree,
        ensures
            final(self).wf(),
            final(self).stack() == old(self).stack(),
            old(self).dom().len() <= final(self).dom().len(),
            old(self).scopes().len() < final(self).scopes().len(),
            old(self).services().len() <= final(self).services().len(),
            old(self).bindings().len() <= final(self).bindings().len(),
            forall|b: int|
                0 <= b < old(self).bindings().len() && b != binding ==> final(self).bindings()[b]
                    == old(self).bindings()[b],
            final(self).bindings()[binding as int].kind() == BindingKind::Subtree,
            final(self).bindings()[binding as int].node() == old(
                self,
            ).bindings()[binding as int].node(),
            final(self).bindings()[binding as int].snapshot() == old(
                self,
            ).bindings()[binding as int].snapshot(),
            final(self).bindings()[binding as int].lifetime() == old(
                self,
            ).bindings()[binding as int].lifetime(),
            final(self).bindings()[binding as int].live_child() == Some(
                old(self).scopes().len() as usize,
            ),
    {
        let child = self.begin_subtree_rerun(binding);
        let ghost entered = *self;
        let r = body.run(self);
        self.finish_subtree_rerun(binding, r);
        proof {
            assert(final(self).stack() =~= old(self).stack());
            assert(final(self).bindings()[binding as int] == entered.bindings()[binding as int]);
        }
    }
}

} // verus!
