//! The rendering state: an element-tree arena, an arena of component scopes
//! (each a reactive lifetime handle plus a service registry), an arena of
//! service instances, the stack of currently ambient scopes, and the dynamic
//! bindings registered so far.
//!
//! Services live in an owned arena and are referred to by index, so one
//! logical instance can be shared by any number of scope registries: copying
//! a registry copies handles, never instances, and re-registering a key
//! allocates a new slot while the old instance stays alive in the arena.
//!
//! The reactive system itself is an external collaborator: it decides *when*
//! a binding must re-run, and the driver then calls [`Ui::run_text_binding`]
//! or re-renders a subtree through [`Ui::begin_subtree_rerun`] and
//! [`Ui::finish_subtree_rerun`] (or the composed re-render of
//! [`crate::component`]). Every decision about *what* a re-run does — which
//! node is overwritten, which scope becomes ambient, what is torn down — is
//! made and verified here.

use vstd::prelude::*;

use crate::registry::{entries_bounded, lookup, lemma_lookup_bounded, ServiceRegistry};
use crate::UiError;

verus! {

/// A handle to one node of the element tree.
#[derive(Clone, Copy, Debug, PartialEq, Eq, Structural)]
pub struct El {
    /// Index of the node in the element-tree arena.
    pub node: usize,
}

/// A handle to one component scope in the scope arena.
#[derive(Clone, Copy, Debug, PartialEq, Eq, Structural)]
pub struct ComponentScope {
    /// Index of the scope in the scope arena.
    pub id: usize,
}

/// Whether a node is an element or a text node.
#[derive(Clone, Copy, Debug, PartialEq, Eq, Structural)]
pub enum NodeKind {
    Element,
    Text,
}

/// One node of the element tree: a tag name and children for elements, text
/// content for text nodes, plus recorded attributes and event listeners.
pub struct DomNode {
    kind: NodeKind,
    tag: String,
    text: String,
    attrs: Vec<(String, String)>,
    children: Vec<usize>,
    listeners: Vec<(String, u64)>,
}

impl DomNode {
    pub closed spec fn kind(self) -> NodeKind {
        self.kind
    }

    pub closed spec fn tag(self) -> Seq<char> {
        self.tag@
    }

    pub closed spec fn text(self) -> Seq<char> {
        self.text@
    }

    /// The attribute assignments in the order they were made; a later
    /// assignment of the same name overrides an earlier one.
    pub closed spec fn attrs(self) -> Seq<(Seq<char>, Seq<char>)> {
        self.attrs@.map_values(|p: (String, String)| (p.0@, p.1@))
    }

    pub closed spec fn children(self) -> Seq<usize> {
        self.children@
    }

    /// The attached event listeners: an event name and a caller-chosen
    /// handler identity, in attachment order.
    pub closed spec fn listeners(self) -> Seq<(Seq<char>, u64)> {
        self.listeners@.map_values(|p: (String, u64)| (p.0@, p.1))
    }
}

/// Which kind of dynamic binding was registered.
#[derive(Clone, Copy, Debug, PartialEq, Eq, Structural)]
pub enum BindingKind {
    /// Re-renders the text content of one text node.
    Text,
    /// Re-renders one child subtree inside a fixed container node, under a
    /// fresh child scope per re-render.
    Subtree,
}

/// One registered dynamic binding. Its reactive computation is owned by the
/// external reactive system, scoped to `lifetime`; this record says which
/// node and which scope snapshot the re-runs work on.
pub struct Binding {
    kind: BindingKind,
    node: usize,
    snapshot: usize,
    live_child: Option<usize>,
    lifetime: u64,
}

impl Binding {
    pub closed spec fn kind(self) -> BindingKind {
        self.kind
    }

    /// The text node (text binding) or container node (subtree binding).
    pub closed spec fn node(self) -> usize {
        self.node
    }

    /// The scope that was ambient when the binding was created.
    pub closed spec fn snapshot(self) -> usize {
        self.snapshot
    }

    /// The child scope created by the most recent subtree re-render, if any:
    /// at most one child scope is live per subtree binding.
    pub closed spec fn live_child(self) -> Option<usize> {
        self.live_child
    }

    /// The reactive lifetime the binding's computation is scoped to.
    pub closed spec fn lifetime(self) -> u64 {
        self.lifetime
    }
}

/// One component scope: a reactive lifetime handle and a service registry.
pub struct ScopeData {
    lifetime: u64,
    registry: ServiceRegistry,
}

impl ScopeData {
    pub closed spec fn lifetime(self) -> u64 {
        self.lifetime
    }

    /// The registrations of this scope's registry (see [`lookup`]).
    pub closed spec fn registry(self) -> Seq<(u64, usize)> {
        self.registry@
    }
}

/// The whole rendering state. See the module documentation.
pub struct Ui<S> {
    nodes: Vec<DomNode>,
    scope_arena: Vec<ScopeData>,
    service_arena: Vec<S>,
    scope_stack: Vec<usize>,
    binding_list: Vec<Binding>,
}

/// Well-formedness of one node against the tree size: children are in range.
pub open spec fn node_wf(node: DomNode, dom_len: int) -> bool {
    forall|i: int| 0 <= i < node.children().len() ==> (#[trigger] node.children()[i]) < dom_len
}

/// Well-formedness of one binding against the arena sizes, and the fit
/// between its kind and its node's kind.
pub open spec fn binding_wf(b: Binding, dom: Seq<DomNode>, n_scopes: int) -> bool {
    &&& b.node() < dom.len()
    &&& b.snapshot() < n_scopes
    &&& (b.kind() == BindingKind::Text ==> dom[b.node() as int].kind() == NodeKind::Text)
    &&& (b.kind() == BindingKind::Subtree ==> dom[b.node() as int].kind() == NodeKind::Element)
    &&& (b.live_child() is Some ==> b.live_child().unwrap() < n_scopes)
}

proof fn lemma_entries_bounded_mono(entries: Seq<(u64, usize)>, b1: int, b2: int)
    requires
        entries_bounded(entries, b1),
        b1 <= b2,
    ensures
        entries_bounded(entries, b2),
{
}

proof fn lemma_binding_wf_grow(b: Binding, dom1: Seq<DomNode>, dom2: Seq<DomNode>, n1: int, n2: int)
    requires
        binding_wf(b, dom1, n1),
        n1 <= n2,
        dom1.len() <= dom2.len(),
        forall|i: int| 0 <= i < dom1.len() ==> dom2[i] == dom1[i],
    ensures
        binding_wf(b, dom2, n2),
{
    assert(dom2[b.node() as int] == dom1[b.node() as int]);
}

/// Law (scoping): in the state a push produced, the pushed scope is the
/// ambient one, and dropping the pushed entry restores the previous stack
/// exactly — so a balanced push/pop pair, however the body between them
/// exits, reverts the ambient scope to what it was.
pub proof fn lemma_scoping<S>(pre: Ui<S>, pushed: Ui<S>, scope: usize)
    requires
        pushed.stack() == pre.stack().push(scope),
    ensures
        pushed.ambient() == Some(scope),
        pushed.stack().drop_last() == pre.stack(),
{
    assert(pre.stack().push(scope).drop_last() =~= pre.stack());
}

/// Law (isolation across re-renders), at the state level: in the state a
/// subtree re-render's beginning produced — a fresh scope appended whose
/// registry is the binding's snapshot registry, and pushed as ambient — a
/// key the snapshot never registered resolves to nothing in the ambient
/// scope, whatever any earlier re-render of the binding provided. So each
/// re-render sees an injection miss for such a key until it provides the
/// service itself.
pub proof fn lemma_begin_isolation<S>(pre: Ui<S>, post: Ui<S>, snapshot: int, fresh: usize, key: u64)
    requires
        0 <= snapshot < pre.scopes().len(),
        fresh == pre.scopes().len(),
        post.stack() == pre.stack().push(fresh),
        post.scopes().len() == pre.scopes().len() + 1,
        post.scopes()[fresh as int].registry() == pre.scopes()[snapshot].registry(),
        forall|i: int|
            0 <= i < pre.scopes()[snapshot].registry().len() ==> (#[trigger] pre.scopes()[snapshot].registry()[i]).0
                != key,
    ensures
        post.ambient() == Some(fresh),
        lookup(post.scopes()[post.stack().last() as int].registry(), key) is None,
{
    crate::registry::lemma_lookup_miss(pre.scopes()[snapshot].registry(), key);
}

/// A state whose arenas and bindings are unchanged, and whose stack still
/// points into the scope arena, is still well-formed.
proof fn lemma_wf_stack_change<S>(pre: Ui<S>, post: Ui<S>)
    requires
        pre.wf(),
        post.dom() == pre.dom(),
        post.scopes() == pre.scopes(),
        post.services() == pre.services(),
        post.bindings() == pre.bindings(),
        forall|i: int|
            0 <= i < post.stack().len() ==> (#[trigger] post.stack()[i]) < post.scopes().len(),
    ensures
        post.wf(),
{
    assert forall|i: int| 0 <= i < post.dom().len() implies node_wf(
        #[trigger] post.dom()[i],
        post.dom().len() as int,
    ) by {
        assert(node_wf(pre.dom()[i], pre.dom().len() as int));
    }
    assert forall|i: int| 0 <= i < post.scopes().len() implies entries_bounded(
        (#[trigger] post.scopes()[i]).registry(),
        post.services().len() as int,
    ) by {
        assert(entries_bounded(pre.scopes()[i].registry(), pre.services().len() as int));
    }
    assert forall|i: int| 0 <= i < post.bindings().len() implies binding_wf(
        #[trigger] post.bindings()[i],
        post.dom(),
        post.scopes().len() as int,
    ) by {
        assert(binding_wf(pre.bindings()[i], pre.dom(), pre.scopes().len() as int));
    }
}

/// Replacing service instances without shrinking the arena keeps the state
/// well-formed: the registries only hold indexes, never the instances.
proof fn lemma_wf_services_change<S>(pre: Ui<S>, post: Ui<S>)
    requires
        pre.wf(),
        post.dom() == pre.dom(),
        post.scopes() == pre.scopes(),
        post.stack() == pre.stack(),
        post.bindings() == pre.bindings(),
        pre.services().len() <= post.services().len(),
    ensures
        post.wf(),
{
    assert forall|i: int| 0 <= i < post.stack().len() implies (#[trigger] post.stack()[i])
        < post.scopes().len() by {
        assert(pre.stack()[i] < pre.scopes().len());
    }
    assert forall|i: int| 0 <= i < post.dom().len() implies node_wf(
        #[trigger] post.dom()[i],
        post.dom().len() as int,
    ) by {
        assert(node_wf(pre.dom()[i], pre.dom().len() as int));
    }
    assert forall|i: int| 0 <= i < post.scopes().len() implies entries_bounded(
        (#[trigger] post.scopes()[i]).registry(),
        post.services().len() as int,
    ) by {
        assert(entries_bounded(pre.scopes()[i].registry(), pre.services().len() as int));
        lemma_entries_bounded_mono(
            post.scopes()[i].registry(),
            pre.services().len() as int,
            post.services().len() as int,
        );
    }
    assert forall|i: int| 0 <= i < post.bindings().len() implies binding_wf(
        #[trigger] post.bindings()[i],
        post.dom(),
        post.scopes().len() as int,
    ) by {
        assert(binding_wf(pre.bindings()[i], pre.dom(), pre.scopes().len() as int));
    }
}

/// A tree change that never shrinks the arena, keeps every node's children
/// in range, and keeps every existing node's kind, keeps the state
/// well-formed.
proof fn lemma_wf_dom_change<S>(pre: Ui<S>, post: Ui<S>)
    requires
        pre.wf(),
        post.scopes() == pre.scopes(),
        post.services() == pre.services(),
        post.stack() == pre.stack(),
        post.bindings() == pre.bindings(),
        pre.dom().len() <= post.dom().len(),
        forall|i: int|
            0 <= i < post.dom().len() ==> node_wf(
                #[trigger] post.dom()[i],
                post.dom().len() as int,
            ),
        forall|i: int|
            0 <= i < pre.dom().len() ==> (#[trigger] post.dom()[i]).kind() == pre.dom()[i].kind(),
    ensures
        post.wf(),
{
    assert forall|i: int| 0 <= i < post.stack().len() implies (#[trigger] post.stack()[i])
        < post.scopes().len() by {
        assert(pre.stack()[i] < pre.scopes().len());
    }
    assert forall|i: int| 0 <= i < post.scopes().len() implies entries_bounded(
        (#[trigger] post.scopes()[i]).registry(),
        post.services().len() as int,
    ) by {
        assert(entries_bounded(pre.scopes()[i].registry(), pre.services().len() as int));
    }
    assert forall|i: int| 0 <= i < post.bindings().len() implies binding_wf(
        #[trigger] post.bindings()[i],
        post.dom(),
        post.scopes().len() as int,
    ) by {
        assert(binding_wf(pre.bindings()[i], pre.dom(), pre.scopes().len() as int));
        assert(post.dom()[pre.bindings()[i].node() as int].kind() == pre.dom()[pre.bindings()[i].node() as int].kind());
    }
}

/// Appending one scope whose registry handles are in range, with all else
/// unchanged, keeps the state well-formed.
proof fn lemma_scope_arena_grew<S>(pre: Ui<S>, post: Ui<S>)
    requires
        pre.wf(),
        post.dom() == pre.dom(),
        post.services() == pre.services(),
        post.stack() == pre.stack(),
        post.bindings() == pre.bindings(),
        post.scopes().len() == pre.scopes().len() + 1,
        forall|i: int| 0 <= i < pre.scopes().len() ==> post.scopes()[i] == pre.scopes()[i],
        entries_bounded(post.scopes().last().registry(), post.services().len() as int),
    ensures
        post.wf(),
{
    assert forall|i: int| 0 <= i < post.stack().len() implies (#[trigger] post.stack()[i])
        < post.scopes().len() by {
        assert(pre.stack()[i] < pre.scopes().len());
    }
    assert forall|i: int| 0 <= i < post.scopes().len() implies entries_bounded(
        (#[trigger] post.scopes()[i]).registry(),
        post.services().len() as int,
    ) by {
        if i < pre.scopes().len() {
            assert(post.scopes()[i] == pre.scopes()[i]);
        } else {
            assert(post.scopes()[i] == post.scopes().last());
        }
    }
    assert forall|i: int| 0 <= i < post.bindings().len() implies binding_wf(
        #[trigger] post.bindings()[i],
        post.dom(),
        post.scopes().len() as int,
    ) by {
        lemma_binding_wf_grow(
            post.bindings()[i],
            pre.dom(),
            post.dom(),
            pre.scopes().len() as int,
            post.scopes().len() as int,
        );
    }
}

impl<S> Ui<S> {
    /// The element tree, as an arena of nodes.
    pub closed spec fn dom(self) -> Seq<DomNode> {
        self.nodes@
    }

    /// The arena of component scopes.
    pub closed spec fn scopes(self) -> Seq<ScopeData> {
        self.scope_arena@
    }

    /// The arena of service instances; registries hold indexes into it.
    pub closed spec fn services(self) -> Seq<S> {
        self.service_arena@
    }

    /// The stack of ambient scopes; the last element is the ambient one.
    pub closed spec fn stack(self) -> Seq<usize> {
        self.scope_stack@
    }

    /// The registered dynamic bindings.
    pub closed spec fn bindings(self) -> Seq<Binding> {
        self.binding_list@
    }

    /// The currently ambient scope: the tail of the stack, if any.
    pub open spec fn ambient(self) -> Option<usize> {
        if self.stack().len() == 0 {
            None
        } else {
            Some(self.stack().last())
        }
    }

    /// Every index held anywhere in the state is in range for the arena it
    /// points into, and every binding fits its node.
    pub open spec fn wf(self) -> bool {
        &&& forall|i: int|
            0 <= i < self.stack().len() ==> (#[trigger] self.stack()[i]) < self.scopes().len()
        &&& forall|i: int| 0 <= i < self.dom().len() ==> node_wf(#[trigger] self.dom()[i], self.dom().len() as int)
        &&& forall|i: int|
            0 <= i < self.scopes().len() ==> entries_bounded(
                (#[trigger] self.scopes()[i]).registry(),
                self.services().len() as int,
            )
        &&& forall|i: int|
            0 <= i < self.bindings().len() ==> binding_wf(
                #[trigger] self.bindings()[i],
                self.dom(),
                self.scopes().len() as int,
            )
    }

    /// An empty rendering state: no nodes, no scopes, no services, no
    /// ambient scope, no bindings.
    pub fn new() -> (r: Ui<S>)
        ensures
            r.wf(),
            r.dom() == Seq::<DomNode>::empty(),
            r.scopes() == Seq::<ScopeData>::empty(),
            r.services() == Seq::<S>::empty(),
            r.stack() == Seq::<usize>::empty(),
            r.bindings() == Seq::<Binding>::empty(),
    {
        Ui {
            nodes: Vec::new(),
            scope_arena: Vec::new(),
            service_arena: Vec::new(),
            scope_stack: Vec::new(),
            binding_list: Vec::new(),
        }
    }

    /// Makes `scope` ambient. Internal: callers go through the balanced
    /// entry points, which pop on every exit path.
    pub(crate) fn push_scope(&mut self, scope: ComponentScope)
        requires
            old(self).wf(),
            scope.id < old(self).scopes().len(),
        ensures
            final(self).wf(),
            final(self).stack() == old(self).stack().push(scope.id),
            final(self).dom() == old(self).dom(),
            final(self).scopes() == old(self).scopes(),
            final(self).services() == old(self).services(),
            final(self).bindings() == old(self).bindings(),
    {
        self.scope_stack.push(scope.id);
        proof {
            assert forall|i: int| 0 <= i < self.stack().len() implies (#[trigger] self.stack()[i])
                < self.scopes().len() by {
                if i < old(self).stack().len() {
                    assert(self.stack()[i] == old(self).stack()[i]);
                } else {
                    assert(self.stack()[i] == scope.id);
                }
            }
            lemma_wf_stack_change(*old(self), *self);
        }
    }

    /// Removes the ambient scope, restoring the previous one. Internal: the
    /// matching half of [`Ui::push_scope`].
    pub(crate) fn pop_scope(&mut self)
        requires
            old(self).wf(),
            old(self).stack().len() > 0,
        ensures
            final(self).wf(),
            final(self).stack() == old(self).stack().drop_last(),
            final(self).dom() == old(self).dom(),
            final(self).scopes() == old(self).scopes(),
            final(self).services() == old(self).services(),
            final(self).bindings() == old(self).bindings(),
    {
        let _popped = self.scope_stack.pop();
        proof {
            assert(self.stack() =~= old(self).stack().drop_last());
            assert forall|i: int| 0 <= i < self.stack().len() implies (#[trigger] self.stack()[i])
                < self.scopes().len() by {
                assert(self.stack()[i] == old(self).stack()[i]);
            }
            lemma_wf_stack_change(*old(self), *self);
        }
    }

    /// Shared read access to a service instance through its handle.
    pub fn service(&self, handle: usize) -> (r: &S)
        requires
            handle < self.services().len(),
        ensures
            *r == self.services()[handle as int],
    {
        &self.service_arena[handle]
    }

    /// Replaces the instance a handle points to, handing the old instance
    /// back: mutable access for a holder of the handle. Every other holder
    /// of the same handle sees the new instance.
    pub fn replace_service(&mut self, handle: usize, service: S) -> (r: S)
        requires
            old(self).wf(),
            handle < old(self).services().len(),
        ensures
            final(self).wf(),
            r == old(self).services()[handle as int],
            final(self).services() == old(self).services().update(handle as int, service),
            final(self).dom() == old(self).dom(),
            final(self).scopes() == old(self).scopes(),
            final(self).stack() == old(self).stack(),
            final(self).bindings() == old(self).bindings(),
    {
        self.service_arena.push(service);
        let r = self.service_arena.swap_remove(handle);
        proof {
            assert(self.services() =~= old(self).services().update(handle as int, service));
            lemma_wf_services_change(*old(self), *self);
        }
        r
    }

    /// How many service instances the arena holds.
    pub fn service_count(&self) -> (r: usize)
        ensures
            r == self.services().len(),
    {
        self.service_arena.len()
    }

    /// How deep the stack of ambient scopes currently is.
    pub fn stack_depth(&self) -> (r: usize)
        ensures
            r == self.stack().len(),
    {
        self.scope_stack.len()
    }
}

impl ComponentScope {
    /// A fresh scope with an empty registry, owning the given reactive
    /// lifetime handle.
    pub fn new<S>(ui: &mut Ui<S>, lifetime: u64) -> (r: ComponentScope)
        requires
            old(ui).wf(),
        ensures
            final(ui).wf(),
            r.id == old(ui).scopes().len(),
            final(ui).scopes().len() == old(ui).scopes().len() + 1,
            forall|i: int|
                0 <= i < old(ui).scopes().len() ==> final(ui).scopes()[i] == old(ui).scopes()[i],
            final(ui).scopes()[r.id as int].lifetime() == lifetime,
            final(ui).scopes()[r.id as int].registry() == Seq::<(u64, usize)>::empty(),
            final(ui).dom() == old(ui).dom(),
            final(ui).services() == old(ui).services(),
            final(ui).stack() == old(ui).stack(),
            final(ui).bindings() == old(ui).bindings(),
    {
        let id = ui.scope_arena.len();
        ui.scope_arena.push(ScopeData { lifetime, registry: ServiceRegistry::new() });
        proof {
            lemma_scope_arena_grew(*old(ui), *ui);
        }
        ComponentScope { id }
    }

    /// The reactive lifetime handle this scope owns.
    pub fn scope<S>(&self, ui: &Ui<S>) -> (r: u64)
        requires
            self.id < ui.scopes().len(),
        ensures
            r == ui.scopes()[self.id as int].lifetime(),
    {
        ui.scope_arena[self.id].lifetime
    }

    /// Peeks the ambient scope: the most recently pushed one, or nothing
    /// outside any rendering activation.
    pub fn current_scope<S>(ui: &Ui<S>) -> (r: Option<ComponentScope>)
        ensures
            ui.stack().len() == 0 ==> r is None,
            ui.stack().len() > 0 ==> r == Some((ComponentScope { id: ui.stack().last() })),
    {
        if ui.scope_stack.len() == 0 {
            None
        } else {
            Some(ComponentScope { id: ui.scope_stack[ui.scope_stack.len() - 1] })
        }
    }

    /// Registers `service` under `key` in the ambient scope's registry,
    /// allocating a fresh arena slot for it. With no ambient scope this is a
    /// deliberate silent no-op: the state is left exactly as it was.
    pub fn provide<S>(ui: &mut Ui<S>, key: u64, service: S)
        requires
            old(ui).wf(),
        ensures
            final(ui).wf(),
            old(ui).stack().len() == 0 ==> *final(ui) == *old(ui),
            old(ui).stack().len() > 0 ==> {
                let amb = old(ui).stack().last() as int;
                &&& final(ui).services() == old(ui).services().push(service)
                &&& final(ui).scopes().len() == old(ui).scopes().len()
                &&& final(ui).scopes()[amb].registry() == old(ui).scopes()[amb].registry().push(
                    (key, old(ui).services().len() as usize),
                )
                &&& final(ui).scopes()[amb].lifetime() == old(ui).scopes()[amb].lifetime()
                &&& forall|s: int|
                    0 <= s < old(ui).scopes().len() && s != amb ==> final(ui).scopes()[s] == old(
                        ui,
                    ).scopes()[s]
                &&& final(ui).dom() == old(ui).dom()
                &&& final(ui).stack() == old(ui).stack()
                &&& final(ui).bindings() == old(ui).bindings()
            },
    {
        if ui.scope_stack.len() == 0 {
            return ;
        }
        let amb = ui.scope_stack[ui.scope_stack.len() - 1];
        let handle = ui.service_arena.len();
        ui.service_arena.push(service);
        let slot = &mut ui.scope_arena[amb];
        slot.registry.register(key, handle);
        proof {
            let amb_i = amb as int;
            assert forall|i: int| 0 <= i < ui.scopes().len() implies entries_bounded(
                (#[trigger] ui.scopes()[i]).registry(),
                ui.services().len() as int,
            ) by {
                if i == amb_i {
                    assert forall|j: int|
                        0 <= j < ui.scopes()[i].registry().len() implies (#[trigger] ui.scopes()[i].registry()[j]).1
                        < ui.services().len() by {
                        if j < old(ui).scopes()[i].registry().len() {
                            assert(ui.scopes()[i].registry()[j] == old(
                                ui,
                            ).scopes()[i].registry()[j]);
                        } else {
                            assert(ui.scopes()[i].registry()[j] == (key, handle));
                        }
                    }
                } else {
                    assert(ui.scopes()[i] == old(ui).scopes()[i]);
                    lemma_entries_bounded_mono(
                        ui.scopes()[i].registry(),
                        old(ui).services().len() as int,
                        ui.services().len() as int,
                    );
                }
            }
            assert forall|i: int| 0 <= i < ui.stack().len() implies (#[trigger] ui.stack()[i])
                < ui.scopes().len() by {
                assert(old(ui).stack()[i] < old(ui).scopes().len());
            }
            assert forall|i: int| 0 <= i < ui.dom().len() implies node_wf(
                #[trigger] ui.dom()[i],
                ui.dom().len() as int,
            ) by {
                assert(node_wf(old(ui).dom()[i], old(ui).dom().len() as int));
            }
            assert forall|i: int| 0 <= i < ui.bindings().len() implies binding_wf(
                #[trigger] ui.bindings()[i],
                ui.dom(),
                ui.scopes().len() as int,
            ) by {
                assert(binding_wf(old(ui).bindings()[i], old(ui).dom(), old(ui).scopes().len() as int));
            }
        }
    }

    /// Looks `key` up in the ambient scope's registry only (the walk up the
    /// parent chain happened at child creation, by the copy rule). Returns
    /// nothing if the key is absent there or no scope is ambient.
    pub fn inject<S>(ui: &Ui<S>, key: u64) -> (r: Option<usize>)
        requires
            ui.wf(),
        ensures
            ui.stack().len() == 0 ==> r is None,
            ui.stack().len() > 0 ==> r == lookup(
                ui.scopes()[ui.stack().last() as int].registry(),
                key,
            ),
            r is Some ==> r.unwrap() < ui.services().len(),
    {
        if ui.scope_stack.len() == 0 {
            return None;
        }
        let amb = ui.scope_stack[ui.scope_stack.len() - 1];
        let r = ui.scope_arena[amb].registry.get(key);
        proof {
            if r is Some {
                lemma_lookup_bounded(
                    ui.scopes()[amb as int].registry(),
                    key,
                    ui.services().len() as int,
                );
            }
        }
        r
    }

    /// The ambient scope's reactive lifetime handle, if a scope is ambient:
    /// what a caller needs to create reactive primitives under the correct
    /// lifetime.
    pub fn reactive_scope<S>(ui: &Ui<S>) -> (r: Option<u64>)
        requires
            ui.wf(),
        ensures
            ui.stack().len() == 0 ==> r is None,
            ui.stack().len() > 0 ==> r == Some(
                ui.scopes()[ui.stack().last() as int].lifetime(),
            ),
    {
        if ui.scope_stack.len() == 0 {
            return None;
        }
        let amb = ui.scope_stack[ui.scope_stack.len() - 1];
        Some(ui.scope_arena[amb].lifetime)
    }

    /// A new scope sharing this scope's reactive lifetime handle, with a
    /// registry pre-populated by copying every current entry — handles, not
    /// instances. Later registrations in either scope are invisible to the
    /// other: the child shadows without mutating.
    pub fn create_child<S>(&self, ui: &mut Ui<S>) -> (r: ComponentScope)
        requires
            old(ui).wf(),
            self.id < old(ui).scopes().len(),
        ensures
            final(ui).wf(),
            r.id == old(ui).scopes().len(),
            final(ui).scopes().len() == old(ui).scopes().len() + 1,
            forall|i: int|
                0 <= i < old(ui).scopes().len() ==> final(ui).scopes()[i] == old(ui).scopes()[i],
            final(ui).scopes()[r.id as int].lifetime() == old(ui).scopes()[self.id as int].lifetime(),
            final(ui).scopes()[r.id as int].registry() == old(ui).scopes()[self.id as int].registry(),
            final(ui).dom() == old(ui).dom(),
            final(ui).services() == old(ui).services(),
            final(ui).stack() == old(ui).stack(),
            final(ui).bindings() == old(ui).bindings(),
    {
        let id = ui.scope_arena.len();
        let parent = &ui.scope_arena[self.id];
        let child = ScopeData { lifetime: parent.lifetime, registry: parent.registry.duplicate() };
        ui.scope_arena.push(child);
        proof {
            lemma_scope_arena_grew(*old(ui), *ui);
        }
        ComponentScope { id }
    }
}

impl El {
    /// A new, detached element node with the given tag name.
    pub fn new<S>(ui: &mut Ui<S>, tag_name: &str) -> (r: El)
        requires
            old(ui).wf(),
        ensures
            final(ui).wf(),
            r.node == old(ui).dom().len(),
            final(ui).dom().len() == old(ui).dom().len() + 1,
            forall|i: int| 0 <= i < old(ui).dom().len() ==> final(ui).dom()[i] == old(ui).dom()[i],
            final(ui).dom()[r.node as int].kind() == NodeKind::Element,
            final(ui).dom()[r.node as int].tag() == tag_name@,
            final(ui).dom()[r.node as int].text() == Seq::<char>::empty(),
            final(ui).dom()[r.node as int].attrs() == Seq::<(Seq<char>, Seq<char>)>::empty(),
            final(ui).dom()[r.node as int].children() == Seq::<usize>::empty(),
            final(ui).dom()[r.node as int].listeners() == Seq::<(Seq<char>, u64)>::empty(),
            final(ui).scopes() == old(ui).scopes(),
            final(ui).services() == old(ui).services(),
            final(ui).stack() == old(ui).stack(),
            final(ui).bindings() == old(ui).bindings(),
    {
        let node = ui.nodes.len();
        ui.nodes.push(
            DomNode {
                kind: NodeKind::Element,
                tag: tag_name.to_owned(),
                text: String::new(),
                attrs: Vec::new(),
                children: Vec::new(),
                listeners: Vec::new(),
            },
        );
        proof {
            assert(ui.dom()[node as int].attrs() =~= Seq::<(Seq<char>, Seq<char>)>::empty());
            assert(ui.dom()[node as int].listeners() =~= Seq::<(Seq<char>, u64)>::empty());
            assert forall|i: int| 0 <= i < ui.dom().len() implies node_wf(
                #[trigger] ui.dom()[i],
                ui.dom().len() as int,
            ) by {
                if i < old(ui).dom().len() {
                    assert(ui.dom()[i] == old(ui).dom()[i]);
                    assert(node_wf(old(ui).dom()[i], old(ui).dom().len() as int));
                }
            }
            assert forall|i: int| 0 <= i < old(ui).dom().len() implies (#[trigger] ui.dom()[i]).kind()
                == old(ui).dom()[i].kind() by {
                assert(ui.dom()[i] == old(ui).dom()[i]);
            }
            lemma_wf_dom_change(*old(ui), *ui);
        }
        El { node }
    }

    /// Records an attribute assignment on this element; a later assignment
    /// of the same name overrides it. Builder-style: hands the element back.
    pub fn attr<S>(self, ui: &mut Ui<S>, name: &str, value: &str) -> (r: El)
        requires
            old(ui).wf(),
            self.node < old(ui).dom().len(),
            old(ui).dom()[self.node as int].kind() == NodeKind::Element,
        ensures
            r == self,
            final(ui).wf(),
            final(ui).dom().len() == old(ui).dom().len(),
            final(ui).dom()[self.node as int].attrs() == old(ui).dom()[self.node as int].attrs().push(
                (name@, value@),
            ),
            final(ui).dom()[self.node as int].kind() == old(ui).dom()[self.node as int].kind(),
            final(ui).dom()[self.node as int].tag() == old(ui).dom()[self.node as int].tag(),
            final(ui).dom()[self.node as int].text() == old(ui).dom()[self.node as int].text(),
            final(ui).dom()[self.node as int].children() == old(ui).dom()[self.node as int].children(),
            final(ui).dom()[self.node as int].listeners() == old(ui).dom()[self.node as int].listeners(),
            forall|i: int|
                0 <= i < old(ui).dom().len() && i != self.node ==> final(ui).dom()[i] == old(
                    ui,
                ).dom()[i],
            final(ui).scopes() == old(ui).scopes(),
            final(ui).services() == old(ui).services(),
            final(ui).stack() == old(ui).stack(),
            final(ui).bindings() == old(ui).bindings(),
    {
        let slot = &mut ui.nodes[self.node];
        slot.attrs.push((name.to_owned(), value.to_owned()));
        proof {
            assert(ui.dom()[self.node as int].attrs() =~= old(ui).dom()[self.node as int].attrs().push(
                (name@, value@),
            ));
            lemma_el_node_updated(*old(ui), *ui, self.node as int);
        }
        self
    }

    /// Creates a text node with the given content and appends it to this
    /// element. Builder-style: hands the element back.
    pub fn text<S>(self, ui: &mut Ui<S>, data: &str) -> (r: El)
        requires
            old(ui).wf(),
            self.node < old(ui).dom().len(),
            old(ui).dom()[self.node as int].kind() == NodeKind::Element,
        ensures
            r == self,
            final(ui).wf(),
            final(ui).dom().len() == old(ui).dom().len() + 1,
            final(ui).dom()[old(ui).dom().len() as int].kind() == NodeKind::Text,
            final(ui).dom()[old(ui).dom().len() as int].text() == data@,
            final(ui).dom()[old(ui).dom().len() as int].children() == Seq::<usize>::empty(),
            final(ui).dom()[self.node as int].children() == old(ui).dom()[self.node as int].children().push(
                old(ui).dom().len() as usize,
            ),
            final(ui).dom()[self.node as int].kind() == old(ui).dom()[self.node as int].kind(),
            final(ui).dom()[self.node as int].tag() == old(ui).dom()[self.node as int].tag(),
            final(ui).dom()[self.node as int].text() == old(ui).dom()[self.node as int].text(),
            final(ui).dom()[self.node as int].attrs() == old(ui).dom()[self.node as int].attrs(),
            final(ui).dom()[self.node as int].listeners() == old(ui).dom()[self.node as int].listeners(),
            forall|i: int|
                0 <= i < old(ui).dom().len() && i != self.node ==> final(ui).dom()[i] == old(
                    ui,
                ).dom()[i],
            final(ui).scopes() == old(ui).scopes(),
            final(ui).services() == old(ui).services(),
            final(ui).stack() == old(ui).stack(),
            final(ui).bindings() == old(ui).bindings(),
    {
        let id = ui.nodes.len();
        ui.nodes.push(
            DomNode {
                kind: NodeKind::Text,
                tag: String::new(),
                text: data.to_owned(),
                attrs: Vec::new(),
                children: Vec::new(),
                listeners: Vec::new(),
            },
        );
        let slot = &mut ui.nodes[self.node];
        slot.children.push(id);
        proof {
            lemma_el_child_appended(*old(ui), *ui, self.node as int, id);
        }
        self
    }

    /// Appends an existing node as the last child of this element.
    /// Builder-style: hands the element back.
    pub fn child<S>(self, ui: &mut Ui<S>, node: El) -> (r: El)
        requires
            old(ui).wf(),
            self.node < old(ui).dom().len(),
            node.node < old(ui).dom().len(),
            old(ui).dom()[self.node as int].kind() == NodeKind::Element,
        ensures
            r == self,
            final(ui).wf(),
            final(ui).dom().len() == old(ui).dom().len(),
            final(ui).dom()[self.node as int].children() == old(ui).dom()[self.node as int].children().push(
                node.node,
            ),
            final(ui).dom()[self.node as int].kind() == old(ui).dom()[self.node as int].kind(),
            final(ui).dom()[self.node as int].tag() == old(ui).dom()[self.node as int].tag(),
            final(ui).dom()[self.node as int].text() == old(ui).dom()[self.node as int].text(),
            final(ui).dom()[self.node as int].attrs() == old(ui).dom()[self.node as int].attrs(),
            final(ui).dom()[self.node as int].listeners() == old(ui).dom()[self.node as int].listeners(),
            forall|i: int|
                0 <= i < old(ui).dom().len() && i != self.node ==> final(ui).dom()[i] == old(
                    ui,
                ).dom()[i],
            final(ui).scopes() == old(ui).scopes(),
            final(ui).services() == old(ui).services(),
            final(ui).stack() == old(ui).stack(),
            final(ui).bindings() == old(ui).bindings(),
    {
        let slot = &mut ui.nodes[self.node];
        slot.children.push(node.node);
        proof {
            lemma_el_child_appended(*old(ui), *ui, self.node as int, node.node);
        }
        self
    }

    /// Attaches an event listener: an event name and a caller-chosen handler
    /// identity; dispatching the event is the host environment's work.
    /// Builder-style: hands the element back.
    pub fn on<S>(self, ui: &mut Ui<S>, event_name: &str, handler: u64) -> (r: El)
        requires
            old(ui).wf(),
            self.node < old(ui).dom().len(),
            old(ui).dom()[self.node as int].kind() == NodeKind::Element,
        ensures
            r == self,
            final(ui).wf(),
            final(ui).dom().len() == old(ui).dom().len(),
            final(ui).dom()[self.node as int].listeners() == old(ui).dom()[self.node as int].listeners().push(
                (event_name@, handler),
            ),
            final(ui).dom()[self.node as int].kind() == old(ui).dom()[self.node as int].kind(),
            final(ui).dom()[self.node as int].tag() == old(ui).dom()[self.node as int].tag(),
            final(ui).dom()[self.node as int].text() == old(ui).dom()[self.node as int].text(),
            final(ui).dom()[self.node as int].children() == old(ui).dom()[self.node as int].children(),
            final(ui).dom()[self.node as int].attrs() == old(ui).dom()[self.node as int].attrs(),
            forall|i: int|
                0 <= i < old(ui).dom().len() && i != self.node ==> final(ui).dom()[i] == old(
                    ui,
                ).dom()[i],
            final(ui).scopes() == old(ui).scopes(),
            final(ui).services() == old(ui).services(),
            final(ui).stack() == old(ui).stack(),
            final(ui).bindings() == old(ui).bindings(),
    {
        let slot = &mut ui.nodes[self.node];
        slot.listeners.push((event_name.to_owned(), handler));
        proof {
            assert(ui.dom()[self.node as int].listeners() =~= old(
                ui,
            ).dom()[self.node as int].listeners().push((event_name@, handler)));
            lemma_el_node_updated(*old(ui), *ui, self.node as int);
        }
        self
    }
}

impl El {
    /// Registers a text binding on this element: creates an empty text node,
    /// appends it, and records that re-runs of the binding overwrite that
    /// node's content (see [`Ui::run_text_binding`]). The binding's reactive
    /// computation belongs to the ambient scope's lifetime, so with no
    /// ambient scope this fails with the ambient-context-missing error and
    /// changes nothing.
    pub fn dyn_text<S>(self, ui: &mut Ui<S>) -> (r: Result<usize, UiError>)
        requires
            old(ui).wf(),
            self.node < old(ui).dom().len(),
            old(ui).dom()[self.node as int].kind() == NodeKind::Element,
        ensures
            final(ui).wf(),
            old(ui).stack().len() == 0 ==> r == Err::<usize, UiError>(
                UiError::AmbientContextMissing,
            ) && *final(ui) == *old(ui),
            old(ui).stack().len() > 0 ==> {
                let t = old(ui).dom().len() as int;
                let b = old(ui).bindings().len() as int;
                let amb = old(ui).stack().last() as int;
                &&& r == Ok::<usize, UiError>(old(ui).bindings().len() as usize)
                &&& final(ui).bindings().len() == b + 1
                &&& forall|i: int| 0 <= i < b ==> final(ui).bindings()[i] == old(ui).bindings()[i]
                &&& final(ui).bindings()[b].kind() == BindingKind::Text
                &&& final(ui).bindings()[b].node() == old(ui).dom().len() as usize
                &&& final(ui).bindings()[b].snapshot() == old(ui).stack().last()
                &&& final(ui).bindings()[b].live_child() is None
                &&& final(ui).bindings()[b].lifetime() == old(ui).scopes()[amb].lifetime()
                &&& final(ui).dom().len() == old(ui).dom().len() + 1
                &&& final(ui).dom()[t].kind() == NodeKind::Text
                &&& final(ui).dom()[t].text() == Seq::<char>::empty()
                &&& final(ui).dom()[self.node as int].children() == old(
                    ui,
                ).dom()[self.node as int].children().push(old(ui).dom().len() as usize)
                &&& final(ui).dom()[self.node as int].kind() == old(ui).dom()[self.node as int].kind()
                &&& forall|i: int|
                    0 <= i < old(ui).dom().len() && i != self.node ==> final(ui).dom()[i] == old(
                        ui,
                    ).dom()[i]
                &&& final(ui).scopes() == old(ui).scopes()
                &&& final(ui).services() == old(ui).services()
                &&& final(ui).stack() == old(ui).stack()
            },
    {
        if ui.scope_stack.len() == 0 {
            return Err(UiError::AmbientContextMissing);
        }
        let amb = ui.scope_stack[ui.scope_stack.len() - 1];
        let lifetime = ui.scope_arena[amb].lifetime;
        let b = ui.binding_list.len();
        let t = ui.nodes.len();
        let _ = self.text(ui, "");
        let ghost mid = *ui;
        ui.binding_list.push(
            Binding {
                kind: BindingKind::Text,
                node: t,
                snapshot: amb,
                live_child: None,
                lifetime,
            },
        );
        proof {
            reveal_strlit("");
            assert(""@ =~= Seq::<char>::empty());
            assert(binding_wf(ui.bindings().last(), ui.dom(), ui.scopes().len() as int));
            lemma_binding_pushed(mid, *ui);
        }
        Ok(b)
    }

    /// Registers a subtree binding on this element: creates one fixed
    /// container element (kept out of layout by its style), appends it once,
    /// and records the ambient scope as the snapshot that every re-render
    /// derives its fresh child scope from (see [`Ui::begin_subtree_rerun`]).
    /// With no ambient scope this fails with the ambient-context-missing
    /// error and changes nothing.
    pub fn dyn_child<S>(self, ui: &mut Ui<S>) -> (r: Result<usize, UiError>)
        requires
            old(ui).wf(),
            self.node < old(ui).dom().len(),
            old(ui).dom()[self.node as int].kind() == NodeKind::Element,
        ensures
            final(ui).wf(),
            old(ui).stack().len() == 0 ==> r == Err::<usize, UiError>(
                UiError::AmbientContextMissing,
            ) && *final(ui) == *old(ui),
            old(ui).stack().len() > 0 ==> {
                let c = old(ui).dom().len() as int;
                let b = old(ui).bindings().len() as int;
                let amb = old(ui).stack().last() as int;
                &&& r == Ok::<usize, UiError>(old(ui).bindings().len() as usize)
                &&& final(ui).bindings().len() == b + 1
                &&& forall|i: int| 0 <= i < b ==> final(ui).bindings()[i] == old(ui).bindings()[i]
                &&& final(ui).bindings()[b].kind() == BindingKind::Subtree
                &&& final(ui).bindings()[b].node() == old(ui).dom().len() as usize
                &&& final(ui).bindings()[b].snapshot() == old(ui).stack().last()
                &&& final(ui).bindings()[b].live_child() is None
                &&& final(ui).bindings()[b].lifetime() == old(ui).scopes()[amb].lifetime()
                &&& final(ui).dom().len() == old(ui).dom().len() + 1
                &&& final(ui).dom()[c].kind() == NodeKind::Element
                &&& final(ui).dom()[c].tag() == "div"@
                &&& final(ui).dom()[c].attrs().len() == 2
                &&& final(ui).dom()[c].attrs()[0] == ("style"@, "display: contents"@)
                &&& final(ui).dom()[c].attrs()[1] == ("data-dyn-child"@, ""@)
                &&& final(ui).dom()[c].children() == Seq::<usize>::empty()
                &&& final(ui).dom()[self.node as int].children() == old(
                    ui,
                ).dom()[self.node as int].children().push(old(ui).dom().len() as usize)
                &&& final(ui).dom()[self.node as int].kind() == old(ui).dom()[self.node as int].kind()
                &&& forall|i: int|
                    0 <= i < old(ui).dom().len() && i != self.node ==> final(ui).dom()[i] == old(
                        ui,
                    ).dom()[i]
                &&& final(ui).scopes() == old(ui).scopes()
                &&& final(ui).services() == old(ui).services()
                &&& final(ui).stack() == old(ui).stack()
            },
    {
        if ui.scope_stack.len() == 0 {
            return Err(UiError::AmbientContextMissing);
        }
        let amb = ui.scope_stack[ui.scope_stack.len() - 1];
        let lifetime = ui.scope_arena[amb].lifetime;
        let b = ui.binding_list.len();
        let container = El::new(ui, "div");
        let container = container.attr(ui, "style", "display: contents");
        let container = container.attr(ui, "data-dyn-child", "");
        let _ = self.child(ui, container);
        let ghost mid = *ui;
        ui.binding_list.push(
            Binding {
                kind: BindingKind::Subtree,
                node: container.node,
                snapshot: amb,
                live_child: None,
                lifetime,
            },
        );
        proof {
            assert(binding_wf(ui.bindings().last(), ui.dom(), ui.scopes().len() as int));
            lemma_binding_pushed(mid, *ui);
        }
        Ok(b)
    }
}

impl<S> Ui<S> {
    /// One re-run of a text binding: overwrites the content of the binding's
    /// text node with the value the producer computed, touching nothing
    /// else. Text production has no effect on the registries, so no scope is
    /// re-entered.
    pub fn run_text_binding(&mut self, binding: usize, value: &str)
        requires
            old(self).wf(),
            binding < old(self).bindings().len(),
            old(self).bindings()[binding as int].kind() == BindingKind::Text,
        ensures
            final(self).wf(),
            final(self).dom().len() == old(self).dom().len(),
            ({
                let n = old(self).bindings()[binding as int].node() as int;
                &&& final(self).dom()[n].text() == value@
                &&& final(self).dom()[n].kind() == old(self).dom()[n].kind()
                &&& final(self).dom()[n].tag() == old(self).dom()[n].tag()
                &&& final(self).dom()[n].attrs() == old(self).dom()[n].attrs()
                &&& final(self).dom()[n].children() == old(self).dom()[n].children()
                &&& final(self).dom()[n].listeners() == old(self).dom()[n].listeners()
                &&& forall|i: int|
                    0 <= i < old(self).dom().len() && i != n ==> final(self).dom()[i] == old(
                        self,
                    ).dom()[i]
            }),
            final(self).scopes() == old(self).scopes(),
            final(self).services() == old(self).services(),
            final(self).stack() == old(self).stack(),
            final(self).bindings() == old(self).bindings(),
    {
        proof {
            assert(binding_wf(
                old(self).bindings()[binding as int],
                old(self).dom(),
                old(self).scopes().len() as int,
            ));
        }
        let n = self.binding_list[binding].node;
        let slot = &mut self.nodes[n];
        slot.text = value.to_owned();
        proof {
            lemma_el_node_updated(*old(self), *self, n as int);
        }
    }

    /// Starts one re-run of a subtree binding: derives a fresh child scope
    /// from the binding's snapshot (same reactive lifetime, registry copied
    /// entry for entry, so nothing provided during an earlier re-render
    /// survives), makes it ambient, clears the container's children for the
    /// wholesale rebuild, and records the fresh scope as the binding's one
    /// live child. The caller runs the producer and then hands its result to
    /// [`Ui::finish_subtree_rerun`].
    pub fn begin_subtree_rerun(&mut self, binding: usize) -> (r: ComponentScope)
        requires
            old(self).wf(),
            binding < old(self).bindings().len(),
            old(self).bindings()[binding as int].kind() == BindingKind::Subtree,
        ensures
            final(self).wf(),
            r.id == old(self).scopes().len(),
            final(self).scopes().len() == old(self).scopes().len() + 1,
            forall|i: int|
                0 <= i < old(self).scopes().len() ==> final(self).scopes()[i] == old(
                    self,
                ).scopes()[i],
            ({
                let snap = old(self).bindings()[binding as int].snapshot() as int;
                &&& final(self).scopes()[r.id as int].lifetime() == old(self).scopes()[snap].lifetime()
                &&& final(self).scopes()[r.id as int].registry() == old(self).scopes()[snap].registry()
            }),
            final(self).stack() == old(self).stack().push(r.id),
            final(self).dom().len() == old(self).dom().len(),
            ({
                let c = old(self).bindings()[binding as int].node() as int;
                &&& final(self).dom()[c].children() == Seq::<usize>::empty()
                &&& final(self).dom()[c].kind() == old(self).dom()[c].kind()
                &&& final(self).dom()[c].tag() == old(self).dom()[c].tag()
                &&& final(self).dom()[c].text() == old(self).dom()[c].text()
                &&& final(self).dom()[c].attrs() == old(self).dom()[c].attrs()
                &&& final(self).dom()[c].listeners() == old(self).dom()[c].listeners()
                &&& forall|i: int|
                    0 <= i < old(self).dom().len() && i != c ==> final(self).dom()[i] == old(
                        self,
                    ).dom()[i]
            }),
            final(self).bindings().len() == old(self).bindings().len(),
            final(self).bindings()[binding as int].kind() == BindingKind::Subtree,
            final(self).bindings()[binding as int].node() == old(self).bindings()[binding as int].node(),
            final(self).bindings()[binding as int].snapshot() == old(
                self,
            ).bindings()[binding as int].snapshot(),
            final(self).bindings()[binding as int].lifetime() == old(
                self,
            ).bindings()[binding as int].lifetime(),
            final(self).bindings()[binding as int].live_child() == Some(r.id),
            forall|i: int|
                0 <= i < old(self).bindings().len() && i != binding ==> final(self).bindings()[i]
                    == old(self).bindings()[i],
            final(self).services() == old(self).services(),
    {
        proof {
            assert(binding_wf(
                old(self).bindings()[binding as int],
                old(self).dom(),
                old(self).scopes().len() as int,
            ));
        }
        let snapshot_id = self.binding_list[binding].snapshot;
        let container = self.binding_list[binding].node;
        let snapshot = ComponentScope { id: snapshot_id };
        let child = snapshot.create_child(self);
        self.push_scope(child);
        let ghost mid = *self;
        let bslot = &mut self.binding_list[binding];
        bslot.live_child = Some(child.id);
        let nslot = &mut self.nodes[container];
        nslot.children.clear();
        proof {
            assert forall|i: int| 0 <= i < self.stack().len() implies (#[trigger] self.stack()[i])
                < self.scopes().len() by {
                assert(mid.stack()[i] < mid.scopes().len());
            }
            assert forall|i: int| 0 <= i < self.dom().len() implies node_wf(
                #[trigger] self.dom()[i],
                self.dom().len() as int,
            ) by {
                if i != container as int {
                    assert(self.dom()[i] == mid.dom()[i]);
                    assert(node_wf(mid.dom()[i], mid.dom().len() as int));
                }
            }
            assert forall|i: int| 0 <= i < self.scopes().len() implies entries_bounded(
                (#[trigger] self.scopes()[i]).registry(),
                self.services().len() as int,
            ) by {
                assert(entries_bounded(mid.scopes()[i].registry(), mid.services().len() as int));
            }
            assert forall|i: int| 0 <= i < self.bindings().len() implies binding_wf(
                #[trigger] self.bindings()[i],
                self.dom(),
                self.scopes().len() as int,
            ) by {
                assert(binding_wf(mid.bindings()[i], mid.dom(), mid.scopes().len() as int));
                if i != binding as int {
                    assert(self.bindings()[i] == mid.bindings()[i]);
                }
                if mid.bindings()[i].node() != container {
                    assert(self.dom()[mid.bindings()[i].node() as int] == mid.dom()[mid.bindings()[i].node() as int]);
                }
            }
        }
        child
    }

    /// Finishes one re-run of a subtree binding: appends the producer's
    /// result, if any, to the cleared container, and removes the fresh child
    /// scope from the stack, restoring the ambient scope the re-run found.
    pub fn finish_subtree_rerun(&mut self, binding: usize, result: Option<El>)
        requires
            old(self).wf(),
            binding < old(self).bindings().len(),
            old(self).bindings()[binding as int].kind() == BindingKind::Subtree,
            old(self).bindings()[binding as int].live_child() is Some,
            old(self).stack().len() > 0,
            old(self).stack().last() == old(self).bindings()[binding as int].live_child().unwrap(),
            result is Some ==> result.unwrap().node < old(self).dom().len(),
        ensures
            final(self).wf(),
            final(self).stack() == old(self).stack().drop_last(),
            final(self).dom().len() == old(self).dom().len(),
            ({
                let c = old(self).bindings()[binding as int].node() as int;
                &&& (result is Some ==> final(self).dom()[c].children() == old(
                    self,
                ).dom()[c].children().push(result.unwrap().node))
                &&& (result is None ==> final(self).dom()[c].children() == old(
                    self,
                ).dom()[c].children())
                &&& final(self).dom()[c].kind() == old(self).dom()[c].kind()
                &&& final(self).dom()[c].tag() == old(self).dom()[c].tag()
                &&& final(self).dom()[c].text() == old(self).dom()[c].text()
                &&& final(self).dom()[c].attrs() == old(self).dom()[c].attrs()
                &&& final(self).dom()[c].listeners() == old(self).dom()[c].listeners()
                &&& forall|i: int|
                    0 <= i < old(self).dom().len() && i != c ==> final(self).dom()[i] == old(
                        self,
                    ).dom()[i]
            }),
            final(self).scopes() == old(self).scopes(),
            final(self).services() == old(self).services(),
            final(self).bindings() == old(self).bindings(),
    {
        proof {
            assert(binding_wf(
                old(self).bindings()[binding as int],
                old(self).dom(),
                old(self).scopes().len() as int,
            ));
        }
        let container = self.binding_list[binding].node;
        if let Some(el) = result {
            let container_el = El { node: container };
            let _ = container_el.child(self, el);
        }
        self.pop_scope();
    }
}

impl<S> Ui<S> {
    /// How many nodes the element tree holds.
    pub fn node_count(&self) -> (r: usize)
        ensures
            r == self.dom().len(),
    {
        self.nodes.len()
    }

    /// Whether a node is an element (as opposed to a text node).
    pub fn is_element(&self, node: usize) -> (r: bool)
        requires
            node < self.dom().len(),
        ensures
            r == (self.dom()[node as int].kind() == NodeKind::Element),
    {
        match self.nodes[node].kind {
            NodeKind::Element => true,
            NodeKind::Text => false,
        }
    }

    /// An element's tag name.
    pub fn tag_of(&self, node: usize) -> (r: String)
        requires
            node < self.dom().len(),
        ensures
            r@ == self.dom()[node as int].tag(),
    {
        self.nodes[node].tag.clone()
    }

    /// A node's text content (empty for elements).
    pub fn text_of(&self, node: usize) -> (r: String)
        requires
            node < self.dom().len(),
        ensures
            r@ == self.dom()[node as int].text(),
    {
        self.nodes[node].text.clone()
    }

    /// A node's children, in tree order.
    pub fn children_of(&self, node: usize) -> (r: Vec<usize>)
        requires
            node < self.dom().len(),
        ensures
            r@ == self.dom()[node as int].children(),
    {
        let source = &self.nodes[node].children;
        let mut out: Vec<usize> = Vec::new();
        let mut i: usize = 0;
        while i < source.len()
            invariant
                i <= source@.len(),
                out@ == source@.take(i as int),
            decreases source@.len() - i,
        {
            out.push(source[i]);
            proof {
                assert(source@.take(i + 1) =~= source@.take(i as int).push(source@[i as int]));
            }
            i = i + 1;
        }
        proof {
            assert(source@.take(source@.len() as int) =~= source@);
        }
        out
    }

    /// How many attribute assignments a node carries.
    pub fn attr_count(&self, node: usize) -> (r: usize)
        requires
            node < self.dom().len(),
        ensures
            r == self.dom()[node as int].attrs().len(),
    {
        self.nodes[node].attrs.len()
    }

    /// The name of a node's `i`-th attribute assignment.
    pub fn attr_name(&self, node: usize, i: usize) -> (r: String)
        requires
            node < self.dom().len(),
            i < self.dom()[node as int].attrs().len(),
        ensures
            r@ == self.dom()[node as int].attrs()[i as int].0,
    {
        self.nodes[node].attrs[i].0.clone()
    }

    /// The value of a node's `i`-th attribute assignment.
    pub fn attr_value(&self, node: usize, i: usize) -> (r: String)
        requires
            node < self.dom().len(),
            i < self.dom()[node as int].attrs().len(),
        ensures
            r@ == self.dom()[node as int].attrs()[i as int].1,
    {
        self.nodes[node].attrs[i].1.clone()
    }

    /// How many event listeners a node carries.
    pub fn listener_count(&self, node: usize) -> (r: usize)
        requires
            node < self.dom().len(),
        ensures
            r == self.dom()[node as int].listeners().len(),
    {
        self.nodes[node].listeners.len()
    }

    /// The event name of a node's `i`-th listener.
    pub fn listener_event(&self, node: usize, i: usize) -> (r: String)
        requires
            node < self.dom().len(),
            i < self.dom()[node as int].listeners().len(),
        ensures
            r@ == self.dom()[node as int].listeners()[i as int].0,
    {
        self.nodes[node].listeners[i].0.clone()
    }

    /// The handler identity of a node's `i`-th listener.
    pub fn listener_handler(&self, node: usize, i: usize) -> (r: u64)
        requires
            node < self.dom().len(),
            i < self.dom()[node as int].listeners().len(),
        ensures
            r == self.dom()[node as int].listeners()[i as int].1,
    {
        self.nodes[node].listeners[i].1
    }

    /// How many dynamic bindings are registered.
    pub fn binding_count(&self) -> (r: usize)
        ensures
            r == self.bindings().len(),
    {
        self.binding_list.len()
    }

    /// Whether a binding is a text binding (as opposed to a subtree one).
    pub fn is_text_binding(&self, binding: usize) -> (r: bool)
        requires
            binding < self.bindings().len(),
        ensures
            r == (self.bindings()[binding as int].kind() == BindingKind::Text),
    {
        match self.binding_list[binding].kind {
            BindingKind::Text => true,
            BindingKind::Subtree => false,
        }
    }

    /// The node a binding re-renders: its text node, or its container.
    pub fn binding_node(&self, binding: usize) -> (r: usize)
        requires
            binding < self.bindings().len(),
        ensures
            r == self.bindings()[binding as int].node(),
    {
        self.binding_list[binding].node
    }

    /// The reactive lifetime handle a binding's computation belongs to: what
    /// the driver hands to the external reactive system.
    pub fn binding_lifetime(&self, binding: usize) -> (r: u64)
        requires
            binding < self.bindings().len(),
        ensures
            r == self.bindings()[binding as int].lifetime(),
    {
        self.binding_list[binding].lifetime
    }
}

/// Appending one binding that fits the (unchanged) tree and scope arena
/// keeps the state well-formed.
proof fn lemma_binding_pushed<S>(pre: Ui<S>, post: Ui<S>)
    requires
        pre.wf(),
        post.dom() == pre.dom(),
        post.scopes() == pre.scopes(),
        post.services() == pre.services(),
        post.stack() == pre.stack(),
        post.bindings().len() == pre.bindings().len() + 1,
        forall|i: int| 0 <= i < pre.bindings().len() ==> post.bindings()[i] == pre.bindings()[i],
        binding_wf(post.bindings().last(), post.dom(), post.scopes().len() as int),
    ensures
        post.wf(),
{
    assert forall|i: int| 0 <= i < post.stack().len() implies (#[trigger] post.stack()[i])
        < post.scopes().len() by {
        assert(pre.stack()[i] < pre.scopes().len());
    }
    assert forall|i: int| 0 <= i < post.dom().len() implies node_wf(
        #[trigger] post.dom()[i],
        post.dom().len() as int,
    ) by {
        assert(node_wf(pre.dom()[i], pre.dom().len() as int));
    }
    assert forall|i: int| 0 <= i < post.scopes().len() implies entries_bounded(
        (#[trigger] post.scopes()[i]).registry(),
        post.services().len() as int,
    ) by {
        assert(entries_bounded(pre.scopes()[i].registry(), pre.services().len() as int));
    }
    assert forall|i: int| 0 <= i < post.bindings().len() implies binding_wf(
        #[trigger] post.bindings()[i],
        post.dom(),
        post.scopes().len() as int,
    ) by {
        if i < pre.bindings().len() {
            assert(post.bindings()[i] == pre.bindings()[i]);
            assert(binding_wf(pre.bindings()[i], pre.dom(), pre.scopes().len() as int));
        } else {
            assert(post.bindings()[i] == post.bindings().last());
        }
    }
}

/// One existing node changed without touching its children or kind, and
/// nothing else changed: the state is still well-formed.
proof fn lemma_el_node_updated<S>(pre: Ui<S>, post: Ui<S>, n: int)
    requires
        pre.wf(),
        0 <= n < pre.dom().len(),
        post.dom().len() == pre.dom().len(),
        post.dom()[n].children() == pre.dom()[n].children(),
        post.dom()[n].kind() == pre.dom()[n].kind(),
        forall|i: int| 0 <= i < pre.dom().len() && i != n ==> post.dom()[i] == pre.dom()[i],
        post.scopes() == pre.scopes(),
        post.services() == pre.services(),
        post.stack() == pre.stack(),
        post.bindings() == pre.bindings(),
    ensures
        post.wf(),
{
    assert forall|i: int| 0 <= i < post.dom().len() implies node_wf(
        #[trigger] post.dom()[i],
        post.dom().len() as int,
    ) by {
        assert(node_wf(pre.dom()[i], pre.dom().len() as int));
        if i != n {
            assert(post.dom()[i] == pre.dom()[i]);
        }
    }
    assert forall|i: int| 0 <= i < pre.dom().len() implies (#[trigger] post.dom()[i]).kind()
        == pre.dom()[i].kind() by {
        if i != n {
            assert(post.dom()[i] == pre.dom()[i]);
        }
    }
    lemma_wf_dom_change(pre, post);
}

/// The tree either stayed or grew by fresh nodes without children, and one
/// existing element gained one in-range child id; nothing else changed: the
/// state is still well-formed.
proof fn lemma_el_child_appended<S>(pre: Ui<S>, post: Ui<S>, n: int, appended: usize)
    requires
        pre.wf(),
        0 <= n < pre.dom().len(),
        pre.dom().len() <= post.dom().len(),
        appended < post.dom().len(),
        post.dom()[n].children() == pre.dom()[n].children().push(appended),
        post.dom()[n].kind() == pre.dom()[n].kind(),
        forall|i: int| 0 <= i < pre.dom().len() && i != n ==> post.dom()[i] == pre.dom()[i],
        forall|i: int|
            pre.dom().len() <= i < post.dom().len() ==> (#[trigger] post.dom()[i]).children()
                == Seq::<usize>::empty(),
        post.scopes() == pre.scopes(),
        post.services() == pre.services(),
        post.stack() == pre.stack(),
        post.bindings() == pre.bindings(),
    ensures
        post.wf(),
{
    assert forall|i: int| 0 <= i < post.dom().len() implies node_wf(
        #[trigger] post.dom()[i],
        post.dom().len() as int,
    ) by {
        if i == n {
            assert(node_wf(pre.dom()[n], pre.dom().len() as int));
            assert forall|j: int| 0 <= j < post.dom()[n].children().len() implies (
            #[trigger] post.dom()[n].children()[j]) < post.dom().len() by {
                if j < pre.dom()[n].children().len() {
                    assert(post.dom()[n].children()[j] == pre.dom()[n].children()[j]);
                } else {
                    assert(post.dom()[n].children()[j] == appended);
                }
            }
        } else if i < pre.dom().len() {
            assert(post.dom()[i] == pre.dom()[i]);
            assert(node_wf(pre.dom()[i], pre.dom().len() as int));
        }
    }
    assert forall|i: int| 0 <= i < pre.dom().len() implies (#[trigger] post.dom()[i]).kind()
        == pre.dom()[i].kind() by {
        if i != n {
            assert(post.dom()[i] == pre.dom()[i]);
        }
    }
    lemma_wf_dom_change(pre, post);
}

} // verus!
