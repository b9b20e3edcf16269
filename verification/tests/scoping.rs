use ambient_ui::component::RenderBody;
use ambient_ui::registry::ServiceRegistry;
use ambient_ui::ui::{ComponentScope, El, Ui};
use ambient_ui::UiError;

const COUNTER_KEY: u64 = 7;
const MISSING_KEY: u64 = 99;

struct InnerCheck {
    inner: ComponentScope,
}

impl RenderBody<i32> for InnerCheck {
    fn run(&mut self, ui: &mut Ui<i32>) -> Option<El> {
        assert_eq!(ComponentScope::current_scope(ui).unwrap().id, self.inner.id);
        None
    }
}

struct OuterCheck {
    outer: ComponentScope,
    inner: ComponentScope,
}

impl RenderBody<i32> for OuterCheck {
    fn run(&mut self, ui: &mut Ui<i32>) -> Option<El> {
        assert_eq!(ComponentScope::current_scope(ui).unwrap().id, self.outer.id);
        let mut inner_body = InnerCheck { inner: self.inner };
        self.inner.with(ui, &mut inner_body);
        assert_eq!(ComponentScope::current_scope(ui).unwrap().id, self.outer.id);
        None
    }
}

#[test]
fn nested_ambient_scopes_revert() {
    let mut ui: Ui<i32> = Ui::new();
    let outer = ComponentScope::new(&mut ui, 1);
    let inner = ComponentScope::new(&mut ui, 2);
    assert!(ComponentScope::current_scope(&ui).is_none());
    let mut body = OuterCheck { outer, inner };
    outer.with(&mut ui, &mut body);
    assert!(ComponentScope::current_scope(&ui).is_none());
    assert_eq!(ui.stack_depth(), 0);
}

struct ChildShadow;

impl RenderBody<i32> for ChildShadow {
    fn run(&mut self, ui: &mut Ui<i32>) -> Option<El> {
        // the parent's instance was copied in at child creation
        let inherited = ComponentScope::inject(ui, COUNTER_KEY).unwrap();
        assert_eq!(*ui.service(inherited), 1);
        // shadow it in the child only
        ComponentScope::provide(ui, COUNTER_KEY, 2);
        let shadowed = ComponentScope::inject(ui, COUNTER_KEY).unwrap();
        assert_eq!(*ui.service(shadowed), 2);
        None
    }
}

struct ParentShadow;

impl RenderBody<i32> for ParentShadow {
    fn run(&mut self, ui: &mut Ui<i32>) -> Option<El> {
        ComponentScope::provide(ui, COUNTER_KEY, 1);
        let parent = ComponentScope::current_scope(ui).unwrap();
        let child = parent.create_child(ui);
        child.with(ui, &mut ChildShadow);
        // the child's shadowing never touched this scope's registry
        let still_here = ComponentScope::inject(ui, COUNTER_KEY).unwrap();
        assert_eq!(*ui.service(still_here), 1);
        None
    }
}

#[test]
fn child_scope_shadows_without_mutating_parent() {
    let mut ui: Ui<i32> = Ui::new();
    let parent = ComponentScope::new(&mut ui, 0);
    parent.with(&mut ui, &mut ParentShadow);
}

struct MissCheck;

impl RenderBody<i32> for MissCheck {
    fn run(&mut self, ui: &mut Ui<i32>) -> Option<El> {
        assert!(ComponentScope::inject(ui, MISSING_KEY).is_none());
        None
    }
}

#[test]
fn inject_misses_when_never_provided() {
    let mut ui: Ui<i32> = Ui::new();
    assert!(ComponentScope::inject(&ui, MISSING_KEY).is_none());
    let scope = ComponentScope::new(&mut ui, 0);
    scope.with(&mut ui, &mut MissCheck);
}

#[test]
fn provide_without_ambient_scope_is_silent() {
    let mut ui: Ui<i32> = Ui::new();
    ComponentScope::provide(&mut ui, COUNTER_KEY, 5);
    assert_eq!(ui.service_count(), 0);
    assert_eq!(ui.stack_depth(), 0);
    // nothing becomes observable afterwards either
    let scope = ComponentScope::new(&mut ui, 0);
    scope.with(&mut ui, &mut StillMissing);
}

struct StillMissing;

impl RenderBody<i32> for StillMissing {
    fn run(&mut self, ui: &mut Ui<i32>) -> Option<El> {
        assert!(ComponentScope::inject(ui, COUNTER_KEY).is_none());
        None
    }
}

#[test]
fn dyn_text_without_ambient_scope_fails() {
    let mut ui: Ui<i32> = Ui::new();
    let el = El::new(&mut ui, "span");
    let nodes_before = ui.node_count();
    assert_eq!(el.dyn_text(&mut ui), Err(UiError::AmbientContextMissing));
    assert_eq!(ui.node_count(), nodes_before);
    assert_eq!(ui.binding_count(), 0);
}

#[test]
fn dyn_child_without_ambient_scope_fails() {
    let mut ui: Ui<i32> = Ui::new();
    let el = El::new(&mut ui, "div");
    let nodes_before = ui.node_count();
    assert_eq!(el.dyn_child(&mut ui), Err(UiError::AmbientContextMissing));
    assert_eq!(ui.node_count(), nodes_before);
    assert_eq!(ui.binding_count(), 0);
}

struct LifetimeCheck;

impl RenderBody<i32> for LifetimeCheck {
    fn run(&mut self, ui: &mut Ui<i32>) -> Option<El> {
        assert_eq!(ComponentScope::reactive_scope(ui), Some(42));
        let current = ComponentScope::current_scope(ui).unwrap();
        assert_eq!(current.scope(ui), 42);
        let child = current.create_child(ui);
        assert_eq!(child.scope(ui), 42);
        None
    }
}

#[test]
fn scopes_expose_their_reactive_lifetime() {
    let mut ui: Ui<i32> = Ui::new();
    assert!(ComponentScope::reactive_scope(&ui).is_none());
    let scope = ComponentScope::new(&mut ui, 42);
    scope.with(&mut ui, &mut LifetimeCheck);
}

#[test]
fn registry_overwrites_and_misses() {
    let mut r = ServiceRegistry::new();
    assert_eq!(r.get(1), None);
    r.register(1, 0);
    r.register(2, 1);
    assert_eq!(r.get(1), Some(0));
    r.register(1, 5);
    assert_eq!(r.get(1), Some(5));
    assert_eq!(r.get(2), Some(1));
    assert_eq!(r.get(3), None);
    let copy = r.duplicate();
    assert_eq!(copy.get(1), Some(5));
    assert_eq!(copy.get(2), Some(1));
    assert_eq!(r.entries().len(), 3);
}

#[test]
fn element_builders_record_the_tree() {
    let mut ui: Ui<i32> = Ui::new();
    let root = El::new(&mut ui, "div");
    let root = root.attr(&mut ui, "style", "color: red");
    let root = root.text(&mut ui, "hello");
    let button = El::new(&mut ui, "button");
    let button = button.on(&mut ui, "click", 1);
    let root = root.child(&mut ui, button);
    assert!(ui.is_element(root.node));
    assert_eq!(ui.tag_of(root.node), "div");
    assert_eq!(ui.attr_count(root.node), 1);
    assert_eq!(ui.attr_name(root.node, 0), "style");
    assert_eq!(ui.attr_value(root.node, 0), "color: red");
    let kids = ui.children_of(root.node);
    assert_eq!(kids.len(), 2);
    assert!(!ui.is_element(kids[0]));
    assert_eq!(ui.text_of(kids[0]), "hello");
    assert_eq!(kids[1], button.node);
    assert_eq!(ui.listener_count(button.node), 1);
    assert_eq!(ui.listener_event(button.node, 0), "click");
    assert_eq!(ui.listener_handler(button.node, 0), 1);
}

struct ProvideOnce;

impl RenderBody<i32> for ProvideOnce {
    fn run(&mut self, ui: &mut Ui<i32>) -> Option<El> {
        ComponentScope::provide(ui, COUNTER_KEY, 10);
        None
    }
}

struct ReadBack {
    handle: Option<usize>,
}

impl RenderBody<i32> for ReadBack {
    fn run(&mut self, ui: &mut Ui<i32>) -> Option<El> {
        self.handle = ComponentScope::inject(ui, COUNTER_KEY);
        None
    }
}

#[test]
fn replace_service_is_seen_through_every_handle() {
    let mut ui: Ui<i32> = Ui::new();
    let scope = ComponentScope::new(&mut ui, 0);
    scope.with(&mut ui, &mut ProvideOnce);
    let mut reader = ReadBack { handle: None };
    scope.with(&mut ui, &mut reader);
    let handle = reader.handle.unwrap();
    let previous = ui.replace_service(handle, 11);
    assert_eq!(previous, 10);
    assert_eq!(*ui.service(handle), 11);
}
