use ambient_ui::component::{Component, RenderBody};
use ambient_ui::ui::{ComponentScope, El, Ui};

const KEY: u64 = 3;

struct Setup {
    binding: Option<usize>,
    host: Option<usize>,
}

impl RenderBody<i32> for Setup {
    fn run(&mut self, ui: &mut Ui<i32>) -> Option<El> {
        let host = El::new(ui, "div");
        let binding = host.dyn_child(ui).expect("an ambient scope is present");
        self.binding = Some(binding);
        self.host = Some(host.node);
        Some(host)
    }
}

fn build_subtree_binding(ui: &mut Ui<i32>) -> usize {
    let root = ComponentScope::new(ui, 0);
    let mut setup = Setup { binding: None, host: None };
    root.with(ui, &mut setup);
    setup.binding.unwrap()
}

#[test]
fn subtree_rerenders_are_isolated() {
    let mut ui: Ui<i32> = Ui::new();
    let binding = build_subtree_binding(&mut ui);

    // first re-render: provides a service into its fresh scope
    let _first = ui.begin_subtree_rerun(binding);
    assert!(ComponentScope::inject(&ui, KEY).is_none());
    ComponentScope::provide(&mut ui, KEY, 41);
    assert!(ComponentScope::inject(&ui, KEY).is_some());
    let content = El::new(&mut ui, "span");
    ui.finish_subtree_rerun(binding, Some(content));
    assert_eq!(ui.stack_depth(), 0);

    // second re-render: no residue from the first render's child scope
    let _second = ui.begin_subtree_rerun(binding);
    assert!(ComponentScope::inject(&ui, KEY).is_none());
    ui.finish_subtree_rerun(binding, None);
    assert_eq!(ui.stack_depth(), 0);
}

#[test]
fn subtree_rerender_clears_and_rebuilds() {
    let mut ui: Ui<i32> = Ui::new();
    let binding = build_subtree_binding(&mut ui);
    let container = ui.binding_node(binding);
    assert_eq!(ui.tag_of(container), "div");
    assert_eq!(ui.attr_name(container, 0), "style");
    assert_eq!(ui.attr_value(container, 0), "display: contents");
    assert_eq!(ui.attr_name(container, 1), "data-dyn-child");

    let _first = ui.begin_subtree_rerun(binding);
    let first_content = El::new(&mut ui, "span").text(&mut ui, "one");
    ui.finish_subtree_rerun(binding, Some(first_content));
    assert_eq!(ui.children_of(container), vec![first_content.node]);

    let _second = ui.begin_subtree_rerun(binding);
    let second_content = El::new(&mut ui, "span").text(&mut ui, "two");
    ui.finish_subtree_rerun(binding, Some(second_content));
    // the previous children are discarded wholesale, not appended to
    assert_eq!(ui.children_of(container), vec![second_content.node]);

    let _third = ui.begin_subtree_rerun(binding);
    ui.finish_subtree_rerun(binding, None);
    assert_eq!(ui.children_of(container), Vec::<usize>::new());
}

struct Leaf;

impl Component<i32> for Leaf {
    fn on_init(&mut self) {}

    fn render(&self, ui: &mut Ui<i32>) -> El {
        let el = El::new(ui, "p");
        el.text(ui, "leaf")
    }
}

struct LeafBody;

impl RenderBody<i32> for LeafBody {
    fn run(&mut self, ui: &mut Ui<i32>) -> Option<El> {
        Some(Leaf.mount(ui))
    }
}

#[test]
fn rerun_subtree_drives_a_component() {
    let mut ui: Ui<i32> = Ui::new();
    let binding = build_subtree_binding(&mut ui);
    let container = ui.binding_node(binding);

    let mut body = LeafBody;
    ui.rerun_subtree(binding, &mut body);
    let kids = ui.children_of(container);
    assert_eq!(kids.len(), 1);
    assert_eq!(ui.tag_of(kids[0]), "p");
    assert_eq!(ui.stack_depth(), 0);

    ui.rerun_subtree(binding, &mut body);
    let kids = ui.children_of(container);
    // one child again: wholesale replacement, no accumulation
    assert_eq!(kids.len(), 1);
    assert_eq!(ui.tag_of(kids[0]), "p");
}

struct OnInitCounter {
    initialized: u32,
}

impl Component<i32> for OnInitCounter {
    fn on_init(&mut self) {
        self.initialized += 1;
    }

    fn render(&self, ui: &mut Ui<i32>) -> El {
        assert_eq!(self.initialized, 1);
        El::new(ui, "div")
    }
}

struct MountOnce;

impl RenderBody<i32> for MountOnce {
    fn run(&mut self, ui: &mut Ui<i32>) -> Option<El> {
        let component = OnInitCounter { initialized: 0 };
        Some(component.mount(ui))
    }
}

#[test]
fn mount_initializes_once_then_renders() {
    let mut ui: Ui<i32> = Ui::new();
    let scope = ComponentScope::new(&mut ui, 0);
    let result = scope.with(&mut ui, &mut MountOnce);
    let el = result.unwrap();
    assert_eq!(ui.tag_of(el.node), "div");
}
