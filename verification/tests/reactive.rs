use std::cell::Cell;
use std::cell::RefCell;
use std::rc::Rc;

use ambient_ui::component::{Component, RenderBody};
use ambient_ui::ui::{ComponentScope, El, Ui};
use leptos_reactive::{
    create_effect, create_runtime, create_scope, create_signal, ReadSignal, SignalGet,
    SignalUpdate, WriteSignal,
};

const COUNTER_KEY: u64 = 1;
const INCREMENT_HANDLER: u64 = 10;

#[derive(Clone, Copy)]
struct CounterService {
    count: (ReadSignal<i32>, WriteSignal<i32>),
}

impl CounterService {
    fn new(cx: leptos_reactive::Scope) -> Self {
        CounterService { count: create_signal(cx, 0) }
    }

    fn increment(&self) {
        self.count.1.update(|n| *n += 1);
    }

    fn get_count_signal(&self) -> ReadSignal<i32> {
        self.count.0
    }
}

struct TextSetup {
    binding: Option<usize>,
}

impl RenderBody<CounterService> for TextSetup {
    fn run(&mut self, ui: &mut Ui<CounterService>) -> Option<El> {
        let span = El::new(ui, "span");
        self.binding = Some(span.dyn_text(ui).expect("an ambient scope is present"));
        Some(span)
    }
}

#[test]
fn text_binding_tracks_signal() {
    let runtime = create_runtime();
    create_scope(runtime, |cx| {
        let (count, set_count) = create_signal(cx, 0);
        let ui = Rc::new(RefCell::new(Ui::<CounterService>::new()));
        let root = ComponentScope::new(&mut *ui.borrow_mut(), 0);
        let mut setup = TextSetup { binding: None };
        root.with(&mut *ui.borrow_mut(), &mut setup);
        let binding = setup.binding.unwrap();
        let node = ui.borrow().binding_node(binding);
        assert_eq!(ui.borrow().binding_lifetime(binding), 0);
        assert!(ui.borrow().is_text_binding(binding));
        // before the reactive system first runs the binding, the text node is empty
        assert_eq!(ui.borrow().text_of(node), "");

        // the external reactive system drives the binding's re-runs
        let ui_effect = Rc::clone(&ui);
        create_effect(cx, move |_| {
            let value = format!("Count: {}", count.get());
            ui_effect.borrow_mut().run_text_binding(binding, &value);
        });

        assert_eq!(ui.borrow().text_of(node), "Count: 0");
        set_count.update(|n| *n += 1);
        assert_eq!(ui.borrow().text_of(node), "Count: 1");
    })
    .dispose();
}

#[derive(Clone)]
struct CounterDisplay {
    button: Rc<Cell<Option<usize>>>,
    binding: Rc<Cell<Option<usize>>>,
    service: Rc<Cell<Option<usize>>>,
}

impl Component<CounterService> for CounterDisplay {
    fn on_init(&mut self) {}

    fn render(&self, ui: &mut Ui<CounterService>) -> El {
        let handle = ComponentScope::inject(ui, COUNTER_KEY).expect("counter provided by root");
        self.service.set(Some(handle));
        let root = El::new(ui, "div");
        let button = El::new(ui, "button");
        let button = button.text(ui, "+1");
        let button = button.on(ui, "click", INCREMENT_HANDLER);
        self.button.set(Some(button.node));
        let label = El::new(ui, "span");
        let binding = label.dyn_text(ui).expect("an ambient scope is present");
        self.binding.set(Some(binding));
        let root = root.child(ui, button);
        root.child(ui, label)
    }
}

struct RootBody {
    cx: leptos_reactive::Scope,
    display: CounterDisplay,
}

impl RenderBody<CounterService> for RootBody {
    fn run(&mut self, ui: &mut Ui<CounterService>) -> Option<El> {
        ComponentScope::provide(ui, COUNTER_KEY, CounterService::new(self.cx));
        Some(self.display.clone().mount(ui))
    }
}

fn snapshot(ui: &Ui<CounterService>) -> Vec<(String, String)> {
    let mut out = Vec::new();
    for n in 0..ui.node_count() {
        out.push((ui.tag_of(n), ui.text_of(n)));
    }
    out
}

#[test]
fn click_updates_only_the_count_text() {
    let runtime = create_runtime();
    create_scope(runtime, |cx| {
        let ui = Rc::new(RefCell::new(Ui::<CounterService>::new()));
        let root_scope = ComponentScope::new(&mut *ui.borrow_mut(), 0);
        let display = CounterDisplay {
            button: Rc::new(Cell::new(None)),
            binding: Rc::new(Cell::new(None)),
            service: Rc::new(Cell::new(None)),
        };
        let mut body = RootBody { cx, display: display.clone() };
        root_scope.with(&mut *ui.borrow_mut(), &mut body);

        let binding = display.binding.get().unwrap();
        let button = display.button.get().unwrap();
        let handle = display.service.get().unwrap();
        let node = ui.borrow().binding_node(binding);
        let service = *ui.borrow().service(handle);
        let count = service.get_count_signal();

        let ui_effect = Rc::clone(&ui);
        create_effect(cx, move |_| {
            let value = format!("Count: {}", count.get());
            ui_effect.borrow_mut().run_text_binding(binding, &value);
        });

        assert_eq!(ui.borrow().text_of(node), "Count: 0");
        let before = snapshot(&ui.borrow());

        // simulate one click on the button, through its recorded listener
        assert_eq!(ui.borrow().listener_event(button, 0), "click");
        assert_eq!(ui.borrow().listener_handler(button, 0), INCREMENT_HANDLER);
        service.increment();

        assert_eq!(ui.borrow().text_of(node), "Count: 1");
        let after = snapshot(&ui.borrow());
        assert_eq!(before.len(), after.len());
        for n in 0..before.len() {
            if n == node {
                assert_eq!(after[n].1, "Count: 1");
            } else {
                // no other node changed
                assert_eq!(before[n], after[n]);
            }
        }
    })
    .dispose();
}
