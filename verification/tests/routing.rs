use luna::layout::dirty::Dirty;
use luna::layout::node::Node;
use luna::layout::rect::Rect;
use luna::signals::{ReadSignal, Runtime};
use luna::style::properties::{Align, Display, Flex, FlexDir, Justify, Style};
use luna::units::Vec2;
use luna::widgets::base::Widget;
use luna::widgets::build_context::BuildCtx;
use luna::windowing::events::{
    same_path, target_only, ElementState, EventCtx, EventKind, FocusManager, Key, Modifiers,
    MouseButton, NamedKey, Phase, WindowEvent,
};
use luna::windowing::{Window, WindowBuilder};
use std::cell::RefCell;
use std::rc::Rc;

type Log = Rc<RefCell<Vec<String>>>;

fn kind_name(ev: &EventKind) -> &'static str {
    match ev {
        EventKind::PointerDown { .. } => "down",
        EventKind::PointerUp { .. } => "up",
        EventKind::PointerMove { .. } => "move",
        EventKind::PointerLeave => "leave",
        EventKind::Wheel { .. } => "wheel",
        EventKind::KeyDown { .. } => "keydown",
        EventKind::KeyUp { .. } => "keyup",
        EventKind::CharInput { .. } => "char",
        EventKind::FocusIn => "focusin",
        EventKind::FocusOut => "focusout",
    }
}

#[derive(Clone)]
struct Probe {
    name: &'static str,
    size: Vec2,
    style: Style,
    kids: Vec<Probe>,
    log: Log,
    stop_in: Option<Phase>,
    focus_on_down: bool,
    focus_path: Option<Vec<usize>>,
    relayout_on: Option<&'static str>,
    reads: Option<ReadSignal<i32>>,
    shows_rect: bool,
    shows_focus: bool,
}

impl Probe {
    fn leaf(name: &'static str, w: i32, h: i32, log: &Log) -> Probe {
        Probe {
            name,
            size: Vec2::new(w, h),
            style: Style::default(),
            kids: vec![],
            log: log.clone(),
            stop_in: None,
            focus_on_down: false,
            focus_path: None,
            relayout_on: None,
            reads: None,
            shows_rect: false,
            shows_focus: false,
        }
    }

    fn with_kids(mut self, kids: Vec<Probe>) -> Probe {
        self.kids = kids;
        self
    }

    fn with_style(mut self, style: Style) -> Probe {
        self.style = style;
        self
    }
}

impl Widget for Probe {
    type Value = i32;
    type Env = ();

    fn build(&self, _ctx: &mut BuildCtx) -> Vec<Self> {
        self.kids.clone()
    }

    fn measure(&self, max_width: i32, rt: &mut Runtime<i32>, _env: &mut ()) -> Vec2 {
        self.log.borrow_mut().push(format!("measure {} {}", self.name, max_width));
        if let Some(signal) = &self.reads {
            signal.get(rt);
        }
        self.size
    }

    fn paint(&mut self, _layout: Rect, rt: &mut Runtime<i32>, _env: &mut ()) {
        self.log.borrow_mut().push(format!("paint {}", self.name));
        if let Some(signal) = &self.reads {
            signal.get(rt);
        }
    }

    fn event(&mut self, ctx: &mut EventCtx, ev: &EventKind, _rt: &mut Runtime<i32>) {
        self.log.borrow_mut().push(format!("{} {} {:?}", self.name, kind_name(ev), ctx.phase));
        if self.shows_focus {
            self.log.borrow_mut().push(format!(
                "{} sees {:?} shift {}",
                self.name,
                ctx.focus.path(),
                ctx.modifiers.shift
            ));
        }
        if self.shows_rect {
            let at = ctx.node_layout;
            self.log.borrow_mut().push(format!(
                "{} at {} {} {} {}",
                self.name, at.origin.x, at.origin.y, at.size.x, at.size.y
            ));
        }
        if self.stop_in == Some(ctx.phase) {
            ctx.stop_propagation();
        }
        if let EventKind::PointerDown { .. } = ev {
            if ctx.phase == Phase::Target {
                if self.focus_on_down {
                    ctx.focus.request_focus(ctx.path);
                }
                if let Some(path) = &self.focus_path {
                    ctx.focus.request_focus(path);
                }
            }
        }
        if self.relayout_on == Some(kind_name(ev)) {
            ctx.request_layout();
        }
    }

    fn style(&self) -> Style {
        self.style
    }
}

fn new_log() -> Log {
    Rc::new(RefCell::new(Vec::new()))
}

fn take(log: &Log) -> Vec<String> {
    log.borrow_mut().drain(..).collect()
}

fn rect(x: i32, y: i32, w: i32, h: i32) -> Rect {
    Rect::new(Vec2::new(x, y), Vec2::new(w, h))
}

fn row_style(gap: i32) -> Style {
    let mut style = Style::default();
    style.display = Display::Flex;
    style.flex = Flex {
        dir: FlexDir::Row,
        justify: Justify::Start,
        align: Align::Start,
        gap,
        fill_cross: false,
    };
    style
}

fn grow_tree(root: Probe, rt: &mut Runtime<i32>) -> Node<Probe> {
    Node::new(root, rect(0, 0, 400, 100), &mut BuildCtx, rt)
}

const CLEAN: Dirty = Dirty { self_dirty: false, child_dirty: false, paint_dirty: false };

// root (0,0,400,100), a row with a gap of 10
//   a (0,0,40,40)
//     a1 (0,0,40,40)
//   b (50,0,100,100)
fn family(log: &Log) -> Probe {
    let a1 = Probe::leaf("a1", 40, 40, log);
    let a = Probe::leaf("a", 100, 100, log).with_kids(vec![a1]);
    let b = Probe::leaf("b", 100, 100, log);
    Probe::leaf("root", 0, 0, log).with_style(row_style(10)).with_kids(vec![a, b])
}

fn settled(root: Probe, log: &Log, rt: &mut Runtime<i32>) -> Node<Probe> {
    let mut node = grow_tree(root, rt);
    node.layout(400, rt, &mut ());
    node.collect(rt, &mut ());
    clean(&mut node);
    take(log);
    node
}

fn clean(node: &mut Node<Probe>) {
    node.dirty = CLEAN;
    for child in &mut node.children {
        clean(child);
    }
}

fn moved(x: i32, y: i32) -> WindowEvent {
    WindowEvent::CursorMoved { position: Vec2::new(x, y) }
}

fn pressed() -> WindowEvent {
    WindowEvent::MouseInput { state: ElementState::Pressed, button: MouseButton::Left }
}

const IN_A: (i32, i32) = (20, 20);
const IN_B: (i32, i32) = (60, 50);
const IN_GAP: (i32, i32) = (45, 50);
const OUTSIDE: (i32, i32) = (500, 500);

#[test]
fn hit_testing_finds_the_deepest_node() {
    let log = new_log();
    let mut rt: Runtime<i32> = Runtime::new();
    let node = settled(family(&log), &log, &mut rt);
    let mut path = vec![];
    assert!(node.hittest(Vec2::new(20, 20), &mut path));
    assert_eq!(path, vec![0, 0]);
    let mut path = vec![];
    assert!(node.hittest(Vec2::new(60, 50), &mut path));
    assert_eq!(path, vec![1]);
    let mut path = vec![];
    assert!(node.hittest(Vec2::new(45, 50), &mut path));
    assert!(path.is_empty());
    let mut path = vec![7];
    assert!(!node.hittest(Vec2::new(500, 500), &mut path));
    assert_eq!(path, vec![7]);
    let mut path = vec![7];
    assert!(node.hittest(Vec2::new(60, 50), &mut path));
    assert_eq!(path, vec![1, 7]);
}

#[test]
fn of_two_children_that_hold_a_point_the_earlier_is_hit() {
    let log = new_log();
    let mut rt: Runtime<i32> = Runtime::new();
    let root = Probe::leaf("root", 0, 0, &log)
        .with_style(row_style(0))
        .with_kids(vec![Probe::leaf("a", 50, 50, &log), Probe::leaf("b", 50, 50, &log)]);
    let node = settled(root, &log, &mut rt);
    let mut path = vec![];
    assert!(node.hittest(Vec2::new(50, 10), &mut path));
    assert_eq!(path, vec![0]);
}

#[test]
fn paths_are_valid_when_they_name_a_child_at_every_step() {
    let log = new_log();
    let mut rt: Runtime<i32> = Runtime::new();
    let node = settled(family(&log), &log, &mut rt);
    assert!(node.is_valid_path(&[]));
    assert!(node.is_valid_path(&[0]));
    assert!(node.is_valid_path(&[0, 0]));
    assert!(node.is_valid_path(&[1]));
    assert!(!node.is_valid_path(&[2]));
    assert!(!node.is_valid_path(&[1, 0]));
    assert!(!node.is_valid_path(&[0, 0, 0]));
}

#[test]
fn a_delivery_runs_capture_target_and_bubble() {
    let log = new_log();
    let mut rt: Runtime<i32> = Runtime::new();
    let mut node = settled(family(&log), &log, &mut rt);
    let mut focus = FocusManager::default();
    node.route_window_event(&moved(IN_A.0, IN_A.1), &mut focus, &mut rt);
    assert_eq!(
        take(&log),
        vec![
            "root move Capture",
            "a move Capture",
            "a1 move Capture",
            "a1 move Target",
            "a1 move Bubble",
            "a move Bubble",
            "root move Bubble",
        ]
    );
    assert_eq!(node.hover_path, vec![0, 0]);
}

#[test]
fn every_visited_node_is_painted_again_and_no_other() {
    let log = new_log();
    let mut rt: Runtime<i32> = Runtime::new();
    let mut node = settled(family(&log), &log, &mut rt);
    let mut focus = FocusManager::default();
    node.route_window_event(&moved(IN_A.0, IN_A.1), &mut focus, &mut rt);
    let painted = Dirty { self_dirty: false, child_dirty: false, paint_dirty: true };
    assert_eq!(node.dirty, painted);
    assert_eq!(node.children[0].dirty, painted);
    assert_eq!(node.children[0].children[0].dirty, painted);
    assert_eq!(node.children[1].dirty, CLEAN);
    assert_eq!(node.children[1].layout_rect, rect(50, 0, 100, 100));
}

#[test]
fn moving_from_one_node_to_another_tells_the_first_that_the_pointer_left() {
    let log = new_log();
    let mut rt: Runtime<i32> = Runtime::new();
    let mut node = settled(family(&log), &log, &mut rt);
    let mut focus = FocusManager::default();
    node.route_window_event(&moved(IN_A.0, IN_A.1), &mut focus, &mut rt);
    take(&log);
    node.route_window_event(&moved(IN_B.0, IN_B.1), &mut focus, &mut rt);
    assert_eq!(
        take(&log),
        vec![
            "a1 leave Target",
            "root move Capture",
            "b move Capture",
            "b move Target",
            "b move Bubble",
            "root move Bubble",
        ]
    );
    assert_eq!(node.hover_path, vec![1]);
}

#[test]
fn moving_within_a_node_only_tells_it_of_the_move() {
    let log = new_log();
    let mut rt: Runtime<i32> = Runtime::new();
    let mut node = settled(family(&log), &log, &mut rt);
    let mut focus = FocusManager::default();
    node.route_window_event(&moved(IN_B.0, IN_B.1), &mut focus, &mut rt);
    take(&log);
    node.route_window_event(&moved(IN_B.0 + 5, IN_B.1 + 5), &mut focus, &mut rt);
    assert_eq!(
        take(&log),
        vec!["root move Capture", "b move Capture", "b move Target", "b move Bubble", "root move Bubble"]
    );
    assert_eq!(node.hover_path, vec![1]);
}

#[test]
fn moving_off_the_tree_clears_the_hover() {
    let log = new_log();
    let mut rt: Runtime<i32> = Runtime::new();
    let mut node = settled(family(&log), &log, &mut rt);
    let mut focus = FocusManager::default();
    node.route_window_event(&moved(IN_B.0, IN_B.1), &mut focus, &mut rt);
    take(&log);
    node.route_window_event(&moved(OUTSIDE.0, OUTSIDE.1), &mut focus, &mut rt);
    assert_eq!(take(&log), vec!["b leave Target"]);
    assert!(node.hover_path.is_empty());
    node.route_window_event(&moved(OUTSIDE.0, OUTSIDE.1), &mut focus, &mut rt);
    assert!(take(&log).is_empty());
}

#[test]
fn the_pointer_leaving_the_window_clears_the_hover() {
    let log = new_log();
    let mut rt: Runtime<i32> = Runtime::new();
    let mut node = settled(family(&log), &log, &mut rt);
    let mut focus = FocusManager::default();
    node.route_window_event(&moved(IN_A.0, IN_A.1), &mut focus, &mut rt);
    take(&log);
    node.route_window_event(&WindowEvent::CursorLeft, &mut focus, &mut rt);
    assert_eq!(take(&log), vec!["a1 leave Target"]);
    assert!(node.hover_path.is_empty());
    node.route_window_event(&WindowEvent::CursorLeft, &mut focus, &mut rt);
    assert!(take(&log).is_empty());
}

#[test]
fn moving_onto_the_root_alone_hovers_nothing() {
    let log = new_log();
    let mut rt: Runtime<i32> = Runtime::new();
    let mut node = settled(family(&log), &log, &mut rt);
    let mut focus = FocusManager::default();
    node.route_window_event(&moved(IN_GAP.0, IN_GAP.1), &mut focus, &mut rt);
    assert_eq!(take(&log), vec!["root move Capture", "root move Target", "root move Bubble"]);
    assert!(node.hover_path.is_empty());
    node.route_window_event(&pressed(), &mut focus, &mut rt);
    assert!(take(&log).is_empty());
}

#[test]
fn buttons_and_the_wheel_go_to_the_hovered_node() {
    let log = new_log();
    let mut rt: Runtime<i32> = Runtime::new();
    let mut node = settled(family(&log), &log, &mut rt);
    let mut focus = FocusManager::default();
    node.route_window_event(&pressed(), &mut focus, &mut rt);
    node.route_window_event(&WindowEvent::MouseWheel { delta: Vec2::new(0, 3) }, &mut focus, &mut rt);
    assert!(take(&log).is_empty());
    node.route_window_event(&moved(IN_B.0, IN_B.1), &mut focus, &mut rt);
    take(&log);
    node.route_window_event(&pressed(), &mut focus, &mut rt);
    assert_eq!(
        take(&log),
        vec!["root down Capture", "b down Capture", "b down Target", "b down Bubble", "root down Bubble"]
    );
    let released = WindowEvent::MouseInput { state: ElementState::Released, button: MouseButton::Left };
    node.route_window_event(&released, &mut focus, &mut rt);
    assert_eq!(
        take(&log),
        vec!["root up Capture", "b up Capture", "b up Target", "b up Bubble", "root up Bubble"]
    );
    node.route_window_event(&WindowEvent::MouseWheel { delta: Vec2::new(0, 3) }, &mut focus, &mut rt);
    assert_eq!(
        take(&log),
        vec![
            "root wheel Capture",
            "b wheel Capture",
            "b wheel Target",
            "b wheel Bubble",
            "root wheel Bubble",
        ]
    );
}

#[test]
fn stopping_in_the_capture_pass_halts_the_descent() {
    let log = new_log();
    let mut rt: Runtime<i32> = Runtime::new();
    let mut root = family(&log);
    root.kids[0].stop_in = Some(Phase::Capture);
    let mut node = settled(root, &log, &mut rt);
    let mut focus = FocusManager::default();
    node.route_window_event(&moved(IN_A.0, IN_A.1), &mut focus, &mut rt);
    assert_eq!(
        take(&log),
        vec![
            "root move Capture",
            "a move Capture",
            "a1 move Target",
            "a1 move Bubble",
            "a move Bubble",
            "root move Bubble",
        ]
    );
}

#[test]
fn stopping_in_the_bubble_pass_halts_the_ascent() {
    let log = new_log();
    let mut rt: Runtime<i32> = Runtime::new();
    let mut root = family(&log);
    root.kids[0].stop_in = Some(Phase::Bubble);
    let mut node = settled(root, &log, &mut rt);
    let mut focus = FocusManager::default();
    node.route_window_event(&moved(IN_A.0, IN_A.1), &mut focus, &mut rt);
    assert_eq!(
        take(&log),
        vec![
            "root move Capture",
            "a move Capture",
            "a1 move Capture",
            "a1 move Target",
            "a1 move Bubble",
            "a move Bubble",
        ]
    );
    assert!(!node.dirty.self_dirty);
    assert!(node.dirty.paint_dirty);
}

#[test]
fn focus_changes_after_the_press_has_been_delivered_in_full() {
    let log = new_log();
    let mut rt: Runtime<i32> = Runtime::new();
    let mut root = family(&log);
    root.kids[0].kids[0].focus_on_down = true;
    root.kids[1].focus_on_down = true;
    let mut node = settled(root, &log, &mut rt);
    let mut focus = FocusManager::default();

    node.route_window_event(&moved(IN_A.0, IN_A.1), &mut focus, &mut rt);
    take(&log);
    node.route_window_event(&pressed(), &mut focus, &mut rt);
    assert_eq!(
        take(&log),
        vec![
            "root down Capture",
            "a down Capture",
            "a1 down Capture",
            "a1 down Target",
            "a1 down Bubble",
            "a down Bubble",
            "root down Bubble",
            "a1 focusin Target",
        ]
    );
    assert_eq!(focus.path(), &[0, 0]);
    assert!(focus.has_focus(&[0, 0]));

    node.route_window_event(&moved(IN_B.0, IN_B.1), &mut focus, &mut rt);
    take(&log);
    node.route_window_event(&pressed(), &mut focus, &mut rt);
    assert_eq!(
        take(&log),
        vec![
            "root down Capture",
            "b down Capture",
            "b down Target",
            "b down Bubble",
            "root down Bubble",
            "a1 focusout Target",
            "b focusin Target",
        ]
    );
    assert_eq!(focus.path(), &[1]);

    // a press on the node that has the focus changes nothing
    node.route_window_event(&pressed(), &mut focus, &mut rt);
    assert_eq!(
        take(&log),
        vec!["root down Capture", "b down Capture", "b down Target", "b down Bubble", "root down Bubble"]
    );
    assert_eq!(focus.path(), &[1]);
}

#[test]
fn a_request_for_a_path_that_leads_nowhere_is_dropped() {
    let log = new_log();
    let mut rt: Runtime<i32> = Runtime::new();
    let mut root = family(&log);
    root.kids[1].focus_path = Some(vec![1, 4]);
    let mut node = settled(root, &log, &mut rt);
    let mut focus = FocusManager::default();
    node.route_window_event(&moved(IN_B.0, IN_B.1), &mut focus, &mut rt);
    take(&log);
    node.route_window_event(&pressed(), &mut focus, &mut rt);
    assert_eq!(take(&log).len(), 5);
    assert!(focus.path().is_empty());
}

#[test]
fn keys_and_characters_go_to_the_focused_node() {
    let log = new_log();
    let mut rt: Runtime<i32> = Runtime::new();
    let mut root = family(&log);
    root.kids[1].focus_on_down = true;
    let mut node = settled(root, &log, &mut rt);
    let mut focus = FocusManager::default();
    let key = WindowEvent::KeyboardInput {
        state: ElementState::Pressed,
        key: Key::Named(NamedKey::Enter),
        text: None,
    };
    // nothing is focused and the key makes no text: dropped
    node.route_window_event(&key, &mut focus, &mut rt);
    assert!(take(&log).is_empty());

    node.route_window_event(&moved(IN_B.0, IN_B.1), &mut focus, &mut rt);
    node.route_window_event(&pressed(), &mut focus, &mut rt);
    take(&log);
    // the pointer goes elsewhere; the focus stays
    node.route_window_event(&moved(IN_A.0, IN_A.1), &mut focus, &mut rt);
    take(&log);
    node.route_window_event(&key, &mut focus, &mut rt);
    assert_eq!(
        take(&log),
        vec![
            "root keydown Capture",
            "b keydown Capture",
            "b keydown Target",
            "b keydown Bubble",
            "root keydown Bubble",
        ]
    );
    let typed = WindowEvent::KeyboardInput {
        state: ElementState::Released,
        key: Key::Character('x'),
        text: Some('x'),
    };
    node.route_window_event(&typed, &mut focus, &mut rt);
    assert_eq!(
        take(&log),
        vec![
            "root keyup Capture",
            "b keyup Capture",
            "b keyup Target",
            "b keyup Bubble",
            "root keyup Bubble",
            "root char Capture",
            "b char Capture",
            "b char Target",
            "b char Bubble",
            "root char Bubble",
        ]
    );
    node.route_window_event(&WindowEvent::ImePreedit { first: Some('y') }, &mut focus, &mut rt);
    assert_eq!(take(&log).len(), 5);
    node.route_window_event(&WindowEvent::ImePreedit { first: None }, &mut focus, &mut rt);
    assert!(take(&log).is_empty());
}

#[test]
fn a_key_with_text_goes_to_the_root_when_nothing_is_focused() {
    let log = new_log();
    let mut rt: Runtime<i32> = Runtime::new();
    let mut node = settled(family(&log), &log, &mut rt);
    let mut focus = FocusManager::default();
    let typed = WindowEvent::KeyboardInput {
        state: ElementState::Pressed,
        key: Key::Character('x'),
        text: Some('x'),
    };
    node.route_window_event(&typed, &mut focus, &mut rt);
    assert_eq!(
        take(&log),
        vec![
            "root keydown Capture",
            "root keydown Target",
            "root keydown Bubble",
            "root char Capture",
            "root char Target",
            "root char Bubble",
        ]
    );
    node.route_window_event(&WindowEvent::ImePreedit { first: Some('y') }, &mut focus, &mut rt);
    assert!(take(&log).is_empty());
}

#[test]
fn the_window_losing_the_focus_blurs_the_focused_node() {
    let log = new_log();
    let mut rt: Runtime<i32> = Runtime::new();
    let mut root = family(&log);
    root.kids[1].focus_on_down = true;
    let mut node = settled(root, &log, &mut rt);
    let mut focus = FocusManager::default();
    node.route_window_event(&moved(IN_B.0, IN_B.1), &mut focus, &mut rt);
    node.route_window_event(&pressed(), &mut focus, &mut rt);
    take(&log);
    node.route_window_event(&WindowEvent::Focused(true), &mut focus, &mut rt);
    assert!(take(&log).is_empty());
    assert_eq!(focus.path(), &[1]);
    node.route_window_event(&WindowEvent::Focused(false), &mut focus, &mut rt);
    assert_eq!(take(&log), vec!["b focusout Target"]);
    assert!(focus.path().is_empty());
    node.route_window_event(&WindowEvent::Focused(false), &mut focus, &mut rt);
    assert!(take(&log).is_empty());
}

#[test]
fn a_request_waits_until_an_event_is_routed() {
    let log = new_log();
    let mut rt: Runtime<i32> = Runtime::new();
    let mut node = settled(family(&log), &log, &mut rt);
    let mut focus = FocusManager::default();
    focus.request_focus(&[1]);
    assert!(focus.path().is_empty());
    // an event that is dropped carries no change of focus out
    node.route_window_event(&pressed(), &mut focus, &mut rt);
    assert!(focus.path().is_empty());
    assert!(take(&log).is_empty());
    node.route_window_event(&WindowEvent::Other, &mut focus, &mut rt);
    assert_eq!(take(&log), vec!["b focusin Target"]);
    assert_eq!(focus.path(), &[1]);
    focus.blur();
    node.route_window_event(&WindowEvent::Other, &mut focus, &mut rt);
    assert_eq!(take(&log), vec!["b focusout Target"]);
    assert!(focus.path().is_empty());
}

#[test]
fn modifiers_are_kept_and_shown_to_handlers() {
    let log = new_log();
    let mut rt: Runtime<i32> = Runtime::new();
    let mut node = settled(family(&log), &log, &mut rt);
    let mut focus = FocusManager::default();
    assert_eq!(focus.modifiers(), Modifiers::none());
    let held = Modifiers { shift: true, control: false, alt: true, meta: false };
    node.route_window_event(&WindowEvent::ModifiersChanged(held), &mut focus, &mut rt);
    assert_eq!(focus.modifiers(), held);
    assert!(take(&log).is_empty());
    node.route_window_event(&moved(IN_B.0, IN_B.1), &mut focus, &mut rt);
    assert_eq!(focus.modifiers(), held);
    let path = [1usize];
    let ctx = EventCtx::new(Phase::Target, focus, &path, rect(0, 0, 0, 0), held);
    assert_eq!(ctx.modifiers, held);
    assert_eq!(ctx.focus.modifiers(), held);
    assert_eq!(ctx.phase, Phase::Target);
    assert!(!ctx.is_stopped());
    assert!(!ctx.layout_requested);
    assert!(!ctx.default_prevented);
}

#[test]
fn the_context_records_what_handlers_ask_for() {
    let path = [2usize, 3];
    let mut ctx = EventCtx::new(
        Phase::Bubble,
        FocusManager::default(),
        &path,
        rect(1, 2, 3, 4),
        Modifiers::none(),
    );
    ctx.request_layout();
    assert!(ctx.layout_requested && !ctx.is_stopped() && !ctx.default_prevented);
    ctx.stop_propagation();
    assert!(ctx.is_stopped() && !ctx.default_prevented);
    ctx.prevent_default();
    assert!(ctx.default_prevented);
    assert_eq!(ctx.path, &[2, 3]);
    assert_eq!(ctx.node_layout, rect(1, 2, 3, 4));
    ctx.focus.request_focus(ctx.path);
    let mut focus = ctx.focus;
    assert_eq!(focus.take_change_request(), Some(vec![2, 3]));
    assert_eq!(focus.take_change_request(), None);
    focus.commit_focus_change(vec![2, 3]);
    assert!(focus.has_focus(&[2, 3]));
    assert!(!focus.has_focus(&[2]));
}

#[test]
fn a_handler_that_asks_for_a_layout_dirties_the_nodes_visited_from_then_on() {
    let log = new_log();
    let mut rt: Runtime<i32> = Runtime::new();
    let mut root = family(&log);
    root.kids[0].kids[0].relayout_on = Some("wheel");
    let mut node = settled(root, &log, &mut rt);
    let mut focus = FocusManager::default();
    node.route_window_event(&moved(IN_A.0, IN_A.1), &mut focus, &mut rt);
    clean(&mut node);
    node.route_window_event(&WindowEvent::MouseWheel { delta: Vec2::new(0, 1) }, &mut focus, &mut rt);
    let all = Dirty { self_dirty: true, child_dirty: true, paint_dirty: true };
    // asked at the target; in the bubble pass the request rises with the event
    assert_eq!(node.children[0].children[0].dirty, all);
    assert_eq!(node.children[0].dirty, all);
    assert_eq!(node.dirty, all);
    assert_eq!(node.children[1].dirty, CLEAN);
}

#[test]
fn leaving_and_focus_events_go_to_their_target_alone() {
    assert!(target_only(EventKind::PointerLeave));
    assert!(target_only(EventKind::FocusIn));
    assert!(target_only(EventKind::FocusOut));
    assert!(!target_only(EventKind::PointerMove { pos: Vec2::new(0, 0) }));
    assert!(!target_only(EventKind::CharInput { ch: 'a' }));
    assert!(same_path(&[1, 2], &[1, 2]));
    assert!(!same_path(&[1, 2], &[1]));
    assert!(!same_path(&[1, 2], &[1, 3]));
    assert!(same_path(&[], &[]));
}

#[test]
fn delivering_to_a_path_that_leads_nowhere_does_nothing() {
    let log = new_log();
    let mut rt: Runtime<i32> = Runtime::new();
    let mut node = settled(family(&log), &log, &mut rt);
    let mut focus = FocusManager::default();
    node.deliver(&[3], EventKind::FocusIn, &mut focus, &mut rt);
    assert!(take(&log).is_empty());
    assert_eq!(node.dirty, CLEAN);
    node.deliver(&[1], EventKind::FocusIn, &mut focus, &mut rt);
    assert_eq!(take(&log), vec!["b focusin Target"]);
    node.send_to_path(&[0], EventKind::Wheel { delta: Vec2::new(1, 1) }, &mut focus, &mut rt);
    assert_eq!(take(&log).len(), 5);
}

#[test]
fn a_window_is_built_marked_redrawn_and_resized() {
    let log = new_log();
    let mut rt: Runtime<i32> = Runtime::new();
    luna::signals::init_reactivity(&mut rt);
    let (read, write) = luna::signals::create_signal(&mut rt, 1);
    let mut root = family(&log);
    root.kids[1].reads = Some(read);
    let mut window: Window<Probe> = WindowBuilder.build(root, Vec2::new(400, 100), &mut rt);
    assert_eq!(window.root.layout_rect, rect(0, 0, 400, 100));
    assert!(window.focus.path().is_empty());
    assert_eq!(window.redraw(400, &mut rt, &mut ()), Vec2::new(150, 100));
    assert!(!window.root.dirty.paint_dirty);
    take(&log);

    write.set(&mut rt, 2);
    write.set(&mut rt, 3);
    let unknown = luna::signals::NodeId::new(&mut rt);
    let scope = luna::signals::ScopedNodeContext::new(&mut rt, unknown);
    read.get(&mut rt);
    scope.exit(&mut rt);
    write.set(&mut rt, 4);
    // b twice, then b and the node that is not in the tree
    assert_eq!(window.mark_pending(&mut rt), 3);
    assert!(rt.drain_dirty().is_empty());
    assert!(window.root.children[1].dirty.self_dirty);
    window.redraw(400, &mut rt, &mut ());
    assert_eq!(take(&log), vec!["paint root", "paint b"]);

    window.resized(Vec2::new(400, 100));
    assert_eq!(window.root.dirty, Dirty { self_dirty: true, child_dirty: false, paint_dirty: true });
    window.resized(Vec2::new(200, 50));
    assert_eq!(window.root.layout_rect, rect(0, 0, 200, 50));
    assert_eq!(window.root.dirty, Dirty { self_dirty: true, child_dirty: true, paint_dirty: true });

    window.route(&moved(IN_B.0, IN_B.1), &mut rt);
    assert_eq!(window.root.hover_path, vec![1]);
}

#[test]
fn a_press_without_a_hovered_node_leaves_every_flag_as_it_was() {
    let log = new_log();
    let mut rt: Runtime<i32> = Runtime::new();
    let mut node = settled(family(&log), &log, &mut rt);
    let mut focus = FocusManager::default();
    node.route_window_event(&pressed(), &mut focus, &mut rt);
    node.route_window_event(&WindowEvent::MouseWheel { delta: Vec2::new(0, 3) }, &mut focus, &mut rt);
    assert!(take(&log).is_empty());
    assert_eq!(node.dirty, CLEAN);
    assert_eq!(node.children[0].dirty, CLEAN);
    assert_eq!(node.children[0].children[0].dirty, CLEAN);
    assert_eq!(node.children[1].dirty, CLEAN);
    assert!(node.hover_path.is_empty());
    assert!(focus.path().is_empty());
}

#[test]
fn a_request_for_the_focused_path_is_used_up() {
    let log = new_log();
    let mut rt: Runtime<i32> = Runtime::new();
    let mut root = family(&log);
    root.kids[1].focus_on_down = true;
    let mut node = settled(root, &log, &mut rt);
    let mut focus = FocusManager::default();
    node.route_window_event(&moved(IN_B.0, IN_B.1), &mut focus, &mut rt);
    node.route_window_event(&pressed(), &mut focus, &mut rt);
    assert_eq!(focus.path(), &[1]);
    take(&log);
    // the second press asks for the path that is focused already
    node.route_window_event(&pressed(), &mut focus, &mut rt);
    assert_eq!(take(&log).len(), 5);
    assert_eq!(focus.path(), &[1]);
    assert!(focus.take_change_request().is_none());
}

#[test]
fn no_request_waits_once_a_request_that_leads_nowhere_was_dropped() {
    let log = new_log();
    let mut rt: Runtime<i32> = Runtime::new();
    let mut root = family(&log);
    root.kids[1].focus_path = Some(vec![1, 4]);
    let mut node = settled(root, &log, &mut rt);
    let mut focus = FocusManager::default();
    node.route_window_event(&moved(IN_B.0, IN_B.1), &mut focus, &mut rt);
    node.route_window_event(&pressed(), &mut focus, &mut rt);
    assert!(focus.path().is_empty());
    assert!(focus.take_change_request().is_none());
}

#[test]
fn every_handler_is_shown_the_rectangle_of_its_own_node() {
    let log = new_log();
    let mut rt: Runtime<i32> = Runtime::new();
    let mut root = family(&log);
    root.shows_rect = true;
    root.kids[1].shows_rect = true;
    let mut node = settled(root, &log, &mut rt);
    let mut focus = FocusManager::default();
    node.deliver(&[1], EventKind::Wheel { delta: Vec2::new(0, 1) }, &mut focus, &mut rt);
    assert_eq!(
        take(&log),
        vec![
            "root wheel Capture",
            "root at 0 0 400 100",
            "b wheel Capture",
            "b at 50 0 100 100",
            "b wheel Target",
            "b at 50 0 100 100",
            "b wheel Bubble",
            "b at 50 0 100 100",
            "root wheel Bubble",
            "root at 0 0 400 100",
        ]
    );
}

#[test]
fn the_target_pass_runs_the_handler_of_the_target_alone() {
    let log = new_log();
    let mut rt: Runtime<i32> = Runtime::new();
    let mut node = settled(family(&log), &log, &mut rt);
    let mut focus = FocusManager::default();
    node.deliver(&[0, 0], EventKind::FocusIn, &mut focus, &mut rt);
    assert_eq!(take(&log), vec!["a1 focusin Target"]);
    assert_eq!(node.dirty, CLEAN);
    assert_eq!(node.children[0].dirty, CLEAN);
    assert_eq!(node.children[1].dirty, CLEAN);
    assert_eq!(
        node.children[0].children[0].dirty,
        Dirty { self_dirty: false, child_dirty: false, paint_dirty: true }
    );
}

fn keyed(key: NamedKey) -> WindowEvent {
    WindowEvent::KeyboardInput { state: ElementState::Pressed, key: Key::Named(key), text: None }
}

#[test]
fn the_handlers_of_a_press_see_the_focus_where_it_was() {
    let log = new_log();
    let mut rt: Runtime<i32> = Runtime::new();
    let mut root = family(&log);
    root.kids[0].kids[0].focus_on_down = true;
    root.kids[1].focus_on_down = true;
    root.kids[1].shows_focus = true;
    let mut node = settled(root, &log, &mut rt);
    let mut focus = FocusManager::default();
    node.route_window_event(&moved(IN_A.0, IN_A.1), &mut focus, &mut rt);
    node.route_window_event(&pressed(), &mut focus, &mut rt);
    assert_eq!(focus.path(), &[0, 0]);
    node.route_window_event(&moved(IN_B.0, IN_B.1), &mut focus, &mut rt);
    take(&log);
    node.route_window_event(&pressed(), &mut focus, &mut rt);
    assert_eq!(
        take(&log),
        vec![
            "root down Capture",
            "b down Capture",
            "b sees [0, 0] shift false",
            "b down Target",
            "b sees [0, 0] shift false",
            "b down Bubble",
            "b sees [0, 0] shift false",
            "root down Bubble",
            "a1 focusout Target",
            "b focusin Target",
            "b sees [0, 0] shift false",
        ]
    );
    assert_eq!(focus.path(), &[1]);
    assert!(focus.take_change_request().is_none());
}

#[test]
fn a_key_goes_along_the_focused_path_and_leaves_focus_and_hover() {
    let log = new_log();
    let mut rt: Runtime<i32> = Runtime::new();
    let mut root = family(&log);
    root.kids[0].kids[0].focus_on_down = true;
    let mut node = settled(root, &log, &mut rt);
    let mut focus = FocusManager::default();
    node.route_window_event(&moved(IN_A.0, IN_A.1), &mut focus, &mut rt);
    node.route_window_event(&pressed(), &mut focus, &mut rt);
    node.route_window_event(&moved(IN_B.0, IN_B.1), &mut focus, &mut rt);
    take(&log);
    node.route_window_event(&keyed(NamedKey::Enter), &mut focus, &mut rt);
    assert_eq!(
        take(&log),
        vec![
            "root keydown Capture",
            "a keydown Capture",
            "a1 keydown Capture",
            "a1 keydown Target",
            "a1 keydown Bubble",
            "a keydown Bubble",
            "root keydown Bubble",
        ]
    );
    assert_eq!(focus.path(), &[0, 0]);
    assert_eq!(node.hover_path, vec![1]);
    assert!(focus.take_change_request().is_none());
}

#[test]
fn later_handlers_are_shown_the_modifiers_that_were_set() {
    let log = new_log();
    let mut rt: Runtime<i32> = Runtime::new();
    let mut root = family(&log);
    root.kids[1].shows_focus = true;
    let mut node = settled(root, &log, &mut rt);
    let mut focus = FocusManager::default();
    let held = Modifiers { shift: true, control: false, alt: false, meta: false };
    node.route_window_event(&WindowEvent::ModifiersChanged(held), &mut focus, &mut rt);
    assert!(take(&log).is_empty());
    node.deliver(&[1], EventKind::FocusIn, &mut focus, &mut rt);
    assert_eq!(take(&log), vec!["b focusin Target", "b sees [] shift true"]);
    node.route_window_event(&moved(IN_B.0, IN_B.1), &mut focus, &mut rt);
    node.route_window_event(&WindowEvent::ModifiersChanged(Modifiers::none()), &mut focus, &mut rt);
    take(&log);
    node.route_window_event(&pressed(), &mut focus, &mut rt);
    let seen: Vec<String> = take(&log).into_iter().filter(|l| l.contains("sees")).collect();
    assert_eq!(seen, vec!["b sees [] shift false"; 3]);
}

#[test]
fn a_second_leaving_of_the_window_tells_nobody() {
    let log = new_log();
    let mut rt: Runtime<i32> = Runtime::new();
    let mut node = settled(family(&log), &log, &mut rt);
    let mut focus = FocusManager::default();
    node.route_window_event(&moved(IN_B.0, IN_B.1), &mut focus, &mut rt);
    take(&log);
    node.route_window_event(&WindowEvent::CursorLeft, &mut focus, &mut rt);
    assert_eq!(take(&log), vec!["b leave Target"]);
    assert!(node.hover_path.is_empty());
    assert!(focus.take_change_request().is_none());
    node.route_window_event(&WindowEvent::CursorLeft, &mut focus, &mut rt);
    assert!(take(&log).is_empty());
    assert!(focus.path().is_empty());
}

#[test]
fn the_focus_manager_is_what_the_last_handler_left() {
    let log = new_log();
    let mut rt: Runtime<i32> = Runtime::new();
    let mut root = family(&log);
    root.kids[1].focus_path = Some(vec![0]);
    let mut node = settled(root, &log, &mut rt);
    let mut focus = FocusManager::default();
    node.deliver(
        &[1],
        EventKind::PointerDown { button: MouseButton::Left, pos: Vec2::new(0, 0) },
        &mut focus,
        &mut rt,
    );
    // delivering alone carries out no change of focus: the request waits
    assert!(focus.path().is_empty());
    assert_eq!(focus.take_change_request(), Some(vec![0]));
}

#[test]
fn no_subscriber_is_running_once_an_event_was_routed() {
    let log = new_log();
    let mut rt: Runtime<i32> = Runtime::new();
    luna::signals::init_reactivity(&mut rt);
    let mut node = settled(family(&log), &log, &mut rt);
    let mut focus = FocusManager::default();
    node.route_window_event(&moved(IN_A.0, IN_A.1), &mut focus, &mut rt);
    node.route_window_event(&pressed(), &mut focus, &mut rt);
    let (read, write) = luna::signals::create_signal(&mut rt, 1);
    read.get(&mut rt);
    rt.drain_dirty();
    assert!(write.set(&mut rt, 2).is_empty());
    assert!(rt.drain_dirty().is_empty());
}
