use luna::layout::dirty::Dirty;
use luna::layout::node::{arrange, padded, Node};
use luna::layout::rect::Rect;
use luna::layout::LayoutNode;
use luna::signals::{create_signal, init_reactivity, NodeId, ReadSignal, Runtime};
use luna::style::properties::{Align, Display, Flex, FlexDir, Grid, Justify, Style};
use luna::units::Vec2;
use luna::widgets::base::Widget;
use luna::widgets::build_context::BuildCtx;
use luna::windowing::events::{EventCtx, EventKind, Phase};
use std::cell::RefCell;
use std::rc::Rc;

type Log = Rc<RefCell<Vec<String>>>;

fn kind_name(ev: &EventKind) -> &'static str {
    match ev {
        EventKind::PointerDown { .. } => "down",
        EventKind::PointerUp { .. } => "up",
        EventKind::PointerMove { .. } => "move",
        EventKind::PointerLeave => "leave",
        EventKind::Wheel { .. } => "wheel",
        EventKind::KeyDown { .. } => "keydown",
        EventKind::KeyUp { .. } => "keyup",
        EventKind::CharInput { .. } => "char",
        EventKind::FocusIn => "focusin",
        EventKind::FocusOut => "focusout",
    }
}

#[derive(Clone)]
struct Probe {
    name: &'static str,
    size: Vec2,
    style: Style,
    kids: Vec<Probe>,
    log: Log,
    stop_in: Option<Phase>,
    focus_on_down: bool,
    focus_path: Option<Vec<usize>>,
    relayout_on: Option<&'static str>,
    reads: Option<ReadSignal<i32>>,
}

impl Probe {
    fn leaf(name: &'static str, w: i32, h: i32, log: &Log) -> Probe {
        Probe {
            name,
            size: Vec2::new(w, h),
            style: Style::default(),
            kids: vec![],
            log: log.clone(),
            stop_in: None,
            focus_on_down: false,
            focus_path: None,
            relayout_on: None,
            reads: None,
        }
    }

    fn with_kids(mut self, kids: Vec<Probe>) -> Probe {
        self.kids = kids;
        self
    }

    fn with_style(mut self, style: Style) -> Probe {
        self.style = style;
        self
    }
}

impl Widget for Probe {
    type Value = i32;
    type Env = ();

    fn build(&self, _ctx: &mut BuildCtx) -> Vec<Self> {
        self.kids.clone()
    }

    fn measure(&self, max_width: i32, rt: &mut Runtime<i32>, _env: &mut ()) -> Vec2 {
        self.log.borrow_mut().push(format!("measure {} {}", self.name, max_width));
        if let Some(signal) = &self.reads {
            signal.get(rt);
        }
        self.size
    }

    fn paint(&mut self, _layout: Rect, rt: &mut Runtime<i32>, _env: &mut ()) {
        self.log.borrow_mut().push(format!("paint {}", self.name));
        if let Some(signal) = &self.reads {
            signal.get(rt);
        }
    }

    fn event(&mut self, ctx: &mut EventCtx, ev: &EventKind, _rt: &mut Runtime<i32>) {
        self.log.borrow_mut().push(format!("{} {} {:?}", self.name, kind_name(ev), ctx.phase));
        if self.stop_in == Some(ctx.phase) {
            ctx.stop_propagation();
        }
        if let EventKind::PointerDown { .. } = ev {
            if ctx.phase == Phase::Target {
                if self.focus_on_down {
                    ctx.focus.request_focus(ctx.path);
                }
                if let Some(path) = &self.focus_path {
                    ctx.focus.request_focus(path);
                }
            }
        }
        if self.relayout_on == Some(kind_name(ev)) {
            ctx.request_layout();
        }
    }

    fn style(&self) -> Style {
        self.style
    }
}

fn new_log() -> Log {
    Rc::new(RefCell::new(Vec::new()))
}

fn take(log: &Log) -> Vec<String> {
    log.borrow_mut().drain(..).collect()
}

fn rect(x: i32, y: i32, w: i32, h: i32) -> Rect {
    Rect::new(Vec2::new(x, y), Vec2::new(w, h))
}

fn row_style(gap: i32) -> Style {
    let mut style = Style::default();
    style.display = Display::Flex;
    style.flex = Flex {
        dir: FlexDir::Row,
        justify: Justify::Start,
        align: Align::Start,
        gap,
        fill_cross: false,
    };
    style
}

fn grow_tree(root: Probe, rt: &mut Runtime<i32>) -> Node<Probe> {
    Node::new(root, rect(0, 0, 400, 100), &mut BuildCtx, rt)
}

const CLEAN: Dirty = Dirty { self_dirty: false, child_dirty: false, paint_dirty: false };
const ALL: Dirty = Dirty { self_dirty: true, child_dirty: true, paint_dirty: true };

fn family(log: &Log) -> Probe {
    // root
    //   a
    //     a1
    //   b
    let a1 = Probe::leaf("a1", 40, 40, log);
    let a = Probe::leaf("a", 100, 100, log).with_kids(vec![a1]);
    let b = Probe::leaf("b", 100, 100, log);
    Probe::leaf("root", 0, 0, log).with_style(row_style(10)).with_kids(vec![a, b])
}

#[test]
fn a_new_tree_is_fresh_and_numbered_in_walk_order() {
    let log = new_log();
    let mut rt: Runtime<i32> = Runtime::new();
    NodeId::new(&mut rt);
    NodeId::new(&mut rt);
    let node = grow_tree(family(&log), &mut rt);
    assert_eq!(node.id.raw(), 2);
    assert_eq!(node.children[0].id.raw(), 3);
    assert_eq!(node.children[0].children[0].id.raw(), 4);
    assert_eq!(node.children[1].id.raw(), 5);
    assert_eq!(NodeId::new(&mut rt).raw(), 6);
    for n in [&node, &node.children[0], &node.children[0].children[0], &node.children[1]] {
        assert_eq!(n.layout_rect, rect(0, 0, 400, 100));
        assert_eq!(n.cached_size, Vec2::new(0, 0));
        assert_eq!(n.dirty, ALL);
        assert!(n.hover_path.is_empty());
    }
    assert_eq!(node.widget.name, "root");
    assert_eq!(node.children[1].widget.name, "b");
    assert!(take(&log).is_empty());
}

#[test]
fn a_depth_limit_cuts_the_tree() {
    let log = new_log();
    let mut rt: Runtime<i32> = Runtime::new();
    let node = Node::with_depth(family(&log), rect(0, 0, 10, 10), &mut BuildCtx, &mut rt, 1);
    assert_eq!(node.children.len(), 2);
    assert!(node.children[0].children.is_empty());
    assert_eq!(NodeId::new(&mut rt).raw(), 3);
    let mut rt: Runtime<i32> = Runtime::new();
    let node = Node::with_depth(family(&log), rect(0, 0, 10, 10), &mut BuildCtx, &mut rt, 0);
    assert!(node.children.is_empty());
}

#[test]
fn a_leaf_is_measured_and_padded() {
    let log = new_log();
    let mut rt: Runtime<i32> = Runtime::new();
    let mut style = Style::default();
    style.padding = Vec2::new(2, 3);
    let mut node = grow_tree(Probe::leaf("leaf", 30, 12, &log).with_style(style), &mut rt);
    let size = node.layout(100, &mut rt, &mut ());
    assert_eq!(size, Vec2::new(34, 18));
    assert_eq!(node.cached(), Vec2::new(34, 18));
    assert_eq!(take(&log), vec!["measure leaf 96"]);
    assert_eq!(node.dirty, Dirty { self_dirty: false, child_dirty: false, paint_dirty: true });
    assert_eq!(node.last_style.padding, Vec2::new(2, 3));
}

#[test]
fn fixed_width_and_height_replace_the_computed_ones() {
    let log = new_log();
    let mut rt: Runtime<i32> = Runtime::new();
    let mut style = Style::default();
    style.padding = Vec2::new(2, 3);
    style.width = Some(50);
    let mut node = grow_tree(Probe::leaf("leaf", 30, 12, &log).with_style(style), &mut rt);
    assert_eq!(node.layout(100, &mut rt, &mut ()), Vec2::new(50, 18));
    style.width = None;
    style.height = Some(7);
    assert_eq!(padded(style, Vec2::new(30, 12)), Vec2::new(34, 7));
    style.width = Some(1);
    assert_eq!(padded(style, Vec2::new(30, 12)), Vec2::new(1, 7));
}

#[test]
fn a_second_layout_does_no_work() {
    let log = new_log();
    let mut rt: Runtime<i32> = Runtime::new();
    let mut node = grow_tree(family(&log), &mut rt);
    let first = node.layout(400, &mut rt, &mut ());
    assert!(!take(&log).is_empty());
    let rects: Vec<Rect> = node.children.iter().map(|c| c.layout_rect).collect();
    let flags: Vec<Dirty> = node.children.iter().map(|c| c.dirty).collect();
    let second = node.layout(400, &mut rt, &mut ());
    assert_eq!(second, first);
    assert!(take(&log).is_empty());
    assert_eq!(node.children.iter().map(|c| c.layout_rect).collect::<Vec<_>>(), rects);
    assert_eq!(node.children.iter().map(|c| c.dirty).collect::<Vec<_>>(), flags);
    // another width makes no difference while nothing is dirty
    assert_eq!(node.layout(123, &mut rt, &mut ()), first);
    assert!(take(&log).is_empty());
}

#[test]
fn a_row_lays_its_children_out() {
    let log = new_log();
    let mut rt: Runtime<i32> = Runtime::new();
    let mut node = grow_tree(family(&log), &mut rt);
    let size = node.layout(400, &mut rt, &mut ());
    // a has a child, so its size is that of its content
    assert_eq!(node.children[0].cached_size, Vec2::new(40, 40));
    assert_eq!(node.children[0].layout_rect, rect(0, 0, 40, 40));
    assert_eq!(node.children[0].children[0].layout_rect, rect(0, 0, 40, 40));
    assert_eq!(node.children[1].layout_rect, rect(50, 0, 100, 100));
    assert_eq!(size, Vec2::new(150, 100));
    assert_eq!(
        take(&log),
        vec!["measure root 400", "measure a 400", "measure a1 400", "measure b 400"]
    );
    // the children were moved, so they are to be painted and laid out again
    assert_eq!(
        node.children[1].dirty,
        Dirty { self_dirty: false, child_dirty: true, paint_dirty: true }
    );
    assert_eq!(node.dirty, Dirty { self_dirty: false, child_dirty: false, paint_dirty: true });
}

#[test]
fn space_between_through_the_tree() {
    let log = new_log();
    let mut rt: Runtime<i32> = Runtime::new();
    let mut style = row_style(0);
    style.flex.justify = Justify::SpaceBetween;
    let root = Probe::leaf("root", 0, 0, &log)
        .with_style(style)
        .with_kids(vec![Probe::leaf("x", 50, 20, &log), Probe::leaf("y", 50, 20, &log)]);
    let mut node = Node::new(root, rect(0, 0, 300, 100), &mut BuildCtx, &mut rt);
    let size = node.layout(300, &mut rt, &mut ());
    assert_eq!(node.children[0].layout_rect, rect(0, 0, 50, 20));
    assert_eq!(node.children[1].layout_rect, rect(250, 0, 50, 20));
    assert_eq!(size, Vec2::new(300, 20));
}

#[test]
fn a_row_reads_the_grow_factor_of_each_child() {
    let log = new_log();
    let mut rt: Runtime<i32> = Runtime::new();
    let mut growing = Style::default();
    growing.flex_grow = 1;
    let root = Probe::leaf("root", 0, 0, &log).with_style(row_style(10)).with_kids(vec![
        Probe::leaf("x", 40, 10, &log),
        Probe::leaf("y", 50, 10, &log).with_style(growing),
        Probe::leaf("z", 60, 10, &log).with_style(growing),
    ]);
    let mut node = Node::new(root, rect(0, 0, 300, 100), &mut BuildCtx, &mut rt);
    node.layout(300, &mut rt, &mut ());
    assert_eq!(node.children[0].layout_rect, rect(0, 0, 40, 10));
    assert_eq!(node.children[1].layout_rect, rect(50, 0, 115, 10));
    assert_eq!(node.children[2].layout_rect, rect(175, 0, 125, 10));
    assert_eq!(node.children[1].last_style.flex_grow, 1);
    assert_eq!(node.children[0].last_style.flex_grow, 0);
}

#[test]
fn padding_moves_the_content_and_narrows_the_children() {
    let log = new_log();
    let mut rt: Runtime<i32> = Runtime::new();
    let mut style = Style::default();
    style.padding = Vec2::new(5, 7);
    let root = Probe::leaf("root", 0, 0, &log)
        .with_style(style)
        .with_kids(vec![Probe::leaf("x", 50, 20, &log), Probe::leaf("y", 80, 10, &log)]);
    let mut node = Node::new(root, rect(10, 20, 300, 100), &mut BuildCtx, &mut rt);
    let size = node.layout(300, &mut rt, &mut ());
    assert_eq!(node.children[0].layout_rect, rect(15, 27, 50, 20));
    assert_eq!(node.children[1].layout_rect, rect(15, 47, 80, 10));
    assert_eq!(size, Vec2::new(90, 44));
    assert_eq!(take(&log), vec!["measure root 290", "measure x 290", "measure y 290"]);
}

#[test]
fn a_fixed_width_is_what_the_children_are_given() {
    let log = new_log();
    let mut rt: Runtime<i32> = Runtime::new();
    let mut style = Style::default();
    style.padding = Vec2::new(5, 0);
    style.width = Some(120);
    let root = Probe::leaf("root", 0, 0, &log)
        .with_style(style)
        .with_kids(vec![Probe::leaf("x", 50, 20, &log)]);
    let mut node = Node::new(root, rect(0, 0, 300, 100), &mut BuildCtx, &mut rt);
    let size = node.layout(300, &mut rt, &mut ());
    assert_eq!(size, Vec2::new(120, 20));
    assert_eq!(take(&log), vec!["measure root 290", "measure x 110"]);
}

#[test]
fn a_grid_through_the_tree() {
    let log = new_log();
    let mut rt: Runtime<i32> = Runtime::new();
    let mut style = Style::default();
    style.display = Display::Grid;
    style.grid = Grid::new(3, 24, Vec2::new(4, 6));
    let kids = (0..5).map(|_| Probe::leaf("cell", 10, 10, &log)).collect();
    let root = Probe::leaf("root", 0, 0, &log).with_style(style).with_kids(kids);
    let mut node = Node::new(root, rect(0, 0, 308, 100), &mut BuildCtx, &mut rt);
    let size = node.layout(308, &mut rt, &mut ());
    assert_eq!(node.children[4].layout_rect, rect(104, 30, 100, 24));
    assert_eq!(size, Vec2::new(308, 54));
}

#[test]
fn arrange_goes_by_the_display_mode() {
    let log = new_log();
    let mut rt: Runtime<i32> = Runtime::new();
    let mut node = grow_tree(family(&log), &mut rt);
    node.layout(400, &mut rt, &mut ());
    let block = Style::default();
    let size = arrange(block, &mut node.children, Vec2::new(400, 100), Vec2::new(3, 4));
    assert_eq!(node.children[0].layout_rect, rect(3, 4, 40, 40));
    assert_eq!(node.children[1].layout_rect, rect(3, 44, 100, 100));
    assert_eq!(size, Vec2::new(100, 140));
}

#[test]
fn putting_a_node_where_it_lies_changes_nothing() {
    let log = new_log();
    let mut rt: Runtime<i32> = Runtime::new();
    let mut node = grow_tree(family(&log), &mut rt);
    node.layout(400, &mut rt, &mut ());
    node.collect(&mut rt, &mut ());
    node.children[1].dirty = CLEAN;
    let lies = node.children[1].layout_rect;
    node.children[1].set_rect(lies);
    assert_eq!(node.children[1].dirty, CLEAN);
    node.children[1].set_rect(rect(1, 2, 3, 4));
    assert_eq!(node.children[1].layout_rect, rect(1, 2, 3, 4));
    assert_eq!(node.children[1].origin(), Vec2::new(1, 2));
    assert_eq!(
        node.children[1].dirty,
        Dirty { self_dirty: false, child_dirty: true, paint_dirty: true }
    );
}

#[test]
fn marking_by_id_reaches_the_node_and_paints_the_way_to_it() {
    let log = new_log();
    let mut rt: Runtime<i32> = Runtime::new();
    let mut node = grow_tree(family(&log), &mut rt);
    node.layout(400, &mut rt, &mut ());
    node.collect(&mut rt, &mut ());
    node.children[0].dirty = CLEAN;
    node.children[1].dirty = CLEAN;
    node.children[0].children[0].dirty = CLEAN;
    let target = node.children[0].children[0].id;
    assert!(node.mark_dirty_by_id(target));
    assert_eq!(
        node.children[0].children[0].dirty,
        Dirty { self_dirty: true, child_dirty: false, paint_dirty: true }
    );
    let painted = Dirty { self_dirty: false, child_dirty: false, paint_dirty: true };
    assert_eq!(node.children[0].dirty, painted);
    assert_eq!(node.dirty, painted);
    assert_eq!(node.children[1].dirty, CLEAN);
}

#[test]
fn marking_an_unknown_id_changes_nothing() {
    let log = new_log();
    let mut rt: Runtime<i32> = Runtime::new();
    let mut node = grow_tree(family(&log), &mut rt);
    node.layout(400, &mut rt, &mut ());
    node.collect(&mut rt, &mut ());
    node.children[0].dirty = CLEAN;
    node.children[1].dirty = CLEAN;
    node.children[0].children[0].dirty = CLEAN;
    let unknown = NodeId::new(&mut rt);
    assert!(!node.mark_dirty_by_id(unknown));
    assert_eq!(node.dirty, CLEAN);
    assert_eq!(node.children[0].dirty, CLEAN);
    assert_eq!(node.children[0].children[0].dirty, CLEAN);
    assert_eq!(node.children[1].dirty, CLEAN);
}

#[test]
fn marking_the_root_itself() {
    let log = new_log();
    let mut rt: Runtime<i32> = Runtime::new();
    let mut node = grow_tree(family(&log), &mut rt);
    node.layout(400, &mut rt, &mut ());
    node.collect(&mut rt, &mut ());
    let id = node.id;
    assert!(node.mark_dirty_by_id(id));
    assert_eq!(node.dirty, Dirty { self_dirty: true, child_dirty: false, paint_dirty: true });
}

#[test]
fn the_paint_pass_paints_what_is_dirty_and_nothing_else() {
    let log = new_log();
    let mut rt: Runtime<i32> = Runtime::new();
    let mut node = grow_tree(family(&log), &mut rt);
    node.layout(400, &mut rt, &mut ());
    take(&log);
    node.collect(&mut rt, &mut ());
    assert_eq!(take(&log), vec!["paint root", "paint a", "paint a1", "paint b"]);
    assert!(!node.dirty.paint_dirty);
    assert!(!node.children[0].children[0].dirty.paint_dirty);
    node.collect(&mut rt, &mut ());
    assert!(take(&log).is_empty());
    let target = node.children[0].children[0].id;
    node.mark_dirty_by_id(target);
    node.collect(&mut rt, &mut ());
    assert_eq!(take(&log), vec!["paint root", "paint a", "paint a1"]);
}

#[test]
fn a_clean_parent_does_not_hide_a_dirty_child_from_the_paint_pass() {
    let log = new_log();
    let mut rt: Runtime<i32> = Runtime::new();
    let mut node = grow_tree(family(&log), &mut rt);
    node.layout(400, &mut rt, &mut ());
    node.collect(&mut rt, &mut ());
    take(&log);
    node.children[1].dirty.paint_dirty = true;
    node.collect(&mut rt, &mut ());
    assert_eq!(take(&log), vec!["paint b"]);
}

#[test]
fn a_leaf_that_is_only_child_dirty_is_not_measured_again() {
    let log = new_log();
    let mut rt: Runtime<i32> = Runtime::new();
    let mut node = grow_tree(Probe::leaf("leaf", 30, 12, &log), &mut rt);
    node.layout(100, &mut rt, &mut ());
    node.collect(&mut rt, &mut ());
    take(&log);
    node.mark_child_dirty();
    assert_eq!(node.layout(100, &mut rt, &mut ()), Vec2::new(30, 12));
    assert!(take(&log).is_empty());
    assert_eq!(node.dirty, Dirty { self_dirty: false, child_dirty: false, paint_dirty: true });
    node.mark_dirty();
    node.layout(100, &mut rt, &mut ());
    assert_eq!(take(&log), vec!["measure leaf 100"]);
}

#[test]
fn a_node_that_reads_a_signal_while_painting_is_marked_when_it_is_written() {
    let log = new_log();
    let mut rt: Runtime<i32> = Runtime::new();
    init_reactivity(&mut rt);
    let (read, write) = create_signal(&mut rt, 1);
    let mut reader = Probe::leaf("b", 10, 10, &log);
    reader.reads = Some(read);
    let root = Probe::leaf("root", 0, 0, &log)
        .with_kids(vec![Probe::leaf("a", 10, 10, &log), reader]);
    let mut node = grow_tree(root, &mut rt);
    node.layout(400, &mut rt, &mut ());
    node.collect(&mut rt, &mut ());
    take(&log);
    rt.drain_dirty();
    write.set(&mut rt, 2);
    let waiting = rt.drain_dirty();
    assert_eq!(waiting, vec![node.children[1].id]);
    for id in waiting {
        assert!(node.mark_dirty_by_id(id));
    }
    node.layout(400, &mut rt, &mut ());
    node.collect(&mut rt, &mut ());
    assert_eq!(take(&log), vec!["paint root", "paint b"]);
}

#[test]
fn layout_node_wraps_a_node() {
    let log = new_log();
    let mut rt: Runtime<i32> = Runtime::new();
    let mut style = Style::default();
    style.flex_grow = 3;
    let node = grow_tree(Probe::leaf("leaf", 30, 12, &log).with_style(style), &mut rt);
    let mut wrapped = LayoutNode(node);
    assert_eq!(wrapped.layout(100, &mut rt, &mut ()), Vec2::new(30, 12));
    assert_eq!(wrapped.cached_size(), Vec2::new(30, 12));
    assert_eq!(wrapped.style().flex_grow, 3);
    assert_eq!(wrapped.0.style().flex_grow, 3);
    let flags = wrapped.0.dirty;
    wrapped.set_layout_rect(rect(9, 8, 7, 6));
    assert_eq!(wrapped.parent_origin(), Vec2::new(9, 8));
    assert_eq!(wrapped.0.layout_rect, rect(9, 8, 7, 6));
    assert_eq!(wrapped.0.dirty, flags);
}

#[test]
fn no_subscriber_is_running_once_the_paint_pass_is_over() {
    let log = new_log();
    let mut rt: Runtime<i32> = Runtime::new();
    init_reactivity(&mut rt);
    let mut node = grow_tree(family(&log), &mut rt);
    node.layout(400, &mut rt, &mut ());
    node.collect(&mut rt, &mut ());
    // a read after the pass subscribes nobody
    let (read, write) = create_signal(&mut rt, 1);
    read.get(&mut rt);
    rt.drain_dirty();
    assert!(write.set(&mut rt, 2).is_empty());
    assert!(rt.drain_dirty().is_empty());
}

#[test]
fn the_children_of_a_node_are_what_its_widget_builds_in_their_order() {
    let log = new_log();
    let mut rt: Runtime<i32> = Runtime::new();
    let kids = vec![
        Probe::leaf("first", 1, 1, &log),
        Probe::leaf("second", 2, 2, &log),
        Probe::leaf("third", 3, 3, &log),
    ];
    let node = grow_tree(Probe::leaf("root", 0, 0, &log).with_kids(kids), &mut rt);
    let names: Vec<&str> = node.children.iter().map(|child| child.widget.name).collect();
    assert_eq!(names, vec!["first", "second", "third"]);
}

#[test]
fn no_subscriber_is_running_once_the_layout_pass_is_over() {
    let log = new_log();
    let mut rt: Runtime<i32> = Runtime::new();
    init_reactivity(&mut rt);
    let mut node = grow_tree(family(&log), &mut rt);
    node.layout(400, &mut rt, &mut ());
    let (read, write) = create_signal(&mut rt, 1);
    read.get(&mut rt);
    rt.drain_dirty();
    assert!(write.set(&mut rt, 2).is_empty());
    assert!(rt.drain_dirty().is_empty());
}

#[test]
fn a_clean_tree_is_laid_out_without_a_measurement_or_a_read() {
    let log = new_log();
    let mut rt: Runtime<i32> = Runtime::new();
    init_reactivity(&mut rt);
    let (read, write) = create_signal(&mut rt, 1);
    let mut reader = Probe::leaf("reader", 10, 10, &log);
    reader.reads = Some(read);
    let mut node = grow_tree(reader, &mut rt);
    assert_eq!(node.layout(100, &mut rt, &mut ()), Vec2::new(10, 10));
    assert_eq!(take(&log), vec!["measure reader 100"]);
    write.set(&mut rt, 2);
    assert_eq!(rt.drain_dirty(), vec![node.id]);
    // the write used nothing up: the node is still subscribed, once
    let before = (node.dirty, node.cached_size, node.layout_rect);
    assert_eq!(node.layout(50, &mut rt, &mut ()), Vec2::new(10, 10));
    assert!(take(&log).is_empty());
    assert_eq!((node.dirty, node.cached_size, node.layout_rect), before);
    write.set(&mut rt, 3);
    assert_eq!(rt.drain_dirty(), vec![node.id]);
}
