use game_render::graph::scheduler::RenderGraphScheduler;
use game_render::graph::{
    InputSlotError, NodeLabel, OutputSlotError, RenderGraph, ScheduleError, SlotFlags, SlotKind,
    SlotLabel,
};

#[test]
fn render_graph_schedule_node_dependency() {
    let mut graph = RenderGraph::new();
    graph.add_node(NodeLabel::new("A"));
    graph.add_node(NodeLabel::new("B"));
    // A runs before B or in other words B requires A.
    graph.add_node_dependency(NodeLabel::new("B"), NodeLabel::new("A"));

    let queue = RenderGraphScheduler.schedule(&graph).unwrap();
    assert_eq!(queue, [NodeLabel::new("A"), NodeLabel::new("B")]);
}

#[test]
fn render_graph_schedule_node_dependency_parallel() {
    let a = NodeLabel::new("A");
    let b = NodeLabel::new("B");
    let c = NodeLabel::new("C");

    let mut graph = RenderGraph::new();
    graph.add_node(a);
    graph.add_node(b);
    graph.add_node(c);

    // B requires A and C to run before.
    graph.add_node_dependency(b, a);
    graph.add_node_dependency(b, c);

    let queue = RenderGraphScheduler.schedule(&graph).unwrap();
    assert!(queue == [a, c, b] || queue == [c, a, b]);
}

#[test]
fn render_graph_schedule_slot_dependency() {
    let a = NodeLabel::new("A");
    let b = NodeLabel::new("B");
    let c = NodeLabel::new("C");

    let mut graph = RenderGraph::new();
    graph.add_node(a);
    graph.add_node(b);
    graph.add_node(c);

    graph.add_slot_dependency(b, SlotLabel::new("texture"), SlotKind::Texture, SlotFlags::write());
    graph.add_slot_dependency(c, SlotLabel::new("texture"), SlotKind::Buffer, SlotFlags::read());
    graph.add_slot_dependency(c, SlotLabel::new("buffer"), SlotKind::Buffer, SlotFlags::write());
    graph.add_slot_dependency(a, SlotLabel::new("buffer"), SlotKind::Buffer, SlotFlags::read());

    let queue = RenderGraphScheduler.schedule(&graph).unwrap();
    assert_eq!(queue, [b, c, a]);
}

#[test]
fn render_graph_cycle() {
    let a = NodeLabel::new("A");
    let b = NodeLabel::new("B");

    let mut graph = RenderGraph::new();

    graph.add_node(a);
    graph.add_node(b);

    graph.add_node_dependency(a, b);
    graph.add_node_dependency(b, a);

    let res = RenderGraphScheduler.schedule(&graph);
    assert_eq!(res, Err(ScheduleError::Cycle));
}

#[test]
fn render_graph_read_write_slot() {
    let a = NodeLabel::new("A");
    let b = NodeLabel::new("B");

    let mut graph = RenderGraph::new();
    graph.add_node(a);
    graph.add_node(b);

    graph.add_slot_dependency(a, SlotLabel::new("test"), SlotKind::Texture, SlotFlags::write());

    graph.add_slot_dependency(
        b,
        SlotLabel::new("test"),
        SlotKind::Buffer,
        SlotFlags::read().union(SlotFlags::write()),
    );

    let res = RenderGraphScheduler.schedule(&graph).unwrap();
    assert_eq!(res, [a, b]);
}

#[test]
fn render_graph_many_permutations() {
    let a = NodeLabel::new("A");
    let b = NodeLabel::new("B");
    let c = NodeLabel::new("C");
    let d = NodeLabel::new("D");
    let e = NodeLabel::new("E");

    let x = SlotLabel::new("x");
    let y = SlotLabel::new("y");

    let mut graph = RenderGraph::new();
    graph.add_node(a);
    graph.add_node(b);
    graph.add_node(c);
    graph.add_node(d);
    graph.add_node(e);

    // A | B => C
    // D | E => C
    graph.add_slot_dependency(a, x, SlotKind::Buffer, SlotFlags::write());
    graph.add_slot_dependency(b, x, SlotKind::Buffer, SlotFlags::write());
    graph.add_slot_dependency(c, x, SlotKind::Buffer, SlotFlags::read());
    graph.add_slot_dependency(c, y, SlotKind::Buffer, SlotFlags::read());
    graph.add_slot_dependency(d, y, SlotKind::Buffer, SlotFlags::write());
    graph.add_slot_dependency(e, y, SlotKind::Buffer, SlotFlags::write());

    let res = RenderGraphScheduler.schedule(&graph).unwrap();
    let index_a = res.iter().position(|v| *v == a).unwrap();
    let index_b = res.iter().position(|v| *v == b).unwrap();
    let index_c = res.iter().position(|v| *v == c).unwrap();
    let index_d = res.iter().position(|v| *v == d).unwrap();
    let index_e = res.iter().position(|v| *v == e).unwrap();

    // A or B before C
    // D or E before C
    assert!(index_a < index_c || index_b < index_c);
    assert!(index_d < index_c || index_e < index_c);
}

#[test]
fn render_graph_no_source() {
    let a = NodeLabel::new("A");
    let b = NodeLabel::new("B");
    let s = SlotLabel::new("shadow");

    let mut graph = RenderGraph::new();
    graph.add_node(a);
    graph.add_node(b);
    // B reads a slot that only B itself writes.
    graph.add_slot_dependency(b, s, SlotKind::Texture, SlotFlags::read().union(SlotFlags::write()));

    let res = RenderGraphScheduler.schedule(&graph);
    assert_eq!(res, Err(ScheduleError::NoSource(b, s)));
}

#[test]
fn render_graph_no_writer_at_all() {
    let a = NodeLabel::new("A");
    let s = SlotLabel::new("missing");

    let mut graph = RenderGraph::new();
    graph.add_node(a);
    graph.add_slot_dependency(a, s, SlotKind::Buffer, SlotFlags::read());

    let res = RenderGraphScheduler.schedule(&graph);
    assert_eq!(res, Err(ScheduleError::NoSource(a, s)));
}

#[test]
fn render_graph_writer_that_runs_later_is_no_source() {
    let a = NodeLabel::new("A");
    let b = NodeLabel::new("B");
    let s = SlotLabel::new("s");

    let mut graph = RenderGraph::new();
    graph.add_node(a);
    graph.add_node(b);
    // B must run after A, so B cannot provide A's input.
    graph.add_node_dependency(b, a);
    graph.add_slot_dependency(b, s, SlotKind::Buffer, SlotFlags::write());
    graph.add_slot_dependency(a, s, SlotKind::Buffer, SlotFlags::read());

    let res = RenderGraphScheduler.schedule(&graph);
    assert_eq!(res, Err(ScheduleError::NoSource(a, s)));
}

#[test]
fn render_graph_unknown_dependency_is_a_cycle() {
    let a = NodeLabel::new("A");
    let mut graph = RenderGraph::new();
    graph.add_node(a);
    graph.add_node_dependency(a, NodeLabel::new("missing"));

    let res = RenderGraphScheduler.schedule(&graph);
    assert_eq!(res, Err(ScheduleError::Cycle));
}

#[test]
fn render_graph_first_writer_is_chosen() {
    let a = NodeLabel::new("A");
    let b = NodeLabel::new("B");
    let c = NodeLabel::new("C");
    let x = SlotLabel::new("x");

    let mut graph = RenderGraph::new();
    graph.add_node(c);
    graph.add_node(a);
    graph.add_node(b);
    graph.add_slot_dependency(c, x, SlotKind::Buffer, SlotFlags::read());
    graph.add_slot_dependency(a, x, SlotKind::Buffer, SlotFlags::write());
    graph.add_slot_dependency(b, x, SlotKind::Buffer, SlotFlags::write());

    let res = RenderGraphScheduler.schedule(&graph).unwrap();
    assert_eq!(res, [a, c, b]);
}

#[test]
fn render_graph_replacing_a_node_drops_its_dependencies() {
    let a = NodeLabel::new("A");
    let b = NodeLabel::new("B");

    let mut graph = RenderGraph::new();
    graph.add_node(a);
    graph.add_node(b);
    graph.add_node_dependency(a, b);
    graph.add_node(a);

    assert_eq!(graph.states().len(), 2);
    assert!(graph.get(a).unwrap().dependencies.is_empty());
    let res = RenderGraphScheduler.schedule(&graph).unwrap();
    assert_eq!(res, [a, b]);
}

#[test]
fn render_graph_slot_permissions() {
    let a = NodeLabel::new("A");
    let x = SlotLabel::new("x");
    let y = SlotLabel::new("y");

    let mut graph = RenderGraph::new();
    graph.add_node(a);
    graph.add_slot_dependency(a, x, SlotKind::Buffer, SlotFlags::read());
    graph.add_slot_dependency(a, x, SlotKind::Buffer, SlotFlags::write());

    let node = graph.get(a).unwrap();
    assert_eq!(node.dependencies.len(), 2);
    assert_eq!(node.permissions.len(), 1);
    assert!(node.permission_of(&x).contains(SlotFlags::read().union(SlotFlags::write())));
    assert_eq!(node.read_access(&x), Ok(()));
    assert_eq!(node.write_access(&x), Ok(()));
    assert_eq!(node.read_access(&y), Err(InputSlotError::NotRegistered));
    assert_eq!(node.write_access(&y), Err(OutputSlotError::NotRegistered));
    assert!(graph.get(NodeLabel::new("B")).is_none());
    assert_eq!(SlotLabel::surface(), SlotLabel::new("_SURFACE_TEXTURE"));
}
