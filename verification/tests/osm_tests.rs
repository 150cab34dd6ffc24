use road_graphs::osm::OsmCollector;
use road_graphs::osm::OsmEvent::{EmptyWay, NodeRef, PositionedNode, WayEnd, WayStart};
use road_graphs::osm::OsmEvent;

fn collect(events: &[OsmEvent]) -> (Vec<i64>, road_graphs::graph::Graph) {
    let mut c = OsmCollector::new();
    for &e in events {
        c.step(e);
    }
    c.finish()
}

#[test]
fn ways_become_chains_of_edges() {
    let (ids, g) = collect(&[
        PositionedNode(30),
        PositionedNode(10),
        PositionedNode(20),
        PositionedNode(40),
        WayStart,
        NodeRef(30),
        NodeRef(10),
        NodeRef(20),
        WayEnd,
    ]);
    // Node 40 is placed but no way references it.
    assert_eq!(ids, vec![10, 20, 30]);
    assert_eq!(g.get_num_nodes(), 3);
    assert!(g.has_edge(2, 0));
    assert!(g.has_edge(0, 1));
    assert!(!g.has_edge(1, 2));
    assert_eq!(g.get_num_edges(), 2);
}

#[test]
fn references_without_position_are_dropped() {
    let (ids, g) = collect(&[
        PositionedNode(1),
        PositionedNode(3),
        WayStart,
        NodeRef(1),
        NodeRef(2),
        NodeRef(3),
        WayEnd,
    ]);
    // Node 2 has no position: both of its segments go.
    assert_eq!(ids, vec![1, 3]);
    assert_eq!(g.get_num_nodes(), 2);
    assert_eq!(g.get_num_edges(), 0);
}

#[test]
fn references_outside_ways_are_ignored() {
    let (ids, g) = collect(&[
        PositionedNode(5),
        PositionedNode(6),
        NodeRef(5),
        NodeRef(6),
        EmptyWay,
        WayStart,
        NodeRef(6),
        WayEnd,
        NodeRef(5),
    ]);
    assert_eq!(ids, vec![6]);
    assert_eq!(g.get_num_nodes(), 1);
    assert_eq!(g.get_num_edges(), 0);
}

#[test]
fn empty_way_clears_the_current_way() {
    let (ids, g) = collect(&[
        PositionedNode(1),
        PositionedNode(2),
        PositionedNode(3),
        WayStart,
        NodeRef(1),
        EmptyWay,
        NodeRef(2),
        NodeRef(3),
        WayEnd,
    ]);
    assert_eq!(ids, vec![1, 2, 3]);
    assert!(g.has_edge(1, 2));
    assert!(!g.has_edge(0, 1));
}
