use bevy_plugin_graph::{root, NodeId, PluginGraph};
use std::any::TypeId;

struct GamePlugin;
struct CombatPlugin;
struct DamagePlugin;
struct UiPlugin;
struct NestedPlugin;

fn key<T: 'static>() -> TypeId {
    TypeId::of::<T>()
}

/// root -> Game -> {Combat -> Damage, Ui}, recorded as nested begin/end pairs.
fn built_graph() -> PluginGraph {
    let mut g = PluginGraph::new();
    g.begin_owned(key::<GamePlugin>(), "graph::GamePlugin");
    g.begin_owned(key::<CombatPlugin>(), "graph::CombatPlugin");
    g.begin_owned(key::<DamagePlugin>(), "graph::DamagePlugin");
    g.end_owned();
    g.end_owned();
    g.begin_owned(key::<UiPlugin>(), "graph::UiPlugin");
    g.end_owned();
    g.end_owned();
    g
}

#[test]
fn root_only_graph_has_no_edges() {
    let graph = PluginGraph::new();
    assert_eq!(graph.nodes().len(), 1);
    assert_eq!(graph.edges().len(), 0);
}

#[test]
fn a_new_graph_is_rooted_at_app() {
    let graph = PluginGraph::default();
    assert_eq!(graph.root_name(), "App");
    let r = &graph.nodes()[root().0];
    assert_eq!(r.id, NodeId(0));
    assert_eq!(r.path, "App");
    assert_eq!(r.krate, None);
    assert_eq!(r.module, None);
    assert!(r.parents.is_empty());
    assert_eq!(r.added, 1);
}

#[test]
fn begin_records_the_nesting() {
    let g = built_graph();
    let game = g.find::<GamePlugin>().expect("GamePlugin recorded");
    let combat = g.find::<CombatPlugin>().expect("CombatPlugin recorded");
    let damage = g.find::<DamagePlugin>().expect("DamagePlugin recorded");
    let ui = g.find::<UiPlugin>().expect("UiPlugin recorded");

    assert_eq!(game.parents, vec![root()]);
    assert_eq!(combat.parents, vec![game.id]);
    assert_eq!(damage.parents, vec![combat.id]);
    assert_eq!(ui.parents, vec![game.id]);
    assert_eq!(g.nodes().len(), 5);
    assert!(g.find::<NestedPlugin>().is_none());
}

#[test]
fn nodes_are_numbered_in_order_of_first_add() {
    let g = built_graph();
    for (i, node) in g.nodes().iter().enumerate() {
        assert_eq!(node.id, NodeId(i));
    }
    assert_eq!(g.nodes()[1].name, "GamePlugin");
    assert_eq!(g.nodes()[2].name, "CombatPlugin");
    assert_eq!(g.nodes()[3].name, "DamagePlugin");
    assert_eq!(g.nodes()[4].name, "UiPlugin");
}

#[test]
fn nodes_carry_derived_names() {
    let mut g = PluginGraph::new();
    g.begin_owned(key::<NestedPlugin>(), "graph::deeper::NestedPlugin<x::Y>");
    let n = g.find::<NestedPlugin>().unwrap();
    assert_eq!(n.path, "graph::deeper::NestedPlugin<x::Y>");
    assert_eq!(n.name, "NestedPlugin<Y>");
    assert_eq!(n.krate.as_deref(), Some("graph"));
    assert_eq!(n.module.as_deref(), Some("graph::deeper"));
}

#[test]
fn every_node_but_the_root_has_one_parent_in_a_tree() {
    let g = built_graph();
    assert_eq!(g.edges().len(), g.nodes().len() - 1);
    for node in g.nodes().iter().skip(1) {
        assert!(!node.parents.is_empty(), "{} has no parent", node.path);
    }
    assert_eq!(
        g.edges(),
        vec![
            (NodeId(0), NodeId(1)),
            (NodeId(1), NodeId(2)),
            (NodeId(2), NodeId(3)),
            (NodeId(1), NodeId(4)),
        ]
    );
}

#[test]
fn re_adding_a_plugin_keeps_its_node() {
    let mut g = built_graph();
    // Ui adds Damage a second time, from a new parent.
    g.begin_owned(key::<UiPlugin>(), "graph::UiPlugin");
    let id = g.begin_owned(key::<DamagePlugin>(), "graph::DamagePlugin");
    g.end_owned();
    g.end_owned();
    assert_eq!(id, NodeId(3));
    assert_eq!(g.nodes().len(), 5);
    let damage = g.find::<DamagePlugin>().unwrap();
    assert_eq!(damage.added, 2);
    assert_eq!(damage.parents, vec![NodeId(2), NodeId(4)]);
    let ui = g.find::<UiPlugin>().unwrap();
    assert_eq!(ui.added, 2);
    // Ui's second add came from the root, a parent it did not have yet.
    assert_eq!(ui.parents, vec![NodeId(1), NodeId(0)]);
    // Adding again from a parent it already has adds no parent.
    g.begin_owned(key::<GamePlugin>(), "graph::GamePlugin");
    g.end_owned();
    assert_eq!(g.find::<GamePlugin>().unwrap().parents, vec![root()]);
    assert_eq!(g.find::<GamePlugin>().unwrap().added, 2);
}

#[test]
fn an_unbalanced_end_never_pops_the_root() {
    let mut g = PluginGraph::new();
    g.end_owned();
    g.end_owned();
    g.begin_owned(key::<GamePlugin>(), "graph::GamePlugin");
    assert_eq!(g.find::<GamePlugin>().unwrap().parents, vec![root()]);
}

#[test]
fn begin_then_end_returns_to_the_same_parent() {
    let mut g = PluginGraph::new();
    g.begin_owned(key::<GamePlugin>(), "graph::GamePlugin");
    g.begin_owned(key::<CombatPlugin>(), "graph::CombatPlugin");
    g.end_owned();
    g.begin_owned(key::<UiPlugin>(), "graph::UiPlugin");
    assert_eq!(g.find::<UiPlugin>().unwrap().parents, vec![NodeId(1)]);
}

#[test]
fn naming_the_root_is_read_back() {
    let mut g = built_graph();
    let edges = g.edges();
    g.set_root_name("MyGame".to_string());
    assert_eq!(g.root_name(), "MyGame");
    assert_eq!(g.nodes()[0].path, "MyGame");
    assert_eq!(g.edges(), edges);
    assert_eq!(g.nodes().len(), 5);
}

#[test]
fn lookups_by_identifier_and_index() {
    let g = built_graph();
    assert_eq!(g.find_key(&key::<CombatPlugin>()).unwrap().id, NodeId(2));
    assert!(g.find_key(&key::<NestedPlugin>()).is_none());
    assert_eq!(g.node(NodeId(4)).unwrap().name, "UiPlugin");
    assert!(g.node(NodeId(5)).is_none());
}

#[test]
fn later_calls_keep_every_node_in_place() {
    let mut g = built_graph();
    let before: Vec<(NodeId, String, String)> =
        g.nodes().iter().skip(1).map(|n| (n.id, n.path.clone(), n.name.clone())).collect();
    g.set_root_name("Renamed".to_string());
    g.begin_owned(key::<NestedPlugin>(), "graph::deeper::NestedPlugin");
    g.begin_owned(key::<CombatPlugin>(), "graph::CombatPlugin");
    g.end_owned();
    g.end_owned();
    g.end_owned();
    let after: Vec<(NodeId, String, String)> =
        g.nodes().iter().skip(1).take(before.len()).map(|n| (n.id, n.path.clone(), n.name.clone())).collect();
    assert_eq!(after, before);
    assert_eq!(g.find::<CombatPlugin>().unwrap().id, NodeId(2));
    assert_eq!(g.find::<CombatPlugin>().unwrap().added, 2);
    assert_eq!(g.find::<CombatPlugin>().unwrap().parents, vec![NodeId(1), NodeId(5)]);
}

#[test]
fn balanced_calls_inside_a_build_keep_its_parent() {
    let mut g = PluginGraph::new();
    let game = g.begin_owned(key::<GamePlugin>(), "graph::GamePlugin");
    g.begin_owned(key::<CombatPlugin>(), "graph::CombatPlugin");
    g.begin_owned(key::<DamagePlugin>(), "graph::DamagePlugin");
    g.end_owned();
    g.end_owned();
    g.set_root_name("Main".to_string());
    let ui = g.begin_owned(key::<UiPlugin>(), "graph::UiPlugin");
    assert_eq!(g.node(ui).unwrap().parents, vec![game]);
    g.end_owned();
    g.end_owned();
    let nested = g.begin_owned(key::<NestedPlugin>(), "graph::deeper::NestedPlugin");
    assert_eq!(g.node(nested).unwrap().parents, vec![root()]);
}
