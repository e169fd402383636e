use bevy_plugin_graph::format::Format;
use bevy_plugin_graph::order::rank_modules;
use bevy_plugin_graph::render::{escape, to_mermaid, OTHER, PALETTE};
use bevy_plugin_graph::{NodeId, PluginGraph};
use std::any::TypeId;

struct GamePlugin;
struct CombatPlugin;
struct DamagePlugin;
struct UiPlugin;
struct NestedPlugin;

fn key<T: 'static>() -> TypeId {
    TypeId::of::<T>()
}

fn built_graph() -> PluginGraph {
    let mut g = PluginGraph::new();
    g.begin_owned(key::<GamePlugin>(), "graph::GamePlugin");
    g.begin_owned(key::<CombatPlugin>(), "graph::CombatPlugin");
    g.begin_owned(key::<DamagePlugin>(), "graph::DamagePlugin");
    g.end_owned();
    g.end_owned();
    g.begin_owned(key::<UiPlugin>(), "graph::UiPlugin");
    g.end_owned();
    g.end_owned();
    g
}

fn two_module_graph() -> PluginGraph {
    let mut g = built_graph();
    g.begin_owned(key::<NestedPlugin>(), "graph::deeper::NestedPlugin");
    g.end_owned();
    g
}

#[test]
fn escapes_generics() {
    assert_eq!(escape("Plugin<Foo>"), "Plugin#lt;Foo#gt;");
}

#[test]
fn escapes_every_markup_character() {
    assert_eq!(escape("a&b\"c\"<>"), "a#amp;b#quot;c#quot;#lt;#gt;");
    assert_eq!(escape(""), "");
    assert_eq!(escape("#amp;"), "#amp;");
    for label in ["<&>\"", "x<y>&\"z"] {
        let e = escape(label);
        assert!(!e.contains(['&', '<', '>', '"']), "{}", e);
    }
}

#[test]
fn root_only_mermaid_has_no_edge_block() {
    let rendered = to_mermaid(&PluginGraph::new());
    assert_eq!(rendered, "flowchart TD\n    n0[\"App\"]\n");
}

#[test]
fn palette_slots_are_distinct() {
    let mut seen = PALETTE.to_vec();
    seen.sort_unstable();
    seen.dedup();
    assert_eq!(seen.len(), PALETTE.len());
    assert!(!PALETTE.contains(&OTHER));
}

#[test]
fn mermaid_renders_every_node_and_edge() {
    let graph = built_graph();
    let mermaid = graph.to_mermaid();
    assert!(mermaid.starts_with("flowchart TD\n"));
    assert!(mermaid.contains(r#"["CombatPlugin"]"#));
    let arrows = mermaid.lines().filter(|line| line.contains("-->")).count();
    assert_eq!(arrows, graph.edges().len());
}

#[test]
fn a_single_module_renders_exactly() {
    let mermaid = built_graph().to_mermaid();
    assert_eq!(
        mermaid,
        "flowchart TD\n    n0[\"App\"]\n    n1[\"GamePlugin\"]\n    n2[\"CombatPlugin\"]\n    n3[\"DamagePlugin\"]\n    n4[\"UiPlugin\"]\n    n0 --> n1\n    n1 --> n2\n    n2 --> n3\n    n1 --> n4\n"
    );
    assert!(!mermaid.contains("classDef"));
    assert!(!mermaid.contains("<small>"));
}

#[test]
fn two_modules_get_notes_and_one_class_each() {
    let graph = two_module_graph();
    let mermaid = graph.to_mermaid();
    assert!(!mermaid.contains("subgraph"));
    assert!(mermaid.contains(r#"["CombatPlugin<br/><small>graph</small>"]"#));
    assert!(mermaid.contains(r#"["NestedPlugin<br/><small>graph::deeper</small>"]"#));
    assert!(mermaid.contains(r#"n0["App"]"#));
    assert!(mermaid.contains("classDef m0 stroke:#3987e5,stroke-width:2px"));
    assert!(mermaid.contains("classDef m1 stroke:#d95926,stroke-width:2px"));
    assert_eq!(mermaid.matches("classDef").count(), 2);
    assert!(mermaid.ends_with("    class n1,n2,n3,n4 m0\n    class n5 m1\n"));
    let classed: usize = mermaid
        .lines()
        .filter(|line| line.trim_start().starts_with("class "))
        .map(|line| line.split(',').count())
        .sum();
    assert_eq!(classed, graph.nodes().len() - 1);
}

#[test]
fn ties_between_modules_are_broken_by_name() {
    let mut g = PluginGraph::new();
    g.begin_owned(key::<GamePlugin>(), "zeta::GamePlugin");
    g.end_owned();
    g.begin_owned(key::<CombatPlugin>(), "alpha::CombatPlugin");
    g.end_owned();
    g.begin_owned(key::<UiPlugin>(), "zeta::UiPlugin");
    g.end_owned();
    g.begin_owned(key::<DamagePlugin>(), "beta::DamagePlugin");
    g.end_owned();
    assert_eq!(rank_modules(&g), vec!["zeta", "alpha", "beta"]);
    let mermaid = g.to_mermaid();
    assert!(mermaid.contains("    class n1,n3 m0\n    class n2 m1\n    class n4 m2\n"));
}

struct P0;
struct P1;
struct P2;
struct P3;
struct P4;
struct P5;
struct P6;
struct P7;
struct P8;
struct P9;

#[test]
fn modules_past_the_palette_share_the_neutral_class() {
    let mut g = PluginGraph::new();
    let keys = [
        key::<P0>(),
        key::<P1>(),
        key::<P2>(),
        key::<P3>(),
        key::<P4>(),
        key::<P5>(),
        key::<P6>(),
        key::<P7>(),
        key::<P8>(),
        key::<P9>(),
    ];
    for (i, k) in keys.iter().enumerate() {
        g.begin_owned(*k, &format!("m{}::P", i));
        g.end_owned();
    }
    let mermaid = g.to_mermaid();
    assert_eq!(mermaid.matches("classDef m").count(), 9);
    assert!(mermaid.contains("    classDef mOther stroke:#8a8a85,stroke-width:2px\n"));
    assert!(mermaid.contains("    classDef m7 stroke:#e66767,stroke-width:2px\n"));
    assert!(mermaid.contains("    class n9 mOther\n    class n10 mOther\n"));
    assert!(mermaid.contains("    n10[\"P<br/><small>m9</small>\"]\n"));
    assert!(mermaid.contains("    n0 --> n10\n"));
}

#[test]
fn the_json_document_carries_every_node_and_edge() {
    let g = two_module_graph();
    let wire = g.to_wire();
    assert_eq!(wire.root, 0);
    assert_eq!(wire.nodes.len(), 6);
    assert_eq!(wire.edges.len(), 5);
    assert_eq!(wire.nodes[0].module, None);
    assert_eq!(wire.nodes[5].module, Some("graph::deeper"));
    assert_eq!(wire.nodes[5].krate, Some("graph"));
    assert_eq!(wire.nodes[2].name, "CombatPlugin");
    assert_eq!(wire.edges[4].from, 0);
    assert_eq!(wire.edges[4].to, 5);
    assert_eq!(wire.nodes[3].id, NodeId(3).0);
}

#[test]
fn formats_follow_the_extension() {
    assert_eq!(Format::from_extension(Some("mmd")), Format::Mermaid);
    assert_eq!(Format::from_extension(Some("mermaid")), Format::Mermaid);
    assert_eq!(Format::from_extension(Some("md")), Format::Mermaid);
    assert_eq!(Format::from_extension(Some("json")), Format::Json);
    assert_eq!(Format::from_extension(Some("MD")), Format::Json);
    assert_eq!(Format::from_extension(None), Format::Json);
    assert_eq!(Format::default(), Format::Json);
}

struct Game;
struct Core;
struct Save;
struct Settings;
struct Combat;
struct Damage;
struct Weapon;
struct Ui;
struct Hud;

#[test]
fn the_documented_game_renders_as_shown() {
    let mut g = PluginGraph::new();
    g.set_root_name(String::from("Main"));
    g.begin_owned(key::<Game>(), "game::GamePlugin");
    g.begin_owned(key::<Core>(), "game::core::CorePlugin");
    g.begin_owned(key::<Save>(), "game::core::SavePlugin");
    g.end_owned();
    g.begin_owned(key::<Settings>(), "game::core::SettingsPlugin");
    g.end_owned();
    g.end_owned();
    g.begin_owned(key::<Combat>(), "game::combat::CombatPlugin");
    g.begin_owned(key::<Damage>(), "game::combat::DamagePlugin");
    g.end_owned();
    g.begin_owned(key::<Weapon>(), "game::ui::WeaponPlugin");
    g.end_owned();
    g.end_owned();
    g.begin_owned(key::<Ui>(), "game::ui::UiPlugin");
    g.begin_owned(key::<Hud>(), "game::ui::HudPlugin");
    g.end_owned();
    g.end_owned();
    g.end_owned();
    let expected = "flowchart TD
    n0[\"Main\"]
    n1[\"GamePlugin<br/><small>game</small>\"]
    n2[\"CorePlugin<br/><small>game::core</small>\"]
    n3[\"SavePlugin<br/><small>game::core</small>\"]
    n4[\"SettingsPlugin<br/><small>game::core</small>\"]
    n5[\"CombatPlugin<br/><small>game::combat</small>\"]
    n6[\"DamagePlugin<br/><small>game::combat</small>\"]
    n7[\"WeaponPlugin<br/><small>game::ui</small>\"]
    n8[\"UiPlugin<br/><small>game::ui</small>\"]
    n9[\"HudPlugin<br/><small>game::ui</small>\"]
    n0 --> n1
    n1 --> n2
    n2 --> n3
    n2 --> n4
    n1 --> n5
    n5 --> n6
    n5 --> n7
    n1 --> n8
    n8 --> n9
    classDef m0 stroke:#3987e5,stroke-width:2px
    classDef m1 stroke:#d95926,stroke-width:2px
    classDef m2 stroke:#199e70,stroke-width:2px
    classDef m3 stroke:#c98500,stroke-width:2px
    class n2,n3,n4 m0
    class n7,n8,n9 m1
    class n5,n6 m2
    class n1 m3
";
    let rendered = g.to_mermaid();
    assert_eq!(rendered, expected);
    assert!(!rendered.lines().any(|line| line.is_empty()));
}
