use bevy_plugin_graph::names::{crate_name, defining_module, last_segment, short_name};

#[test]
fn shortens_nested_generics() {
    assert_eq!(short_name("my_game::combat::CombatPlugin"), "CombatPlugin");
    assert_eq!(short_name("a::B<c::D>"), "B<D>");
    assert_eq!(short_name("Bare"), "Bare");
}

#[test]
fn extracts_crate() {
    assert_eq!(
        crate_name("my_game::CombatPlugin").as_deref(),
        Some("my_game")
    );
    assert_eq!(crate_name("a::B<c::D>").as_deref(), Some("a"));
    assert_eq!(crate_name("App"), None);
}

#[test]
fn extracts_module() {
    assert_eq!(
        defining_module("my_game::combat::CombatPlugin").as_deref(),
        Some("my_game::combat")
    );
    assert_eq!(defining_module("App"), None);
}

#[test]
fn last_segment_takes_what_follows_the_last_separator() {
    assert_eq!(last_segment("a::b::C"), "C");
    assert_eq!(last_segment("a:::b"), "b");
    assert_eq!(last_segment("a::"), "");
    assert_eq!(last_segment("plain"), "plain");
    assert_eq!(last_segment("a:b"), "a:b");
}

#[test]
fn short_names_keep_references_tuples_and_separators() {
    assert_eq!(short_name("&a::B"), "&B");
    assert_eq!(short_name("(a::B, c::d::E)"), "(B, E)");
    assert_eq!(short_name("a::B<c::D<e::F>>"), "B<D<F>>");
    assert_eq!(short_name(""), "");
    // A character that is neither alphanumeric, `_` nor `:` ends a path.
    assert_eq!(short_name("a-b::C"), "a-C");
    assert_eq!(short_name("a_b::c_d::E_f"), "E_f");
}

#[test]
fn short_names_hold_no_qualifier() {
    for path in ["a::b::C", "x::Y<z::W, v::U>", "::a", "a::", "a:::b"] {
        assert!(!short_name(path).contains("::"), "{}", path);
    }
}

#[test]
fn non_ascii_letters_belong_to_paths() {
    assert_eq!(short_name("crate::Äbc"), "Äbc");
    assert_eq!(short_name("ü::ß::Ω<x::Y>"), "Ω<Y>");
}

#[test]
fn crate_needs_a_first_segment_and_something_after_it() {
    assert_eq!(crate_name("::a"), None);
    assert_eq!(crate_name("a::"), None);
    assert_eq!(crate_name("a:::b").as_deref(), Some("a"));
    assert_eq!(crate_name("x::y::Z<a::B>").as_deref(), Some("x"));
    assert_eq!(crate_name("<a::B as c::D>"), None);
    assert_eq!(crate_name("&a::B"), None);
}

#[test]
fn module_is_read_from_the_leading_path() {
    assert_eq!(defining_module("a::b::C<d::E>").as_deref(), Some("a::b"));
    assert_eq!(defining_module("C<d::E>"), None);
    assert_eq!(defining_module("a::"), Some("a".to_string()));
    assert_eq!(defining_module("(a::B,)"), None);
}

#[test]
fn a_plain_path_is_its_module_and_short_name() {
    for path in ["my_game::combat::CombatPlugin", "a::B", "x::y::z::W_1"] {
        let module = defining_module(path).unwrap();
        assert_eq!(format!("{}::{}", module, short_name(path)), path);
    }
    assert_eq!(short_name("Bare"), "Bare");
    assert_eq!(short_name(&short_name("a::B<c::D>")), short_name("a::B<c::D>"));
}

#[test]
fn the_crate_heads_the_module() {
    for path in ["my_game::combat::CombatPlugin", "my_game::CombatPlugin", "a::b::C<d::E>"] {
        let krate = crate_name(path).unwrap();
        let module = defining_module(path).unwrap();
        assert!(module == krate || module.starts_with(&format!("{}::", krate)));
    }
    let krate = crate_name("a:::b::C").unwrap();
    let module = defining_module("a:::b::C").unwrap();
    assert_eq!(krate, "a");
    assert_eq!(module, "a:::b");
    assert!(module.starts_with(&krate));
}
