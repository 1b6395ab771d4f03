use world_inspector::short_name::{clean_match, clean_path, last_segment_of};

#[test]
fn module_path_is_dropped() {
    assert_eq!(clean_path("mod_a::mod_b::Foo"), "Foo");
}

#[test]
fn generic_keeps_last_segment_of_parameter() {
    assert_eq!(clean_path("mod_a::Wrapper<mod_b::mod_c::Inner>"), "Wrapper<Inner>");
}

#[test]
fn name_without_separators_is_unchanged() {
    assert_eq!(clean_path("Foo"), "Foo");
    assert_eq!(clean_path("Foo<Bar>"), "Foo<Bar>");
}

#[test]
fn nested_generics_are_left_alone() {
    assert_eq!(clean_path("a::Foo<b::Bar<c::Baz>>"), "a::Foo<b::Bar<c::Baz>>");
}

#[test]
fn engine_type_names() {
    assert_eq!(
        clean_path("bevy_transform::components::transform::Transform"),
        "Transform"
    );
    assert_eq!(
        clean_path("bevy_render::draw::Handle<bevy_render::mesh::Mesh>"),
        "Handle<Mesh>"
    );
}

#[test]
fn last_segment_splits_left_to_right() {
    assert_eq!(last_segment_of("a::b::c"), "c");
    assert_eq!(last_segment_of("plain"), "plain");
    assert_eq!(last_segment_of("a:::b"), ":b");
    assert_eq!(last_segment_of("a::"), "");
}

#[test]
fn clean_match_from_given_groups() {
    assert_eq!(clean_match("x::Y", None), "x::Y");
    assert_eq!(clean_match("x::Y", Some(("Y".to_string(), None))), "Y");
    assert_eq!(
        clean_match("x::Y<p::Q>", Some(("Y".to_string(), Some("p::Q".to_string())))),
        "Y<Q>"
    );
}
