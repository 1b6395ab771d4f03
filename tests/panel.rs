use world_inspector::entity_tree::Entity;
use world_inspector::inspect_generator::{InspectGenerator, Route};
use world_inspector::inspectable::{
    decimal_string, entity_label, is_hidden_name, plan_records, plan_records_named, RecordInfo,
    WorldVisualizerParams,
};

fn rec(full: &str, reflectable: bool) -> RecordInfo {
    RecordInfo { full_name: full.to_string(), reflectable }
}

#[test]
fn labels_with_and_without_name() {
    let e = Entity { id: 42, generation: 0 };
    assert_eq!(entity_label(e, Some("Player")), "Entity 42 - Player");
    assert_eq!(entity_label(e, None), "Entity 42");
}

#[test]
fn decimal_digits() {
    assert_eq!(decimal_string(0), "0");
    assert_eq!(decimal_string(7), "7");
    assert_eq!(decimal_string(10), "10");
    assert_eq!(decimal_string(4294967295), "4294967295");
}

#[test]
fn hierarchy_and_name_records_are_hidden() {
    assert!(is_hidden_name(&"bevy_core::name::Name".to_string()));
    assert!(is_hidden_name(&"bevy_transform::components::parent::Parent".to_string()));
    assert!(is_hidden_name(&"bevy_transform::components::children::Children".to_string()));
    assert!(is_hidden_name(&"bevy_transform::components::parent::PreviousParent".to_string()));
    assert!(!is_hidden_name(&"bevy_transform::components::transform::Transform".to_string()));
}

#[test]
fn one_rendered_and_one_unavailable_in_name_order() {
    let mut g: InspectGenerator<u8> = InspectGenerator::new();
    g.register("game::stats::Health".to_string(), 1);
    let records = vec![
        rec("other::Secret", false),
        rec("bevy_core::name::Name", true),
        rec("game::stats::Health", true),
    ];
    let lines = plan_records(&g, &records);
    assert_eq!(lines.len(), 2);
    assert_eq!(lines[0].label, "Health");
    assert_eq!(lines[0].index, 2);
    assert_eq!(lines[0].route, Route::Specific(0));
    assert_eq!(lines[1].label, "Secret");
    assert_eq!(lines[1].index, 0);
    assert_eq!(lines[1].route, Route::Unavailable);
}

#[test]
fn equal_short_names_keep_their_order() {
    let g: InspectGenerator<u8> = InspectGenerator::new();
    let records = vec![rec("b::Pos", true), rec("a::Pos", false), rec("c::Arm", true)];
    let lines = plan_records(&g, &records);
    let got: Vec<(String, usize, Route)> =
        lines.iter().map(|l| (l.label.clone(), l.index, l.route)).collect();
    assert_eq!(
        got,
        vec![
            ("Arm".to_string(), 2, Route::Reflective),
            ("Pos".to_string(), 0, Route::Reflective),
            ("Pos".to_string(), 1, Route::Unavailable),
        ]
    );
}

#[test]
fn plan_from_given_short_names() {
    let g: InspectGenerator<u8> = InspectGenerator::new();
    let records = vec![rec("x::B", true), rec("x::A", true)];
    let shorts = vec!["zz".to_string(), "Ab".to_string()];
    let lines = plan_records_named(&g, &records, &shorts);
    let got: Vec<usize> = lines.iter().map(|l| l.index).collect();
    assert_eq!(got, vec![1, 0]);
}

#[test]
fn uppercase_sorts_before_lowercase() {
    let g: InspectGenerator<u8> = InspectGenerator::new();
    let records = vec![rec("m::apple", true), rec("m::Zebra", true)];
    let lines = plan_records(&g, &records);
    assert_eq!(lines[0].label, "Zebra");
    assert_eq!(lines[1].label, "apple");
}

#[test]
fn params_start_hidden_and_empty() {
    let p: WorldVisualizerParams<u8> = WorldVisualizerParams::new();
    assert!(!p.show);
    assert_eq!(p.inspect_generator.len(), 0);
}
