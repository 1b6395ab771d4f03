use world_inspector::inspect_generator::{InspectGenerator, RenderOutcome, Route};

fn name(s: &str) -> String {
    s.to_string()
}

#[test]
fn registered_routine_wins_over_reflection() {
    let mut g: InspectGenerator<u32> = InspectGenerator::new();
    g.register(name("a::Transform"), 11);
    assert_eq!(g.generate(&name("a::Transform"), true), Route::Specific(0));
    assert_eq!(g.generate(&name("a::Transform"), false), Route::Specific(0));
    assert_eq!(*g.routine(0), 11);
}

#[test]
fn unregistered_unreflectable_is_unavailable() {
    let mut g: InspectGenerator<u32> = InspectGenerator::new();
    g.register(name("a::Transform"), 11);
    let r = g.generate(&name("b::Secret"), false);
    assert_eq!(r, Route::Unavailable);
    assert_eq!(r.outcome(), RenderOutcome::Unavailable);
}

#[test]
fn unregistered_reflectable_goes_to_reflection() {
    let g: InspectGenerator<u32> = InspectGenerator::new();
    let r = g.generate(&name("b::Health"), true);
    assert_eq!(r, Route::Reflective);
    assert_eq!(r.outcome(), RenderOutcome::Rendered);
}

#[test]
fn registering_again_replaces_the_routine() {
    let mut g: InspectGenerator<u32> = InspectGenerator::new();
    g.register(name("A"), 1);
    g.register(name("B"), 2);
    g.register(name("A"), 3);
    assert_eq!(g.len(), 2);
    assert_eq!(g.generate(&name("A"), false), Route::Specific(0));
    assert_eq!(*g.routine(0), 3);
    assert_eq!(g.generate(&name("B"), false), Route::Specific(1));
}
