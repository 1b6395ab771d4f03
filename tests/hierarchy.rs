use world_inspector::entity_tree::{Entity, EntityTree, Visit};

fn ent(id: u32) -> Entity {
    Entity { id, generation: 0 }
}

fn visits(tree: &EntityTree) -> Vec<(u32, usize)> {
    tree.render().iter().map(|v: &Visit| (v.entity.id, v.depth)).collect()
}

#[test]
fn chain_with_missing_parent() {
    // A root, B under A, C under B, D under an entity that does not exist.
    let world = vec![
        (ent(1), None),
        (ent(2), Some(ent(1))),
        (ent(3), Some(ent(2))),
        (ent(4), Some(ent(99))),
    ];
    let tree = EntityTree::from_world(&world);
    assert_eq!(visits(&tree), vec![(1, 0), (2, 1), (3, 2)]);
}

#[test]
fn children_listed_before_parents_still_placed() {
    let world = vec![
        (ent(3), Some(ent(2))),
        (ent(2), Some(ent(1))),
        (ent(1), None),
    ];
    let tree = EntityTree::from_world(&world);
    assert_eq!(visits(&tree), vec![(1, 0), (2, 1), (3, 2)]);
}

#[test]
fn empty_world_gives_empty_tree() {
    let tree = EntityTree::from_world(&Vec::new());
    assert!(tree.render().is_empty());
}

#[test]
fn self_parent_is_dropped() {
    let world = vec![(ent(1), None), (ent(5), Some(ent(5))), (ent(2), Some(ent(1)))];
    let tree = EntityTree::from_world(&world);
    assert_eq!(visits(&tree), vec![(1, 0), (2, 1)]);
}

#[test]
fn cycle_is_dropped_and_the_rest_placed() {
    let world = vec![
        (ent(10), Some(ent(11))),
        (ent(11), Some(ent(12))),
        (ent(12), Some(ent(10))),
        (ent(13), Some(ent(12))),
        (ent(1), None),
        (ent(2), Some(ent(1))),
    ];
    let tree = EntityTree::from_world(&world);
    assert_eq!(visits(&tree), vec![(1, 0), (2, 1)]);
}

#[test]
fn depth_first_with_siblings_sorted_by_id() {
    let world = vec![
        (ent(9), None),
        (ent(4), Some(ent(9))),
        (ent(2), None),
        (ent(7), Some(ent(2))),
        (ent(3), Some(ent(2))),
        (ent(8), Some(ent(3))),
        (ent(1), Some(ent(9))),
    ];
    let tree = EntityTree::from_world(&world);
    assert_eq!(
        visits(&tree),
        vec![(2, 0), (3, 1), (8, 2), (7, 1), (9, 0), (1, 1), (4, 1)]
    );
}

#[test]
fn same_generation_order_breaks_id_ties() {
    let world = vec![
        (Entity { id: 1, generation: 3 }, None),
        (Entity { id: 1, generation: 1 }, None),
    ];
    let tree = EntityTree::from_world(&world);
    let gens: Vec<u32> = tree.render().iter().map(|v| v.entity.generation).collect();
    assert_eq!(gens, vec![1, 3]);
}

#[test]
fn layout_is_the_same_for_any_listing_order() {
    let a = vec![
        (ent(5), Some(ent(1))),
        (ent(1), None),
        (ent(3), Some(ent(1))),
        (ent(6), Some(ent(3))),
        (ent(2), None),
    ];
    let mut b = a.clone();
    b.reverse();
    let ta = EntityTree::from_world(&a);
    let tb = EntityTree::from_world(&b);
    assert_eq!(ta.render(), tb.render());
    assert_eq!(ta.render(), ta.render());
    assert_eq!(visits(&ta), vec![(1, 0), (3, 1), (6, 2), (5, 1), (2, 0)]);
}
