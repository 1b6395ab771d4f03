//! Rebuilding the parent/child tree from flat parent links, and laying it
//! out for display in a stable depth-first order.

use vstd::prelude::*;
use vstd::seq_lib::*;
use vstd::set_lib::*;
use crate::order::{seq_lt, sorted_order, is_arrangement};

verus! {

/// An entity of the host simulation: its slot index and the generation of
/// that slot.
#[derive(Clone, Copy, PartialEq, Eq, Structural, Debug, Hash)]
pub struct Entity {
    pub id: u32,
    pub generation: u32,
}

/// The entity listed at some position of `rel`.
pub open spec fn declared(rel: Seq<(Entity, Option<Entity>)>, e: Entity) -> bool {
    exists|i: int| 0 <= i < rel.len() && #[trigger] rel[i].0 == e
}

/// Each entity is listed at most once.
pub open spec fn unique_entities(rel: Seq<(Entity, Option<Entity>)>) -> bool {
    forall|i: int, j: int|
        0 <= i < rel.len() && 0 <= j < rel.len() && #[trigger] rel[i].0 == #[trigger] rel[j].0 ==> i == j
}

/// The parent declared for `e` (meaningful when `e` is declared).
pub open spec fn parent_of(rel: Seq<(Entity, Option<Entity>)>, e: Entity) -> Option<Entity> {
    rel[choose|i: int| 0 <= i < rel.len() && #[trigger] rel[i].0 == e].1
}

/// The path from a root down to `e` found by following parent links at
/// most `fuel` times; `None` when the walk meets an undeclared entity or
/// runs out of fuel.
pub open spec fn chain(rel: Seq<(Entity, Option<Entity>)>, e: Entity, fuel: nat) -> Option<Seq<Entity>>
    decreases fuel,
{
    if fuel == 0 || !declared(rel, e) {
        None
    } else {
        match parent_of(rel, e) {
            None => Some(seq![e]),
            Some(p) => match chain(rel, p, (fuel - 1) as nat) {
                Some(q) => Some(q.push(e)),
                None => None,
            },
        }
    }
}

/// The parent links of `e` lead to a root.
pub open spec fn resolves(rel: Seq<(Entity, Option<Entity>)>, e: Entity) -> bool {
    exists|f: nat| #[trigger] chain(rel, e, f) is Some
}

/// The root path of a resolving entity.
pub open spec fn path_to(rel: Seq<(Entity, Option<Entity>)>, e: Entity) -> Seq<Entity> {
    chain(rel, e, choose|f: nat| #[trigger] chain(rel, e, f) is Some)->0
}

/// The tree that the links describe: each resolving entity, with the path
/// from its root down to itself. Entities on a cycle, or below a missing
/// parent, are not in it.
pub open spec fn hierarchy(rel: Seq<(Entity, Option<Entity>)>) -> Map<Entity, Seq<Entity>> {
    Map::new(|e: Entity| resolves(rel, e), |e: Entity| path_to(rel, e))
}

pub proof fn lemma_chain_shape(rel: Seq<(Entity, Option<Entity>)>, e: Entity, f: nat)
    requires
        chain(rel, e, f) is Some,
    ensures
        chain(rel, e, f)->0.len() >= 1,
        chain(rel, e, f)->0.len() <= f,
        chain(rel, e, f)->0.last() == e,
        declared(rel, e),
    decreases f,
{
    if let Some(p) = parent_of(rel, e) {
        lemma_chain_shape(rel, p, (f - 1) as nat);
    }
}

pub proof fn lemma_chain_stable(rel: Seq<(Entity, Option<Entity>)>, e: Entity, f: nat, g: nat)
    requires
        chain(rel, e, f) is Some,
        f <= g,
    ensures
        chain(rel, e, g) == chain(rel, e, f),
    decreases f,
{
    if let Some(p) = parent_of(rel, e) {
        lemma_chain_stable(rel, p, (f - 1) as nat, (g - 1) as nat);
    }
}

pub proof fn lemma_chain_agrees(rel: Seq<(Entity, Option<Entity>)>, e: Entity, f: nat, g: nat)
    requires
        chain(rel, e, f) is Some,
        chain(rel, e, g) is Some,
    ensures
        chain(rel, e, g) == chain(rel, e, f),
{
    if f <= g {
        lemma_chain_stable(rel, e, f, g);
    } else {
        lemma_chain_stable(rel, e, g, f);
    }
}

/// Where a tree entity sits: a root at the path holding itself alone, any
/// other entity at its parent's path followed by itself, so its depth is
/// one more than its parent's.
pub proof fn lemma_placed_under_parent(rel: Seq<(Entity, Option<Entity>)>, e: Entity)
    requires
        unique_entities(rel),
        hierarchy(rel).contains_key(e),
    ensures
        declared(rel, e),
        match parent_of(rel, e) {
            None => hierarchy(rel)[e] == seq![e],
            Some(p) => hierarchy(rel).contains_key(p) && hierarchy(rel)[e] == hierarchy(rel)[p].push(e),
        },
{
    let f = choose|f: nat| #[trigger] chain(rel, e, f) is Some;
    lemma_chain_shape(rel, e, f);
    if let Some(p) = parent_of(rel, e) {
        let f1 = (f - 1) as nat;
        assert(chain(rel, p, f1) is Some);
        let g = choose|g: nat| #[trigger] chain(rel, p, g) is Some;
        lemma_chain_agrees(rel, p, f1, g);
    }
}

/// A listed entity whose parent is in the tree is in the tree too, and a
/// listed entity without a parent is a root of it.
pub proof fn lemma_placement_closed(rel: Seq<(Entity, Option<Entity>)>, e: Entity)
    requires
        unique_entities(rel),
        declared(rel, e),
        match parent_of(rel, e) {
            None => true,
            Some(p) => hierarchy(rel).contains_key(p),
        },
    ensures
        hierarchy(rel).contains_key(e),
{
    match parent_of(rel, e) {
        None => {
            assert(chain(rel, e, 1) is Some);
        },
        Some(p) => {
            let g = choose|g: nat| #[trigger] chain(rel, p, g) is Some;
            assert(chain(rel, e, g + 1) is Some);
        },
    }
}

proof fn lemma_ranked_resolves(rel: Seq<(Entity, Option<Entity>)>, rank: spec_fn(Entity) -> nat, e: Entity)
    requires
        unique_entities(rel),
        forall|i: int| 0 <= i < rel.len() && (#[trigger] rel[i]).1 is Some ==> declared(rel, rel[i].1->0),
        forall|i: int| 0 <= i < rel.len() && (#[trigger] rel[i]).1 is Some ==> rank(rel[i].1->0) < rank(rel[i].0),
        declared(rel, e),
    ensures
        chain(rel, e, rank(e) + 1) is Some,
    decreases rank(e),
{
    let k = choose|k: int| 0 <= k < rel.len() && #[trigger] rel[k].0 == e;
    assert(parent_of(rel, e) == rel[k].1);
    if let Some(p) = parent_of(rel, e) {
        lemma_ranked_resolves(rel, rank, p);
        lemma_chain_stable(rel, p, rank(p) + 1, rank(e));
    }
}

/// Without cycles, and with every parent listed, every listed entity is in
/// the tree exactly once, under its parent, and nothing else is. A cycle-free
/// parent relation is one along which some rank falls strictly from each
/// child to its parent.
pub proof fn lemma_acyclic_all_placed(rel: Seq<(Entity, Option<Entity>)>, rank: spec_fn(Entity) -> nat)
    requires
        unique_entities(rel),
        forall|i: int| 0 <= i < rel.len() && (#[trigger] rel[i]).1 is Some ==> declared(rel, rel[i].1->0),
        forall|i: int| 0 <= i < rel.len() && (#[trigger] rel[i]).1 is Some ==> rank(rel[i].1->0) < rank(rel[i].0),
    ensures
        forall|e: Entity| #[trigger] hierarchy(rel).contains_key(e) <==> declared(rel, e),
        forall|i: int|
            0 <= i < rel.len() ==> match (#[trigger] rel[i]).1 {
                None => hierarchy(rel)[rel[i].0] == seq![rel[i].0],
                Some(p) => hierarchy(rel)[rel[i].0] == hierarchy(rel)[p].push(rel[i].0),
            },
{
    assert forall|e: Entity| #[trigger] hierarchy(rel).contains_key(e) <==> declared(rel, e) by {
        if declared(rel, e) {
            lemma_ranked_resolves(rel, rank, e);
        }
        if hierarchy(rel).contains_key(e) {
            let f = choose|f: nat| #[trigger] chain(rel, e, f) is Some;
            lemma_chain_shape(rel, e, f);
        }
    }
    assert forall|i: int| 0 <= i < rel.len() implies match (#[trigger] rel[i]).1 {
        None => hierarchy(rel)[rel[i].0] == seq![rel[i].0],
        Some(p) => hierarchy(rel)[rel[i].0] == hierarchy(rel)[p].push(rel[i].0),
    } by {
        let e = rel[i].0;
        assert(declared(rel, e));
        assert(parent_of(rel, e) == rel[i].1);
        lemma_ranked_resolves(rel, rank, e);
        lemma_placed_under_parent(rel, e);
    }
}

/// The entity reached from `e` by following parent links `k` times.
pub open spec fn ancestor(rel: Seq<(Entity, Option<Entity>)>, e: Entity, k: nat) -> Option<Entity>
    decreases k,
{
    if k == 0 {
        Some(e)
    } else if !declared(rel, e) {
        None
    } else {
        match parent_of(rel, e) {
            None => None,
            Some(p) => ancestor(rel, p, (k - 1) as nat),
        }
    }
}

/// Following parent links from `e` leads back to `e`.
pub open spec fn on_cycle(rel: Seq<(Entity, Option<Entity>)>, e: Entity) -> bool {
    exists|k: nat| k >= 1 && #[trigger] ancestor(rel, e, k) == Some(e)
}

proof fn lemma_chain_reaches_ancestor(rel: Seq<(Entity, Option<Entity>)>, x: Entity, f: nat, k: nat, y: Entity)
    requires
        chain(rel, x, f) is Some,
        ancestor(rel, x, k) == Some(y),
    ensures
        k < f,
        chain(rel, y, (f - k) as nat) is Some,
    decreases k,
{
    if k > 0 {
        let p = parent_of(rel, x)->0;
        lemma_chain_reaches_ancestor(rel, p, (f - 1) as nat, (k - 1) as nat, y);
    }
}

proof fn lemma_cycle_never_resolves(rel: Seq<(Entity, Option<Entity>)>, e: Entity, k: nat, f: nat)
    requires
        k >= 1,
        ancestor(rel, e, k) == Some(e),
    ensures
        chain(rel, e, f) is None,
    decreases f,
{
    if chain(rel, e, f) is Some {
        lemma_chain_reaches_ancestor(rel, e, f, k, e);
        lemma_cycle_never_resolves(rel, e, k, (f - k) as nat);
    }
}

/// An entity on a cycle of parent links, its own parent included, is left
/// out of the tree; the placement of the others is unaffected (see
/// `lemma_placed_under_parent` and `lemma_placement_closed`).
pub proof fn lemma_cycle_excluded(rel: Seq<(Entity, Option<Entity>)>, e: Entity)
    requires
        on_cycle(rel, e),
    ensures
        !hierarchy(rel).contains_key(e),
{
    let k = choose|k: nat| k >= 1 && #[trigger] ancestor(rel, e, k) == Some(e);
    assert forall|f: nat| !(#[trigger] chain(rel, e, f) is Some) by {
        lemma_cycle_never_resolves(rel, e, k, f);
    }
}

/// No entities, no tree: the root has no children.
pub proof fn lemma_empty_world()
    ensures
        hierarchy(Seq::<(Entity, Option<Entity>)>::empty()).dom() == Set::<Entity>::empty(),
{
    let rel = Seq::<(Entity, Option<Entity>)>::empty();
    assert forall|e: Entity| !hierarchy(rel).contains_key(e) by {
        if hierarchy(rel).contains_key(e) {
            let f = choose|f: nat| #[trigger] chain(rel, e, f) is Some;
            lemma_chain_shape(rel, e, f);
        }
    }
    assert(hierarchy(rel).dom() =~= Set::<Entity>::empty());
}

/// The node list holds correct root paths of distinct entities.
pub open spec fn nodes_sound(rel: Seq<(Entity, Option<Entity>)>, ns: Seq<(Entity, Vec<Entity>)>) -> bool {
    &&& forall|i: int| 0 <= i < ns.len() ==> chain(rel, #[trigger] ns[i].0, ns[i].1@.len()) == Some(ns[i].1@)
    &&& forall|i: int, j: int|
        0 <= i < ns.len() && 0 <= j < ns.len() && i != j ==> #[trigger] ns[i].0 != #[trigger] ns[j].0
}

pub open spec fn placed(ns: Seq<(Entity, Vec<Entity>)>, e: Entity) -> bool {
    exists|i: int| 0 <= i < ns.len() && #[trigger] ns[i].0 == e
}

proof fn lemma_nodes_bounded(rel: Seq<(Entity, Option<Entity>)>, ns: Seq<(Entity, Vec<Entity>)>)
    requires
        nodes_sound(rel, ns),
    ensures
        ns.len() <= rel.len(),
{
    let es = ns.map_values(|x: (Entity, Vec<Entity>)| x.0);
    let rs = rel.map_values(|x: (Entity, Option<Entity>)| x.0);
    assert(es.no_duplicates()) by {
        assert forall|i: int, j: int| 0 <= i < es.len() && 0 <= j < es.len() && i != j implies es[i] != es[j] by {
            assert(ns[i].0 != ns[j].0);
        }
    }
    assert(es.to_set().subset_of(rs.to_set())) by {
        assert forall|x: Entity| es.to_set().contains(x) implies rs.to_set().contains(x) by {
            assert(es.contains(x));
            let i = choose|i: int| 0 <= i < es.len() && es[i] == x;
            assert(chain(rel, ns[i].0, ns[i].1@.len()) is Some);
            lemma_chain_shape(rel, ns[i].0, ns[i].1@.len());
            let k = choose|k: int| 0 <= k < rel.len() && #[trigger] rel[k].0 == x;
            assert(rs[k] == x);
        }
    }
    es.unique_seq_to_set();
    rs.lemma_cardinality_of_set();
    seq_to_set_is_finite(rs);
    lemma_len_subset(es.to_set(), rs.to_set());
}

/// Every resolving entity is placed, once the roots are placed and no
/// declared link can place anything more.
proof fn lemma_fixed_point_complete(
    rel: Seq<(Entity, Option<Entity>)>,
    ns: Seq<(Entity, Vec<Entity>)>,
    e: Entity,
    f: nat,
)
    requires
        unique_entities(rel),
        forall|k: int| 0 <= k < rel.len() && (#[trigger] rel[k]).1 is None ==> placed(ns, rel[k].0),
        forall|k: int|
            0 <= k < rel.len() && (#[trigger] rel[k]).1 is Some ==> placed(ns, rel[k].0) || !placed(
                ns,
                rel[k].1->0,
            ),
        chain(rel, e, f) is Some,
    ensures
        placed(ns, e),
    decreases f,
{
    let k = choose|k: int| 0 <= k < rel.len() && #[trigger] rel[k].0 == e;
    assert(parent_of(rel, e) == rel[k].1);
    if let Some(p) = parent_of(rel, e) {
        lemma_fixed_point_complete(rel, ns, p, (f - 1) as nat);
    }
}

/// Looks `e` up among the placed nodes.
fn find(nodes: &Vec<(Entity, Vec<Entity>)>, e: Entity) -> (r: Option<usize>)
    ensures
        match r {
            Some(j) => j < nodes@.len() && nodes@[j as int].0 == e,
            None => !placed(nodes@, e),
        },
{
    let mut i: usize = 0;
    while i < nodes.len()
        invariant
            i <= nodes@.len(),
            forall|k: int| 0 <= k < i ==> nodes@[k].0 != e,
        decreases nodes.len() - i,
    {
        if nodes[i].0 == e {
            return Some(i);
        }
        i = i + 1;
    }
    None
}

/// `path` followed by `e`.
fn extended(path: &Vec<Entity>, e: Entity) -> (r: Vec<Entity>)
    ensures
        r@ == path@.push(e),
{
    let mut r: Vec<Entity> = Vec::new();
    let mut i: usize = 0;
    while i < path.len()
        invariant
            i <= path@.len(),
            r@ == path@.subrange(0, i as int),
        decreases path.len() - i,
    {
        r.push(path[i]);
        i = i + 1;
    }
    r.push(e);
    assert(path@.subrange(0, path@.len() as int) =~= path@);
    r
}

/// One line of the laid-out tree: an entity and how deep it sits.
#[derive(Clone, Copy, PartialEq, Eq, Structural, Debug)]
pub struct Visit {
    pub entity: Entity,
    pub depth: usize,
}

/// The sort key of an entity: slot index first, then generation.
pub open spec fn entity_key(e: Entity) -> u64 {
    (e.id as int * 4294967296 + e.generation as int) as u64
}

pub open spec fn path_key(p: Seq<Entity>) -> Seq<u64> {
    p.map_values(|e: Entity| entity_key(e))
}

/// `s` lists the root paths of `m`, each once, in increasing key order.
/// Comparing paths position by position puts a node before its
/// descendants and its descendants before its next sibling, so this is the
/// depth-first pre-order with siblings taken by increasing entity key.
pub open spec fn is_preorder(m: Map<Entity, Seq<Entity>>, s: Seq<Seq<Entity>>) -> bool {
    &&& forall|i: int, j: int| 0 <= i < j < s.len() ==> seq_lt(path_key(#[trigger] s[i]), path_key(#[trigger] s[j]))
    &&& forall|p: Seq<Entity>| s.contains(p) <==> exists|e: Entity| m.contains_key(e) && #[trigger] m[e] == p
}

pub open spec fn preorder(m: Map<Entity, Seq<Entity>>) -> Seq<Seq<Entity>> {
    choose|s: Seq<Seq<Entity>>| is_preorder(m, s)
}

pub open spec fn visit_of(p: Seq<Entity>) -> Visit {
    Visit { entity: p.last(), depth: (p.len() - 1) as usize }
}

/// The lines shown for a tree, top to bottom.
pub open spec fn layout(m: Map<Entity, Seq<Entity>>) -> Seq<Visit> {
    preorder(m).map_values(|p: Seq<Entity>| visit_of(p))
}

proof fn lemma_entity_key_injective(a: Entity, b: Entity)
    requires
        entity_key(a) == entity_key(b),
    ensures
        a == b,
{
    let x = a.id as int;
    let y = b.id as int;
    let g = a.generation as int;
    let h = b.generation as int;
    assert(x * 4294967296 + g == y * 4294967296 + h ==> x == y) by (nonlinear_arith)
        requires
            0 <= g < 4294967296,
            0 <= h < 4294967296,
            0 <= x < 4294967296,
            0 <= y < 4294967296,
    ;
}

/// The layout order is determined by the tree alone: two orders that both
/// list its paths in increasing key order are the same order.
pub proof fn lemma_preorder_unique(m: Map<Entity, Seq<Entity>>, s1: Seq<Seq<Entity>>, s2: Seq<Seq<Entity>>)
    requires
        is_preorder(m, s1),
        is_preorder(m, s2),
    ensures
        s1 == s2,
{
    lemma_sorted_unique(s1, s2);
}

proof fn lemma_sorted_unique(s1: Seq<Seq<Entity>>, s2: Seq<Seq<Entity>>)
    requires
        forall|i: int, j: int| 0 <= i < j < s1.len() ==> seq_lt(path_key(#[trigger] s1[i]), path_key(#[trigger] s1[j])),
        forall|i: int, j: int| 0 <= i < j < s2.len() ==> seq_lt(path_key(#[trigger] s2[i]), path_key(#[trigger] s2[j])),
        forall|p: Seq<Entity>| s1.contains(p) <==> s2.contains(p),
    ensures
        s1 == s2,
    decreases s1.len(),
{
    if s1.len() == 0 {
        if s2.len() > 0 {
            assert(s2.contains(s2[0]));
        }
        assert(s1 =~= s2);
    } else {
        assert(s1.contains(s1[0]));
        assert(s2.len() > 0);
        assert(s2.contains(s2[0]));
        let j = choose|j: int| 0 <= j < s2.len() && s2[j] == s1[0];
        let i = choose|i: int| 0 <= i < s1.len() && s1[i] == s2[0];
        if s1[0] != s2[0] {
            assert(j > 0 && i > 0);
            assert(seq_lt(path_key(s2[0]), path_key(s2[j])));
            assert(seq_lt(path_key(s1[0]), path_key(s1[i])));
            crate::order::lemma_seq_lt_asymmetric(path_key(s2[0]), path_key(s1[0]));
        }
        let t1 = s1.drop_first();
        let t2 = s2.drop_first();
        assert forall|p: Seq<Entity>| t1.contains(p) implies t2.contains(p) by {
            let a = choose|a: int| 0 <= a < t1.len() && t1[a] == p;
            assert(s1[a + 1] == p);
            assert(s1.contains(p));
            let b = choose|b: int| 0 <= b < s2.len() && s2[b] == p;
            if b == 0 {
                assert(seq_lt(path_key(s1[0]), path_key(s1[a + 1])));
                crate::order::lemma_seq_lt_irreflexive(path_key(p));
            }
            assert(t2[b - 1] == p);
        }
        assert forall|p: Seq<Entity>| t2.contains(p) implies t1.contains(p) by {
            let a = choose|a: int| 0 <= a < t2.len() && t2[a] == p;
            assert(s2[a + 1] == p);
            assert(s2.contains(p));
            let b = choose|b: int| 0 <= b < s1.len() && s1[b] == p;
            if b == 0 {
                assert(seq_lt(path_key(s2[0]), path_key(s2[a + 1])));
                crate::order::lemma_seq_lt_irreflexive(path_key(p));
            }
            assert(t1[b - 1] == p);
        }
        assert forall|x: int, y: int| 0 <= x < y < t1.len() implies seq_lt(path_key(#[trigger] t1[x]), path_key(#[trigger] t1[y])) by {
            assert(t1[x] == s1[x + 1] && t1[y] == s1[y + 1]);
        }
        assert forall|x: int, y: int| 0 <= x < y < t2.len() implies seq_lt(path_key(#[trigger] t2[x]), path_key(#[trigger] t2[y])) by {
            assert(t2[x] == s2[x + 1] && t2[y] == s2[y + 1]);
        }
        lemma_sorted_unique(t1, t2);
        assert(s1 =~= s2) by {
            assert forall|k: int| 0 <= k < s1.len() implies s1[k] == s2[k] by {
                if k > 0 {
                    assert(s1[k] == t1[k - 1]);
                    assert(s2[k] == t2[k - 1]);
                }
            }
        }
    }
}

fn entity_key_of(e: Entity) -> (r: u64)
    ensures
        r == entity_key(e),
{
    (e.id as u64) * 4294967296 + (e.generation as u64)
}

fn path_key_of(p: &Vec<Entity>) -> (r: Vec<u64>)
    ensures
        r@ == path_key(p@),
{
    let mut r: Vec<u64> = Vec::new();
    let mut i: usize = 0;
    while i < p.len()
        invariant
            i <= p@.len(),
            r@ == path_key(p@.subrange(0, i as int)),
        decreases p.len() - i,
    {
        r.push(entity_key_of(p[i]));
        proof {
            assert(path_key(p@.subrange(0, i + 1)) =~= path_key(p@.subrange(0, i as int)).push(entity_key(p@[i as int])));
        }
        i = i + 1;
    }
    assert(p@.subrange(0, p@.len() as int) =~= p@);
    r
}

/// The entity tree of one frame: each placed entity with its path from a
/// root.
pub struct EntityTree {
    nodes: Vec<(Entity, Vec<Entity>)>,
    paths: Ghost<Map<Entity, Seq<Entity>>>,
}

impl View for EntityTree {
    type V = Map<Entity, Seq<Entity>>;

    closed spec fn view(&self) -> Map<Entity, Seq<Entity>> {
        self.paths@
    }
}

impl EntityTree {
    /// The node list and the map agree, and each path ends in its entity.
    pub closed spec fn wf(&self) -> bool {
        let ns = self.nodes@;
        let m = self.paths@;
        &&& forall|i: int|
            0 <= i < ns.len() ==> m.contains_key(#[trigger] ns[i].0) && m[ns[i].0] == ns[i].1@
        &&& forall|e: Entity| m.contains_key(e) ==> placed(ns, e)
        &&& forall|i: int, j: int|
            0 <= i < ns.len() && 0 <= j < ns.len() && i != j ==> #[trigger] ns[i].0 != #[trigger] ns[j].0
        &&& forall|i: int|
            0 <= i < ns.len() ==> (#[trigger] ns[i]).1@.len() >= 1 && ns[i].1@.last() == ns[i].0
    }

    /// Builds the tree from every entity of the world with its parent, if
    /// any. Roots go in first; then passes over the links place each child
    /// whose parent is placed, until a pass places nothing.
    pub fn from_world(world: &Vec<(Entity, Option<Entity>)>) -> (tree: EntityTree)
        requires
            unique_entities(world@),
        ensures
            tree.wf(),
            tree@ == hierarchy(world@),
    {
        let ghost rel = world@;
        let mut nodes: Vec<(Entity, Vec<Entity>)> = Vec::new();
        let mut i: usize = 0;
        while i < world.len()
            invariant
                rel == world@,
                unique_entities(rel),
                i <= rel.len(),
                nodes_sound(rel, nodes@),
                forall|k: int| 0 <= k < i && (#[trigger] rel[k]).1 is None ==> placed(nodes@, rel[k].0),
            decreases world.len() - i,
        {
            let (e, parent) = world[i];
            if parent.is_none() {
                let found = find(&nodes, e);
                if found.is_none() {
                    let ghost before = nodes@;
                    proof {
                        assert(rel[i as int].0 == e);
                        assert(parent_of(rel, e) == rel[i as int].1);
                        assert(chain(rel, e, 1) == Some(seq![e]));
                    }
                    nodes.push((e, vec![e]));
                    proof {
                        assert(nodes@[before.len() as int].1@ =~= seq![e]);
                        assert forall|k: int| 0 <= k < i && (#[trigger] rel[k]).1 is None implies placed(nodes@, rel[k].0) by {
                            let w = choose|w: int| 0 <= w < before.len() && #[trigger] before[w].0 == rel[k].0;
                            assert(nodes@[w] == before[w]);
                        }
                    }
                }
                proof {
                    assert(rel[i as int].0 == e);
                    if let Some(w) = found {
                        assert(nodes@[w as int].0 == e);
                    } else {
                        assert(nodes@[nodes@.len() - 1].0 == e);
                    }
                }
            }
            i = i + 1;
        }
        proof {
            lemma_nodes_bounded(rel, nodes@);
        }
        loop
            invariant
                rel == world@,
                unique_entities(rel),
                nodes_sound(rel, nodes@),
                nodes@.len() <= rel.len(),
                forall|k: int| 0 <= k < rel.len() && (#[trigger] rel[k]).1 is None ==> placed(nodes@, rel[k].0),
            ensures
                nodes_sound(rel, nodes@),
                forall|k: int| 0 <= k < rel.len() && (#[trigger] rel[k]).1 is None ==> placed(nodes@, rel[k].0),
                forall|k: int|
                    0 <= k < rel.len() && (#[trigger] rel[k]).1 is Some ==> placed(nodes@, rel[k].0) || !placed(
                        nodes@,
                        rel[k].1->0,
                    ),
            decreases world.len() - nodes.len(),
        {
            let ghost start = nodes@;
            let mut changed = false;
            let mut i: usize = 0;
            while i < world.len()
                invariant
                    rel == world@,
                    unique_entities(rel),
                    i <= rel.len(),
                    nodes_sound(rel, nodes@),
                    start.len() <= nodes@.len(),
                    forall|w: int| 0 <= w < start.len() ==> nodes@[w] == start[w],
                    !changed ==> nodes@ == start,
                    changed ==> nodes@.len() > start.len(),
                    forall|k: int| 0 <= k < rel.len() && (#[trigger] rel[k]).1 is None ==> placed(nodes@, rel[k].0),
                    !changed ==> forall|k: int|
                        0 <= k < i && (#[trigger] rel[k]).1 is Some ==> placed(nodes@, rel[k].0) || !placed(
                            nodes@,
                            rel[k].1->0,
                        ),
                decreases world.len() - i,
            {
                let (c, parent) = world[i];
                proof {
                    assert(rel[i as int].0 == c);
                }
                if let Some(p) = parent {
                    if find(&nodes, c).is_none() {
                        if let Some(j) = find(&nodes, p) {
                            let path = extended(&nodes[j].1, c);
                            let ghost before = nodes@;
                            proof {
                                let pp = before[j as int].1@;
                                assert(chain(rel, p, pp.len()) == Some(pp));
                                assert(parent_of(rel, c) == rel[i as int].1);
                                assert(chain(rel, c, pp.len() + 1) == Some(pp.push(c)));
                            }
                            nodes.push((c, path));
                            changed = true;
                            proof {
                                assert forall|k: int| 0 <= k < rel.len() && (#[trigger] rel[k]).1 is None implies placed(nodes@, rel[k].0) by {
                                    let w = choose|w: int| 0 <= w < before.len() && #[trigger] before[w].0 == rel[k].0;
                                    assert(nodes@[w] == before[w]);
                                }
                            }
                        }
                    }
                }
                i = i + 1;
            }
            proof {
                lemma_nodes_bounded(rel, nodes@);
            }
            if !changed {
                break;
            }
        }
        let ghost m = hierarchy(rel);
        proof {
            assert forall|i: int| 0 <= i < nodes@.len() implies m.contains_key((#[trigger] nodes@[i]).0)
                && m[nodes@[i].0] == nodes@[i].1@ && nodes@[i].1@.len() >= 1 && nodes@[i].1@.last() == nodes@[i].0 by {
                let e = nodes@[i].0;
                let f = nodes@[i].1@.len();
                assert(chain(rel, e, f) is Some);
                lemma_chain_shape(rel, e, f);
                let g = choose|g: nat| #[trigger] chain(rel, e, g) is Some;
                lemma_chain_agrees(rel, e, f, g);
            }
            assert forall|e: Entity| m.contains_key(e) implies placed(nodes@, e) by {
                let g = choose|g: nat| #[trigger] chain(rel, e, g) is Some;
                lemma_fixed_point_complete(rel, nodes@, e, g);
            }
        }
        EntityTree { nodes, paths: Ghost(m) }
    }

    /// Lays the tree out for display: depth-first, each node before its
    /// children, siblings by increasing entity key.
    pub fn render(&self) -> (r: Vec<Visit>)
        requires
            self.wf(),
        ensures
            r@ == layout(self@),
    {
        let ghost ns = self.nodes@;
        let ghost m = self.paths@;
        let mut keys: Vec<Vec<u64>> = Vec::new();
        let mut i: usize = 0;
        while i < self.nodes.len()
            invariant
                ns == self.nodes@,
                i <= ns.len(),
                keys@.len() == i,
                forall|k: int| 0 <= k < i ==> (#[trigger] keys@[k])@ == path_key(ns[k].1@),
            decreases self.nodes.len() - i,
        {
            keys.push(path_key_of(&self.nodes[i].1));
            i = i + 1;
        }
        let ghost ks = keys@.map_values(|k: Vec<u64>| k@);
        proof {
            assert forall|a: int, b: int| 0 <= a < ks.len() && 0 <= b < ks.len() && a != b implies ks[a] != ks[b] by {
                let pa = ns[a].1@;
                let pb = ns[b].1@;
                assert(ns[a].0 != ns[b].0);
                assert(pa.len() >= 1 && pa.last() == ns[a].0);
                assert(pb.len() >= 1 && pb.last() == ns[b].0);
                if ks[a] == ks[b] {
                    assert(path_key(pa)[pa.len() - 1] == path_key(pb)[pb.len() - 1]);
                    lemma_entity_key_injective(ns[a].0, ns[b].0);
                }
            }
        }
        let perm = sorted_order(&keys);
        let ghost s = perm@.map_values(|k: usize| ns[k as int].1@);
        let mut r: Vec<Visit> = Vec::new();
        let mut w: usize = 0;
        while w < perm.len()
            invariant
                ns == self.nodes@,
                is_arrangement(perm@, ns.len() as nat),
                s == perm@.map_values(|k: usize| ns[k as int].1@),
                self.wf(),
                w <= perm@.len(),
                r@ == s.subrange(0, w as int).map_values(|p: Seq<Entity>| visit_of(p)),
            decreases perm.len() - w,
        {
            let k = perm[w];
            let node = &self.nodes[k];
            let v = Visit { entity: node.0, depth: node.1.len() - 1 };
            proof {
                assert(ns[k as int] == self.nodes@[k as int]);
                assert(visit_of(s[w as int]) == v);
                assert(s.subrange(0, w + 1).map_values(|p: Seq<Entity>| visit_of(p))
                    =~= s.subrange(0, w as int).map_values(|p: Seq<Entity>| visit_of(p)).push(v));
            }
            r.push(v);
            w = w + 1;
        }
        proof {
            assert(s.subrange(0, s.len() as int) =~= s);
            assert forall|a: int, b: int| 0 <= a < b < s.len() implies seq_lt(path_key(#[trigger] s[a]), path_key(#[trigger] s[b])) by {
                assert(ks[perm@[a] as int] == path_key(s[a]));
                assert(ks[perm@[b] as int] == path_key(s[b]));
            }
            assert forall|p: Seq<Entity>| s.contains(p) implies exists|e: Entity| m.contains_key(e) && #[trigger] m[e] == p by {
                let a = choose|a: int| 0 <= a < s.len() && s[a] == p;
                let k = perm@[a] as int;
                assert(m.contains_key(ns[k].0) && m[ns[k].0] == ns[k].1@);
            }
            assert forall|p: Seq<Entity>| (exists|e: Entity| m.contains_key(e) && #[trigger] m[e] == p) implies s.contains(p) by {
                let e = choose|e: Entity| m.contains_key(e) && #[trigger] m[e] == p;
                assert(placed(ns, e));
                let k = choose|k: int| 0 <= k < ns.len() && #[trigger] ns[k].0 == e;
                assert(m[ns[k].0] == ns[k].1@);
                assert(perm@.contains(k as usize));
                let a = choose|a: int| 0 <= a < perm@.len() && perm@[a] == k as usize;
                assert(s[a] == p);
            }
            assert(is_preorder(m, s));
            lemma_preorder_unique(m, s, preorder(m));
        }
        r
    }
}

} // verus!
