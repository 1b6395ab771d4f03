//! What the inspector panel shows: entity labels, and for each entity its
//! records in display order with the way each is rendered.

use vstd::prelude::*;
use vstd::string::*;
use crate::entity_tree::Entity;
use crate::inspect_generator::{InspectGenerator, Route, route_for};
use crate::order::{seq_lt, sorted_order, is_arrangement, rises_by};
use crate::short_name::{clean_path, cleaned, type_name_match};

verus! {

pub open spec fn digit(d: int) -> char {
    seq!['0', '1', '2', '3', '4', '5', '6', '7', '8', '9'][d]
}

/// The decimal digits of `n`, most significant first.
pub open spec fn decimal(n: nat) -> Seq<char>
    decreases n,
{
    if n < 10 {
        seq![digit(n as int)]
    } else {
        decimal(n / 10).push(digit((n % 10) as int))
    }
}

/// `Entity <id>`, followed by ` - <name>` when the entity has a name.
pub open spec fn label_of(id: nat, name: Option<Seq<char>>) -> Seq<char> {
    match name {
        None => seq!['E', 'n', 't', 'i', 't', 'y', ' '] + decimal(id),
        Some(n) => seq!['E', 'n', 't', 'i', 't', 'y', ' '] + decimal(id) + seq![' ', '-', ' '] + n,
    }
}

fn digit_string(d: u32) -> (r: String)
    requires
        d < 10,
    ensures
        r@ == seq![digit(d as int)],
{
    let digits = "0123456789";
    proof {
        reveal_strlit("0123456789");
    }
    let r = String::from_str(digits.substring_char(d as usize, d as usize + 1));
    assert(r@ =~= seq![digit(d as int)]);
    r
}

/// `n` in decimal.
pub fn decimal_string(n: u32) -> (r: String)
    ensures
        r@ == decimal(n as nat),
    decreases n,
{
    if n < 10 {
        digit_string(n)
    } else {
        let head = decimal_string(n / 10);
        let last = digit_string(n % 10);
        head.concat(last.as_str())
    }
}

/// The label of an entity's group in the tree.
pub fn entity_label(entity: Entity, name: Option<&str>) -> (r: String)
    ensures
        r@ == label_of(
            entity.id as nat,
            match name {
                Some(n) => Some(n@),
                None => None,
            },
        ),
{
    proof {
        reveal_strlit("Entity ");
        reveal_strlit(" - ");
    }
    let base = String::from_str("Entity ").concat(decimal_string(entity.id).as_str());
    match name {
        None => base,
        Some(n) => base.concat(" - ").concat(n),
    }
}

/// Records that the tree already shows: the name and the hierarchy links.
pub open spec fn is_hidden(full_name: Seq<char>) -> bool {
    ||| full_name == "bevy_core::name::Name"@
    ||| full_name == "bevy_transform::components::children::Children"@
    ||| full_name == "bevy_transform::components::parent::Parent"@
    ||| full_name == "bevy_transform::components::parent::PreviousParent"@
}

/// Whether a record of this type is left out of the record list.
pub fn is_hidden_name(full_name: &String) -> (r: bool)
    ensures
        r == is_hidden(full_name@),
{
    *full_name == String::from_str("bevy_core::name::Name")
        || *full_name == String::from_str("bevy_transform::components::children::Children")
        || *full_name == String::from_str("bevy_transform::components::parent::Parent")
        || *full_name == String::from_str("bevy_transform::components::parent::PreviousParent")
}

/// A record attached to an entity, as the storage describes it.
pub struct RecordInfo {
    /// The fully qualified name of its type.
    pub full_name: String,
    /// The reflection registry can describe and edit the type.
    pub reflectable: bool,
}

/// One record's group in the panel.
pub struct RecordLine {
    /// Position of the record in the list it came from.
    pub index: usize,
    /// The group's title: the short type name.
    pub label: String,
    /// How its contents are drawn.
    pub route: Route,
}

/// Orders records by label, then by their position in the list.
pub open spec fn line_key(label: Seq<char>, index: int) -> Seq<u64> {
    label.map_values(|c: char| (c as u32 + 1) as u64) + seq![0u64, index as u64]
}

/// `lines` shows each record that is not hidden exactly once, under its
/// short name, with the route the registry picks, sorted by short name and
/// then by position.
pub open spec fn is_record_plan<R>(
    regs: Seq<(Seq<char>, R)>,
    records: Seq<RecordInfo>,
    shorts: Seq<Seq<char>>,
    lines: Seq<RecordLine>,
) -> bool {
    &&& forall|w: int|
        0 <= w < lines.len() ==> {
            let i = (#[trigger] lines[w]).index as int;
            &&& 0 <= i < records.len()
            &&& !is_hidden(records[i].full_name@)
            &&& lines[w].label@ == shorts[i]
            &&& lines[w].route == route_for(regs, records[i].full_name@, records[i].reflectable)
        }
    &&& forall|i: int|
        0 <= i < records.len() && !is_hidden(#[trigger] records[i].full_name@) ==> exists|w: int|
            0 <= w < lines.len() && #[trigger] lines[w].index == i
    &&& forall|v: int, w: int|
        0 <= v < w < lines.len() ==> seq_lt(
            line_key((#[trigger] lines[v]).label@, lines[v].index as int),
            line_key((#[trigger] lines[w]).label@, lines[w].index as int),
        )
}

fn line_key_of(label: &String, index: usize) -> (r: Vec<u64>)
    ensures
        r@ == line_key(label@, index as int),
{
    let s = label.as_str();
    let n = s.unicode_len();
    let mut r: Vec<u64> = Vec::new();
    let mut i: usize = 0;
    while i < n
        invariant
            n == s@.len(),
            s@ == label@,
            i <= n,
            r@ == s@.subrange(0, i as int).map_values(|c: char| (c as u32 + 1) as u64),
        decreases n - i,
    {
        let c = s.get_char(i);
        r.push(c as u32 as u64 + 1);
        assert(s@.subrange(0, i + 1).map_values(|c: char| (c as u32 + 1) as u64) =~= s@.subrange(
            0,
            i as int,
        ).map_values(|c: char| (c as u32 + 1) as u64).push((c as u32 + 1) as u64));
        i = i + 1;
    }
    r.push(0);
    r.push(index as u64);
    assert(s@.subrange(0, n as int) =~= s@);
    assert(r@ =~= line_key(label@, index as int));
    r
}

/// Plans the record groups of one entity from the records and their short
/// names, given position by position.
pub fn plan_records_named<R>(
    generator: &InspectGenerator<R>,
    records: &Vec<RecordInfo>,
    shorts: &Vec<String>,
) -> (lines: Vec<RecordLine>)
    requires
        generator.wf(),
        shorts@.len() == records@.len(),
    ensures
        is_record_plan(generator@, records@, shorts@.map_values(|s: String| s@), lines@),
{
    let ghost sv = shorts@.map_values(|s: String| s@);
    let mut kept: Vec<usize> = Vec::new();
    let mut keys: Vec<Vec<u64>> = Vec::new();
    let mut i: usize = 0;
    while i < records.len()
        invariant
            i <= records@.len(),
            shorts@.len() == records@.len(),
            sv == shorts@.map_values(|s: String| s@),
            kept@.len() == keys@.len(),
            forall|p: int| 0 <= p < kept@.len() ==> #[trigger] kept@[p] < i,
            forall|p: int, q: int| 0 <= p < q < kept@.len() ==> #[trigger] kept@[p] < #[trigger] kept@[q],
            forall|p: int| 0 <= p < kept@.len() ==> !is_hidden(records@[#[trigger] kept@[p] as int].full_name@),
            forall|p: int| 0 <= p < kept@.len() ==> (#[trigger] keys@[p])@ == line_key(sv[kept@[p] as int], kept@[p] as int),
            forall|k: int| 0 <= k < i && !is_hidden(#[trigger] records@[k].full_name@) ==> exists|p: int|
                0 <= p < kept@.len() && #[trigger] kept@[p] == k,
        decreases records.len() - i,
    {
        if !is_hidden_name(&records[i].full_name) {
            let ghost before = kept@;
            kept.push(i);
            keys.push(line_key_of(&shorts[i], i));
            proof {
                assert forall|k: int| 0 <= k < i + 1 && !is_hidden(#[trigger] records@[k].full_name@) implies exists|p: int|
                    0 <= p < kept@.len() && #[trigger] kept@[p] == k by {
                    if k == i {
                        assert(kept@[kept@.len() - 1] == k);
                    } else {
                        let p = choose|p: int| 0 <= p < before.len() && #[trigger] before[p] == k;
                        assert(kept@[p] == k);
                    }
                }
            }
        }
        i = i + 1;
    }
    let ghost ks = keys@.map_values(|k: Vec<u64>| k@);
    proof {
        assert forall|a: int, b: int| 0 <= a < ks.len() && 0 <= b < ks.len() && a != b implies ks[a] != ks[b] by {
            let ka = ks[a];
            let kb = ks[b];
            if ka == kb {
                assert(ka[ka.len() - 1] == kept@[a] as u64);
                assert(kb[kb.len() - 1] == kept@[b] as u64);
                if a < b {
                    assert(kept@[a] < kept@[b]);
                } else {
                    assert(kept@[b] < kept@[a]);
                }
            }
        }
    }
    let perm = sorted_order(&keys);
    let mut lines: Vec<RecordLine> = Vec::new();
    let mut w: usize = 0;
    while w < perm.len()
        invariant
            generator.wf(),
            w <= perm@.len(),
            is_arrangement(perm@, kept@.len() as nat),
            rises_by(ks, perm@),
            ks == keys@.map_values(|k: Vec<u64>| k@),
            kept@.len() == keys@.len(),
            sv == shorts@.map_values(|s: String| s@),
            shorts@.len() == records@.len(),
            forall|p: int| 0 <= p < kept@.len() ==> #[trigger] kept@[p] < records@.len(),
            forall|p: int| 0 <= p < kept@.len() ==> !is_hidden(records@[#[trigger] kept@[p] as int].full_name@),
            forall|p: int| 0 <= p < kept@.len() ==> (#[trigger] keys@[p])@ == line_key(sv[kept@[p] as int], kept@[p] as int),
            lines@.len() == w,
            forall|v: int| 0 <= v < w ==> (#[trigger] lines@[v]).index == kept@[perm@[v] as int],
            forall|v: int|
                0 <= v < w ==> {
                    let k = (#[trigger] lines@[v]).index as int;
                    &&& lines@[v].label@ == sv[k]
                    &&& lines@[v].route == route_for(generator@, records@[k].full_name@, records@[k].reflectable)
                },
        decreases perm.len() - w,
    {
        let k = kept[perm[w]];
        let record = &records[k];
        let line = RecordLine {
            index: k,
            label: shorts[k].clone(),
            route: generator.generate(&record.full_name, record.reflectable),
        };
        lines.push(line);
        w = w + 1;
    }
    proof {
        let regs = generator@;
        let shv = shorts@.map_values(|s: String| s@);
        assert forall|v: int, x: int| 0 <= v < x < lines@.len() implies seq_lt(
            line_key((#[trigger] lines@[v]).label@, lines@[v].index as int),
            line_key((#[trigger] lines@[x]).label@, lines@[x].index as int),
        ) by {
            assert(ks[perm@[v] as int] == line_key(lines@[v].label@, lines@[v].index as int));
            assert(ks[perm@[x] as int] == line_key(lines@[x].label@, lines@[x].index as int));
        }
        assert forall|k: int| 0 <= k < records@.len() && !is_hidden(#[trigger] records@[k].full_name@) implies exists|x: int|
            0 <= x < lines@.len() && #[trigger] lines@[x].index == k by {
            let p = choose|p: int| 0 <= p < kept@.len() && #[trigger] kept@[p] == k;
            assert(perm@.contains(p as usize));
            let x = choose|x: int| 0 <= x < perm@.len() && perm@[x] == p as usize;
            assert(lines@[x].index == k);
        }
    }
    lines
}

/// Plans the record groups of one entity: hidden records left out, the
/// rest under their short type names, sorted by those names (ties keep
/// their order), each with the route the registry picks.
pub fn plan_records<R>(generator: &InspectGenerator<R>, records: &Vec<RecordInfo>) -> (lines: Vec<RecordLine>)
    requires
        generator.wf(),
    ensures
        is_record_plan(
            generator@,
            records@,
            records@.map_values(|r: RecordInfo| cleaned(r.full_name@, type_name_match(r.full_name@))),
            lines@,
        ),
{
    let mut shorts: Vec<String> = Vec::new();
    let mut i: usize = 0;
    while i < records.len()
        invariant
            i <= records@.len(),
            shorts@.len() == i,
            forall|k: int| 0 <= k < i ==> (#[trigger] shorts@[k])@ == cleaned(
                records@[k].full_name@,
                type_name_match(records@[k].full_name@),
            ),
        decreases records.len() - i,
    {
        shorts.push(clean_path(records[i].full_name.as_str()));
        i = i + 1;
    }
    let lines = plan_records_named(generator, records, &shorts);
    assert(shorts@.map_values(|s: String| s@) =~= records@.map_values(
        |r: RecordInfo| cleaned(r.full_name@, type_name_match(r.full_name@)),
    ));
    lines
}

/// The inspector's settings: whether the panel is shown, and the renderer
/// registry it uses.
pub struct WorldVisualizerParams<R> {
    pub show: bool,
    pub inspect_generator: InspectGenerator<R>,
}

impl<R> WorldVisualizerParams<R> {
    /// Hidden, with no routines registered.
    pub fn new() -> (r: Self)
        ensures
            !r.show,
            r.inspect_generator.wf(),
            r.inspect_generator@.len() == 0,
    {
        WorldVisualizerParams { show: false, inspect_generator: InspectGenerator::new() }
    }
}

} // verus!
