//! System-independent steps of building a topology: attaching `sinfo`
//! records to compute nodes and removing nodes that cannot be used.
use vstd::prelude::*;
use vstd::string::*;
use crate::ir::{
    among, entity_pos, lemma_pos_props, masked, Entity, EntityKind, EntityView, Id, IRView, TopologyIR,
};
use crate::kv::StrMap;
use crate::order::{
    dedup_first, join, join_strings, sorted_list, sorted_set_of, unique_in_order,
};
use crate::sinfo::{
    index_by_hostname, lemma_no_records, names_state, records_of_host, strip_state_flags,
    NodeInfo, NodeState,
};
use crate::text::{chars_eq, chars_of, split_chars, split_on, views};

verus! {

/// Where `sinfo` records come from.
pub enum SinfoSource {
    /// Run `sinfo`.
    Command,
    /// Read them from the file at this path.
    File(String),
}

/// Controls which nodes are retained after parsing.
pub struct NodeFilterOptions {
    /// If `true`, nodes whose state is Draining, Drained, or Down are removed.
    pub remove_unavailable: bool,
    /// Hosts to leave out of the topology.
    pub nodes_blacklist: Option<Vec<String>>,
}

impl Default for NodeFilterOptions {
    fn default() -> (r: Self)
        ensures
            r.remove_unavailable,
            r.nodes_blacklist is None,
    {
        NodeFilterOptions { remove_unavailable: true, nodes_blacklist: None }
    }
}

/// How bad a state is; when a node is listed several times its worst state counts.
pub open spec fn severity(s: NodeState) -> nat {
    match s {
        NodeState::Down => 4,
        NodeState::Drained => 3,
        NodeState::Draining => 2,
        NodeState::Mixed => 1,
        _ => 0,
    }
}

pub fn state_severity(s: &NodeState) -> (r: u8)
    ensures
        r == severity(*s),
{
    match s {
        NodeState::Down => 4,
        NodeState::Drained => 3,
        NodeState::Draining => 2,
        NodeState::Mixed => 1,
        _ => 0,
    }
}

/// The canonical name of a state, stored as a node's `state` metadata.
pub open spec fn state_name(s: NodeState) -> Seq<char> {
    match s {
        NodeState::Allocated => "allocated"@,
        NodeState::Mixed => "mixed"@,
        NodeState::Idle => "idle"@,
        NodeState::Draining => "draining"@,
        NodeState::Drained => "drained"@,
        NodeState::Down => "down"@,
        NodeState::Other(_) => "other"@,
    }
}

/// The state text stored for a node reads back as that state through the
/// sinfo state parser, and names an unavailable state exactly when the
/// node's state is unavailable.
pub proof fn lemma_state_name_reads_back(st: NodeState)
    ensures
        !(st is Other) ==> names_state(state_name(st), st),
        unavailable_text(state_name(st)) == st.spec_is_unavailable(),
{
    reveal_strlit("alloc");
    reveal_strlit("allocated");
    reveal_strlit("mix");
    reveal_strlit("mixed");
    reveal_strlit("idle");
    reveal_strlit("drng");
    reveal_strlit("draining");
    reveal_strlit("drain");
    reveal_strlit("drained");
    reveal_strlit("down");
    reveal_strlit("other");
    let t = state_name(st);
    assert(t.len() > 0);
    assert(t.last() != '*' && t.last() != '~' && t.last() != '#' && t.last() != '!');
    assert(strip_state_flags(t) == t);
    if !(st is Other) {
        assert(names_state(t, st));
        lemma_unavailable(t, st);
    } else {
        assert(t[0] == 'o');
        assert("drng"@[0] == 'd' && "draining"@[0] == 'd' && "drain"@[0] == 'd' && "drained"@[0] == 'd' && "down"@[0] == 'd');
        assert(!unavailable_text(t));
    }
}

pub fn state_to_str(s: &NodeState) -> (r: &'static str)
    ensures
        r@ == state_name(*s),
{
    match s {
        NodeState::Allocated => "allocated",
        NodeState::Mixed => "mixed",
        NodeState::Idle => "idle",
        NodeState::Draining => "draining",
        NodeState::Drained => "drained",
        NodeState::Down => "down",
        NodeState::Other(_) => "other",
    }
}

/// The worst state among non-empty records; of equally bad ones the last.
pub open spec fn worst_state(recs: Seq<NodeInfo>) -> NodeState
    decreases recs.len(),
{
    if recs.len() <= 1 {
        recs[0].state
    } else {
        let w = worst_state(recs.drop_last());
        if severity(recs.last().state) >= severity(w) {
            recs.last().state
        } else {
            w
        }
    }
}

/// The partition names of records, in order.
pub open spec fn partition_list(recs: Seq<NodeInfo>) -> Seq<Seq<char>> {
    recs.map_values(|r: NodeInfo| r.partition@)
}

/// An entity after `sinfo` enrichment: a compute node with records gets
/// `partition` (its distinct partitions in order, comma-separated) and
/// `state` (the name of its worst state); anything else is unchanged.
pub open spec fn sinfo_enriched(e: EntityView, infos: Seq<NodeInfo>) -> EntityView {
    let recs = records_of_host(infos, e.0);
    if e.1 is Compute && recs.len() > 0 {
        (
            e.0,
            e.1,
            e.2.insert("partition"@, join(dedup_first(partition_list(recs)), ","@)).insert(
                "state"@,
                state_name(worst_state(recs)),
            ),
        )
    } else {
        e
    }
}

/// Index of the group of host `h`.
fn find_host(index: &Vec<(String, Vec<NodeInfo>)>, h: &String) -> (r: Option<usize>)
    ensures
        r matches Some(k) ==> k < index@.len() && index@[k as int].0@ == h@,
        r is None ==> forall|k: int| 0 <= k < index@.len() ==> index@[k].0@ != h@,
{
    let mut k: usize = 0;
    while k < index.len()
        invariant
            k <= index@.len(),
            forall|q: int| 0 <= q < k ==> index@[q].0@ != h@,
        decreases index.len() - k,
    {
        if index[k].0 == *h {
            return Some(k);
        }
        k = k + 1;
    }
    None
}

/// The worst state of non-empty records.
fn worst_of(recs: &Vec<NodeInfo>) -> (r: &NodeState)
    requires
        recs@.len() > 0,
    ensures
        *r == worst_state(recs@),
{
    let mut w: &NodeState = &recs[0].state;
    let mut ws: u8 = state_severity(w);
    let mut j: usize = 1;
    assert(recs@.take(1) =~= seq![recs@[0]]);
    while j < recs.len()
        invariant
            1 <= j <= recs@.len(),
            *w == worst_state(recs@.take(j as int)),
            ws == severity(*w),
        decreases recs.len() - j,
    {
        assert(recs@.take(j + 1).drop_last() =~= recs@.take(j as int));
        assert(recs@.take(j + 1).last() == recs@[j as int]);
        let s = state_severity(&recs[j].state);
        if s >= ws {
            w = &recs[j].state;
            ws = s;
        }
        j = j + 1;
    }
    assert(recs@.take(j as int) =~= recs@);
    w
}

/// Attach `partition` and `state` metadata to every compute entity that
/// `node_infos` lists.  A node listed in several partitions gets all of
/// them, comma-separated; of several states the worst one counts.
pub fn enrich_with_sinfo(ir: &mut TopologyIR, node_infos: Vec<NodeInfo>)
    ensures
        final(ir)@.entities.len() == old(ir)@.entities.len(),
        forall|i: int|
            0 <= i < old(ir)@.entities.len() ==> #[trigger] final(ir)@.entities[i]
                == sinfo_enriched(old(ir)@.entities[i], node_infos@),
        final(ir)@.links == old(ir)@.links,
        final(ir)@.contains == old(ir)@.contains,
{
    let ghost infos = node_infos@;
    let index = index_by_hostname(node_infos);
    let ghost start = ir@;
    let mut i: usize = 0;
    while i < ir.entities.len()
        invariant
            i <= ir@.entities.len(),
            ir@.entities.len() == start.entities.len(),
            ir@.links == start.links,
            ir@.contains == start.contains,
            forall|j: int|
                0 <= j < i ==> #[trigger] ir@.entities[j] == sinfo_enriched(start.entities[j], infos),
            forall|j: int| i <= j < ir@.entities.len() ==> #[trigger] ir@.entities[j] == start.entities[j],
            forall|a: int, b: int| 0 <= a < b < index@.len() ==> index@[a].0@ != index@[b].0@,
            forall|k: int|
                0 <= k < index@.len() ==> #[trigger] index@[k].1@ == records_of_host(infos, index@[k].0@),
            forall|q: int|
                0 <= q < infos.len() ==> crate::sinfo::has_key(index@, #[trigger] infos[q].hostname@),
            forall|k: int| 0 <= k < index@.len() ==> #[trigger] index@[k].1@.len() > 0,
        decreases ir.entities.len() - i,
    {
        let ghost ev = ir@.entities[i as int];
        let ghost before = ir@.entities;
        if ir.entities[i].kind == EntityKind::Compute {
            match find_host(&index, &ir.entities[i].id.0) {
                Some(k) => {
                    let recs = &index[k].1;
                    let mut parts: Vec<String> = Vec::new();
                    let mut q: usize = 0;
                    while q < recs.len()
                        invariant
                            q <= recs@.len(),
                            views(parts@) == partition_list(recs@.take(q as int)),
                        decreases recs.len() - q,
                    {
                        let ghost prev = views(parts@);
                        parts.push(recs[q].partition.clone());
                        assert(views(parts@) =~= prev.push(recs@[q as int].partition@));
                        assert(recs@.take(q + 1) =~= recs@.take(q as int).push(recs@[q as int]));
                        assert(partition_list(recs@.take(q + 1)) =~= partition_list(
                            recs@.take(q as int),
                        ).push(recs@[q as int].partition@));
                        q = q + 1;
                    }
                    assert(recs@.take(q as int) =~= recs@);
                    let uniq = unique_in_order(&parts);
                    let text = join_strings(&uniq, ",");
                    assert(recs@ == records_of_host(infos, ev.0));
                    let st = state_to_str(worst_of(recs));
                    let mut e = ir.entities.remove(i);
                    e.meta.insert(String::from_str("partition"), text);
                    e.meta.insert(String::from_str("state"), String::from_str(st));
                    ir.entities.insert(i, e);
                    assert(ir@.entities[i as int] == sinfo_enriched(ev, infos));
                    assert(ir@.entities =~= before.update(i as int, sinfo_enriched(ev, infos)));
                },
                None => {
                    proof {
                        assert forall|q: int| 0 <= q < infos.len() implies infos[q].hostname@
                            != ev.0 by {
                            assert(crate::sinfo::has_key(index@, infos[q].hostname@));
                        }
                        lemma_no_records(infos, ev.0);
                    }
                },
            }
        }
        assert(ir@.entities[i as int] == sinfo_enriched(start.entities[i as int], infos));
        i = i + 1;
    }
}



/// The names of the compute entities of `v`.
pub open spec fn computes(v: IRView) -> spec_fn(Seq<char>) -> bool {
    |x: Seq<char>| exists|i: int| 0 <= i < v.entities.len() && v.entities[i].0 == x && (#[trigger] v.entities[i]).1 is Compute
}

/// `v` with only its compute nodes and the entities above them: switches
/// (and groups) with no compute node below them are dropped.
pub open spec fn pruned(v: IRView) -> IRView {
    v.restrict(crate::ir::above(v.contains, computes(v)))
}

/// The ids of the compute entities of `ir`.
fn compute_ids(ir: &TopologyIR) -> (ids: Vec<Id>)
    ensures
        forall|x: Seq<char>| #[trigger] among(ids@, x) <==> computes(ir@)(x),
{
    let ghost es = ir@.entities;
    let mut ids: Vec<Id> = Vec::new();
    let mut i: usize = 0;
    while i < ir.entities.len()
        invariant
            es == ir@.entities,
            i <= es.len(),
            forall|x: Seq<char>|
                #[trigger] crate::ir::among(ids@, x) <==> exists|j: int| 0 <= j < i && es[j].0 == x && (#[trigger] es[j]).1 is Compute,
        decreases ir.entities.len() - i,
    {
        let ghost before = ids@;
        if ir.entities[i].kind == EntityKind::Compute {
            ids.push(ir.entities[i].id.copy());
            proof {
                assert forall|x: Seq<char>|
                    #[trigger] crate::ir::among(ids@, x) <==> exists|j: int| 0 <= j < i + 1 && es[j].0 == x && (#[trigger] es[j]).1 is Compute by {
                    if crate::ir::among(ids@, x) {
                        let k = choose|k: int| 0 <= k < ids@.len() && ids@[k]@ == x;
                        if k < before.len() {
                            assert(ids@[k] == before[k]);
                            assert(crate::ir::among(before, x));
                        } else {
                            assert(es[i as int].0 == x);
                        }
                    }
                    if exists|j: int| 0 <= j < i + 1 && es[j].0 == x && (#[trigger] es[j]).1 is Compute {
                        let j = choose|j: int| 0 <= j < i + 1 && es[j].0 == x && (#[trigger] es[j]).1 is Compute;
                        if j < i {
                            assert(crate::ir::among(before, x));
                            let k = choose|k: int| 0 <= k < before.len() && before[k]@ == x;
                            assert(ids@[k] == before[k]);
                        } else {
                            assert(ids@[before.len() as int]@ == x);
                        }
                    }
                }
            }
        } else {
            proof {
                assert forall|x: Seq<char>|
                    #[trigger] crate::ir::among(ids@, x) <==> exists|j: int| 0 <= j < i + 1 && es[j].0 == x && (#[trigger] es[j]).1 is Compute by {
                    if exists|j: int| 0 <= j < i + 1 && es[j].0 == x && (#[trigger] es[j]).1 is Compute {
                        let j = choose|j: int| 0 <= j < i + 1 && es[j].0 == x && (#[trigger] es[j]).1 is Compute;
                        assert(j != i);
                    }
                }
            }
        }
        i = i + 1;
    }
        assert forall|x: Seq<char>| #[trigger] among(ids@, x) <==> computes(ir@)(x) by {}
    ids
}

/// Drop every switch (or group) that has no compute node below it.
pub fn prune_empty(ir: TopologyIR) -> (r: TopologyIR)
    ensures
        r@ == pruned(ir@),
{
    let ids = compute_ids(&ir);
    let r = ir.filter_with_topology(ids.as_slice());
    proof {
        let keep = choose|keep: spec_fn(Seq<char>) -> bool|
            #[trigger] crate::ir::ancestor_closure(ir@.contains, ids@, keep) && r@ == ir@.restrict(keep);
        crate::ir::lemma_above(ir@.contains, ids@, computes(ir@), keep);
    }
    r
}

/// The names with a compute node of `v` at or below them.
pub open spec fn over_compute(v: IRView) -> spec_fn(Seq<char>) -> bool {
    crate::ir::above(v.contains, computes(v))
}

/// `after` without the switches (or groups) that have become empty: those
/// that had a compute node of `before` below them and have none of `after`.
pub open spec fn pruned_from(before: IRView, after: IRView) -> IRView {
    after.restrict(|x: Seq<char>| over_compute(after)(x) || !over_compute(before)(x))
}

/// The names of `ir`'s compute entities and of everything above them.
fn over_compute_set(ir: &TopologyIR) -> (s: crate::ir::NameSet)
    ensures
        forall|x: Seq<char>| s@.contains_key(x) <==> over_compute(ir@)(x),
{
    let ids = compute_ids(ir);
    let s = ir.ancestor_set(ids.as_slice());
    proof {
        crate::ir::lemma_above(ir@.contains, ids@, computes(ir@), |x: Seq<char>| s@.contains_key(x));
    }
    s
}

/// Drop from `after` the switches (or groups) that have become empty since
/// `before`.
pub fn prune_emptied(before: &TopologyIR, after: TopologyIR) -> (r: TopologyIR)
    ensures
        r@ == pruned_from(before@, after@),
{
    let s1 = over_compute_set(before);
    let s2 = over_compute_set(&after);
    let ghost es = after@.entities;
    let ghost g = |x: Seq<char>| over_compute(after@)(x) || !over_compute(before@)(x);
    let mut keep: crate::ir::NameSet = crate::ir::NameSet::new();
    let mut i: usize = 0;
    while i < after.entities.len()
        invariant
            es == after@.entities,
            i <= es.len(),
            forall|x: Seq<char>| s1@.contains_key(x) <==> over_compute(before@)(x),
            forall|x: Seq<char>| s2@.contains_key(x) <==> over_compute(after@)(x),
            g == (|x: Seq<char>| over_compute(after@)(x) || !over_compute(before@)(x)),
            forall|x: Seq<char>| keep@.contains_key(x) <==> (g(x) && exists|j: int| 0 <= j < i && es[j].0 == x),
        decreases after.entities.len() - i,
    {
        let id = &after.entities[i].id;
        assert(es[i as int].0 == id@);
        if s2.contains_key(id.0.as_str()) || !s1.contains_key(id.0.as_str()) {
            keep.insert(id.0.clone(), ());
        }
        assert forall|x: Seq<char>| keep@.contains_key(x) <==> (g(x) && exists|j: int| 0 <= j < i + 1 && es[j].0 == x) by {
            if x == id@ {
                assert(es[i as int].0 == x);
            }
        }
        i = i + 1;
    }
    let r = after.restrict_by(&keep, true);
    proof {
        let sv = after@;
        let f = |id: Seq<char>| keep@.contains_key(id) == true;
        assert forall|x: Seq<char>| #[trigger] sv.kept(f)(x) == sv.kept(g)(x) by {
            lemma_pos_props(es, x);
            if sv.has(x) {
                let p = entity_pos(es, x)->Some_0 as int;
                assert(es[p].0 == x);
            }
        }
        assert(sv.kept(f) =~= sv.kept(g));
    }
    r
}

/// The topology without the entities at indices where `mask` is set.
pub fn remove_masked(ir: &TopologyIR, mask: &Vec<bool>) -> (r: TopologyIR)
    requires
        mask@.len() == ir@.entities.len(),
    ensures
        r@ == ir@.restrict(|x: Seq<char>| !masked(ir@.entities, mask@, x)),
{
    let ghost es = ir@.entities;
    let mut ids: Vec<Id> = Vec::new();
    let mut i: usize = 0;
    while i < ir.entities.len()
        invariant
            es == ir@.entities,
            mask@.len() == es.len(),
            i <= es.len(),
            forall|x: Seq<char>|
                among(ids@, x) <==> exists|j: int| 0 <= j < i && mask@[j] && es[j].0 == x,
        decreases ir.entities.len() - i,
    {
        let ghost prev = ids@;
        if mask[i] {
            ids.push(ir.entities[i].id.copy());
        }
        assert forall|x: Seq<char>|
            among(ids@, x) <==> exists|j: int| 0 <= j < i + 1 && mask@[j] && es[j].0 == x by {
            if among(ids@, x) {
                let k = choose|k: int| 0 <= k < ids@.len() && ids@[k]@ == x;
                if k < prev.len() {
                    assert(prev[k] == ids@[k]);
                    assert(among(prev, x));
                } else {
                    assert(es[i as int].0 == x);
                }
            }
            if exists|j: int| 0 <= j < i && mask@[j] && es[j].0 == x {
                assert(among(prev, x));
                let k = choose|k: int| 0 <= k < prev.len() && prev[k]@ == x;
                assert(ids@[k] == prev[k]);
            }
            if mask@[i as int] && es[i as int].0 == x {
                assert(ids@[ids@.len() - 1]@ == x);
            }
        }
        i = i + 1;
    }
    let r = ir.filter_remove_ids(ids.as_slice());
    assert((|x: Seq<char>| !among(ids@, x)) =~= (|x: Seq<char>| !masked(es, mask@, x)));
    r
}

/// The text of a state names one of the unavailable states.
pub open spec fn unavailable_text(t: Seq<char>) -> bool {
    let c = strip_state_flags(t);
    c == "drng"@ || c == "draining"@ || c == "drain"@ || c == "drained"@ || c == "down"@
}

/// A compute node whose `state` metadata names an unavailable state.
pub open spec fn unavailable_node(e: EntityView) -> bool {
    e.1 is Compute && e.2.contains_key("state"@) && unavailable_text(e.2["state"@])
}

/// The ids of unavailable compute nodes.
pub open spec fn unavailable_ids(es: Seq<EntityView>) -> spec_fn(Seq<char>) -> bool {
    |x: Seq<char>| exists|i: int| 0 <= i < es.len() && es[i].0 == x && unavailable_node(es[i])
}

proof fn lemma_unavailable(t: Seq<char>, st: NodeState)
    requires
        names_state(t, st),
    ensures
        st.spec_is_unavailable() == unavailable_text(t),
{
    reveal_strlit("alloc");
    reveal_strlit("allocated");
    reveal_strlit("mix");
    reveal_strlit("mixed");
    reveal_strlit("idle");
    reveal_strlit("drng");
    reveal_strlit("draining");
    reveal_strlit("drain");
    reveal_strlit("drained");
    reveal_strlit("down");
    let c = strip_state_flags(t);
    assert("drng"@[0] == 'd' && "draining"@[0] == 'd' && "drain"@[0] == 'd' && "drained"@[0] == 'd'
        && "down"@[0] == 'd');
    assert("alloc"@[0] == 'a' && "allocated"@[0] == 'a' && "mix"@[0] == 'm' && "mixed"@[0] == 'm'
        && "idle"@[0] == 'i');
    match st {
        NodeState::Allocated => {
            assert(c[0] == 'a');
        },
        NodeState::Mixed => {
            assert(c[0] == 'm');
        },
        NodeState::Idle => {
            assert(c[0] == 'i');
        },
        _ => {},
    }
}

/// The mask marks exactly the entities on which `p` holds.
proof fn lemma_mask_ids(es: Seq<EntityView>, mask: Seq<bool>, p: spec_fn(EntityView) -> bool)
    requires
        mask.len() == es.len(),
        forall|j: int| 0 <= j < es.len() ==> #[trigger] mask[j] == p(es[j]),
    ensures
        forall|x: Seq<char>|
            #[trigger] masked(es, mask, x) <==> exists|i: int|
                0 <= i < es.len() && es[i].0 == x && p(es[i]),
{
    assert forall|x: Seq<char>|
        #[trigger] masked(es, mask, x) <==> exists|i: int|
            0 <= i < es.len() && es[i].0 == x && p(es[i]) by {
        if masked(es, mask, x) {
            let i = choose|i: int| 0 <= i < es.len() && i < mask.len() && mask[i] && es[i].0 == x;
            assert(p(es[i]));
        }
        if exists|i: int| 0 <= i < es.len() && es[i].0 == x && p(es[i]) {
            let i = choose|i: int| 0 <= i < es.len() && es[i].0 == x && p(es[i]);
            assert(mask[i]);
        }
    }
}

/// Whether the entity is an unavailable compute node.
fn is_unavailable_node(e: &Entity) -> (b: bool)
    ensures
        b == unavailable_node(e@),
{
    if e.kind != EntityKind::Compute {
        return false;
    }
    match e.meta.get("state") {
        Some(t) => {
            let st = NodeState::from_str(t.as_str());
            proof {
                lemma_unavailable(t@, st);
            }
            st.is_unavailable()
        },
        None => false,
    }
}

/// Remove nodes according to `opts`: unless `remove_unavailable` is off,
/// the compute nodes whose state is draining, drained or down go, with
/// their links and containment; then the switches that have become empty
/// (a compute node was below them, none is left) are pruned.
pub fn apply_node_filter(ir: TopologyIR, opts: &NodeFilterOptions) -> (r: TopologyIR)
    ensures
        r@ == node_filtered(ir@, opts.remove_unavailable),
{
    if !opts.remove_unavailable {
        return ir;
    }
    let ghost es = ir@.entities;
    let mut mask: Vec<bool> = Vec::new();
    let mut any = false;
    let mut i: usize = 0;
    while i < ir.entities.len()
        invariant
            es == ir@.entities,
            i <= es.len(),
            mask@.len() == i,
            forall|j: int| 0 <= j < i ==> #[trigger] mask@[j] == unavailable_node(es[j]),
            any == exists|j: int| 0 <= j < i && unavailable_node(#[trigger] es[j]),
        decreases ir.entities.len() - i,
    {
        let b = is_unavailable_node(&ir.entities[i]);
        assert(ir.entities@[i as int]@ == es[i as int]);
        mask.push(b);
        any = any || b;
        i = i + 1;
    }
    if !any {
        return ir;
    }
    let r = remove_masked(&ir, &mask);
    proof {
        lemma_mask_ids(es, mask@, |e: EntityView| unavailable_node(e));
    }
    assert((|x: Seq<char>| !masked(es, mask@, x)) =~= (|x: Seq<char>| !unavailable_ids(es)(x)));
    prune_emptied(&ir, r)
}

/// The `partition` metadata names partition `p` among its comma-separated parts.
pub open spec fn in_partition(meta: Map<Seq<char>, Seq<char>>, p: Seq<char>) -> bool {
    meta.contains_key("partition"@) && split_on(meta["partition"@], ',').contains(p)
}

/// A compute node outside partition `p`.
pub open spec fn outside_partition(e: EntityView, p: Seq<char>) -> bool {
    e.1 is Compute && !in_partition(e.2, p)
}

/// Whether some piece of `parts` is `p`.
fn any_piece_is(parts: &Vec<Vec<char>>, p: &[char]) -> (b: bool)
    ensures
        b == parts@.map_values(|x: Vec<char>| x@).contains(p@),
{
    let ghost pv = parts@.map_values(|x: Vec<char>| x@);
    let mut k: usize = 0;
    while k < parts.len()
        invariant
            k <= parts@.len(),
            pv == parts@.map_values(|x: Vec<char>| x@),
            forall|q: int| 0 <= q < k ==> pv[q] != p@,
        decreases parts.len() - k,
    {
        if chars_eq(parts[k].as_slice(), p) {
            assert(pv[k as int] == p@);
            return true;
        }
        k = k + 1;
    }
    false
}

/// A topology after `sinfo` enrichment with `infos`, if there are any.
pub open spec fn with_sinfo(v: IRView, infos: Option<Seq<NodeInfo>>) -> IRView {
    match infos {
        Some(recs) => IRView {
            entities: v.entities.map_values(|e: EntityView| sinfo_enriched(e, recs)),
            links: v.links,
            contains: v.contains,
        },
        None => v,
    }
}

/// A topology after the node filter (see `apply_node_filter`): when asked
/// to and some compute node is unavailable, the unavailable compute nodes go
/// and then the switches that have become empty (that had a compute node
/// below them and have none left).
pub open spec fn node_filtered(v: IRView, remove_unavailable: bool) -> IRView {
    if remove_unavailable && exists|i: int| 0 <= i < v.entities.len() && unavailable_node(#[trigger] v.entities[i]) {
        pruned_from(v, v.restrict(|x: Seq<char>| !unavailable_ids(v.entities)(x)))
    } else {
        v
    }
}

/// The last two steps every system shares: optional `sinfo` enrichment,
/// then the node filter.
pub open spec fn finished(v: IRView, infos: Option<Seq<NodeInfo>>, remove_unavailable: bool) -> IRView {
    node_filtered(with_sinfo(v, infos), remove_unavailable)
}

pub open spec fn infos_view(infos: Option<Vec<NodeInfo>>) -> Option<Seq<NodeInfo>> {
    match infos {
        Some(v) => Some(v@),
        None => None,
    }
}

/// Enrich with `sinfo_infos` when given, then apply the node filter.
pub fn finish_build(ir: TopologyIR, sinfo_infos: Option<Vec<NodeInfo>>, opts: &NodeFilterOptions) -> (r: TopologyIR)
    ensures
        r@ == finished(ir@, infos_view(sinfo_infos), opts.remove_unavailable),
{
    let mut ir = ir;
    let ghost v0 = ir@;
    match sinfo_infos {
        Some(infos) => {
            let ghost recs = infos@;
            enrich_with_sinfo(&mut ir, infos);
            assert(ir@.entities =~= v0.entities.map_values(|e: EntityView| sinfo_enriched(e, recs)));
        },
        None => {},
    }
    assert(ir@ == with_sinfo(v0, infos_view(sinfo_infos)));
    apply_node_filter(ir, opts)
}

/// `v` with only its compute nodes of partition `p` and the switches (and
/// groups) above them.
pub open spec fn partition_kept(v: IRView, p: Seq<char>) -> IRView {
    pruned(
        v.restrict(
            |x: Seq<char>|
                !(exists|i: int| 0 <= i < v.entities.len() && v.entities[i].0 == x && outside_partition(#[trigger] v.entities[i], p)),
        ),
    )
}

/// Keep only the compute nodes that belong to `partition` and their
/// topology path: a switch stays as long as some node of the partition is
/// below it.
pub fn filter_by_partition(ir: TopologyIR, partition: &str) -> (r: TopologyIR)
    ensures
        r@ == partition_kept(ir@, partition@),
{
    let ghost es = ir@.entities;
    let pc = chars_of(partition);
    let mut mask: Vec<bool> = Vec::new();
    let mut i: usize = 0;
    while i < ir.entities.len()
        invariant
            es == ir@.entities,
            pc@ == partition@,
            i <= es.len(),
            mask@.len() == i,
            forall|j: int| 0 <= j < i ==> #[trigger] mask@[j] == outside_partition(es[j], partition@),
        decreases ir.entities.len() - i,
    {
        let e = &ir.entities[i];
        assert(e@ == es[i as int]);
        let b = if e.kind != EntityKind::Compute {
            false
        } else {
            match e.meta.get("partition") {
                Some(t) => {
                    let tc = chars_of(t.as_str());
                    let parts = split_chars(tc.as_slice(), ',');
                    !any_piece_is(&parts, pc.as_slice())
                },
                None => true,
            }
        };
        mask.push(b);
        i = i + 1;
    }
    let r = remove_masked(&ir, &mask);
    proof {
        lemma_mask_ids(es, mask@, |e: EntityView| outside_partition(e, partition@));
    }
    assert((|x: Seq<char>| !masked(es, mask@, x)) =~= (|x: Seq<char>|
        !(exists|i: int| 0 <= i < es.len() && es[i].0 == x && outside_partition(#[trigger] es[i], partition@))));
    prune_empty(r)
}

/// A compute node whose name is in `blacklist`.
pub open spec fn blacklisted(e: EntityView, blacklist: Seq<Seq<char>>) -> bool {
    e.1 is Compute && blacklist.contains(e.0)
}

/// `v` without the compute nodes named in `b`.
pub open spec fn blacklist_kept(v: IRView, b: Seq<Seq<char>>) -> IRView {
    v.restrict(
        |x: Seq<char>|
            !(exists|i: int| 0 <= i < v.entities.len() && v.entities[i].0 == x && blacklisted(#[trigger] v.entities[i], b)),
    )
}

/// Remove the compute nodes named in `blacklist`.
pub fn filter_by_blacklist(ir: TopologyIR, blacklist: &Vec<String>) -> (r: TopologyIR)
    ensures
        r@ == blacklist_kept(ir@, views(blacklist@)),
{
    let ghost es = ir@.entities;
    let ghost bl = views(blacklist@);
    let mut mask: Vec<bool> = Vec::new();
    let mut i: usize = 0;
    while i < ir.entities.len()
        invariant
            es == ir@.entities,
            bl == views(blacklist@),
            i <= es.len(),
            mask@.len() == i,
            forall|j: int| 0 <= j < i ==> #[trigger] mask@[j] == blacklisted(es[j], bl),
        decreases ir.entities.len() - i,
    {
        let e = &ir.entities[i];
        assert(e@ == es[i as int]);
        let mut found = false;
        if e.kind == EntityKind::Compute {
            let mut k: usize = 0;
            while k < blacklist.len()
                invariant
                    k <= blacklist@.len(),
                    bl == views(blacklist@),
                    found == exists|q: int| 0 <= q < k && bl[q] == e.id@,
                decreases blacklist.len() - k,
            {
                if blacklist[k] == e.id.0 {
                    found = true;
                }
                assert(bl[k as int] == blacklist@[k as int]@);
                k = k + 1;
            }
        }
        mask.push(found);
        i = i + 1;
    }
    let r = remove_masked(&ir, &mask);
    proof {
        lemma_mask_ids(es, mask@, |e: EntityView| blacklisted(e, bl));
    }
    assert((|x: Seq<char>| !masked(es, mask@, x)) =~= (|x: Seq<char>|
        !(exists|i: int| 0 <= i < es.len() && es[i].0 == x && blacklisted(#[trigger] es[i], bl))));
    r
}

/// An entity after partition enrichment: one that `infos` lists gets
/// `partitions`, its distinct partitions in string order, comma-separated.
pub open spec fn partitions_enriched(e: EntityView, infos: Seq<NodeInfo>) -> EntityView {
    let recs = records_of_host(infos, e.0);
    if recs.len() > 0 {
        (e.0, e.1, e.2.insert("partitions"@, join(sorted_list(partition_list(recs).to_set()), ","@)))
    } else {
        e
    }
}

/// Attach to every entity that `node_infos` lists the sorted, de-duplicated
/// list of its partitions as `meta["partitions"]`.
pub fn enrich_node_info(ir: &mut TopologyIR, node_infos: &Vec<NodeInfo>)
    ensures
        final(ir)@.entities.len() == old(ir)@.entities.len(),
        forall|i: int|
            0 <= i < old(ir)@.entities.len() ==> #[trigger] final(ir)@.entities[i]
                == partitions_enriched(old(ir)@.entities[i], node_infos@),
        final(ir)@.links == old(ir)@.links,
        final(ir)@.contains == old(ir)@.contains,
{
    let ghost infos = node_infos@;
    let mut copies: Vec<NodeInfo> = Vec::new();
    let mut c: usize = 0;
    while c < node_infos.len()
        invariant
            c <= infos.len(),
            infos == node_infos@,
            copies@ == infos.take(c as int),
        decreases node_infos.len() - c,
    {
        copies.push(node_infos[c].copy());
        assert(infos.take(c + 1) =~= infos.take(c as int).push(infos[c as int]));
        c = c + 1;
    }
    assert(infos.take(c as int) =~= infos);
    let index = index_by_hostname(copies);
    let ghost start = ir@;
    let mut i: usize = 0;
    while i < ir.entities.len()
        invariant
            i <= ir@.entities.len(),
            ir@.entities.len() == start.entities.len(),
            ir@.links == start.links,
            ir@.contains == start.contains,
            forall|j: int|
                0 <= j < i ==> #[trigger] ir@.entities[j] == partitions_enriched(start.entities[j], infos),
            forall|j: int| i <= j < ir@.entities.len() ==> #[trigger] ir@.entities[j] == start.entities[j],
            forall|k: int|
                0 <= k < index@.len() ==> #[trigger] index@[k].1@ == records_of_host(infos, index@[k].0@),
            forall|q: int|
                0 <= q < infos.len() ==> crate::sinfo::has_key(index@, #[trigger] infos[q].hostname@),
            forall|k: int| 0 <= k < index@.len() ==> #[trigger] index@[k].1@.len() > 0,
        decreases ir.entities.len() - i,
    {
        let ghost ev = ir@.entities[i as int];
        let ghost before = ir@.entities;
        match find_host(&index, &ir.entities[i].id.0) {
            Some(k) => {
                let recs = &index[k].1;
                let mut parts: Vec<String> = Vec::new();
                let mut q: usize = 0;
                while q < recs.len()
                    invariant
                        q <= recs@.len(),
                        views(parts@) == partition_list(recs@.take(q as int)),
                    decreases recs.len() - q,
                {
                    let ghost prev = views(parts@);
                    parts.push(recs[q].partition.clone());
                    assert(views(parts@) =~= prev.push(recs@[q as int].partition@));
                    assert(recs@.take(q + 1) =~= recs@.take(q as int).push(recs@[q as int]));
                    assert(partition_list(recs@.take(q + 1)) =~= partition_list(
                        recs@.take(q as int),
                    ).push(recs@[q as int].partition@));
                    q = q + 1;
                }
                assert(recs@.take(q as int) =~= recs@);
                let sorted = sorted_set_of(&parts);
                let text = join_strings(&sorted, ",");
                assert(recs@ == records_of_host(infos, ev.0));
                let mut e = ir.entities.remove(i);
                e.meta.insert(String::from_str("partitions"), text);
                ir.entities.insert(i, e);
                assert(ir@.entities[i as int] == partitions_enriched(ev, infos));
                assert(ir@.entities =~= before.update(i as int, partitions_enriched(ev, infos)));
            },
            None => {
                proof {
                    assert forall|q: int| 0 <= q < infos.len() implies infos[q].hostname@
                        != ev.0 by {
                        assert(crate::sinfo::has_key(index@, infos[q].hostname@));
                    }
                    lemma_no_records(infos, ev.0);
                }
            },
        }
        assert(ir@.entities[i as int] == partitions_enriched(start.entities[i as int], infos));
        i = i + 1;
    }
}
} // verus!
