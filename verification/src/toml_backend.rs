//! Topologies described in a TOML document (Alps, and hand-written generic
//! systems): switches with an optional group, nodes attached to switches,
//! and explicit links.  Switches of a group are linked all-to-all, and
//! groups all-to-all by sorted position.  Weights are in thousandths of
//! 200 Gb/s.
use vstd::prelude::*;
use vstd::string::*;
use crate::cells::{all_pair_links, cell_groups, link_cells, switch_groups};
use crate::ir::{
    came_from, kind_is, lemma_kind_after_add, stays_in, with_child, with_entity, Entity, EntityKind, EntityView, IRView, Id, LinkView, TopologyIR,
};
use crate::kv::StrMap;
use crate::sinfo::NodeInfo;
use crate::text::views;
use crate::topology::{finish_build, finished, infos_view, partitions_enriched, NodeFilterOptions};

verus! {

/// Default node to switch weight (1.0).
pub const DEFAULT_W_NODE_SWITCH: u64 = 1000;

/// Default switch to switch weight (1.0).
pub const DEFAULT_W_SWITCH_SWITCH: u64 = 1000;

/// The `[meta]` table: link weights, when given.
pub struct TomlMeta {
    pub w_node_switch: Option<u64>,
    pub w_switch_switch: Option<u64>,
}

/// A `[[switch]]` entry; `extra` holds its other scalar fields as text.
pub struct TomlSwitch {
    pub id: String,
    pub group: Option<String>,
    pub level: Option<u32>,
    pub extra: Vec<(String, String)>,
}

/// A `[[node]]` entry; `extra` holds its other scalar fields as text.
pub struct TomlNode {
    pub id: String,
    pub switch: String,
    pub xname: Option<String>,
    pub extra: Vec<(String, String)>,
}

/// A `[[link]]` entry.
pub struct TomlLink {
    pub a: String,
    pub b: String,
    pub weight: u64,
}

/// A topology document.
pub struct TomlTopology {
    pub meta: TomlMeta,
    pub switch: Vec<TomlSwitch>,
    pub node: Vec<TomlNode>,
    pub link: Vec<TomlLink>,
}

/// Which links the parser synthesises.
#[derive(Clone, Copy, Debug)]
pub struct TomlTopologyOptions {
    /// Link the switches of each group all-to-all.
    pub intra_group_links: bool,
    /// Link the groups all-to-all, pairing switches by sorted position.
    pub inter_group_links: bool,
}

impl Default for TomlTopologyOptions {
    fn default() -> (r: Self)
        ensures
            r.intra_group_links,
            r.inter_group_links,
    {
        TomlTopologyOptions { intra_group_links: true, inter_group_links: true }
    }
}

/// The TOML topology parser.
#[derive(Clone, Copy, Debug)]
pub struct TomlTopologyParser {
    pub options: TomlTopologyOptions,
}

impl Default for TomlTopologyParser {
    fn default() -> (r: Self)
        ensures
            r.options.intra_group_links,
            r.options.inter_group_links,
    {
        TomlTopologyParser { options: TomlTopologyOptions { intra_group_links: true, inter_group_links: true } }
    }
}

/// The links among the switches of one group: each to every later one.
pub open spec fn clique_links(g: Seq<Seq<char>>, w: u64) -> Seq<LinkView> {
    Seq::new(g.len(), |i: int| Seq::new((g.len() - i - 1) as nat, |d: int| (g[i], g[i + 1 + d], w))).flatten()
}

/// The links within every group, group after group.
pub open spec fn group_cliques(gs: Seq<Seq<Seq<char>>>, w: u64) -> Seq<LinkView> {
    Seq::new(gs.len(), |i: int| clique_links(gs[i], w)).flatten()
}

/// Link the switches of each group (any switch with a recorded `cell`)
/// all-to-all with weight `w`: groups in order of name, and within a group
/// each switch (by name) to every later one.
pub fn link_within_groups(ir: &mut TopologyIR, w: u64)
    ensures
        final(ir)@.entities == old(ir)@.entities,
        final(ir)@.contains == old(ir)@.contains,
        final(ir)@.links == old(ir)@.links + group_cliques(cell_groups(old(ir)@.entities, true), w),
        old(ir)@.wf() ==> final(ir)@.wf(),
{
    let groups = switch_groups(ir, true);
    let ghost gs = crate::cells::group_views(groups@);
    let ghost start = ir@;
    let mut g: usize = 0;
    while g < groups.len()
        invariant
            gs == crate::cells::group_views(groups@),
            g <= gs.len(),
            ir@.entities == start.entities,
            ir@.contains == start.contains,
            start.wf() ==> ir@.wf(),
            ir@.links == start.links + Seq::new(g as nat, |q: int| clique_links(gs[q], w)).flatten(),
        decreases groups.len() - g,
    {
        let sws = &groups[g];
        let ghost gv = gs[g as int];
        assert(gv == views(sws@));
        let ghost before_group = ir@.links;
        let ghost rowf = |i: int| Seq::new((gv.len() - i - 1) as nat, |d: int| (gv[i], gv[i + 1 + d], w));
        let mut i: usize = 0;
        while i < sws.len()
            invariant
                gs == crate::cells::group_views(groups@),
                g < gs.len(),
                sws == groups@[g as int],
                gv == gs[g as int],
                gv == views(sws@),
                rowf == (|i: int| Seq::new((gv.len() - i - 1) as nat, |d: int| (gv[i], gv[i + 1 + d], w))),
                i <= sws@.len(),
                ir@.entities == start.entities,
                ir@.contains == start.contains,
                start.wf() ==> ir@.wf(),
                ir@.links == before_group + Seq::new(i as nat, rowf).flatten(),
            decreases sws.len() - i,
        {
            let ghost before_row = ir@.links;
            let ghost row = rowf(i as int);
            let mut j: usize = i + 1;
            while j < sws.len()
                invariant
                    sws == groups@[g as int],
                    gv == views(sws@),
                    row == Seq::new((gv.len() - i - 1) as nat, |d: int| (gv[i as int], gv[i + 1 + d], w)),
                    i < sws@.len(),
                    i + 1 <= j <= sws@.len(),
                    ir@.entities == start.entities,
                    ir@.contains == start.contains,
                    start.wf() ==> ir@.wf(),
                    ir@.links == before_row + row.take((j - i - 1) as int),
                decreases sws.len() - j,
            {
                ir.add_link(Id(sws[i].clone()), Id(sws[j].clone()), w);
                proof {
                    assert(row[(j - i - 1) as int] == (gv[i as int], gv[j as int], w));
                    assert(row.take((j + 1 - i - 1) as int) == row.take((j - i - 1) as int).push(row[(j - i - 1) as int]));
                }
                j = j + 1;
            }
            proof {
                assert(row.take((j - i - 1) as int) == row);
                let s0 = Seq::new(i as nat, rowf);
                let s1 = Seq::new((i + 1) as nat, rowf);
                assert(s1 == s0.push(row));
                s0.lemma_flatten_push(row);
            }
            i = i + 1;
        }
        proof {
            assert(Seq::new(i as nat, rowf) == Seq::new(gv.len(), rowf));
            assert(Seq::new(gv.len(), rowf).flatten() == clique_links(gv, w));
            let f = |q: int| clique_links(gs[q], w);
            let s0 = Seq::new(g as nat, f);
            let s1 = Seq::new((g + 1) as nat, f);
            assert(s1 == s0.push(clique_links(gv, w)));
            s0.lemma_flatten_push(clique_links(gv, w));
        }
        g = g + 1;
    }
    proof {
        assert(gs == cell_groups(start.entities, true));
    }
}


/// The node to switch weight of a document.
pub open spec fn w_node_switch(doc: TomlTopology) -> u64 {
    match doc.meta.w_node_switch {
        Some(w) => w,
        None => DEFAULT_W_NODE_SWITCH,
    }
}

/// The switch to switch weight of a document.
pub open spec fn w_switch_switch(doc: TomlTopology) -> u64 {
    match doc.meta.w_switch_switch {
        Some(w) => w,
        None => DEFAULT_W_SWITCH_SWITCH,
    }
}

/// The level of a switch entry (0 when not given).
pub open spec fn switch_level(s: TomlSwitch) -> u32 {
    match s.level {
        Some(l) => l,
        None => 0,
    }
}

/// The links from each node's switch to the node, in order.
pub open spec fn node_links(nodes: Seq<TomlNode>, w: u64) -> Seq<LinkView> {
    nodes.map_values(|n: TomlNode| (n.switch@, n.id@, w))
}

/// The explicit links, in order.
pub open spec fn explicit_links(ls: Seq<TomlLink>) -> Seq<LinkView> {
    ls.map_values(|l: TomlLink| (l.a@, l.b@, l.weight))
}

/// Some node hangs under switch `x`.
pub open spec fn populated(nodes: Seq<TomlNode>, x: Seq<char>) -> bool {
    exists|k: int| 0 <= k < nodes.len() && (#[trigger] nodes[k]).switch@ == x
}

/// Some node is called `x`.
pub open spec fn is_node(nodes: Seq<TomlNode>, x: Seq<char>) -> bool {
    exists|k: int| 0 <= k < nodes.len() && (#[trigger] nodes[k]).id@ == x
}

/// Entry `k` is the last switch entry with id `x`.
pub open spec fn last_entry(sw: Seq<TomlSwitch>, k: int, x: Seq<char>) -> bool {
    &&& 0 <= k < sw.len()
    &&& sw[k].id@ == x
    &&& forall|q: int| k < q < sw.len() ==> (#[trigger] sw[q]).id@ != x
}

/// What the parser makes of a document: the nodes (compute entities
/// contained in and linked from their switches), the switches that some
/// node hangs under and that no node shares a name with (at the level of
/// their last entry), and the links: node links, then the explicit ones,
/// then, when asked for, the links within each group.
pub open spec fn toml_base(doc: TomlTopology, intra: bool, v: IRView) -> bool {
    &&& v.wf()
    &&& v.links == node_links(doc.node@, w_node_switch(doc)) + explicit_links(doc.link@) + (if intra {
        group_cliques(cell_groups(v.entities, true), w_switch_switch(doc))
    } else {
        Seq::empty()
    })
    &&& forall|k: int|
        0 <= k < doc.node@.len() ==> kind_is(v.entities, (#[trigger] doc.node@[k]).id@, EntityKind::Compute)
            && v.children(doc.node@[k].switch@).contains(doc.node@[k].id@)
    &&& forall|j: int|
        0 <= j < v.entities.len() ==> match (#[trigger] v.entities[j]).1 {
            EntityKind::Compute => is_node(doc.node@, v.entities[j].0),
            EntityKind::Switch { level } => populated(doc.node@, v.entities[j].0) && !is_node(doc.node@, v.entities[j].0)
                && exists|k: int| last_entry(doc.switch@, k, v.entities[j].0) && level == Some(switch_level(doc.switch@[k])),
            EntityKind::Group => false,
        }
    &&& forall|k: int|
        0 <= k < doc.switch@.len() && populated(doc.node@, (#[trigger] doc.switch@[k]).id@) && !is_node(doc.node@, doc.switch@[k].id@)
            ==> v.has(doc.switch@[k].id@)
}

/// A switch keeps the level its entry gives: every switch that some node
/// hangs under (and no node shares a name with) is a switch entity at the
/// level of its last entry, and at level 0 when that entry gives none.
pub proof fn lemma_switch_levels(doc: TomlTopology, intra: bool, v: IRView)
    requires
        toml_base(doc, intra, v),
    ensures
        forall|k: int|
            0 <= k < doc.switch@.len() && populated(doc.node@, (#[trigger] doc.switch@[k]).id@) && !is_node(
                doc.node@,
                doc.switch@[k].id@,
            ) && last_entry(doc.switch@, k, doc.switch@[k].id@) ==> kind_is(
                v.entities,
                doc.switch@[k].id@,
                EntityKind::Switch {
                    level: Some(
                        match doc.switch@[k].level {
                            Some(l) => l,
                            None => 0u32,
                        },
                    ),
                },
            ),
{
    let sw = doc.switch@;
    assert forall|k: int|
        0 <= k < sw.len() && populated(doc.node@, (#[trigger] sw[k]).id@) && !is_node(doc.node@, sw[k].id@) && last_entry(
            sw,
            k,
            sw[k].id@,
        ) implies kind_is(
        v.entities,
        sw[k].id@,
        EntityKind::Switch {
            level: Some(
                match sw[k].level {
                    Some(l) => l,
                    None => 0u32,
                },
            ),
        },
    ) by {
        let x = sw[k].id@;
        assert(v.has(x));
        crate::ir::lemma_pos_props(v.entities, x);
        let p = crate::ir::entity_pos(v.entities, x)->Some_0 as int;
        assert(v.entities[p].0 == x);
        assert forall|j: int| 0 <= j < v.entities.len() && #[trigger] v.entities[j].0 == x implies v.entities[j].1
            == (EntityKind::Switch {
            level: Some(
                match sw[k].level {
                    Some(l) => l,
                    None => 0u32,
                },
            ),
        }) by {
            match v.entities[j].1 {
                EntityKind::Compute => {
                    assert(is_node(doc.node@, v.entities[j].0));
                },
                EntityKind::Switch { level } => {
                    let k2 = choose|k2: int| last_entry(sw, k2, v.entities[j].0) && level == Some(switch_level(sw[k2]));
                    if k2 < k {
                        assert(sw[k].id@ != x);
                    } else if k2 > k {
                        assert(sw[k2].id@ != x);
                    }
                },
                EntityKind::Group => {},
            }
        }
    }
}

/// Whether `x` is one of `v`.
fn listed_in(v: &Vec<String>, x: &String) -> (b: bool)
    ensures
        b == views(v@).contains(x@),
{
    let mut i: usize = 0;
    while i < v.len()
        invariant
            i <= v@.len(),
            forall|q: int| 0 <= q < i ==> views(v@)[q] != x@,
        decreases v.len() - i,
    {
        if v[i] == *x {
            assert(views(v@)[i as int] == x@);
            return true;
        }
        i = i + 1;
    }
    false
}

/// The metadata of an entry: `first` (when given) under `key`, then the
/// extra fields in order (a later one replaces an earlier one).
pub open spec fn entry_meta_spec(key: Seq<char>, first: Option<Seq<char>>, extra: Seq<(String, String)>) -> Map<Seq<char>, Seq<char>>
    decreases extra.len(),
{
    if extra.len() == 0 {
        match first {
            Some(g) => Map::empty().insert(key, g),
            None => Map::empty(),
        }
    } else {
        entry_meta_spec(key, first, extra.drop_last()).insert(extra.last().0@, extra.last().1@)
    }
}

/// The metadata of an entry: `first` (when given) under `key`, then the
/// extra fields in order.
fn entry_meta(key: &str, first: &Option<String>, extra: &Vec<(String, String)>) -> (m: StrMap)
    ensures
        m@ == entry_meta_spec(key@, crate::alps::opt_view(*first), extra@),
{
    let mut m = StrMap::new();
    match first {
        Some(g) => {
            m.insert(String::from_str(key), g.clone());
        },
        None => {},
    }
    let mut i: usize = 0;
    assert(extra@.take(0) =~= Seq::<(String, String)>::empty());
    assert(m@ =~= entry_meta_spec(key@, crate::alps::opt_view(*first), extra@.take(0)));
    while i < extra.len()
        invariant
            i <= extra@.len(),
            m@ == entry_meta_spec(key@, crate::alps::opt_view(*first), extra@.take(i as int)),
        decreases extra.len() - i,
    {
        m.insert(extra[i].0.clone(), extra[i].1.clone());
        assert(extra@.take(i + 1).drop_last() =~= extra@.take(i as int));
        assert(extra@.take(i + 1).last() == extra@[i as int]);
        i = i + 1;
    }
    assert(extra@.take(i as int) =~= extra@);
    m
}

/// The entity of a switch entry.
pub open spec fn switch_entity(s: TomlSwitch) -> EntityView {
    (s.id@, EntityKind::Switch { level: Some(switch_level(s)) }, entry_meta_spec("cell"@, crate::alps::opt_view(s.group), s.extra@))
}

/// The entities of the switch entries, each entry replacing an earlier one
/// with its id.
pub open spec fn switch_entities(sw: Seq<TomlSwitch>) -> Seq<EntityView>
    decreases sw.len(),
{
    if sw.len() == 0 {
        Seq::empty()
    } else {
        with_entity(switch_entities(sw.drop_last()), switch_entity(sw.last()))
    }
}

/// The entity of a node entry.
pub open spec fn node_entity(n: TomlNode) -> EntityView {
    (n.id@, EntityKind::Compute, entry_meta_spec("xname"@, crate::alps::opt_view(n.xname), n.extra@))
}

/// `es` with the entities of the node entries added in order.
pub open spec fn with_node_entities(nodes: Seq<TomlNode>, es: Seq<EntityView>) -> Seq<EntityView>
    decreases nodes.len(),
{
    if nodes.len() == 0 {
        es
    } else {
        with_entity(with_node_entities(nodes.drop_last(), es), node_entity(nodes.last()))
    }
}

/// Each node under its switch, in order of the entries.
pub open spec fn node_contains(nodes: Seq<TomlNode>) -> Seq<crate::ir::ContainsView>
    decreases nodes.len(),
{
    if nodes.len() == 0 {
        Seq::empty()
    } else {
        with_child(node_contains(nodes.drop_last()), nodes.last().switch@, nodes.last().id@)
    }
}

/// The base topology of a document: the switch entities, then the node
/// entities, without the switches no node hangs under; each node under its
/// switch; the node links, the explicit links and, when asked for, the
/// links within each group.
pub open spec fn toml_exact(doc: TomlTopology, intra: bool) -> IRView {
    let es = with_node_entities(doc.node@, switch_entities(doc.switch@)).filter(|e: EntityView| kept_entity(doc.node@, e));
    let links = node_links(doc.node@, w_node_switch(doc)) + explicit_links(doc.link@);
    IRView {
        entities: es,
        links: if intra {
            links + group_cliques(cell_groups(es, true), w_switch_switch(doc))
        } else {
            links
        },
        contains: node_contains(doc.node@),
    }
}


/// A switch entity as its last entry makes it.
pub open spec fn from_last_entry(sw: Seq<TomlSwitch>, e: EntityView) -> bool {
    exists|k: int| last_entry(sw, k, e.0) && e.1 == (EntityKind::Switch { level: Some(switch_level(sw[k])) })
}

/// The topology after the switch entries `sw`.
pub open spec fn after_switches(sw: Seq<TomlSwitch>, v: IRView) -> bool {
    &&& v.wf()
    &&& v.links.len() == 0
    &&& v.contains.len() == 0
    &&& forall|j: int| 0 <= j < v.entities.len() ==> from_last_entry(sw, #[trigger] v.entities[j])
    &&& forall|k: int| 0 <= k < sw.len() ==> v.has((#[trigger] sw[k]).id@)
}

/// The topology after the switch entries `sw` and then the nodes `nodes`.
pub open spec fn after_nodes(sw: Seq<TomlSwitch>, nodes: Seq<TomlNode>, w: u64, v: IRView) -> bool {
    &&& v.wf()
    &&& v.links == node_links(nodes, w)
    &&& forall|k: int| 0 <= k < nodes.len() ==> kind_is(v.entities, (#[trigger] nodes[k]).id@, EntityKind::Compute)
        && v.children(nodes[k].switch@).contains(nodes[k].id@)
    &&& forall|j: int| 0 <= j < v.entities.len() && (#[trigger] v.entities[j]).1 is Compute ==> is_node(nodes, v.entities[j].0)
    &&& forall|j: int| 0 <= j < v.entities.len() && (#[trigger] v.entities[j]).1 !is Compute ==> from_last_entry(sw, v.entities[j])
        && !is_node(nodes, v.entities[j].0)
    &&& forall|k: int| 0 <= k < sw.len() && !is_node(nodes, (#[trigger] sw[k]).id@) ==> v.has(sw[k].id@)
}

/// Add the switch entries.
#[verifier::spinoff_prover]
#[verifier::rlimit(40)]
fn add_switches(doc: &TomlTopology) -> (ir: TopologyIR)
    ensures
        after_switches(doc.switch@, ir@),
        ir@.entities == switch_entities(doc.switch@),
{
    let ghost sw = doc.switch@;
    let mut ir = TopologyIR::new();
    let mut i: usize = 0;
    assert(sw.take(0) =~= Seq::<TomlSwitch>::empty());
    while i < doc.switch.len()
        invariant
            sw == doc.switch@,
            i <= sw.len(),
            ir@.entities == switch_entities(sw.take(i as int)),
            ir@.wf(),
            ir@.links.len() == 0,
            ir@.contains.len() == 0,
            forall|j: int| 0 <= j < ir@.entities.len() ==> exists|k: int| 0 <= k < i && (#[trigger] sw[k]).id@ == (#[trigger] ir@.entities[j]).0
                && ir@.entities[j].1 == (EntityKind::Switch { level: Some(switch_level(sw[k])) })
                && forall|q: int| k < q < i ==> (#[trigger] sw[q]).id@ != ir@.entities[j].0,
            forall|k: int| 0 <= k < i ==> ir@.has((#[trigger] sw[k]).id@),
        decreases doc.switch.len() - i,
    {
        let s = &doc.switch[i];
        let level = match s.level {
            Some(l) => l,
            None => 0,
        };
        let meta = entry_meta("cell", &s.group, &s.extra);
        let ent = Entity { id: Id(s.id.clone()), kind: EntityKind::Switch { level: Some(level) }, meta };
        let ghost ev = ent@;
        let ghost before = ir@.entities;
        ir.add_entity(ent);
        proof {
            assert(ev == switch_entity(sw[i as int]));
            assert(sw.take(i + 1).drop_last() =~= sw.take(i as int));
            assert(sw.take(i + 1).last() == sw[i as int]);
            let x = sw[i as int].id@;
            assert(ev.0 == x);
            assert(ir@.entities == with_entity(before, ev));
            crate::ir::lemma_with_entity(before, ev);
            let ne = ir@.entities;
            assert forall|j: int| 0 <= j < ne.len() implies exists|k: int| 0 <= k < i + 1 && (#[trigger] sw[k]).id@ == (#[trigger] ne[j]).0
                && ne[j].1 == (EntityKind::Switch { level: Some(switch_level(sw[k])) })
                && forall|q: int| k < q < i + 1 ==> (#[trigger] sw[q]).id@ != ne[j].0 by {
                if ne[j] == ev {
                    assert(sw[i as int].id@ == ne[j].0);
                } else {
                    assert(came_from(before, ev, ne[j]));
                    reveal(came_from);
                    let p = choose|p: int| 0 <= p < before.len() && before[p] == ne[j] && before[p].0 != ev.0;
                    let k = choose|k: int| 0 <= k < i && (#[trigger] sw[k]).id@ == (#[trigger] before[p]).0
                        && before[p].1 == (EntityKind::Switch { level: Some(switch_level(sw[k])) })
                        && forall|q: int| k < q < i ==> (#[trigger] sw[q]).id@ != before[p].0;
                    assert(sw[k].id@ == ne[j].0);
                }
            }
            assert forall|k: int| 0 <= k < i + 1 implies ir@.has((#[trigger] sw[k]).id@) by {
                let y = sw[k].id@;
                if y == x {
                    let j = choose|j: int| 0 <= j < ne.len() && #[trigger] ne[j].0 == x;
                    crate::ir::lemma_has(ne, j, y);
                } else {
                    assert(ir@.has(y)) by {
                        crate::ir::lemma_pos_props(before, y);
                        let p = crate::ir::entity_pos(before, y)->Some_0 as int;
                        assert(stays_in(ne, before[p]));
                        reveal(stays_in);
                        let j = choose|j: int| 0 <= j < ne.len() && ne[j] == #[trigger] before[p];
                        crate::ir::lemma_has(ne, j, y);
                    }
                }
            }
        }
        i = i + 1;
    }
    proof {
        assert(sw.take(i as int) =~= sw);
        assert forall|j: int| 0 <= j < ir@.entities.len() implies from_last_entry(sw, #[trigger] ir@.entities[j]) by {
            let k = choose|k: int| 0 <= k < i && (#[trigger] sw[k]).id@ == (#[trigger] ir@.entities[j]).0
                && ir@.entities[j].1 == (EntityKind::Switch { level: Some(switch_level(sw[k])) })
                && forall|q: int| k < q < i ==> (#[trigger] sw[q]).id@ != ir@.entities[j].0;
            assert(last_entry(sw, k, ir@.entities[j].0));
        }
    }
    ir
}

/// Add the node entries, each under its switch; the switch names are
/// returned in order.
#[verifier::spinoff_prover]
#[verifier::rlimit(40)]
fn add_nodes(ir: &mut TopologyIR, doc: &TomlTopology, w_ns: u64) -> (pop: Vec<String>)
    requires
        after_switches(doc.switch@, old(ir)@),
    ensures
        after_nodes(doc.switch@, doc.node@, w_ns, final(ir)@),
        views(pop@) == doc.node@.map_values(|x: TomlNode| x.switch@),
        final(ir)@.entities == with_node_entities(doc.node@, old(ir)@.entities),
        final(ir)@.contains == node_contains(doc.node@),
{
    let ghost sw = doc.switch@;
    let ghost nodes = doc.node@;
    let ghost e0 = ir@.entities;
    let mut pop: Vec<String> = Vec::new();
    let mut n: usize = 0;
    assert(nodes.take(0) == Seq::<TomlNode>::empty());
    assert(ir@.links == node_links(nodes.take(0), w_ns));
    assert(ir@.contains =~= node_contains(nodes.take(0)));
    while n < doc.node.len()
        invariant
            sw == doc.switch@,
            nodes == doc.node@,
            n <= nodes.len(),
            e0 == old(ir)@.entities,
            ir@.entities == with_node_entities(nodes.take(n as int), e0),
            ir@.contains == node_contains(nodes.take(n as int)),
            after_nodes(sw, nodes.take(n as int), w_ns, ir@),
            views(pop@) == nodes.take(n as int).map_values(|x: TomlNode| x.switch@),
        decreases doc.node.len() - n,
    {
        let nd = &doc.node[n];
        let meta = entry_meta("xname", &nd.xname, &nd.extra);
        let ent = Entity { id: Id(nd.id.clone()), kind: EntityKind::Compute, meta };
        let ghost ev = ent@;
        let ghost before = ir@;
        let ghost pop0 = views(pop@);
        ir.add_entity(ent);
        let ghost after_e = ir@;
        ir.add_contains(Id(nd.switch.clone()), Id(nd.id.clone()));
        ir.add_link(Id(nd.switch.clone()), Id(nd.id.clone()), w_ns);
        pop.push(nd.switch.clone());
        proof {
            assert(nodes.take(n + 1).drop_last() =~= nodes.take(n as int));
            assert(nodes.take(n + 1).last() == nodes[n as int]);
            assert(ev == node_entity(nodes[n as int]));
        }
        proof {
            let x = nodes[n as int].id@;
            let sx = nodes[n as int].switch@;
            let t0 = nodes.take(n as int);
            let t1 = nodes.take(n + 1);
            assert(t1 == t0.push(nodes[n as int]));
            assert(ev.0 == x && ev.1 == EntityKind::Compute);
            assert(after_e.entities == with_entity(before.entities, ev));
            crate::ir::lemma_with_entity(before.entities, ev);
            let ne = ir@.entities;
            assert(ir@.links == node_links(t1, w_ns));
            assert(views(pop@) == pop0.push(sx));
            assert(views(pop@) == t1.map_values(|y: TomlNode| y.switch@));
            assert forall|k: int| 0 <= k < t1.len() implies kind_is(ne, (#[trigger] t1[k]).id@, EntityKind::Compute)
                && ir@.children(t1[k].switch@).contains(t1[k].id@) by {
                let y = t1[k].id@;
                crate::ir::lemma_children_after_add(after_e.contains, sx, x, t1[k].switch@);
                if k < n {
                    assert(t1[k] == t0[k]);
                    if y != x {
                        lemma_kind_after_add(before.entities, ev, y, EntityKind::Compute);
                    }
                    let c = choose|c: int| 0 <= c < before.children(t0[k].switch@).len() && before.children(t0[k].switch@)[c] == y;
                    assert(ir@.children(t1[k].switch@)[c] == y);
                } else {
                    assert(ir@.children(sx).last() == x);
                }
            }
            assert forall|j: int| 0 <= j < ne.len() && (#[trigger] ne[j]).1 is Compute implies is_node(t1, ne[j].0) by {
                if ne[j] == ev {
                    assert(t1[n as int].id@ == ne[j].0);
                } else {
                    assert(came_from(before.entities, ev, ne[j]));
                    reveal(came_from);
                    let q = choose|q: int| 0 <= q < before.entities.len() && before.entities[q] == ne[j] && before.entities[q].0 != ev.0;
                    assert(before.entities[q].1 is Compute);
                    let k = choose|k: int| 0 <= k < t0.len() && (#[trigger] t0[k]).id@ == before.entities[q].0;
                    assert(t1[k].id@ == ne[j].0);
                }
            }
            assert forall|j: int| 0 <= j < ne.len() && (#[trigger] ne[j]).1 !is Compute implies from_last_entry(sw, ne[j])
                && !is_node(t1, ne[j].0) by {
                assert(came_from(before.entities, ev, ne[j]));
                reveal(came_from);
                let q = choose|q: int| 0 <= q < before.entities.len() && before.entities[q] == ne[j] && before.entities[q].0 != ev.0;
                assert(before.entities[q].1 !is Compute);
                assert(!is_node(t0, before.entities[q].0));
                if is_node(t1, ne[j].0) {
                    let k = choose|k: int| 0 <= k < t1.len() && (#[trigger] t1[k]).id@ == ne[j].0;
                    if k < n {
                        assert(t0[k].id@ == ne[j].0);
                    }
                }
            }
            assert forall|k: int| 0 <= k < sw.len() && !is_node(t1, (#[trigger] sw[k]).id@) implies ir@.has(sw[k].id@) by {
                let y = sw[k].id@;
                if is_node(t0, y) {
                    let q = choose|q: int| 0 <= q < t0.len() && (#[trigger] t0[q]).id@ == y;
                    assert(t1[q].id@ == y);
                }
                assert(before.has(y));
                assert(t1[n as int].id@ != y);
                crate::ir::lemma_pos_props(before.entities, y);
                let p = crate::ir::entity_pos(before.entities, y)->Some_0 as int;
                assert(stays_in(ne, before.entities[p]));
                reveal(stays_in);
                let j = choose|j: int| 0 <= j < ne.len() && ne[j] == #[trigger] before.entities[p];
                crate::ir::lemma_has(ne, j, y);
            }
        }
        n = n + 1;
    }
    assert(nodes.take(n as int) == nodes);
    pop
}

/// Keep the entities that are not switches without nodes.
pub open spec fn kept_entity(nodes: Seq<TomlNode>, e: EntityView) -> bool {
    !(e.1 is Switch && !populated(nodes, e.0))
}

/// `e` is one of `es` that is kept.
#[verifier::opaque]
pub open spec fn kept_from(es: Seq<EntityView>, nodes: Seq<TomlNode>, e: EntityView) -> bool {
    exists|q: int| 0 <= q < es.len() && es[q] == e && kept_entity(nodes, es[q])
}

/// Filtering keeps the entity ids distinct.
proof fn lemma_filter_ids_distinct(s: Seq<EntityView>, p: spec_fn(EntityView) -> bool)
    requires
        forall|a: int, b: int| 0 <= a < b < s.len() ==> s[a].0 != s[b].0,
    ensures
        forall|a: int, b: int|
            0 <= a < b < s.filter(p).len() ==> s.filter(p)[a].0 != s.filter(p)[b].0,
    decreases s.len(),
{
    reveal(Seq::filter);
    if s.len() > 0 {
        let t = s.drop_last();
        lemma_filter_ids_distinct(t, p);
        assert(s == t.push(s.last()));
        t.lemma_filter_push(s.last(), p);
        if p(s.last()) {
            let f = t.filter(p);
            assert forall|a: int, b: int| 0 <= a < b < s.filter(p).len() implies s.filter(p)[a].0
                != s.filter(p)[b].0 by {
                if b == f.len() {
                    assert(f.contains(f[a]));
                    t.lemma_filter_contains_rev(p, f[a]);
                    let q = choose|q: int| 0 <= q < t.len() && t[q] == f[a];
                    assert(s[q] == t[q]);
                    assert(s.filter(p)[a] == f[a]);
                } else {
                    assert(s.filter(p)[a] == f[a] && s.filter(p)[b] == f[b]);
                }
            }
        }
    }
}

/// Drop the switches that no node hangs under (`pop` lists the switches
/// that nodes hang under); links and containment stay.
#[verifier::spinoff_prover]
fn drop_unpopulated(ir: &mut TopologyIR, nodes: Ghost<Seq<TomlNode>>, pop: &Vec<String>)
    requires
        old(ir)@.wf(),
        views(pop@) == nodes@.map_values(|x: TomlNode| x.switch@),
    ensures
        final(ir)@.wf(),
        final(ir)@.links == old(ir)@.links,
        final(ir)@.contains == old(ir)@.contains,
        final(ir)@.entities == old(ir)@.entities.filter(|e: EntityView| kept_entity(nodes@, e)),
        forall|t: int| 0 <= t < final(ir)@.entities.len() ==> kept_from(old(ir)@.entities, nodes@, #[trigger] final(ir)@.entities[t]),
        forall|q: int| 0 <= q < old(ir)@.entities.len() && kept_entity(nodes@, #[trigger] old(ir)@.entities[q]) ==> stays_in(final(ir)@.entities, old(ir)@.entities[q]),
{
    let ghost es = ir@.entities;
    let ghost nv = nodes@;
    let ghost keep = |e: EntityView| kept_entity(nodes@, e);
    let mut kept: Vec<Entity> = Vec::new();
    let mut j: usize = 0;
    assert(es.take(0).filter(keep) =~= Seq::<EntityView>::empty()) by {
        reveal(Seq::filter);
    }
    while j < ir.entities.len()
        invariant
            es == ir@.entities,
            nv == nodes@,
            keep == (|e: EntityView| kept_entity(nodes@, e)),
            kept@.map_values(|x: Entity| x@) == es.take(j as int).filter(keep),
            views(pop@) == nv.map_values(|x: TomlNode| x.switch@),
            ir@.wf(),
            j <= es.len(),
        decreases ir.entities.len() - j,
    {
        let e = &ir.entities[j];
        let is_switch = match e.kind {
            EntityKind::Switch { .. } => true,
            _ => false,
        };
        let mut drop = false;
        if is_switch {
            if !listed_in(pop, &e.id.0) {
                drop = true;
            }
        }
        proof {
            assert(es.take(j + 1) == es.take(j as int).push(es[j as int]));
            es.take(j as int).lemma_filter_push(es[j as int], keep);
            let y = es[j as int].0;
            if views(pop@).contains(y) {
                let k = choose|k: int| 0 <= k < views(pop@).len() && views(pop@)[k] == y;
                assert(nv[k].switch@ == y);
            }
            if populated(nv, y) {
                let k = choose|k: int| 0 <= k < nv.len() && (#[trigger] nv[k]).switch@ == y;
                assert(views(pop@)[k] == y);
            }
            assert(drop == !keep(es[j as int]));
        }
        if !drop {
            let ghost prev = kept@;
            kept.push(e.copy());
            assert(kept@.map_values(|x: Entity| x@) =~= prev.map_values(|x: Entity| x@).push(es[j as int]));
        }
        j = j + 1;
    }
    let ghost links0 = ir@.links;
    let ghost cont0 = ir@.contains;
    assert(es.take(j as int) =~= es);
    ir.entities = kept;
    assert(ir@.links == links0 && ir@.contains == cont0);
    assert(ir@.entities == es.filter(keep));
    proof {
        lemma_filter_ids_distinct(es, keep);
    }
    assert forall|t: int| 0 <= t < ir@.entities.len() implies kept_from(es, nv, #[trigger] ir@.entities[t]) by {
        reveal(kept_from);
        let x = es.filter(keep)[t];
        assert(es.filter(keep).contains(x));
        es.lemma_filter_contains_rev(keep, x);
        es.lemma_filter_pred(keep, t);
        let q = choose|q: int| 0 <= q < es.len() && es[q] == x;
    }
    assert forall|q: int| 0 <= q < es.len() && kept_entity(nv, #[trigger] es[q]) implies stays_in(ir@.entities, es[q]) by {
        reveal(stays_in);
        assert(keep(es[q]));
        es.lemma_filter_contains(keep, q);
        let t = choose|t: int| 0 <= t < es.filter(keep).len() && es.filter(keep)[t] == es[q];
    }
}

/// Append the explicit links.
fn add_explicit_links(ir: &mut TopologyIR, links: &Vec<TomlLink>)
    ensures
        final(ir)@.entities == old(ir)@.entities,
        final(ir)@.contains == old(ir)@.contains,
        final(ir)@.links == old(ir)@.links + explicit_links(links@),
        old(ir)@.wf() ==> final(ir)@.wf(),
{
    let ghost start = ir@;
    let mut l: usize = 0;
    while l < links.len()
        invariant
            l <= links@.len(),
            ir@.entities == start.entities,
            ir@.contains == start.contains,
            start.wf() ==> ir@.wf(),
            ir@.links == start.links + explicit_links(links@.take(l as int)),
        decreases links.len() - l,
    {
        ir.add_link(Id(links[l].a.clone()), Id(links[l].b.clone()), links[l].weight);
        proof {
            assert(links@.take(l + 1) == links@.take(l as int).push(links@[l as int]));
        }
        l = l + 1;
    }
    assert(links@.take(l as int) == links@);
}

impl TomlTopologyParser {
    /// Build the base topology of a document: switches (level 0 unless
    /// given, `cell` from their group, extra fields as metadata), nodes
    /// (`xname` and extra fields as metadata) under their switches, the
    /// switches no node hangs under dropped, the explicit links, and the
    /// links within each group when asked for.
    #[verifier::spinoff_prover]
    #[verifier::rlimit(40)]
    pub fn parse_document(&self, doc: &TomlTopology) -> (r: TopologyIR)
        ensures
            toml_base(*doc, self.options.intra_group_links, r@),
            r@ == toml_exact(*doc, self.options.intra_group_links),
    {
        let w_ns = match doc.meta.w_node_switch {
            Some(w) => w,
            None => DEFAULT_W_NODE_SWITCH,
        };
        let w_ss = match doc.meta.w_switch_switch {
            Some(w) => w,
            None => DEFAULT_W_SWITCH_SWITCH,
        };
        let ghost sw = doc.switch@;
        let ghost nodes = doc.node@;
        let mut ir = add_switches(doc);
        let pop = add_nodes(&mut ir, doc, w_ns);
        let ghost mid = ir@;
        drop_unpopulated(&mut ir, Ghost(nodes), &pop);
        let ghost dropped = ir@;
        add_explicit_links(&mut ir, &doc.link);
        if self.options.intra_group_links {
            link_within_groups(&mut ir, w_ss);
        }
        proof {
            let ne = ir@.entities;
            assert(ne == dropped.entities);
            assert(ir@.contains == node_contains(nodes));
            assert(ir@.links =~= toml_exact(*doc, self.options.intra_group_links).links);
            assert forall|k: int| 0 <= k < nodes.len() implies kind_is(ne, (#[trigger] nodes[k]).id@, EntityKind::Compute)
                && ir@.children(nodes[k].switch@).contains(nodes[k].id@) by {
                let y = nodes[k].id@;
                let q = choose|q: int| 0 <= q < mid.entities.len() && #[trigger] mid.entities[q].0 == y;
                assert(mid.entities[q].1 == EntityKind::Compute);
                assert(kept_entity(nodes, mid.entities[q]));
                assert(stays_in(ne, mid.entities[q]));
                reveal(stays_in);
                let t = choose|t: int| 0 <= t < ne.len() && ne[t] == mid.entities[q];
                assert(ne[t].0 == y);
                assert forall|t2: int| 0 <= t2 < ne.len() && #[trigger] ne[t2].0 == y implies ne[t2].1 == EntityKind::Compute by {
                    assert(kept_from(mid.entities, nodes, ne[t2]));
                    reveal(kept_from);
                    let q2 = choose|q2: int| 0 <= q2 < mid.entities.len() && mid.entities[q2] == ne[t2] && kept_entity(nodes, mid.entities[q2]);
                    assert(mid.entities[q2].0 == y);
                }
            }
            assert forall|j: int| 0 <= j < ne.len() implies match (#[trigger] ne[j]).1 {
                EntityKind::Compute => is_node(nodes, ne[j].0),
                EntityKind::Switch { level } => populated(nodes, ne[j].0) && !is_node(nodes, ne[j].0)
                    && exists|k: int| last_entry(sw, k, ne[j].0) && level == Some(switch_level(sw[k])),
                EntityKind::Group => false,
            } by {
                assert(kept_from(mid.entities, nodes, ne[j]));
                reveal(kept_from);
                let q = choose|q: int| 0 <= q < mid.entities.len() && mid.entities[q] == ne[j] && kept_entity(nodes, mid.entities[q]);
                let e = mid.entities[q];
                if e.1 !is Compute {
                    assert(from_last_entry(sw, e));
                    let k = choose|k: int| last_entry(sw, k, e.0) && e.1 == (EntityKind::Switch { level: Some(switch_level(sw[k])) });
                }
            }
            assert forall|k: int| 0 <= k < sw.len() && populated(nodes, (#[trigger] sw[k]).id@) && !is_node(nodes, sw[k].id@) implies ir@.has(sw[k].id@) by {
                let y = sw[k].id@;
                crate::ir::lemma_pos_props(mid.entities, y);
                let p = crate::ir::entity_pos(mid.entities, y)->Some_0 as int;
                let e = mid.entities[p];
                if e.1 is Compute {
                    assert(is_node(nodes, e.0));
                }
                assert(kept_entity(nodes, e));
                assert(stays_in(ne, mid.entities[p]));
                reveal(stays_in);
                let t = choose|t: int| 0 <= t < ne.len() && ne[t] == mid.entities[p];
                crate::ir::lemma_has(ne, t, y);
            }
        }
        ir
    }
}

/// The inter-group links of a topology: every two groups (switches by
/// their `cell`), the k-th switch of one to the k-th of the other, with the
/// switch weight `w`.
pub open spec fn inter_group_links(es: Seq<EntityView>, w: u64) -> Seq<LinkView> {
    all_pair_links(cell_groups(es, true), usize::MAX as nat, w)
}

impl TomlTopologyParser {
    /// Add the inter-group links when asked for: for every two groups, in
    /// order of group name, the k-th switch of one (by name) to the k-th of
    /// the other, for as many positions as both groups have.  The weight is
    /// the document's switch weight (`w_switch_switch`, or its default).
    pub fn enrich_inter_cell_links(&self, ir: &mut TopologyIR, doc: &TomlTopology)
        ensures
            final(ir)@.entities == old(ir)@.entities,
            final(ir)@.contains == old(ir)@.contains,
            final(ir)@.links == old(ir)@.links + (if self.options.inter_group_links {
                inter_group_links(old(ir)@.entities, w_switch_switch(*doc))
            } else {
                Seq::empty()
            }),
            old(ir)@.wf() ==> final(ir)@.wf(),
    {
        if !self.options.inter_group_links {
            assert(ir@.links == ir@.links + Seq::<LinkView>::empty());
            return;
        }
        let w = match doc.meta.w_switch_switch {
            Some(w) => w,
            None => DEFAULT_W_SWITCH_SWITCH,
        };
        link_cells(ir, true, usize::MAX, w);
    }

    /// Attach to every entity that `node_infos` lists its sorted,
    /// de-duplicated partitions as `meta["partitions"]`.
    pub fn enrich_node_info(&self, ir: &mut TopologyIR, node_infos: &Vec<NodeInfo>)
        ensures
            final(ir)@.entities == old(ir)@.entities.map_values(|e: EntityView| partitions_enriched(e, node_infos@)),
            final(ir)@.links == old(ir)@.links,
            final(ir)@.contains == old(ir)@.contains,
    {
        let ghost e0 = ir@.entities;
        crate::topology::enrich_node_info(ir, node_infos);
        assert(ir@.entities =~= e0.map_values(|e: EntityView| partitions_enriched(e, node_infos@)));
    }

    /// The whole pipeline on a document: base topology, inter-group links,
    /// `sinfo` enrichment when given, then the node filter.
    pub fn build(&self, doc: &TomlTopology, sinfo_infos: Option<Vec<NodeInfo>>, opts: &NodeFilterOptions) -> (r: TopologyIR)
        ensures
            r@ == finished(IRView {
                entities: toml_exact(*doc, self.options.intra_group_links).entities,
                links: toml_exact(*doc, self.options.intra_group_links).links + (if self.options.inter_group_links {
                    inter_group_links(toml_exact(*doc, self.options.intra_group_links).entities, w_switch_switch(*doc))
                } else {
                    Seq::empty()
                }),
                contains: toml_exact(*doc, self.options.intra_group_links).contains,
            }, infos_view(sinfo_infos), opts.remove_unavailable),
    {
        let mut ir = self.parse_document(doc);
        self.enrich_inter_cell_links(&mut ir, doc);
        finish_build(ir, sinfo_infos, opts)
    }
}
} // verus!
