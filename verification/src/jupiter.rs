//! Jupiter: a Dragonfly+ of groups of racks.  L1 switches are named
//! `jpbi-<RRR>-l1-<NN>` and carry the compute nodes `jpbo-<RRR>-<NN>`; each
//! group has an L2 switch `jpbi-<RRR>-l2-<NN>` whose `Switches=` list names
//! the L1 switches of the group.  Weights are in thousandths of 200 Gbps.
use vstd::prelude::*;
use vstd::string::*;
use crate::ir::{
    children_in, id_views, kind_is, lemma_children_after_add, lemma_kind_after_add, lemma_kind_same_shape, same_shape,
    with_child, with_entity, Entity, EntityKind, EntityView, IRView, Id, LinkView, TopologyIR,
};
use crate::kv::StrMap;
use crate::cells::{all_pair_links, cell_groups, link_cells};
use crate::leonardo::{contains_chars, contains_text, expand_error, field_of, first_error, switch_name};
use crate::nodelist::{expand_nodelist, expand_nodelist_spec, fields_of, parse_line, NodeListParseError};
use crate::order::{sorted_list, sorted_set_of};
use crate::text::seq_lt;
use crate::scontrol::{has_prefix, merge_continuation_lines, merged_lines};
use crate::sinfo::NodeInfo;
use crate::text::{chars_eq, chars_of, extend_chars, find_char, index_of, slice_chars, starts_with, string_of, views, words};
use crate::topology::{finish_build, finished, infos_view, partitions_enriched, NodeFilterOptions};

verus! {

/// Number of inter-group links modelled between each pair of groups.
pub const INTER_GROUP_LINKS_PER_PAIR: usize = 1;

/// Compute node to L1 switch (200 Gbps).
pub const W_L1_NODE: u64 = 1000;

/// L1 to L2 switch within a group (400 Gbps).
pub const W_L1_L2: u64 = 2000;

/// L2 to L2 switch between groups.
pub const W_INTER_GROUP: u64 = 4000;

/// Behavioural knobs of the Jupiter parser.
#[derive(Clone, Copy, Debug)]
pub struct JupiterOptions {
    /// Link each L1 switch to the L2 switch of its group.
    pub intra_group_links: bool,
}

impl Default for JupiterOptions {
    fn default() -> (r: Self)
        ensures
            r.intra_group_links,
    {
        JupiterOptions { intra_group_links: true }
    }
}

/// The Jupiter topology parser.
#[derive(Clone, Copy, Debug)]
pub struct JupiterParser {
    pub options: JupiterOptions,
}

impl Default for JupiterParser {
    fn default() -> (r: Self)
        ensures
            r.options.intra_group_links,
    {
        JupiterParser { options: JupiterOptions { intra_group_links: true } }
    }
}

/// What a switch name says: an L1 switch with its rack and index, or an
/// L2 switch with the rack it is anchored to and its index.
pub enum SwitchInfo {
    L1 { rack: String, index: String },
    L2 { anchor_rack: String, index: String },
}

/// A switch name as (is it an L2 switch, rack, index).
pub type InfoView = (bool, Seq<char>, Seq<char>);

pub open spec fn info_view(i: SwitchInfo) -> InfoView {
    match i {
        SwitchInfo::L1 { rack, index } => (false, rack@, index@),
        SwitchInfo::L2 { anchor_rack, index } => (true, anchor_rack@, index@),
    }
}

/// `str::splitn(3, '-')` when it yields three pieces.
pub open spec fn split3(s: Seq<char>) -> Option<(Seq<char>, Seq<char>, Seq<char>)> {
    match index_of(s, '-') {
        None => None,
        Some(p) => {
            let r = s.skip((p + 1) as int);
            match index_of(r, '-') {
                None => None,
                Some(q) => Some((s.take(p as int), r.take(q as int), r.skip((q + 1) as int))),
            }
        },
    }
}

/// `jpbi-<RRR>-l1-<NN>` or `jpbi-<RRR>-l2-<NN>` taken apart.
pub open spec fn switch_info(n: Seq<char>) -> Option<InfoView> {
    if has_prefix(n, "jpbi-"@) {
        match split3(n.skip(5)) {
            Some(parts) => if parts.1 == "l1"@ {
                Some((false, parts.0, parts.2))
            } else if parts.1 == "l2"@ {
                Some((true, parts.0, parts.2))
            } else {
                None
            },
            None => None,
        }
    } else {
        None
    }
}

/// The kind a registered switch gets: L1 switches level 0, L2 level 1.
pub open spec fn jswitch_kind(n: Seq<char>) -> EntityKind {
    EntityKind::Switch { level: Some(if switch_info(n)->Some_0.0 { 1u32 } else { 0u32 }) }
}

/// The rack of a compute node: `jpbo-<RRR>-<NN>` gives `RRR`.
pub open spec fn node_rack(n: Seq<char>) -> Option<Seq<char>> {
    if has_prefix(n, "jpbo-"@) {
        let r = n.skip(5);
        match index_of(r, '-') {
            Some(p) => Some(r.take(p as int)),
            None => Some(r),
        }
    } else {
        None
    }
}

/// Jupiter compute nodes are the names that start with `jpbo-`.
pub open spec fn jpbo(x: Seq<char>) -> bool {
    has_prefix(x, "jpbo-"@)
}

/// Parse a switch name.
pub fn parse_switch_name(name: &[char]) -> (r: Option<SwitchInfo>)
    ensures
        match switch_info(name@) {
            Some(v) => r matches Some(i) && info_view(i) == v,
            None => r is None,
        },
{
    let p = chars_of("jpbi-");
    let l1 = chars_of("l1");
    let l2 = chars_of("l2");
    proof {
        reveal_strlit("jpbi-");
        reveal_strlit("l1");
        reveal_strlit("l2");
    }
    if !starts_with(name, p.as_slice()) {
        return None;
    }
    let rest = slice_chars(name, 5, name.len());
    assert(rest@ =~= name@.skip(5));
    let d1 = match find_char(rest.as_slice(), '-') {
        Some(k) => k,
        None => return None,
    };
    let rack = slice_chars(rest.as_slice(), 0, d1);
    let r2 = slice_chars(rest.as_slice(), d1 + 1, rest.len());
    assert(r2@ =~= rest@.skip(d1 + 1));
    assert(rack@ =~= rest@.take(d1 as int));
    let d2 = match find_char(r2.as_slice(), '-') {
        Some(k) => k,
        None => return None,
    };
    let level = slice_chars(r2.as_slice(), 0, d2);
    let index = slice_chars(r2.as_slice(), d2 + 1, r2.len());
    assert(level@ =~= r2@.take(d2 as int));
    assert(index@ =~= r2@.skip(d2 + 1));
    if chars_eq(level.as_slice(), l1.as_slice()) {
        Some(SwitchInfo::L1 { rack: string_of(rack.as_slice()), index: string_of(index.as_slice()) })
    } else if chars_eq(level.as_slice(), l2.as_slice()) {
        Some(SwitchInfo::L2 { anchor_rack: string_of(rack.as_slice()), index: string_of(index.as_slice()) })
    } else {
        None
    }
}

pub fn is_head_switch(name: &[char]) -> (b: bool)
    ensures
        b == (name@ == "HeadSwitch"@),
{
    let h = chars_of("HeadSwitch");
    chars_eq(name, h.as_slice())
}

pub fn is_l1_switch(name: &[char]) -> (b: bool)
    ensures
        b == contains_text(name@, "-l1-"@),
{
    let p = chars_of("-l1-");
    proof {
        reveal_strlit("-l1-");
    }
    contains_chars(name, p.as_slice())
}

pub fn is_l2_switch(name: &[char]) -> (b: bool)
    ensures
        b == contains_text(name@, "-l2-"@),
{
    let p = chars_of("-l2-");
    proof {
        reveal_strlit("-l2-");
    }
    contains_chars(name, p.as_slice())
}

/// The rack of a compute node name.
pub fn rack_from_node_name(name: &[char]) -> (r: Option<String>)
    ensures
        match node_rack(name@) {
            Some(v) => r matches Some(s) && s@ == v,
            None => r is None,
        },
{
    let p = chars_of("jpbo-");
    proof {
        reveal_strlit("jpbo-");
    }
    if !starts_with(name, p.as_slice()) {
        return None;
    }
    let rest = slice_chars(name, 5, name.len());
    assert(rest@ =~= name@.skip(5));
    match find_char(rest.as_slice(), '-') {
        Some(k) => {
            let v = slice_chars(rest.as_slice(), 0, k);
            assert(v@ =~= rest@.take(k as int));
            Some(string_of(v.as_slice()))
        },
        None => Some(string_of(rest.as_slice())),
    }
}

/// Node `x` hangs under switch `sw`: it is a compute entity, a child of
/// `sw` and linked to it with the node weight.
pub open spec fn hosted(ir: IRView, sw: Seq<char>, x: Seq<char>) -> bool {
    &&& kind_is(ir.entities, x, EntityKind::Compute)
    &&& ir.children(sw).contains(x)
    &&& ir.links.contains((sw, x, W_L1_NODE))
}

/// Every `jpbo-` entity is a compute node.
pub open spec fn jpbo_compute(es: Seq<EntityView>) -> bool {
    forall|j: int| 0 <= j < es.len() && jpbo(#[trigger] es[j].0) ==> es[j].1 is Compute
}

proof fn lemma_jpbi_not_jpbo(n: Seq<char>)
    requires
        switch_info(n) is Some,
    ensures
        !jpbo(n),
{
    reveal_strlit("jpbi-");
    reveal_strlit("jpbo-");
    assert("jpbi-"@[3] == 'i');
    assert("jpbo-"@[3] == 'o');
    assert(n.take(5)[3] == n[3]);
    if jpbo(n) {
        assert(n.take(5) == "jpbo-"@);
    }
}

/// Add the `jpbo-` nodes among `names` under switch `sw`: each a compute
/// entity with its rack, a child of `sw` and linked to it.
fn attach_jpbo(
    ir: &mut TopologyIR,
    sw: &Id,
    names: &Vec<String>,
    Ghost(ls): Ghost<Seq<Seq<char>>>,
    Ghost(li): Ghost<int>,
    Ghost(intra): Ghost<bool>,
)
    requires
        old(ir)@.wf(),
        jpbo_compute(old(ir)@.entities),
        jupiter_sound(ls, intra, old(ir)@),
        0 <= li < ls.len(),
        j_l1_line(ls[li]),
        switch_name(ls[li]) == Some(sw@),
        listed(ls[li], "Nodes"@) == views(names@),
    ensures
        jupiter_sound(ls, intra, final(ir)@),
        final(ir)@.entities.len() >= old(ir)@.entities.len(),
        forall|j: int| 0 <= j < old(ir)@.entities.len() && !jpbo(old(ir)@.entities[j].0) ==> #[trigger] final(ir)@.entities[j] == old(ir)@.entities[j],
        forall|j: int| old(ir)@.entities.len() <= j < final(ir)@.entities.len() ==> jpbo(#[trigger] final(ir)@.entities[j].0),
        forall|j: int| 0 <= j < old(ir)@.entities.len() ==> (#[trigger] final(ir)@.entities[j]).0 == old(ir)@.entities[j].0,
        final(ir)@.wf(),
        jpbo_compute(final(ir)@.entities),
        forall|k: int| 0 <= k < names@.len() && jpbo(#[trigger] names@[k]@) ==> hosted(final(ir)@, sw@, names@[k]@),
        forall|s: Seq<char>, x: Seq<char>| hosted(old(ir)@, s, x) ==> hosted(final(ir)@, s, x),
        forall|x: Seq<char>, kd: EntityKind| !jpbo(x) && kind_is(old(ir)@.entities, x, kd) ==> kind_is(final(ir)@.entities, x, kd),
        forall|l: crate::ir::LinkView| old(ir)@.links.contains(l) ==> final(ir)@.links.contains(l),
        forall|l: crate::ir::LinkView| final(ir)@.links.contains(l) ==> old(ir)@.links.contains(l) || (l.0 == sw@ && jpbo(l.1) && l.2 == W_L1_NODE),
{
    let lp = chars_of("jpbo-");
    let ghost start = ir@;
    let mut k: usize = 0;
    while k < names.len()
        invariant
            k <= names@.len(),
            lp@ == "jpbo-"@,
            ir@.wf(),
            jpbo_compute(ir@.entities),
            forall|q: int| 0 <= q < k && jpbo(#[trigger] names@[q]@) ==> hosted(ir@, sw@, names@[q]@),
            forall|s: Seq<char>, x: Seq<char>| hosted(start, s, x) ==> hosted(ir@, s, x),
            forall|x: Seq<char>, kd: EntityKind| !jpbo(x) && kind_is(start.entities, x, kd) ==> kind_is(ir@.entities, x, kd),
            forall|l: crate::ir::LinkView| start.links.contains(l) ==> ir@.links.contains(l),
            forall|l: crate::ir::LinkView| ir@.links.contains(l) ==> start.links.contains(l) || (l.0 == sw@ && jpbo(l.1) && l.2 == W_L1_NODE),
            jupiter_sound(ls, intra, ir@),
            0 <= li < ls.len(),
            j_l1_line(ls[li]),
            switch_name(ls[li]) == Some(sw@),
            listed(ls[li], "Nodes"@) == views(names@),
            ir@.entities.len() >= start.entities.len(),
            forall|j: int| 0 <= j < start.entities.len() && !jpbo(start.entities[j].0) ==> #[trigger] ir@.entities[j] == start.entities[j],
            forall|j: int| start.entities.len() <= j < ir@.entities.len() ==> jpbo(#[trigger] ir@.entities[j].0),
            forall|j: int| 0 <= j < start.entities.len() ==> (#[trigger] ir@.entities[j]).0 == start.entities[j].0,
        decreases names.len() - k,
    {
        let nc = chars_of(names[k].as_str());
        if starts_with(nc.as_slice(), lp.as_slice()) {
            let x = names[k].clone();
            let ghost xv = x@;
            let ghost before = ir@;
            let rack = match rack_from_node_name(nc.as_slice()) {
                Some(r) => r,
                None => String::from_str("?"),
            };
            let mut meta = StrMap::new();
            meta.insert(String::from_str("rack"), rack);
            let ghost mv = meta@;
            let ent = Entity { id: Id(x.clone()), kind: EntityKind::Compute, meta };
            ir.add_entity(ent);
            let ghost after_e = ir@;
            ir.add_contains(sw.copy(), Id(x.clone()));
            let ghost after_c = ir@;
            ir.add_link(sw.copy(), Id(x), W_L1_NODE);
            proof {
                let ev: EntityView = (xv, EntityKind::Compute, mv);
                assert(after_e.entities == with_entity(before.entities, ev));
                assert(after_c.contains == with_child(after_e.contains, sw@, xv));
                // kinds
                lemma_kind_after_add(before.entities, ev, xv, EntityKind::Compute);
                assert(forall|j: int| 0 <= j < before.entities.len() && #[trigger] before.entities[j].0 == xv ==> before.entities[j].1 == EntityKind::Compute);
                assert(ir@.entities == after_e.entities);
                crate::ir::lemma_pos_props(before.entities, xv);
                assert forall|j: int| 0 <= j < ir@.entities.len() && jpbo(#[trigger] ir@.entities[j].0) implies ir@.entities[j].1 is Compute by {
                    match crate::ir::entity_pos(before.entities, xv) {
                        Some(p) => {
                            assert(ir@.entities == before.entities.update(p as int, ev));
                            if j != p {
                                assert(ir@.entities[j] == before.entities[j]);
                            }
                        },
                        None => {
                            assert(ir@.entities == before.entities.push(ev));
                            if j < before.entities.len() {
                                assert(ir@.entities[j] == before.entities[j]);
                            }
                        },
                    }
                }
                assert forall|x2: Seq<char>, kd: EntityKind| !jpbo(x2) && kind_is(start.entities, x2, kd) implies kind_is(ir@.entities, x2, kd) by {
                    assert(kind_is(before.entities, x2, kd));
                    lemma_kind_after_add(before.entities, ev, x2, kd);
                }
                // children and links
                assert forall|s2: Seq<char>, x2: Seq<char>| hosted(before, s2, x2) implies hosted(ir@, s2, x2) by {
                    lemma_children_after_add(after_e.contains, sw@, xv, s2);
                    assert(children_in(after_e.contains, s2) == before.children(s2));
                    if x2 != xv {
                        lemma_kind_after_add(before.entities, ev, x2, EntityKind::Compute);
                    }
                    assert(ir@.links == before.links.push((sw@, xv, W_L1_NODE)));
                    let li = choose|li: int| 0 <= li < before.links.len() && before.links[li] == (s2, x2, W_L1_NODE);
                    assert(ir@.links[li] == before.links[li]);
                    let ci = choose|ci: int| 0 <= ci < before.children(s2).len() && before.children(s2)[ci] == x2;
                    if s2 == sw@ {
                        assert(ir@.children(s2)[ci] == x2);
                    }
                }
                lemma_children_after_add(after_e.contains, sw@, xv, sw@);
                assert(ir@.children(sw@).last() == xv);
                assert(ir@.links.last() == (sw@, xv, W_L1_NODE));
                assert(hosted(ir@, sw@, xv));
                assert forall|l: crate::ir::LinkView| start.links.contains(l) implies ir@.links.contains(l) by {
                    let li = choose|li: int| 0 <= li < before.links.len() && before.links[li] == l;
                    assert(ir@.links[li] == l);
                }
                assert forall|l: crate::ir::LinkView| ir@.links.contains(l) implies start.links.contains(l) || (l.0 == sw@ && jpbo(l.1) && l.2 == W_L1_NODE) by {
                    let li = choose|li: int| 0 <= li < ir@.links.len() && ir@.links[li] == l;
                    if li < before.links.len() {
                        assert(before.links.contains(l));
                    }
                }
                assert(xv == names@[k as int]@);
                // everything stays accounted for
                assert(views(names@)[k as int] == xv);
                assert(listed(ls[li], "Nodes"@).contains(xv));
                assert(j_lists(ls, sw@, xv));
                lemma_keys_differ();
                assert(mv == jnode_meta(xv));
                assert(j_entity_ok(ls, ev));
                lemma_entities_with(ls, before.entities, ev);
                lemma_contains_with(ls, after_e.contains, sw@, xv);
                assert forall|l: crate::ir::LinkView| #[trigger] ir@.links.contains(l) implies j_link_ok(ls, intra, ir@.entities, l) by {
                    let t = choose|t: int| 0 <= t < ir@.links.len() && ir@.links[t] == l;
                    if t < before.links.len() {
                        assert(before.links[t] == l);
                        assert(before.links.contains(l));
                        lemma_link_kept(ls, intra, before.entities, ev, l);
                    }
                }
                assert forall|j: int| 0 <= j < start.entities.len() && !jpbo(start.entities[j].0) implies #[trigger] ir@.entities[j] == start.entities[j] by {
                    assert(before.entities[j] == start.entities[j]);
                    match crate::ir::entity_pos(before.entities, xv) {
                        Some(p) => {
                            if j == p as int {
                                assert(before.entities[j].0 == xv);
                            }
                        },
                        None => {},
                    }
                }
                assert forall|j: int| 0 <= j < start.entities.len() implies (#[trigger] ir@.entities[j]).0 == start.entities[j].0 by {
                    assert(before.entities[j].0 == start.entities[j].0);
                    match crate::ir::entity_pos(before.entities, xv) {
                        Some(p) => {
                            if j != p as int {
                                assert(ir@.entities[j] == before.entities[j]);
                            }
                        },
                        None => {
                            assert(ir@.entities[j] == before.entities[j]);
                        },
                    }
                }
                assert forall|j: int| start.entities.len() <= j < ir@.entities.len() implies jpbo(#[trigger] ir@.entities[j].0) by {
                    match crate::ir::entity_pos(before.entities, xv) {
                        Some(p) => {
                            if j != p as int {
                                assert(ir@.entities[j] == before.entities[j]);
                            }
                        },
                        None => {
                            if j < before.entities.len() {
                                assert(ir@.entities[j] == before.entities[j]);
                            }
                        },
                    }
                }
            }
        }
        k = k + 1;
    }
}


/// The names the node list under `key` on line `l` expands to (none if the
/// field is missing or does not expand).
pub open spec fn listed(l: Seq<char>, key: Seq<char>) -> Seq<Seq<char>> {
    match field_of(l, key) {
        Some(t) => match expand_nodelist_spec(t) {
            Ok(ns) => ns,
            Err(_) => Seq::empty(),
        },
        None => Seq::empty(),
    }
}

/// The node list under `key` on line `l`, if there is one, expands.
pub open spec fn expands(l: Seq<char>, key: Seq<char>) -> bool {
    field_of(l, key) matches Some(t) ==> expand_nodelist_spec(t) is Ok
}

/// A record of a switch that the parser registers.
pub open spec fn j_switch_line(l: Seq<char>) -> bool {
    switch_name(l) matches Some(n) && switch_info(n) is Some
}

/// A record whose switch name marks an L1 switch.
pub open spec fn j_l1_line(l: Seq<char>) -> bool {
    switch_name(l) matches Some(n) && contains_text(n, "-l1-"@)
}

/// A record whose switch name marks an L2 switch.
pub open spec fn j_l2_line(l: Seq<char>) -> bool {
    switch_name(l) matches Some(n) && contains_text(n, "-l2-"@)
}

/// `n` names an L1 switch.
pub open spec fn l1_name(n: Seq<char>) -> bool {
    switch_info(n) matches Some(v) && !v.0
}

/// Every group's member list, where it expands, names an L1 switch: the
/// group is named after the first of their racks.
pub open spec fn groups_named(ls: Seq<Seq<char>>) -> bool {
    forall|i: int|
        0 <= i < ls.len() && j_l2_line(#[trigger] ls[i]) && field_of(ls[i], "Switches"@) is Some && expands(ls[i], "Switches"@)
            ==> exists|k: int| 0 <= k < listed(ls[i], "Switches"@).len() && l1_name(#[trigger] listed(ls[i], "Switches"@)[k])
}

/// The member lists of L2 switches and the node lists of L1 switches all expand.
pub open spec fn jupiter_lists_ok(ls: Seq<Seq<char>>) -> bool {
    &&& forall|i: int| 0 <= i < ls.len() && j_l2_line(#[trigger] ls[i]) ==> expands(ls[i], "Switches"@)
    &&& forall|i: int| 0 <= i < ls.len() && j_l1_line(#[trigger] ls[i]) ==> expands(ls[i], "Nodes"@)
}

/// What the parser makes of the records `ls`: a well-formed topology with
/// each named L1/L2 switch at its level and each `jpbo-` node of an L1
/// switch's node list hosted under it.
pub open spec fn jupiter_base(ls: Seq<Seq<char>>, v: IRView) -> bool {
    &&& v.wf()
    &&& forall|i: int|
        0 <= i < ls.len() && j_switch_line(#[trigger] ls[i]) ==> kind_is(
            v.entities,
            switch_name(ls[i])->Some_0,
            jswitch_kind(switch_name(ls[i])->Some_0),
        )
    &&& forall|i: int, k: int|
        0 <= i < ls.len() && j_l1_line(#[trigger] ls[i]) && 0 <= k < listed(ls[i], "Nodes"@).len()
            && jpbo(#[trigger] listed(ls[i], "Nodes"@)[k]) ==> hosted(v, switch_name(ls[i])->Some_0, listed(ls[i], "Nodes"@)[k])
}

/// The rack part of a switch name.
pub open spec fn switch_rack(n: Seq<char>) -> Seq<char> {
    switch_info(n)->Some_0.1
}

/// The group that the L2 record `l` defines is `g`: `group-` and the least
/// rack among the L1 switches of its member list.
pub open spec fn group_of(l: Seq<char>, g: Seq<char>) -> bool {
    exists|k: int|
        0 <= k < listed(l, "Switches"@).len() && l1_name(#[trigger] listed(l, "Switches"@)[k]) && g == "group-"@
            + switch_rack(listed(l, "Switches"@)[k]) && forall|q: int|
            0 <= q < listed(l, "Switches"@).len() && l1_name(#[trigger] listed(l, "Switches"@)[q]) ==> !seq_lt(
                switch_rack(listed(l, "Switches"@)[q]),
                switch_rack(listed(l, "Switches"@)[k]),
            )
}

/// Switch `n` is in group `g`: some L2 record names it or lists it, and
/// defines the group `g`.
pub open spec fn cell_given(ls: Seq<Seq<char>>, n: Seq<char>, g: Seq<char>) -> bool {
    exists|i: int|
        0 <= i < ls.len() && j_l2_line(#[trigger] ls[i]) && (switch_name(ls[i]) == Some(n) || listed(
            ls[i],
            "Switches"@,
        ).contains(n)) && group_of(ls[i], g)
}

/// The metadata a switch name gives: rack and index of an L1 switch, the
/// index of an L2 switch.
pub open spec fn switch_meta_ok(n: Seq<char>, m: Map<Seq<char>, Seq<char>>) -> bool {
    let v = switch_info(n)->Some_0;
    if v.0 {
        m.contains_key("l2_index"@) && m["l2_index"@] == v.2
    } else {
        m.contains_key("rack"@) && m["rack"@] == v.1 && m.contains_key("l1_index"@) && m["l1_index"@] == v.2
    }
}

/// The metadata of a compute node: its rack, or `?`.
pub open spec fn jnode_meta(x: Seq<char>) -> Map<Seq<char>, Seq<char>> {
    Map::<Seq<char>, Seq<char>>::empty().insert(
        "rack"@,
        match node_rack(x) {
            Some(r) => r,
            None => "?"@,
        },
    )
}

/// `x` is a `jpbo-` node in the node list of a record of L1 switch `sw`.
pub open spec fn j_lists(ls: Seq<Seq<char>>, sw: Seq<char>, x: Seq<char>) -> bool {
    jpbo(x) && exists|i: int|
        0 <= i < ls.len() && j_l1_line(#[trigger] ls[i]) && switch_name(ls[i]) == Some(sw) && listed(
            ls[i],
            "Nodes"@,
        ).contains(x)
}

/// An entity the records account for: a named switch at its level with the
/// metadata of its name (and, if it has one, the group of an L2 record), or
/// a listed compute node with its rack.
pub open spec fn j_entity_ok(ls: Seq<Seq<char>>, e: EntityView) -> bool {
    ||| (exists|i: int| 0 <= i < ls.len() && #[trigger] switch_name(ls[i]) == Some(e.0)) && switch_info(e.0) is Some
        && e.1 == jswitch_kind(e.0) && switch_meta_ok(e.0, e.2) && (e.2.contains_key("cell"@) ==> cell_given(
        ls,
        e.0,
        e.2["cell"@],
    ))
    ||| e.1 == EntityKind::Compute && e.2 == jnode_meta(e.0) && exists|sw: Seq<char>| #[trigger] j_lists(ls, sw, e.0)
}

/// A link the records account for: an L1 switch to one of its listed nodes
/// at the node weight, or (when intra-group links are on) an L1 switch to an
/// L2 switch of its group at the L1-L2 weight.
pub open spec fn j_link_ok(ls: Seq<Seq<char>>, intra: bool, es: Seq<EntityView>, l: LinkView) -> bool {
    ||| l.2 == W_L1_NODE && j_lists(ls, l.0, l.1)
    ||| intra && l.2 == W_L1_L2 && contains_text(l.0, "-l1-"@) && exists|a: int, b: int|
        0 <= a < es.len() && 0 <= b < es.len() && (#[trigger] es[a]).0 == l.0 && (#[trigger] es[b]).0 == l.1
            && es[a].2.contains_key("cell"@) && l2_of_group(es[b], es[a].2["cell"@])
}

/// Everything in `v` is accounted for by the records `ls`: its entities, the
/// children of each parent, and its links.
pub open spec fn jupiter_sound(ls: Seq<Seq<char>>, intra: bool, v: IRView) -> bool {
    &&& forall|j: int| 0 <= j < v.entities.len() ==> j_entity_ok(ls, #[trigger] v.entities[j])
    &&& forall|kk: int, c: Seq<char>|
        0 <= kk < v.contains.len() && #[trigger] v.contains[kk].1.contains(c) ==> j_lists(ls, v.contains[kk].0, c)
    &&& forall|l: LinkView| #[trigger] v.links.contains(l) ==> j_link_ok(ls, intra, v.entities, l)
}

/// The metadata keys differ from one another.
proof fn lemma_keys_differ()
    ensures
        "cell"@ != "rack"@,
        "cell"@ != "l1_index"@,
        "cell"@ != "l2_index"@,
        "anchor_rack"@ != "rack"@,
        "anchor_rack"@ != "l1_index"@,
        "anchor_rack"@ != "l2_index"@,
        "anchor_rack"@ != "cell"@,
        "rack"@ != "l1_index"@,
        "rack"@ != "l2_index"@,
        "l1_index"@ != "l2_index"@,
{
    reveal_strlit("cell");
    reveal_strlit("rack");
    reveal_strlit("l1_index");
    reveal_strlit("l2_index");
    reveal_strlit("anchor_rack");
    assert("cell"@[0] != "rack"@[0]);
    assert("l1_index"@[1] != "l2_index"@[1]);
    assert("anchor_rack"@.len() != "rack"@.len());
    assert("anchor_rack"@.len() != "l1_index"@.len());
    assert("anchor_rack"@.len() != "cell"@.len());
    assert("rack"@.len() != "l1_index"@.len());
}

/// Adding an accounted-for entity keeps every entity accounted for.
proof fn lemma_entities_with(ls: Seq<Seq<char>>, es: Seq<EntityView>, ev: EntityView)
    requires
        forall|j: int| 0 <= j < es.len() ==> j_entity_ok(ls, #[trigger] es[j]),
        j_entity_ok(ls, ev),
    ensures
        forall|j: int| 0 <= j < with_entity(es, ev).len() ==> j_entity_ok(ls, #[trigger] with_entity(es, ev)[j]),
{
    crate::ir::lemma_pos_props(es, ev.0);
    assert forall|j: int| 0 <= j < with_entity(es, ev).len() implies j_entity_ok(ls, #[trigger] with_entity(es, ev)[j]) by {
        match crate::ir::entity_pos(es, ev.0) {
            Some(p) => {
                if j != p {
                    assert(with_entity(es, ev)[j] == es[j]);
                }
            },
            None => {
                if j < es.len() {
                    assert(with_entity(es, ev)[j] == es[j]);
                }
            },
        }
    }
}

/// Adding a compute node keeps every link accounted for.
proof fn lemma_link_kept(ls: Seq<Seq<char>>, intra: bool, es: Seq<EntityView>, ev: EntityView, l: LinkView)
    requires
        forall|j: int| 0 <= j < es.len() ==> j_entity_ok(ls, #[trigger] es[j]),
        jpbo_compute(es),
        jpbo(ev.0),
        ev.1 == EntityKind::Compute,
        !ev.2.contains_key("cell"@),
        j_link_ok(ls, intra, es, l),
    ensures
        j_link_ok(ls, intra, with_entity(es, ev), l),
{
    if !(l.2 == W_L1_NODE && j_lists(ls, l.0, l.1)) {
        let (a, b) = choose|a: int, b: int|
            0 <= a < es.len() && 0 <= b < es.len() && (#[trigger] es[a]).0 == l.0 && (#[trigger] es[b]).0 == l.1
                && es[a].2.contains_key("cell"@) && l2_of_group(es[b], es[a].2["cell"@]);
        crate::ir::lemma_pos_props(es, ev.0);
        lemma_keys_differ();
        match crate::ir::entity_pos(es, ev.0) {
            Some(p) => {
                let p = p as int;
                assert(es[p].1 is Compute);
                assert(j_entity_ok(ls, es[p]));
                assert(es[p].2 == jnode_meta(es[p].0));
                assert(a != p);
                assert(b != p);
                assert(with_entity(es, ev)[a] == es[a]);
                assert(with_entity(es, ev)[b] == es[b]);
            },
            None => {
                assert(with_entity(es, ev)[a] == es[a]);
                assert(with_entity(es, ev)[b] == es[b]);
            },
        }
    }
}

/// Adding a listed node under its switch keeps every child accounted for.
proof fn lemma_contains_with(ls: Seq<Seq<char>>, cs: Seq<crate::ir::ContainsView>, sw: Seq<char>, x: Seq<char>)
    requires
        forall|kk: int, c: Seq<char>| 0 <= kk < cs.len() && #[trigger] cs[kk].1.contains(c) ==> j_lists(ls, cs[kk].0, c),
        j_lists(ls, sw, x),
    ensures
        forall|kk: int, c: Seq<char>|
            0 <= kk < with_child(cs, sw, x).len() && #[trigger] with_child(cs, sw, x)[kk].1.contains(c) ==> j_lists(
                ls,
                with_child(cs, sw, x)[kk].0,
                c,
            ),
{
    crate::ir::lemma_ppos_props(cs, sw);
    assert forall|kk: int, c: Seq<char>|
        0 <= kk < with_child(cs, sw, x).len() && #[trigger] with_child(cs, sw, x)[kk].1.contains(c) implies j_lists(
            ls,
            with_child(cs, sw, x)[kk].0,
            c,
        ) by {
        let w = with_child(cs, sw, x);
        match crate::ir::parent_pos(cs, sw) {
            Some(p) => {
                if kk == p {
                    let t = choose|t: int| 0 <= t < w[kk].1.len() && w[kk].1[t] == c;
                    if t < cs[kk].1.len() {
                        assert(cs[kk].1[t] == c);
                        assert(cs[kk].1.contains(c));
                    }
                } else {
                    assert(w[kk] == cs[kk]);
                }
            },
            None => {
                if kk < cs.len() {
                    assert(w[kk] == cs[kk]);
                } else {
                    assert(w[kk] == (sw, seq![x]));
                }
            },
        }
    }
}

/// `es` with `key` set to `val` in the metadata of entity `x`, if present.
pub open spec fn with_meta(es: Seq<EntityView>, x: Seq<char>, key: Seq<char>, val: Seq<char>) -> Seq<EntityView> {
    match crate::ir::entity_pos(es, x) {
        Some(k) => es.update(k as int, (es[k as int].0, es[k as int].1, es[k as int].2.insert(key, val))),
        None => es,
    }
}

/// `es` with `key` removed from the metadata of entity `x`, if present.
pub open spec fn without_meta(es: Seq<EntityView>, x: Seq<char>, key: Seq<char>) -> Seq<EntityView> {
    match crate::ir::entity_pos(es, x) {
        Some(k) => es.update(k as int, (es[k as int].0, es[k as int].1, es[k as int].2.remove(key))),
        None => es,
    }
}

/// Every entity of `es` is an accounted-for switch.
pub open spec fn switches_ok(ls: Seq<Seq<char>>, es: Seq<EntityView>) -> bool {
    forall|j: int| 0 <= j < es.len() ==> switch_info(#[trigger] es[j].0) is Some && j_entity_ok(ls, es[j])
}

/// Setting the group an L2 record defines on a switch it names or lists
/// keeps every switch accounted for.
proof fn lemma_cell_set(ls: Seq<Seq<char>>, es: Seq<EntityView>, x: Seq<char>, g: Seq<char>, i: int)
    requires
        switches_ok(ls, es),
        0 <= i < ls.len(),
        j_l2_line(ls[i]),
        switch_name(ls[i]) == Some(x) || listed(ls[i], "Switches"@).contains(x),
        group_of(ls[i], g),
    ensures
        switches_ok(ls, with_meta(es, x, "cell"@, g)),
{
    crate::ir::lemma_pos_props(es, x);
    lemma_keys_differ();
    match crate::ir::entity_pos(es, x) {
        Some(p) => {
            let p = p as int;
            let e = es[p];
            assert(e.1 == jswitch_kind(e.0)) by {
                lemma_jpbi_not_jpbo(e.0);
                if !(e.1 == jswitch_kind(e.0)) {
                    let sw = choose|sw: Seq<char>| #[trigger] j_lists(ls, sw, e.0);
                }
            }
            let e2 = (e.0, e.1, e.2.insert("cell"@, g));
            assert(cell_given(ls, x, g));
            assert(j_entity_ok(ls, e2));
            assert forall|j: int| 0 <= j < with_meta(es, x, "cell"@, g).len() implies switch_info(
                #[trigger] with_meta(es, x, "cell"@, g)[j].0,
            ) is Some && j_entity_ok(ls, with_meta(es, x, "cell"@, g)[j]) by {
                if j != p {
                    assert(with_meta(es, x, "cell"@, g)[j] == es[j]);
                }
            }
        },
        None => {},
    }
}

/// Removing the anchor rack keeps every switch accounted for.
proof fn lemma_anchor_removed(ls: Seq<Seq<char>>, es: Seq<EntityView>, x: Seq<char>)
    requires
        switches_ok(ls, es),
    ensures
        switches_ok(ls, without_meta(es, x, "anchor_rack"@)),
{
    crate::ir::lemma_pos_props(es, x);
    lemma_keys_differ();
    match crate::ir::entity_pos(es, x) {
        Some(p) => {
            let p = p as int;
            let e = es[p];
            assert(e.1 == jswitch_kind(e.0)) by {
                lemma_jpbi_not_jpbo(e.0);
                if !(e.1 == jswitch_kind(e.0)) {
                    let sw = choose|sw: Seq<char>| #[trigger] j_lists(ls, sw, e.0);
                }
            }
            let e2 = (e.0, e.1, e.2.remove("anchor_rack"@));
            assert(j_entity_ok(ls, e2));
            assert forall|j: int| 0 <= j < without_meta(es, x, "anchor_rack"@).len() implies switch_info(
                #[trigger] without_meta(es, x, "anchor_rack"@)[j].0,
            ) is Some && j_entity_ok(ls, without_meta(es, x, "anchor_rack"@)[j]) by {
                if j != p {
                    assert(without_meta(es, x, "anchor_rack"@)[j] == es[j]);
                }
            }
        },
        None => {},
    }
}

/// The group of an L2 record is `group-` and the first of the sorted,
/// de-duplicated racks of its L1 members.
proof fn lemma_group_of(l: Seq<char>, racks: Seq<Seq<char>>, sorted: Seq<Seq<char>>)
    requires
        forall|t: int| 0 <= t < racks.len() ==> rack_among(listed(l, "Switches"@), #[trigger] racks[t]),
        forall|q: int|
            0 <= q < listed(l, "Switches"@).len() && l1_name(#[trigger] listed(l, "Switches"@)[q]) ==> racks.contains(
                switch_rack(listed(l, "Switches"@)[q]),
            ),
        crate::order::strictly_sorted(sorted),
        sorted.to_set() == racks.to_set(),
        sorted.len() > 0,
    ensures
        group_of(l, "group-"@ + sorted[0]),
{
    let ms = listed(l, "Switches"@);
    assert(sorted.to_set().contains(sorted[0]));
    assert(racks.to_set().contains(sorted[0]));
    let t = choose|t: int| 0 <= t < racks.len() && racks[t] == sorted[0];
    assert(rack_among(ms, racks[t]));
    let q0 = choose|q: int| #[trigger] member_rack(ms, q, racks[t]);
    assert forall|q: int| 0 <= q < ms.len() && l1_name(#[trigger] ms[q]) implies !seq_lt(switch_rack(ms[q]), switch_rack(ms[q0])) by {
        let r = switch_rack(ms[q]);
        assert(racks.contains(r));
        assert(racks.to_set().contains(r));
        assert(sorted.to_set().contains(r));
        let u = choose|u: int| 0 <= u < sorted.len() && sorted[u] == r;
        if u == 0 {
            crate::order::lemma_lt_irrefl(r);
        } else {
            assert(seq_lt(sorted[0], sorted[u]));
            crate::order::lemma_lt_asym(sorted[0], sorted[u]);
        }
    }
    assert(l1_name(ms[q0]));
}

/// The entity at `a` is an L1 switch with a group and the entity at `b`
/// an L2 switch of that group.
pub open spec fn l1_l2_pair(es: Seq<EntityView>, a: int, b: int) -> bool {
    0 <= a < es.len() && 0 <= b < es.len() && contains_text(es[a].0, "-l1-"@) && es[a].2.contains_key("cell"@)
        && l2_of_group(es[b], es[a].2["cell"@])
}

/// Every L1 switch with a group is linked to each L2 switch of its group
/// at the L1-L2 weight.
pub open spec fn l2_links_complete(v: IRView) -> bool {
    forall|a: int, b: int|
        #[trigger] l1_l2_pair(v.entities, a, b) ==> v.links.contains((v.entities[a].0, v.entities[b].0, W_L1_L2))
}

/// The L1 switch that record `i` names, if it has a group, is linked to each
/// L2 switch of its group.
pub open spec fn line_linked(ls: Seq<Seq<char>>, i: int, v: IRView) -> bool {
    forall|a: int, b: int|
        #[trigger] l1_l2_pair(v.entities, a, b) && switch_name(ls[i]) == Some(v.entities[a].0) ==> v.links.contains(
            (v.entities[a].0, v.entities[b].0, W_L1_L2),
        )
}

/// Adding compute nodes and links keeps a record's L1 switch linked.
proof fn lemma_line_linked_grow(ls: Seq<Seq<char>>, intra: bool, i: int, v1: IRView, v2: IRView)
    requires
        line_linked(ls, i, v1),
        jupiter_sound(ls, intra, v2),
        jpbo_compute(v2.entities),
        v2.entities.len() >= v1.entities.len(),
        forall|j: int| 0 <= j < v1.entities.len() && !jpbo(v1.entities[j].0) ==> #[trigger] v2.entities[j] == v1.entities[j],
        forall|j: int| 0 <= j < v1.entities.len() ==> (#[trigger] v2.entities[j]).0 == v1.entities[j].0,
        forall|j: int| v1.entities.len() <= j < v2.entities.len() ==> jpbo(#[trigger] v2.entities[j].0),
        forall|l: LinkView| v1.links.contains(l) ==> v2.links.contains(l),
    ensures
        line_linked(ls, i, v2),
{
    lemma_keys_differ();
    assert forall|a: int, b: int|
        #[trigger] l1_l2_pair(v2.entities, a, b) && switch_name(ls[i]) == Some(v2.entities[a].0) implies v2.links.contains(
            (v2.entities[a].0, v2.entities[b].0, W_L1_L2),
        ) by {
        let ea = v2.entities[a];
        let eb = v2.entities[b];
        assert(j_entity_ok(ls, ea));
        if jpbo(ea.0) {
            assert(ea.1 is Compute);
            assert(ea.2 == jnode_meta(ea.0));
        }
        assert(!jpbo(ea.0));
        if jpbo(eb.0) {
            assert(eb.1 is Compute);
        }
        assert(a < v1.entities.len());
        assert(b < v1.entities.len());
        assert(v1.entities[a].0 == ea.0);
        assert(v1.entities[b].0 == eb.0);
        assert(v2.entities[a] == v1.entities[a]);
        assert(v2.entities[b] == v1.entities[b]);
        assert(l1_l2_pair(v1.entities, a, b));
    }
}

/// When every record's L1 switch is linked to its group's L2 switches, all
/// L1 switches with a group are.
proof fn lemma_links_complete(ls: Seq<Seq<char>>, intra: bool, v: IRView)
    requires
        jupiter_sound(ls, intra, v),
        forall|j: int| 0 <= j < ls.len() ==> #[trigger] line_linked(ls, j, v),
    ensures
        l2_links_complete(v),
{
    lemma_keys_differ();
    assert forall|a: int, b: int| #[trigger] l1_l2_pair(v.entities, a, b) implies v.links.contains(
        (v.entities[a].0, v.entities[b].0, W_L1_L2),
    ) by {
        let ea = v.entities[a];
        assert(j_entity_ok(ls, ea));
        if ea.1 == EntityKind::Compute && ea.2 == jnode_meta(ea.0) {
            assert(!ea.2.contains_key("cell"@));
        }
        let i = choose|i: int| 0 <= i < ls.len() && #[trigger] switch_name(ls[i]) == Some(ea.0);
        assert(line_linked(ls, i, v));
    }
}

/// Adding links to a topology keeps every record's L1 switch linked.
proof fn lemma_line_linked_links(ls: Seq<Seq<char>>, i: int, v1: IRView, v2: IRView)
    requires
        line_linked(ls, i, v1),
        v1.entities == v2.entities,
        forall|l: LinkView| v1.links.contains(l) ==> v2.links.contains(l),
    ensures
        line_linked(ls, i, v2),
{
}

/// Record `l` sets the group of `n`: an L2 record with a member list that
/// names `n` as its switch or lists it as a member.
pub open spec fn sets_cell(l: Seq<char>, n: Seq<char>) -> bool {
    &&& j_l2_line(l)
    &&& field_of(l, "Switches"@) is Some
    &&& switch_name(l) == Some(n) || listed(l, "Switches"@).contains(n)
}

/// The last of the first `upto` records that sets the group of `n`.
pub open spec fn last_cell_line(ls: Seq<Seq<char>>, upto: int, n: Seq<char>) -> Option<int>
    decreases upto,
{
    if upto <= 0 {
        None
    } else if sets_cell(ls[upto - 1], n) {
        Some(upto - 1)
    } else {
        last_cell_line(ls, upto - 1, n)
    }
}

/// The group metadata of `e` after the first `upto` records: the group of
/// the last one that sets it, or none when none does.
pub open spec fn cell_after(ls: Seq<Seq<char>>, upto: int, e: EntityView) -> bool {
    match last_cell_line(ls, upto, e.0) {
        Some(i) => e.2.contains_key("cell"@) && group_of(ls[i], e.2["cell"@]),
        None => !e.2.contains_key("cell"@),
    }
}

/// Every switch of `v` has the group metadata that the records give it.
pub open spec fn cells_exact(ls: Seq<Seq<char>>, v: IRView) -> bool {
    forall|j: int|
        0 <= j < v.entities.len() && switch_info(v.entities[j].0) is Some ==> cell_after(
            ls,
            ls.len() as int,
            #[trigger] v.entities[j],
        )
}

/// With distinct ids, setting metadata of `x` changes only the entity `x`.
proof fn lemma_with_meta_at(es: Seq<EntityView>, x: Seq<char>, key: Seq<char>, val: Seq<char>)
    requires
        forall|a: int, b: int| 0 <= a < b < es.len() ==> es[a].0 != es[b].0,
    ensures
        with_meta(es, x, key, val).len() == es.len(),
        forall|j: int|
            0 <= j < es.len() ==> #[trigger] with_meta(es, x, key, val)[j] == if es[j].0 == x {
                (es[j].0, es[j].1, es[j].2.insert(key, val))
            } else {
                es[j]
            },
{
    crate::ir::lemma_pos_props(es, x);
    assert forall|j: int| 0 <= j < es.len() implies #[trigger] with_meta(es, x, key, val)[j] == if es[j].0 == x {
        (es[j].0, es[j].1, es[j].2.insert(key, val))
    } else {
        es[j]
    } by {
        match crate::ir::entity_pos(es, x) {
            Some(p) => {
                let p = p as int;
                if es[j].0 == x && j != p {
                    if j < p {
                        assert(es[j].0 != es[p].0);
                    } else {
                        assert(es[p].0 != es[j].0);
                    }
                }
            },
            None => {},
        }
    }
}

/// With distinct ids, removing metadata of `x` changes only the entity `x`.
proof fn lemma_without_meta_at(es: Seq<EntityView>, x: Seq<char>, key: Seq<char>)
    requires
        forall|a: int, b: int| 0 <= a < b < es.len() ==> es[a].0 != es[b].0,
    ensures
        without_meta(es, x, key).len() == es.len(),
        forall|j: int|
            0 <= j < es.len() ==> #[trigger] without_meta(es, x, key)[j] == if es[j].0 == x {
                (es[j].0, es[j].1, es[j].2.remove(key))
            } else {
                es[j]
            },
{
    crate::ir::lemma_pos_props(es, x);
    assert forall|j: int| 0 <= j < es.len() implies #[trigger] without_meta(es, x, key)[j] == if es[j].0 == x {
        (es[j].0, es[j].1, es[j].2.remove(key))
    } else {
        es[j]
    } by {
        match crate::ir::entity_pos(es, x) {
            Some(p) => {
                let p = p as int;
                if es[j].0 == x && j != p {
                    if j < p {
                        assert(es[j].0 != es[p].0);
                    } else {
                        assert(es[p].0 != es[j].0);
                    }
                }
            },
            None => {},
        }
    }
}

/// A record that sets no group leaves every group as it was.
proof fn lemma_cell_skip(ls: Seq<Seq<char>>, i: int, es: Seq<EntityView>)
    requires
        0 <= i < ls.len(),
        forall|x: Seq<char>| !sets_cell(ls[i], x),
        forall|j: int| 0 <= j < es.len() ==> cell_after(ls, i, #[trigger] es[j]),
    ensures
        forall|j: int| 0 <= j < es.len() ==> cell_after(ls, i + 1, #[trigger] es[j]),
{
    assert forall|j: int| 0 <= j < es.len() implies cell_after(ls, i + 1, #[trigger] es[j]) by {
        assert(!sets_cell(ls[i], es[j].0));
        assert(last_cell_line(ls, i + 1, es[j].0) == last_cell_line(ls, i, es[j].0));
    }
}

/// Links appended to a topology keep every node hosted.
proof fn lemma_hosted_grow(a: IRView, b: IRView)
    requires
        a.entities == b.entities,
        a.contains == b.contains,
        a.links.len() <= b.links.len(),
        forall|q: int| 0 <= q < a.links.len() ==> b.links[q] == a.links[q],
    ensures
        forall|s: Seq<char>, x: Seq<char>| hosted(a, s, x) ==> hosted(b, s, x),
{
    assert forall|s: Seq<char>, x: Seq<char>| hosted(a, s, x) implies hosted(b, s, x) by {
        let q = choose|q: int| 0 <= q < a.links.len() && a.links[q] == (s, x, W_L1_NODE);
        assert(b.links[q] == a.links[q]);
    }
}

/// An L2 switch recorded in group `cell`.
pub open spec fn l2_of_group(e: EntityView, cell: Seq<char>) -> bool {
    e.1 == (EntityKind::Switch { level: Some(1) }) && e.2.contains_key("cell"@) && e.2["cell"@] == cell
}

/// `e` is the L2 switch `x` of group `cell`.
pub open spec fn l2_named(e: EntityView, x: Seq<char>, cell: Seq<char>) -> bool {
    e.0 == x && l2_of_group(e, cell)
}

/// Some entity of `es` is the L2 switch `x` of group `cell`.
pub open spec fn l2_listed(es: Seq<EntityView>, x: Seq<char>, cell: Seq<char>) -> bool {
    exists|b: int| 0 <= b < es.len() && #[trigger] l2_named(es[b], x, cell)
}

/// Some L1 switch among `ms` is of rack `r`.
pub open spec fn rack_among(ms: Seq<Seq<char>>, r: Seq<char>) -> bool {
    exists|q: int| #[trigger] member_rack(ms, q, r)
}

/// The `q`-th of `ms` names an L1 switch of rack `r`.
pub open spec fn member_rack(ms: Seq<Seq<char>>, q: int, r: Seq<char>) -> bool {
    0 <= q < ms.len() && l1_name(ms[q]) && r == switch_rack(ms[q])
}

/// The ids of the L2 switches recorded in group `cell`, in order.
fn l2_in_group(ir: &TopologyIR, cell: &String) -> (r: Vec<Id>)
    ensures
        id_views(r@) == ir@.entities.filter(|e: EntityView| l2_of_group(e, cell@)).map_values(|e: EntityView| e.0),
        forall|q: int| 0 <= q < r@.len() ==> l2_listed(ir@.entities, (#[trigger] r@[q])@, cell@),
        forall|b: int|
            0 <= b < ir@.entities.len() && l2_of_group(#[trigger] ir@.entities[b], cell@) ==> id_views(r@).contains(
                ir@.entities[b].0,
            ),
{
    let ghost es = ir@.entities;
    let ghost pred = |e: EntityView| l2_of_group(e, cell@);
    let mut out: Vec<Id> = Vec::new();
    let mut i: usize = 0;
    assert(es.take(0).filter(pred) =~= Seq::<EntityView>::empty()) by {
        reveal(Seq::filter);
    }
    while i < ir.entities.len()
        invariant
            es == ir@.entities,
            pred == (|e: EntityView| l2_of_group(e, cell@)),
            i <= es.len(),
            id_views(out@) == es.take(i as int).filter(pred).map_values(|e: EntityView| e.0),
            forall|q: int| 0 <= q < out@.len() ==> l2_listed(es, (#[trigger] out@[q])@, cell@),
            forall|b: int| 0 <= b < i && l2_of_group(#[trigger] es[b], cell@) ==> id_views(out@).contains(es[b].0),
        decreases ir.entities.len() - i,
    {
        proof {
            assert(es.take(i + 1) == es.take(i as int).push(es[i as int]));
            es.take(i as int).lemma_filter_push(es[i as int], pred);
        }
        let ghost before = out@;
        let mut hit = false;
        if ir.entities[i].kind == (EntityKind::Switch { level: Some(1) }) {
            match ir.entities[i].meta.get("cell") {
                Some(c) => {
                    if *c == *cell {
                        hit = true;
                    }
                },
                None => {},
            }
        }
        assert(hit == pred(es[i as int]));
        if hit {
            out.push(ir.entities[i].id.copy());
            assert(id_views(out@) =~= id_views(before).push(es[i as int].0));
            assert forall|q: int| 0 <= q < out@.len() implies l2_listed(es, (#[trigger] out@[q])@, cell@) by {
                if q < before.len() {
                    assert(out@[q] == before[q]);
                } else {
                    assert(out@[q]@ == es[i as int].0);
                    assert(l2_named(es[i as int], out@[q]@, cell@));
                }
            }
            assert forall|b: int| 0 <= b < i + 1 && l2_of_group(#[trigger] es[b], cell@) implies id_views(out@).contains(es[b].0) by {
                if b < i {
                    let t = choose|t: int| 0 <= t < id_views(before).len() && id_views(before)[t] == es[b].0;
                    assert(id_views(out@)[t] == id_views(before)[t]);
                } else {
                    assert(id_views(out@)[before.len() as int] == es[b].0);
                }
            }
            assert(es.take(i + 1).filter(pred).map_values(|e: EntityView| e.0) =~= es.take(i as int).filter(
                pred,
            ).map_values(|e: EntityView| e.0).push(es[i as int].0));
        } else {
            assert(id_views(out@) == id_views(before));
        }
        i = i + 1;
    }
    assert(es.take(i as int) =~= es);
    out
}

/// The rack of an L1 switch name, if it is one.
fn l1_rack(name: &[char]) -> (r: Option<String>)
    ensures
        r is Some <==> l1_name(name@),
        r matches Some(s) ==> s@ == switch_rack(name@),
{
    match parse_switch_name(name) {
        Some(SwitchInfo::L1 { rack, index: _ }) => Some(rack),
        _ => None,
    }
}

/// Whether every group's member list, where it expands, names an L1
/// switch (the inputs `parse_topology_raw` takes).
pub fn groups_named_in(raw: &str) -> (b: bool)
    ensures
        b == groups_named(merged_lines(raw@)),
{
    let lines = merge_continuation_lines(raw);
    let ghost ls = merged_lines(raw@);
    let mut i: usize = 0;
    while i < lines.len()
        invariant
            views(lines@) == ls,
            ls == merged_lines(raw@),
            i <= ls.len(),
            forall|j: int|
                0 <= j < i && j_l2_line(#[trigger] ls[j]) && field_of(ls[j], "Switches"@) is Some && expands(ls[j], "Switches"@)
                    ==> exists|k: int| 0 <= k < listed(ls[j], "Switches"@).len() && l1_name(#[trigger] listed(ls[j], "Switches"@)[k]),
        decreases lines.len() - i,
    {
        let f = parse_line(lines[i].as_str());
        assert(f@ == fields_of(words(ls[i as int])));
        match f.get("SwitchName") {
            Some(name) => {
                let nc = chars_of(name.as_str());
                assert(switch_name(ls[i as int]) == Some(name@));
                if is_l2_switch(nc.as_slice()) {
                    match f.get("Switches") {
                        Some(sw) => {
                            assert(field_of(ls[i as int], "Switches"@) == Some(sw@));
                            match expand_nodelist(sw.as_str()) {
                                Ok(members) => {
                                    assert(views(members@) == listed(ls[i as int], "Switches"@));
                                    let mut found = false;
                                    let mut k: usize = 0;
                                    while k < members.len()
                                        invariant
                                            k <= members@.len(),
                                            found <==> exists|q: int| 0 <= q < k && l1_name(#[trigger] views(members@)[q]),
                                        decreases members.len() - k,
                                    {
                                        let mc = chars_of(members[k].as_str());
                                        if l1_rack(mc.as_slice()).is_some() {
                                            assert(l1_name(views(members@)[k as int]));
                                            found = true;
                                        }
                                        k = k + 1;
                                    }
                                    if !found {
                                        assert(j_l2_line(ls[i as int]));
                                        return false;
                                    }
                                },
                                Err(_) => {},
                            }
                        },
                        None => {},
                    }
                }
            },
            None => {},
        }
        i = i + 1;
    }
    true
}

impl JupiterParser {
    /// Parse `scontrol show topology` output into a base topology: the L1
    /// and L2 switches named in the records (with rack and index metadata),
    /// group ("cell") metadata from each L2 switch's member list, and under
    /// each L1 switch its `jpbo-` compute nodes (with their rack), contained
    /// and linked, plus links to the L2 switches of its group when asked
    /// for.  Fails with the first node list that does not expand.
    #[verifier::spinoff_prover]
    #[verifier::rlimit(80)]
    pub fn parse_topology_raw(&self, raw: &str) -> (r: Result<TopologyIR, NodeListParseError>)
        requires
            groups_named(merged_lines(raw@)),
        ensures
            r is Ok <==> jupiter_lists_ok(merged_lines(raw@)),
            r matches Err(e) ==> first_error(
                merged_lines(raw@),
                |l: Seq<char>| j_l2_line(l),
                "Switches"@,
                |l: Seq<char>| j_l1_line(l),
                "Nodes"@,
                e.msg@,
            ),
            r matches Ok(ir) ==> jupiter_base(merged_lines(raw@), ir@),
            r matches Ok(ir) ==> jupiter_sound(merged_lines(raw@), self.options.intra_group_links, ir@),
            r matches Ok(ir) ==> (self.options.intra_group_links ==> l2_links_complete(ir@)),
            r matches Ok(ir) ==> cells_exact(merged_lines(raw@), ir@),
    {
        let lines = merge_continuation_lines(raw);
        let ghost ls = merged_lines(raw@);
        let mut ir = TopologyIR::new();
        // Pass 1: the L1 and L2 switches.
        let mut i: usize = 0;
        while i < lines.len()
            invariant
                views(lines@) == ls,
                ls == merged_lines(raw@),
                i <= ls.len(),
                ir@.wf(),
                forall|j: int| 0 <= j < i && j_switch_line(#[trigger] ls[j]) ==> kind_is(ir@.entities, switch_name(ls[j])->Some_0, jswitch_kind(switch_name(ls[j])->Some_0)),
                forall|j: int| 0 <= j < ir@.entities.len() ==> switch_info(#[trigger] ir@.entities[j].0) is Some && ir@.entities[j].1 == jswitch_kind(ir@.entities[j].0),
                ir@.links.len() == 0,
                ir@.contains.len() == 0,
                forall|j: int| 0 <= j < ir@.entities.len() ==> j_entity_ok(ls, #[trigger] ir@.entities[j]),
                forall|j: int| 0 <= j < ir@.entities.len() ==> !(#[trigger] ir@.entities[j]).2.contains_key("cell"@),
            decreases lines.len() - i,
        {
            let f = parse_line(lines[i].as_str());
            assert(f@ == fields_of(words(ls[i as int])));
            match f.get("SwitchName") {
                Some(n) => {
                    let nc = chars_of(n.as_str());
                    assert(switch_name(ls[i as int]) == Some(n@));
                    if !is_head_switch(nc.as_slice()) {
                        let ghost before = ir@.entities;
                        let ghost mut ev: EntityView = (n@, jswitch_kind(n@), Map::empty());
                        let mut added = false;
                        match parse_switch_name(nc.as_slice()) {
                            Some(SwitchInfo::L1 { rack, index }) => {
                                let mut meta = StrMap::new();
                                meta.insert(String::from_str("rack"), rack);
                                meta.insert(String::from_str("l1_index"), index);
                                let ent = Entity { id: Id(n.clone()), kind: EntityKind::Switch { level: Some(0) }, meta };
                                proof {
                                    ev = ent@;
                                    lemma_keys_differ();
                                    assert(switch_meta_ok(n@, ev.2));
                                    assert(!ev.2.contains_key("cell"@));
                                    assert(j_entity_ok(ls, ev));
                                }
                                ir.add_entity(ent);
                                added = true;
                            },
                            Some(SwitchInfo::L2 { anchor_rack, index }) => {
                                let mut meta = StrMap::new();
                                meta.insert(String::from_str("anchor_rack"), anchor_rack);
                                meta.insert(String::from_str("l2_index"), index);
                                let ent = Entity { id: Id(n.clone()), kind: EntityKind::Switch { level: Some(1) }, meta };
                                proof {
                                    ev = ent@;
                                    lemma_keys_differ();
                                    assert(switch_meta_ok(n@, ev.2));
                                    assert(!ev.2.contains_key("cell"@));
                                    assert(j_entity_ok(ls, ev));
                                }
                                ir.add_entity(ent);
                                added = true;
                            },
                            None => {},
                        }
                        proof {
                            if added {
                                lemma_entities_with(ls, before, ev);
                                assert forall|j: int| 0 <= j < ir@.entities.len() implies !(#[trigger] ir@.entities[j]).2.contains_key("cell"@) by {
                                    crate::ir::lemma_pos_props(before, n@);
                                    match crate::ir::entity_pos(before, n@) {
                                        Some(p) => {
                                            if j != p {
                                                assert(ir@.entities[j] == before[j]);
                                            }
                                        },
                                        None => {
                                            if j < before.len() {
                                                assert(ir@.entities[j] == before[j]);
                                            }
                                        },
                                    }
                                }
                                crate::ir::lemma_pos_props(before, n@);
                                assert(ir@.entities == with_entity(before, ev));
                                assert(ev.1 == jswitch_kind(n@));
                                lemma_kind_after_add(before, ev, n@, jswitch_kind(n@));
                                assert forall|j: int| 0 <= j < i + 1 && j_switch_line(#[trigger] ls[j]) implies kind_is(ir@.entities, switch_name(ls[j])->Some_0, jswitch_kind(switch_name(ls[j])->Some_0)) by {
                                    if j < i {
                                        lemma_kind_after_add(before, ev, switch_name(ls[j])->Some_0, jswitch_kind(switch_name(ls[j])->Some_0));
                                    }
                                }
                                assert forall|j: int| 0 <= j < ir@.entities.len() implies switch_info(#[trigger] ir@.entities[j].0) is Some && ir@.entities[j].1 == jswitch_kind(ir@.entities[j].0) by {
                                    match crate::ir::entity_pos(before, n@) {
                                        Some(p) => {
                                            if j != p {
                                                assert(ir@.entities[j] == before[j]);
                                            }
                                        },
                                        None => {
                                            if j < before.len() {
                                                assert(ir@.entities[j] == before[j]);
                                            }
                                        },
                                    }
                                }
                            } else {
                                assert(!j_switch_line(ls[i as int]));
                            }
                        }
                    } else {
                        proof {
                            reveal_strlit("HeadSwitch");
                            reveal_strlit("jpbi-");
                            assert(n@[0] == 'H');
                            assert("jpbi-"@[0] == 'j');
                            assert(!has_prefix(n@, "jpbi-"@)) by {
                                if has_prefix(n@, "jpbi-"@) {
                                    assert(n@.take(5)[0] == n@[0]);
                                }
                            }
                            assert(!j_switch_line(ls[i as int]));
                        }
                    }
                },
                None => {},
            }
            i = i + 1;
        }
        // Pass 2: the group ("cell") of each L2 switch and its members.
        let mut i2: usize = 0;
        while i2 < lines.len()
            invariant
                views(lines@) == ls,
                ls == merged_lines(raw@),
                i2 <= ls.len(),
                ir@.wf(),
                groups_named(ls),
                forall|j: int| 0 <= j < ls.len() && j_switch_line(#[trigger] ls[j]) ==> kind_is(ir@.entities, switch_name(ls[j])->Some_0, jswitch_kind(switch_name(ls[j])->Some_0)),
                forall|j: int| 0 <= j < ir@.entities.len() ==> switch_info(#[trigger] ir@.entities[j].0) is Some,
                forall|j: int| 0 <= j < i2 && j_l2_line(#[trigger] ls[j]) ==> expands(ls[j], "Switches"@),
                ir@.links.len() == 0,
                ir@.contains.len() == 0,
                switches_ok(ls, ir@.entities),
                forall|j: int| 0 <= j < ir@.entities.len() ==> cell_after(ls, i2 as int, #[trigger] ir@.entities[j]),
            decreases lines.len() - i2,
        {
            let f = parse_line(lines[i2].as_str());
            assert(f@ == fields_of(words(ls[i2 as int])));
            match f.get("SwitchName") {
                Some(name) => {
                    let nc = chars_of(name.as_str());
                    assert(switch_name(ls[i2 as int]) == Some(name@));
                    if is_l2_switch(nc.as_slice()) {
                        match f.get("Switches") {
                            Some(sw) => {
                                assert(field_of(ls[i2 as int], "Switches"@) == Some(sw@));
                                let members = match expand_nodelist(sw.as_str()) {
                                    Ok(v) => v,
                                    Err(e) => {
                                        assert(expand_error(ls[i2 as int], "Switches"@) == Some(e.msg@));
                                        assert(!jupiter_lists_ok(ls));
                                        assert(forall|j: int| 0 <= j < i2 && j_l2_line(ls[j]) ==> (#[trigger] expand_error(ls[j], "Switches"@)) is None);
                                        assert(first_error(ls, |l: Seq<char>| j_l2_line(l), "Switches"@, |l: Seq<char>| j_l1_line(l), "Nodes"@, e.msg@));
                                        return Err(e);
                                    },
                                };
                                assert(views(members@) == listed(ls[i2 as int], "Switches"@));
                                let mut racks: Vec<String> = Vec::new();
                                let ghost ms = listed(ls[i2 as int], "Switches"@);
                                let mut k: usize = 0;
                                while k < members.len()
                                    invariant
                                        k <= members@.len(),
                                        ms == views(members@),
                                        (exists|q: int| 0 <= q < k && l1_name(#[trigger] views(members@)[q])) ==> racks@.len() > 0,
                                        forall|t: int| 0 <= t < racks@.len() ==> rack_among(ms, #[trigger] views(racks@)[t]),
                                        forall|q: int| 0 <= q < k && l1_name(#[trigger] ms[q]) ==> views(racks@).contains(switch_rack(ms[q])),
                                    decreases members.len() - k,
                                {
                                    let mc = chars_of(members[k].as_str());
                                    match l1_rack(mc.as_slice()) {
                                        Some(r) => {
                                            let ghost r0 = views(racks@);
                                            racks.push(r);
                                            proof {
                                                assert(views(racks@) == r0.push(switch_rack(ms[k as int])));
                                                assert(l1_name(ms[k as int]));
                                                assert forall|t: int| 0 <= t < racks@.len() implies rack_among(ms, #[trigger] views(racks@)[t]) by {
                                                    if t < r0.len() {
                                                        assert(views(racks@)[t] == r0[t]);
                                                    } else {
                                                        assert(views(racks@)[t] == switch_rack(ms[k as int]));
                                                        assert(member_rack(ms, k as int, views(racks@)[t]));
                                                    }
                                                }
                                                assert forall|q: int| 0 <= q < k + 1 && l1_name(#[trigger] ms[q]) implies views(racks@).contains(switch_rack(ms[q])) by {
                                                    if q < k {
                                                        let t = choose|t: int| 0 <= t < r0.len() && r0[t] == switch_rack(ms[q]);
                                                        assert(views(racks@)[t] == r0[t]);
                                                    } else {
                                                        assert(views(racks@)[r0.len() as int] == switch_rack(ms[q]));
                                                    }
                                                }
                                            }
                                        },
                                        None => {
                                            assert(!l1_name(views(members@)[k as int]));
                                        },
                                    }
                                    k = k + 1;
                                }
                                proof {
                                    assert(groups_named(ls));
                                    assert(j_l2_line(ls[i2 as int]));
                                    let kk = choose|kk: int| 0 <= kk < listed(ls[i2 as int], "Switches"@).len() && l1_name(#[trigger] listed(ls[i2 as int], "Switches"@)[kk]);
                                    assert(l1_name(views(members@)[kk]));
                                }
                                let sorted = crate::order::sorted_unique(&racks);
                                proof {
                                    assert(racks@.len() > 0);
                                    assert(views(racks@)[0] == racks@[0]@);
                                    assert(views(racks@).contains(racks@[0]@));
                                    assert(views(racks@).to_set().contains(racks@[0]@));
                                    assert(views(sorted@).to_set().contains(racks@[0]@));
                                }
                                let mut gid = chars_of("group-");
                                let first = chars_of(sorted[0].as_str());
                                extend_chars(&mut gid, first.as_slice());
                                let group_id = string_of(gid.as_slice());
                                proof {
                                    lemma_group_of(ls[i2 as int], views(racks@), views(sorted@));
                                    assert(group_id@ == "group-"@ + views(sorted@)[0]);
                                }
                                let ghost before = ir@;
                                let name_id = Id(name.clone());
                                ir.set_meta(&name_id, "cell", group_id.clone());
                                proof {
                                    assert(ir@.entities == with_meta(before.entities, name@, "cell"@, group_id@));
                                    lemma_cell_set(ls, before.entities, name@, group_id@, i2 as int);
                                }
                                let ghost mid = ir@;
                                ir.remove_meta(&name_id, "anchor_rack");
                                proof {
                                    assert(ir@.entities == without_meta(mid.entities, name@, "anchor_rack"@));
                                    lemma_anchor_removed(ls, mid.entities, name@);
                                    lemma_with_meta_at(before.entities, name@, "cell"@, group_id@);
                                    lemma_without_meta_at(mid.entities, name@, "anchor_rack"@);
                                    lemma_keys_differ();
                                    assert(ms.take(0) =~= Seq::<Seq<char>>::empty());
                                }
                                let mut m: usize = 0;
                                while m < members.len()
                                    invariant
                                        m <= members@.len(),
                                        ir@.wf(),
                                        switches_ok(ls, ir@.entities),
                                        0 <= i2 < ls.len(),
                                        j_l2_line(ls[i2 as int]),
                                        group_of(ls[i2 as int], group_id@),
                                        ms == views(members@),
                                        ms == listed(ls[i2 as int], "Switches"@),
                                        same_shape(before.entities, ir@.entities),
                                        before.entities.len() == ir@.entities.len(),
                                        ir@.links == before.links,
                                        ir@.contains == before.contains,
                                        forall|j: int| 0 <= j < ir@.entities.len() ==> (#[trigger] ir@.entities[j]).0 == before.entities[j].0,
                                        forall|j: int|
                                            0 <= j < ir@.entities.len() && ((#[trigger] ir@.entities[j]).0 == name@ || ms.take(m as int).contains(
                                                ir@.entities[j].0,
                                            )) ==> ir@.entities[j].2.contains_key("cell"@) && ir@.entities[j].2["cell"@] == group_id@,
                                        forall|j: int|
                                            0 <= j < ir@.entities.len() && !((#[trigger] ir@.entities[j]).0 == name@ || ms.take(m as int).contains(
                                                ir@.entities[j].0,
                                            )) ==> (ir@.entities[j].2.contains_key("cell"@) == before.entities[j].2.contains_key("cell"@))
                                                && ir@.entities[j].2["cell"@] == before.entities[j].2["cell"@],
                                    decreases members.len() - m,
                                {
                                    let ghost e0 = ir@.entities;
                                    ir.set_meta(&Id(members[m].clone()), "cell", group_id.clone());
                                    proof {
                                        assert(ms[m as int] == members@[m as int]@);
                                        assert(ms.contains(members@[m as int]@));
                                        assert(ir@.entities == with_meta(e0, members@[m as int]@, "cell"@, group_id@));
                                        lemma_cell_set(ls, e0, members@[m as int]@, group_id@, i2 as int);
                                        crate::ir::lemma_same_shape_trans(before.entities, e0, ir@.entities);
                                        lemma_with_meta_at(e0, members@[m as int]@, "cell"@, group_id@);
                                        assert(ms.take(m + 1) =~= ms.take(m as int).push(ms[m as int]));
                                        assert forall|j: int|
                                            0 <= j < ir@.entities.len() && !((#[trigger] ir@.entities[j]).0 == name@ || ms.take(m + 1).contains(
                                                ir@.entities[j].0,
                                            )) implies (ir@.entities[j].2.contains_key("cell"@) == before.entities[j].2.contains_key("cell"@))
                                                && ir@.entities[j].2["cell"@] == before.entities[j].2["cell"@] by {
                                            assert(ms.take(m + 1)[m as int] == members@[m as int]@);
                                            assert(ir@.entities[j].0 != members@[m as int]@);
                                            assert(ir@.entities[j] == e0[j]);
                                            if ms.take(m as int).contains(e0[j].0) {
                                                let q = choose|q: int| 0 <= q < ms.take(m as int).len() && #[trigger] ms.take(m as int)[q] == e0[j].0;
                                                assert(ms.take(m + 1)[q] == e0[j].0);
                                            }
                                        }
                                        assert forall|j: int|
                                            0 <= j < ir@.entities.len() && ((#[trigger] ir@.entities[j]).0 == name@ || ms.take(m + 1).contains(
                                                ir@.entities[j].0,
                                            )) implies ir@.entities[j].2.contains_key("cell"@) && ir@.entities[j].2["cell"@] == group_id@ by {
                                            if ir@.entities[j].0 != members@[m as int]@ {
                                                assert(ir@.entities[j] == e0[j]);
                                                if ir@.entities[j].0 != name@ {
                                                    let q = choose|q: int| 0 <= q < ms.take(m + 1).len() && #[trigger] ms.take(m + 1)[q] == e0[j].0;
                                                    assert(q != m);
                                                    assert(ms.take(m as int)[q] == e0[j].0);
                                                }
                                            }
                                        }
                                    }
                                    m = m + 1;
                                }
                                proof {
                                    assert forall|j: int| 0 <= j < ls.len() && j_switch_line(#[trigger] ls[j]) implies kind_is(ir@.entities, switch_name(ls[j])->Some_0, jswitch_kind(switch_name(ls[j])->Some_0)) by {
                                        lemma_kind_same_shape(before.entities, ir@.entities, switch_name(ls[j])->Some_0, jswitch_kind(switch_name(ls[j])->Some_0));
                                    }
                                    assert forall|j: int| 0 <= j < ir@.entities.len() implies switch_info(#[trigger] ir@.entities[j].0) is Some by {
                                        assert(before.entities[j].0 == ir@.entities[j].0);
                                    }
                                    assert(ms.take(ms.len() as int) =~= ms);
                                    assert forall|j: int| 0 <= j < ir@.entities.len() implies cell_after(ls, i2 + 1, #[trigger] ir@.entities[j]) by {
                                        let x = ir@.entities[j].0;
                                        assert(before.entities[j].0 == x);
                                        assert(cell_after(ls, i2 as int, before.entities[j]));
                                        if sets_cell(ls[i2 as int], x) {
                                            assert(last_cell_line(ls, i2 + 1, x) == Some(i2 as int));
                                        } else {
                                            assert(last_cell_line(ls, i2 + 1, x) == last_cell_line(ls, i2 as int, x));
                                        }
                                    }
                                }
                            },
                            None => {
                                proof {
                                    assert(field_of(ls[i2 as int], "Switches"@) is None);
                                    lemma_cell_skip(ls, i2 as int, ir@.entities);
                                }
                            },
                        }
                    } else {
                        proof {
                            assert(!j_l2_line(ls[i2 as int]));
                            lemma_cell_skip(ls, i2 as int, ir@.entities);
                        }
                    }
                },
                None => {
                    proof {
                        assert(switch_name(ls[i2 as int]) is None);
                        lemma_cell_skip(ls, i2 as int, ir@.entities);
                    }
                },
            }
            i2 = i2 + 1;
        }
        proof {
            assert forall|j: int| 0 <= j < ir@.entities.len() && jpbo(#[trigger] ir@.entities[j].0) implies ir@.entities[j].1 is Compute by {
                lemma_jpbi_not_jpbo(ir@.entities[j].0);
            }
            assert(jupiter_sound(ls, self.options.intra_group_links, ir@));
            assert(cells_exact(ls, ir@));
        }
        // Pass 3: compute nodes under L1 switches, and links to the group's L2 switches.
        let mut i3: usize = 0;
        while i3 < lines.len()
            invariant
                views(lines@) == ls,
                ls == merged_lines(raw@),
                i3 <= ls.len(),
                ir@.wf(),
                jpbo_compute(ir@.entities),
                forall|j: int| 0 <= j < ls.len() && j_l2_line(#[trigger] ls[j]) ==> expands(ls[j], "Switches"@),
                forall|j: int| 0 <= j < ls.len() && j_switch_line(#[trigger] ls[j]) ==> kind_is(ir@.entities, switch_name(ls[j])->Some_0, jswitch_kind(switch_name(ls[j])->Some_0)),
                forall|j: int| 0 <= j < i3 && j_l1_line(#[trigger] ls[j]) ==> expands(ls[j], "Nodes"@),
                forall|j: int, k: int|
                    0 <= j < i3 && j_l1_line(#[trigger] ls[j]) && 0 <= k < listed(ls[j], "Nodes"@).len() && jpbo(#[trigger] listed(ls[j], "Nodes"@)[k])
                        ==> hosted(ir@, switch_name(ls[j])->Some_0, listed(ls[j], "Nodes"@)[k]),
                jupiter_sound(ls, self.options.intra_group_links, ir@),
                self.options.intra_group_links ==> forall|j: int| 0 <= j < i3 ==> #[trigger] line_linked(ls, j, ir@),
                cells_exact(ls, ir@),
            decreases lines.len() - i3,
        {
            let f = parse_line(lines[i3].as_str());
            assert(f@ == fields_of(words(ls[i3 as int])));
            let ghost li = ls[i3 as int];
            match f.get("SwitchName") {
                Some(n) => {
                    let nc = chars_of(n.as_str());
                    assert(switch_name(li) == Some(n@));
                    if is_l1_switch(nc.as_slice()) {
                        assert(j_l1_line(li));
                        let sw_id = Id(n.clone());
                        match f.get("Nodes") {
                            Some(ns) => {
                                assert(field_of(li, "Nodes"@) == Some(ns@));
                                let names = match expand_nodelist(ns.as_str()) {
                                    Ok(v) => v,
                                    Err(e) => {
                                        assert(expand_error(li, "Nodes"@) == Some(e.msg@));
                                        assert(!jupiter_lists_ok(ls));
                                        assert(forall|j: int| 0 <= j < ls.len() && j_l2_line(ls[j]) ==> (#[trigger] expand_error(ls[j], "Switches"@)) is None);
                                        assert(forall|j: int| 0 <= j < i3 && j_l1_line(ls[j]) ==> (#[trigger] expand_error(ls[j], "Nodes"@)) is None);
                                        assert(first_error(ls, |l: Seq<char>| j_l2_line(l), "Switches"@, |l: Seq<char>| j_l1_line(l), "Nodes"@, e.msg@));
                                        return Err(e);
                                    },
                                };
                                let ghost before = ir@;
                                assert(listed(li, "Nodes"@) == views(names@));
                                attach_jpbo(&mut ir, &sw_id, &names, Ghost(ls), Ghost(i3 as int), Ghost(self.options.intra_group_links));
                                proof {
                                    assert forall|j: int, k: int|
                                        0 <= j <= i3 && j_l1_line(#[trigger] ls[j]) && 0 <= k < listed(ls[j], "Nodes"@).len() && jpbo(#[trigger] listed(ls[j], "Nodes"@)[k])
                                            implies hosted(ir@, switch_name(ls[j])->Some_0, listed(ls[j], "Nodes"@)[k]) by {
                                        if j == i3 {
                                            assert(listed(ls[j], "Nodes"@)[k] == names@[k]@);
                                        } else {
                                            assert(hosted(before, switch_name(ls[j])->Some_0, listed(ls[j], "Nodes"@)[k]));
                                        }
                                    }
                                    assert forall|j: int| 0 <= j < ls.len() && j_switch_line(#[trigger] ls[j]) implies kind_is(ir@.entities, switch_name(ls[j])->Some_0, jswitch_kind(switch_name(ls[j])->Some_0)) by {
                                        lemma_jpbi_not_jpbo(switch_name(ls[j])->Some_0);
                                    }
                                    assert forall|j: int|
                                        0 <= j < ir@.entities.len() && switch_info(ir@.entities[j].0) is Some implies cell_after(
                                            ls,
                                            ls.len() as int,
                                            #[trigger] ir@.entities[j],
                                        ) by {
                                        lemma_jpbi_not_jpbo(ir@.entities[j].0);
                                    }
                                    if self.options.intra_group_links {
                                        assert forall|j: int| 0 <= j < i3 implies #[trigger] line_linked(ls, j, ir@) by {
                                            lemma_line_linked_grow(ls, self.options.intra_group_links, j, before, ir@);
                                        }
                                    }
                                }
                            },
                            None => {
                                assert(listed(li, "Nodes"@).len() == 0);
                            },
                        }
                        if self.options.intra_group_links {
                            let ghost mut ga: int = 0;
                            proof {
                                crate::ir::lemma_pos_props(ir@.entities, sw_id@);
                            }
                            let group: Option<String> = match ir.get_entity(&sw_id) {
                                Some(e) => match e.meta.get("cell") {
                                    Some(c) => {
                                        proof {
                                            ga = crate::ir::entity_pos(ir@.entities, sw_id@)->Some_0 as int;
                                        }
                                        Some(c.clone())
                                    },
                                    None => {
                                        proof {
                                            let pos = crate::ir::entity_pos(ir@.entities, sw_id@)->Some_0 as int;
                                            assert(!ir@.entities[pos].2.contains_key("cell"@));
                                            assert forall|j: int| 0 <= j < ir@.entities.len() && ir@.entities[j].0 == sw_id@ implies !ir@.entities[j].2.contains_key("cell"@) by {
                                                if j != pos {
                                                    if j < pos {
                                                        assert(ir@.entities[j].0 != ir@.entities[pos].0);
                                                    } else {
                                                        assert(ir@.entities[pos].0 != ir@.entities[j].0);
                                                    }
                                                }
                                            }
                                        }
                                        None
                                    },
                                },
                                None => None,
                            };
                            match group {
                                Some(cell) => {
                                    let l2s = l2_in_group(&ir, &cell);
                                    let ghost before = ir@;
                                    let mut q: usize = 0;
                                    while q < l2s.len()
                                        invariant
                                            before.wf(),
                                            0 <= i3 < ls.len(),
                                            switch_name(ls[i3 as int]) == Some(sw_id@),
                                            forall|b: int|
                                                0 <= b < before.entities.len() && l2_of_group(#[trigger] before.entities[b], cell@)
                                                    ==> id_views(l2s@).contains(before.entities[b].0),
                                            forall|t: int| 0 <= t < q ==> ir@.links.contains((sw_id@, (#[trigger] l2s@[t])@, W_L1_L2)),
                                            forall|j: int| 0 <= j < i3 ==> #[trigger] line_linked(ls, j, ir@),
                                            q <= l2s@.len(),
                                            0 <= ga < ir@.entities.len(),
                                            ir@.entities[ga].0 == sw_id@,
                                            ir@.entities[ga].2.contains_key("cell"@),
                                            ir@.entities[ga].2["cell"@] == cell@,
                                            contains_text(sw_id@, "-l1-"@),
                                            self.options.intra_group_links,
                                            ir@.entities == before.entities,
                                            forall|t: int| 0 <= t < l2s@.len() ==> l2_listed(before.entities, (#[trigger] l2s@[t])@, cell@),
                                            jupiter_sound(ls, self.options.intra_group_links, ir@),
                                            cells_exact(ls, before),
                                            ir@.entities == before.entities,
                                            ir@.contains == before.contains,
                                            before.links.len() <= ir@.links.len(),
                                            forall|t: int| 0 <= t < before.links.len() ==> ir@.links[t] == before.links[t],
                                            before.wf() ==> ir@.wf(),
                                        decreases l2s.len() - q,
                                    {
                                        let ghost lk = ir@;
                                        ir.add_link(sw_id.copy(), l2s[q].copy(), W_L1_L2);
                                        proof {
                                            assert(l2s@[q as int] == l2s@[q as int]);
                                            assert(l2_listed(before.entities, l2s@[q as int]@, cell@));
                                            let b = choose|b: int|
                                                0 <= b < before.entities.len() && #[trigger] l2_named(before.entities[b], l2s@[q as int]@, cell@);
                                            assert(ir@.entities[b] == before.entities[b]);
                                            let nl: LinkView = (sw_id@, l2s@[q as int]@, W_L1_L2);
                                            assert(j_link_ok(ls, self.options.intra_group_links, ir@.entities, nl));
                                            assert(ir@.links.last() == nl);
                                            assert forall|l: LinkView| lk.links.contains(l) implies ir@.links.contains(l) by {
                                                let t = choose|t: int| 0 <= t < lk.links.len() && lk.links[t] == l;
                                                assert(ir@.links[t] == l);
                                            }
                                            assert forall|j: int| 0 <= j < i3 implies #[trigger] line_linked(ls, j, ir@) by {
                                                lemma_line_linked_links(ls, j, lk, ir@);
                                            }
                                            assert forall|t: int| 0 <= t < q + 1 implies ir@.links.contains((sw_id@, (#[trigger] l2s@[t])@, W_L1_L2)) by {
                                                if t < q {
                                                    assert(lk.links.contains((sw_id@, l2s@[t]@, W_L1_L2)));
                                                }
                                            }
                                            assert forall|l: LinkView| #[trigger] ir@.links.contains(l) implies j_link_ok(ls, self.options.intra_group_links, ir@.entities, l) by {
                                                let t = choose|t: int| 0 <= t < ir@.links.len() && ir@.links[t] == l;
                                                if t < lk.links.len() {
                                                    assert(lk.links[t] == l);
                                                    assert(lk.links.contains(l));
                                                }
                                            }
                                        }
                                        q = q + 1;
                                    }
                                    proof {
                                        lemma_hosted_grow(before, ir@);
                                        assert forall|a: int, b: int|
                                            #[trigger] l1_l2_pair(ir@.entities, a, b) && switch_name(ls[i3 as int]) == Some(ir@.entities[a].0)
                                                implies ir@.links.contains((ir@.entities[a].0, ir@.entities[b].0, W_L1_L2)) by {
                                            assert(ir@.entities[a].0 == sw_id@);
                                            if a != ga {
                                                if a < ga {
                                                    assert(ir@.entities[a].0 != ir@.entities[ga].0);
                                                } else {
                                                    assert(ir@.entities[ga].0 != ir@.entities[a].0);
                                                }
                                            }
                                            assert(l2_of_group(before.entities[b], cell@));
                                            assert(id_views(l2s@).contains(before.entities[b].0));
                                            let t = choose|t: int| 0 <= t < id_views(l2s@).len() && id_views(l2s@)[t] == before.entities[b].0;
                                            assert(l2s@[t]@ == before.entities[b].0);
                                            assert(ir@.links.contains((sw_id@, l2s@[t]@, W_L1_L2)));
                                        }
                                        assert(line_linked(ls, i3 as int, ir@));
                                    }
                                },
                                None => {
                                    proof {
                                        assert(line_linked(ls, i3 as int, ir@));
                                    }
                                },
                            }
                        }
                    } else {
                        assert(!j_l1_line(li));
                        assert(line_linked(ls, i3 as int, ir@));
                    }
                },
                None => {
                    assert(switch_name(li) is None);
                    assert(line_linked(ls, i3 as int, ir@));
                },
            }
            proof {
                if self.options.intra_group_links {
                    assert forall|j: int| 0 <= j < i3 + 1 implies #[trigger] line_linked(ls, j, ir@) by {
                        if j == i3 {
                            assert(line_linked(ls, i3 as int, ir@));
                        }
                    }
                }
            }
            i3 = i3 + 1;
        }
        proof {
            if self.options.intra_group_links {
                lemma_links_complete(ls, self.options.intra_group_links, ir@);
            }
        }
        Ok(ir)
    }
}

/// The inter-group links a topology gets: the k-th L2 switch of every group
/// to the k-th of every later group, at most `INTER_GROUP_LINKS_PER_PAIR`.
pub open spec fn inter_group_links(es: Seq<EntityView>) -> Seq<LinkView> {
    all_pair_links(cell_groups(es, false), INTER_GROUP_LINKS_PER_PAIR as nat, W_INTER_GROUP)
}

/// A topology with the inter-group links added.
pub open spec fn with_inter_group_links(v: IRView) -> IRView {
    IRView { entities: v.entities, links: v.links + inter_group_links(v.entities), contains: v.contains }
}

impl JupiterParser {
    /// Add the inter-group (dragonfly+) links: for every two groups, in
    /// order of group name, the k-th L2 switch of one (by name) to the k-th
    /// of the other, at most `INTER_GROUP_LINKS_PER_PAIR` per pair.
    pub fn enrich_inter_cell_links(&self, ir: &mut TopologyIR)
        ensures
            final(ir)@ == with_inter_group_links(old(ir)@),
            old(ir)@.wf() ==> final(ir)@.wf(),
    {
        link_cells(ir, false, INTER_GROUP_LINKS_PER_PAIR, W_INTER_GROUP);
    }

    /// Attach to every entity that `node_infos` lists its sorted,
    /// de-duplicated partitions as `meta["partitions"]`.
    pub fn enrich_node_info(&self, ir: &mut TopologyIR, node_infos: &Vec<NodeInfo>)
        ensures
            final(ir)@.entities == old(ir)@.entities.map_values(|e: EntityView| partitions_enriched(e, node_infos@)),
            final(ir)@.links == old(ir)@.links,
            final(ir)@.contains == old(ir)@.contains,
    {
        let ghost e0 = ir@.entities;
        crate::topology::enrich_node_info(ir, node_infos);
        assert(ir@.entities =~= e0.map_values(|e: EntityView| partitions_enriched(e, node_infos@)));
    }

    /// The whole pipeline: parse the `scontrol` records, add the
    /// inter-group links, enrich with the `sinfo` records when given, then
    /// filter nodes.
    pub fn build(&self, topology_raw: &str, sinfo_infos: Option<Vec<NodeInfo>>, opts: &NodeFilterOptions) -> (r: Result<TopologyIR, NodeListParseError>)
        requires
            groups_named(merged_lines(topology_raw@)),
        ensures
            r is Ok <==> jupiter_lists_ok(merged_lines(topology_raw@)),
            r matches Err(e) ==> first_error(
                merged_lines(topology_raw@),
                |l: Seq<char>| j_l2_line(l),
                "Switches"@,
                |l: Seq<char>| j_l1_line(l),
                "Nodes"@,
                e.msg@,
            ),
            r matches Ok(ir) ==> exists|base: IRView|
                #[trigger] jupiter_base(merged_lines(topology_raw@), base) && jupiter_sound(
                    merged_lines(topology_raw@),
                    self.options.intra_group_links,
                    base,
                ) && (self.options.intra_group_links ==> l2_links_complete(base)) && cells_exact(
                    merged_lines(topology_raw@),
                    base,
                ) && ir@ == finished(with_inter_group_links(base), infos_view(sinfo_infos), opts.remove_unavailable),
    {
        let mut ir = match self.parse_topology_raw(topology_raw) {
            Ok(ir) => ir,
            Err(e) => return Err(e),
        };
        let ghost base = ir@;
        self.enrich_inter_cell_links(&mut ir);
        let r = finish_build(ir, sinfo_infos, opts);
        assert(jupiter_base(merged_lines(topology_raw@), base));
        assert(jupiter_sound(merged_lines(topology_raw@), self.options.intra_group_links, base));
        Ok(r)
    }
}
} // verus!
