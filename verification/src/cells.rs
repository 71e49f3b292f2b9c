//! Switches grouped by the `cell` recorded on them, and the links that
//! join every two groups.
use vstd::prelude::*;
use vstd::string::*;
use crate::ir::{Entity, EntityKind, EntityView, Id, LinkView, TopologyIR};
use crate::order::{sorted_list, sorted_set_of};
use crate::text::views;

verus! {

/// The group (`cell`) recorded on a switch: on any switch when `any`
/// holds, else only on an L2 switch.
pub open spec fn grouped_cell(e: EntityView, any: bool) -> Option<Seq<char>> {
    if (if any { e.1 is Switch } else { e.1 == (EntityKind::Switch { level: Some(1u32) }) }) && e.2.contains_key("cell"@) {
        Some(e.2["cell"@])
    } else {
        None
    }
}

/// The groups that switches are recorded in.
pub open spec fn cells_of(es: Seq<EntityView>, any: bool) -> Set<Seq<char>> {
    Set::new(|c: Seq<char>| exists|j: int| 0 <= j < es.len() && grouped_cell(es[j], any) == Some(c))
}

/// The switches of group `c`.
pub open spec fn cell_members(es: Seq<EntityView>, c: Seq<char>, any: bool) -> Set<Seq<char>> {
    Set::new(|x: Seq<char>| exists|j: int| 0 <= j < es.len() && grouped_cell(es[j], any) == Some(c) && es[j].0 == x)
}

/// Per group, in order of the group names, its switches in order of name.
pub open spec fn cell_groups(es: Seq<EntityView>, any: bool) -> Seq<Seq<Seq<char>>> {
    sorted_list(cells_of(es, any)).map_values(|c: Seq<char>| sorted_list(cell_members(es, c, any)))
}

/// How many links join two groups: one per position both have, at most `limit`.
pub open spec fn pair_count(a: Seq<Seq<char>>, b: Seq<Seq<char>>, limit: nat) -> nat {
    let m = if a.len() < b.len() { a.len() } else { b.len() };
    if m < limit { m } else { limit }
}

/// The links between two groups: the k-th switch of one to the k-th of the other.
pub open spec fn pair_links(a: Seq<Seq<char>>, b: Seq<Seq<char>>, limit: nat, w: u64) -> Seq<LinkView> {
    Seq::new(pair_count(a, b, limit), |k: int| (a[k], b[k], w))
}

/// The links from group `i` to each later group, in order.
pub open spec fn row_links(gs: Seq<Seq<Seq<char>>>, i: int, limit: nat, w: u64) -> Seq<LinkView> {
    Seq::new((gs.len() - i - 1) as nat, |d: int| pair_links(gs[i], gs[i + 1 + d], limit, w)).flatten()
}

/// The links between every two distinct groups, in order.
pub open spec fn all_pair_links(gs: Seq<Seq<Seq<char>>>, limit: nat, w: u64) -> Seq<LinkView> {
    Seq::new(gs.len(), |i: int| row_links(gs, i, limit, w)).flatten()
}

/// An element of one of the sequences is an element of their concatenation.
proof fn lemma_flatten_has<A>(s: Seq<Seq<A>>, i: int, x: A)
    requires
        0 <= i < s.len(),
        s[i].contains(x),
    ensures
        s.flatten().contains(x),
    decreases s.len(),
{
    let k = choose|k: int| 0 <= k < s[i].len() && s[i][k] == x;
    assert(s.flatten() == s.first() + s.drop_first().flatten());
    if i == 0 {
        assert(s.flatten()[k] == x);
    } else {
        assert(s.drop_first()[i - 1] == s[i]);
        lemma_flatten_has(s.drop_first(), i - 1, x);
        let t = s.drop_first().flatten();
        let k2 = choose|k2: int| 0 <= k2 < t.len() && t[k2] == x;
        assert(s.flatten()[s.first().len() + k2] == x);
    }
}

/// Every two groups are linked, whichever two they are: when both have
/// switches and at least one link per pair is allowed, the first switch of
/// the earlier group is linked to the first switch of the later one.
pub proof fn lemma_all_pairs_linked(gs: Seq<Seq<Seq<char>>>, limit: nat, w: u64, i: int, j: int)
    requires
        0 <= i < j < gs.len(),
        gs[i].len() > 0,
        gs[j].len() > 0,
        limit >= 1,
    ensures
        all_pair_links(gs, limit, w).contains((gs[i][0], gs[j][0], w)),
{
    let l = (gs[i][0], gs[j][0], w);
    let d = j - i - 1;
    let pl = pair_links(gs[i], gs[j], limit, w);
    assert(pair_count(gs[i], gs[j], limit) >= 1);
    assert(pl[0] == l);
    assert(pl.contains(l));
    let rows = Seq::new((gs.len() - i - 1) as nat, |e: int| pair_links(gs[i], gs[i + 1 + e], limit, w));
    assert(rows[d] == pl);
    lemma_flatten_has(rows, d, l);
    assert(row_links(gs, i, limit, w) == rows.flatten());
    let all = Seq::new(gs.len(), |e: int| row_links(gs, e, limit, w));
    assert(all[i] == row_links(gs, i, limit, w));
    lemma_flatten_has(all, i, l);
}

/// The groups a topology records are finitely many, and so are the
/// switches of each.
proof fn lemma_cells_finite(es: Seq<EntityView>, any: bool, c: Seq<char>)
    ensures
        cells_of(es, any).finite(),
        cell_members(es, c, any).finite(),
{
    let cs = Seq::new(es.len(), |j: int| grouped_cell(es[j], any)->Some_0);
    let ids = Seq::new(es.len(), |j: int| es[j].0);
    vstd::seq_lib::seq_to_set_is_finite(cs);
    vstd::seq_lib::seq_to_set_is_finite(ids);
    assert forall|x: Seq<char>| cells_of(es, any).contains(x) implies cs.to_set().contains(x) by {
        let j = choose|j: int| 0 <= j < es.len() && grouped_cell(es[j], any) == Some(x);
        assert(cs[j] == x);
    }
    assert forall|x: Seq<char>| cell_members(es, c, any).contains(x) implies ids.to_set().contains(x) by {
        let j = choose|j: int| 0 <= j < es.len() && grouped_cell(es[j], any) == Some(c) && es[j].0 == x;
        assert(ids[j] == x);
    }
    vstd::set_lib::lemma_len_subset(cells_of(es, any), cs.to_set());
    vstd::set_lib::lemma_len_subset(cell_members(es, c, any), ids.to_set());
}

/// Any two groups that both hold switches are linked: some switch of the
/// one and some switch of the other are joined by a link of weight `w`,
/// whenever at least one link per pair is allowed.
pub proof fn lemma_cells_linked(es: Seq<EntityView>, any: bool, limit: nat, w: u64, a: int, b: int)
    requires
        0 <= a < es.len(),
        0 <= b < es.len(),
        grouped_cell(es[a], any) is Some,
        grouped_cell(es[b], any) is Some,
        grouped_cell(es[a], any) != grouped_cell(es[b], any),
        limit >= 1,
    ensures
        exists|x: Seq<char>, y: Seq<char>|
            cell_members(es, grouped_cell(es[a], any)->Some_0, any).contains(x) && cell_members(
                es,
                grouped_cell(es[b], any)->Some_0,
                any,
            ).contains(y) && (all_pair_links(cell_groups(es, any), limit, w).contains((x, y, w)) || all_pair_links(
                cell_groups(es, any),
                limit,
                w,
            ).contains((y, x, w))),
{
    let ca = grouped_cell(es[a], any)->Some_0;
    let cb = grouped_cell(es[b], any)->Some_0;
    let ma = cell_members(es, ca, any);
    let mb = cell_members(es, cb, any);
    lemma_cells_finite(es, any, ca);
    lemma_cells_finite(es, any, cb);
    let cells = cells_of(es, any);
    crate::order::lemma_sorted_list(cells);
    crate::order::lemma_sorted_list(ma);
    crate::order::lemma_sorted_list(mb);
    let l = sorted_list(cells);
    assert(cells.contains(ca));
    assert(cells.contains(cb));
    assert(l.to_set().contains(ca));
    assert(l.to_set().contains(cb));
    let i = choose|i: int| 0 <= i < l.len() && l[i] == ca;
    let j = choose|j: int| 0 <= j < l.len() && l[j] == cb;
    let gs = cell_groups(es, any);
    assert(gs[i] == sorted_list(ma));
    assert(gs[j] == sorted_list(mb));
    assert(ma.contains(es[a].0));
    assert(mb.contains(es[b].0));
    assert(sorted_list(ma).to_set().contains(es[a].0));
    assert(sorted_list(mb).to_set().contains(es[b].0));
    assert(gs[i].len() > 0);
    assert(gs[j].len() > 0);
    assert(sorted_list(ma).to_set().contains(gs[i][0]));
    assert(sorted_list(mb).to_set().contains(gs[j][0]));
    assert(i != j);
    if i < j {
        lemma_all_pairs_linked(gs, limit, w, i, j);
        assert(ma.contains(gs[i][0]) && mb.contains(gs[j][0]));
    } else {
        lemma_all_pairs_linked(gs, limit, w, j, i);
        assert(ma.contains(gs[i][0]) && mb.contains(gs[j][0]));
    }
}

pub open spec fn group_views(v: Seq<Vec<String>>) -> Seq<Seq<Seq<char>>> {
    v.map_values(|g: Vec<String>| views(g@))
}

/// The group recorded on entity `e`, as in `grouped_cell`.
fn cell_of(e: &Entity, any: bool) -> (r: Option<&String>)
    ensures
        match grouped_cell(e@, any) {
            Some(c) => r matches Some(v) && v@ == c,
            None => r is None,
        },
{
    let counts = if any {
        match e.kind {
            EntityKind::Switch { .. } => true,
            _ => false,
        }
    } else {
        e.kind == (EntityKind::Switch { level: Some(1) })
    };
    if counts {
        e.meta.get("cell")
    } else {
        None
    }
}

/// The switches of the topology grouped by their `cell`, as in `cell_groups`.
pub fn switch_groups(ir: &TopologyIR, any: bool) -> (r: Vec<Vec<String>>)
    ensures
        group_views(r@) == cell_groups(ir@.entities, any),
{
    let ghost es = ir@.entities;
    let mut cells: Vec<String> = Vec::new();
    let mut i: usize = 0;
    while i < ir.entities.len()
        invariant
            es == ir@.entities,
            i <= es.len(),
            forall|c: Seq<char>| views(cells@).contains(c) <==> exists|j: int| 0 <= j < i && grouped_cell(#[trigger] es[j], any) == Some(c),
        decreases ir.entities.len() - i,
    {
        let ghost before = views(cells@);
        match cell_of(&ir.entities[i], any) {
            Some(c) => {
                cells.push(c.clone());
                proof {
                    assert(views(cells@) == before.push(c@));
                    assert forall|x: Seq<char>| views(cells@).contains(x) <==> exists|j: int| 0 <= j < i + 1 && grouped_cell(#[trigger] es[j], any) == Some(x) by {
                        if views(cells@).contains(x) && x != c@ {
                            let q = choose|q: int| 0 <= q < views(cells@).len() && views(cells@)[q] == x;
                            assert(before[q] == x);
                            assert(before.contains(x));
                            let j = choose|j: int| 0 <= j < i && grouped_cell(#[trigger] es[j], any) == Some(x);
                            assert(grouped_cell(es[j], any) == Some(x));
                        }
                        if x == c@ {
                            assert(views(cells@)[before.len() as int] == x);
                            assert(grouped_cell(es[i as int], any) == Some(x));
                        }
                        if exists|j: int| 0 <= j < i + 1 && grouped_cell(#[trigger] es[j], any) == Some(x) {
                            if x != c@ {
                                let j = choose|j: int| 0 <= j < i + 1 && grouped_cell(#[trigger] es[j], any) == Some(x);
                                assert(j < i);
                                assert(before.contains(x));
                                let q = choose|q: int| 0 <= q < before.len() && before[q] == x;
                                assert(views(cells@)[q] == x);
                            }
                        }
                    }
                }
            },
            None => {
                proof {
                    assert(grouped_cell(es[i as int], any) is None);
                    assert forall|x: Seq<char>| views(cells@).contains(x) <==> exists|j: int| 0 <= j < i + 1 && grouped_cell(#[trigger] es[j], any) == Some(x) by {
                        if views(cells@).contains(x) {
                            let j = choose|j: int| 0 <= j < i && grouped_cell(#[trigger] es[j], any) == Some(x);
                            assert(grouped_cell(es[j], any) == Some(x));
                        }
                        if exists|j: int| 0 <= j < i + 1 && grouped_cell(#[trigger] es[j], any) == Some(x) {
                            let j = choose|j: int| 0 <= j < i + 1 && grouped_cell(#[trigger] es[j], any) == Some(x);
                            assert(j < i);
                        }
                    }
                }
            },
        }
        i = i + 1;
    }
    assert(views(cells@).to_set() =~= cells_of(es, any));
    let sorted = sorted_set_of(&cells);
    let ghost cs = sorted_list(cells_of(es, any));
    let mut out: Vec<Vec<String>> = Vec::new();
    let mut g: usize = 0;
    while g < sorted.len()
        invariant
            es == ir@.entities,
            views(sorted@) == cs,
            g <= cs.len(),
            group_views(out@) == cs.take(g as int).map_values(|c: Seq<char>| sorted_list(cell_members(es, c, any))),
        decreases sorted.len() - g,
    {
        let cell = &sorted[g];
        let mut members: Vec<String> = Vec::new();
        let mut k: usize = 0;
        while k < ir.entities.len()
            invariant
                es == ir@.entities,
                k <= es.len(),
                forall|x: Seq<char>| views(members@).contains(x) <==> exists|j: int|
                    0 <= j < k && grouped_cell(#[trigger] es[j], any) == Some(cell@) && es[j].0 == x,
            decreases ir.entities.len() - k,
        {
            let ghost before = views(members@);
            let mut hit = false;
            match cell_of(&ir.entities[k], any) {
                Some(c) => {
                    if *c == *cell {
                        hit = true;
                    }
                },
                None => {},
            }
            assert(hit == (grouped_cell(es[k as int], any) == Some(cell@)));
            if hit {
                members.push(ir.entities[k].id.0.clone());
            }
            proof {
                let y = es[k as int].0;
                if hit {
                    assert(views(members@) == before.push(y));
                } else {
                    assert(views(members@) == before);
                }
                assert forall|x: Seq<char>| views(members@).contains(x) <==> exists|j: int|
                    0 <= j < k + 1 && grouped_cell(#[trigger] es[j], any) == Some(cell@) && es[j].0 == x by {
                    if views(members@).contains(x) {
                        let q = choose|q: int| 0 <= q < views(members@).len() && views(members@)[q] == x;
                        if q < before.len() {
                            assert(before[q] == x);
                            assert(before.contains(x));
                        } else {
                            assert(grouped_cell(es[k as int], any) == Some(cell@) && es[k as int].0 == x);
                        }
                    }
                    if exists|j: int| 0 <= j < k + 1 && grouped_cell(#[trigger] es[j], any) == Some(cell@) && es[j].0 == x {
                        let j = choose|j: int| 0 <= j < k + 1 && grouped_cell(#[trigger] es[j], any) == Some(cell@) && es[j].0 == x;
                        if j < k {
                            assert(before.contains(x));
                            let q = choose|q: int| 0 <= q < before.len() && before[q] == x;
                            assert(views(members@)[q] == x);
                        } else {
                            assert(views(members@)[before.len() as int] == x);
                        }
                    }
                }
            }
            k = k + 1;
        }
        assert(views(members@).to_set() =~= cell_members(es, cell@, any));
        let group = sorted_set_of(&members);
        let ghost prev = group_views(out@);
        out.push(group);
        proof {
            assert(cs[g as int] == cell@);
            assert(group_views(out@) == prev.push(views(group@)));
            assert(cs.take(g + 1) == cs.take(g as int).push(cs[g as int]));
            assert(group_views(out@) =~= cs.take(g + 1).map_values(|c: Seq<char>| sorted_list(cell_members(es, c, any))));
        }
        g = g + 1;
    }
    assert(cs.take(g as int) == cs);
    out
}

/// Link every two groups of switches (see `cell_groups`): in order of group
/// name, the k-th switch of one (by name) to the k-th of the other with
/// weight `w`, for as many positions as both groups have, at most `limit`.
pub fn link_cells(ir: &mut TopologyIR, any: bool, limit: usize, w: u64)
    ensures
        final(ir)@.entities == old(ir)@.entities,
        final(ir)@.contains == old(ir)@.contains,
        final(ir)@.links == old(ir)@.links + all_pair_links(cell_groups(old(ir)@.entities, any), limit as nat, w),
        old(ir)@.wf() ==> final(ir)@.wf(),
{
    let groups = switch_groups(ir, any);
    let ghost gs = group_views(groups@);
    let ghost start = ir@;
    let mut i: usize = 0;
    while i < groups.len()
        invariant
            gs == group_views(groups@),
            i <= gs.len(),
            ir@.entities == start.entities,
            ir@.contains == start.contains,
            start.wf() ==> ir@.wf(),
            ir@.links == start.links + Seq::new(i as nat, |q: int| row_links(gs, q, limit as nat, w)).flatten(),
        decreases groups.len() - i,
    {
        let ghost before_row = ir@.links;
        let mut j: usize = i + 1;
        while j < groups.len()
            invariant
                gs == group_views(groups@),
                i < gs.len(),
                i + 1 <= j <= gs.len(),
                ir@.entities == start.entities,
                ir@.contains == start.contains,
                start.wf() ==> ir@.wf(),
                ir@.links == before_row + Seq::new((j - i - 1) as nat, |d: int| pair_links(gs[i as int], gs[i + 1 + d], limit as nat, w)).flatten(),
            decreases groups.len() - j,
        {
            let a = &groups[i];
            let b = &groups[j];
            let m = if a.len() < b.len() { a.len() } else { b.len() };
            let n = if m < limit { m } else { limit };
            let ghost before_pair = ir@.links;
            let ghost pl = pair_links(gs[i as int], gs[j as int], limit as nat, w);
            assert(gs[i as int] == views(a@) && gs[j as int] == views(b@));
            assert(n == pl.len());
            let mut k: usize = 0;
            while k < n
                invariant
                    gs == group_views(groups@),
                    i < gs.len(),
                    j < gs.len(),
                    a == groups@[i as int],
                    b == groups@[j as int],
                    pl == pair_links(gs[i as int], gs[j as int], limit as nat, w),
                    n == pl.len(),
                    n <= a@.len(),
                    n <= b@.len(),
                    k <= n,
                    ir@.entities == start.entities,
                    ir@.contains == start.contains,
                    start.wf() ==> ir@.wf(),
                    ir@.links == before_pair + pl.take(k as int),
                decreases n - k,
            {
                ir.add_link(Id(a[k].clone()), Id(b[k].clone()), w);
                proof {
                    assert(pl[k as int] == (a@[k as int]@, b@[k as int]@, w));
                    assert(pl.take(k + 1) == pl.take(k as int).push(pl[k as int]));
                }
                k = k + 1;
            }
            proof {
                assert(pl.take(k as int) == pl);
                let f = |d: int| pair_links(gs[i as int], gs[i + 1 + d], limit as nat, w);
                let s0 = Seq::new((j - i - 1) as nat, f);
                let s1 = Seq::new((j + 1 - i - 1) as nat, f);
                assert(s1 == s0.push(pl));
                s0.lemma_flatten_push(pl);
            }
            j = j + 1;
        }
        proof {
            let f = |d: int| pair_links(gs[i as int], gs[i + 1 + d], limit as nat, w);
            assert(Seq::new((j - i - 1) as nat, f) == Seq::new((gs.len() - i - 1) as nat, f));
            let r = |q: int| row_links(gs, q, limit as nat, w);
            let s0 = Seq::new(i as nat, r);
            let s1 = Seq::new((i + 1) as nat, r);
            assert(s1 == s0.push(row_links(gs, i as int, limit as nat, w)));
            s0.lemma_flatten_push(row_links(gs, i as int, limit as nat, w));
        }
        i = i + 1;
    }
    proof {
        assert(gs == cell_groups(start.entities, any));
    }
}

} // verus!
