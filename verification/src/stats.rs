//! Topology-aware statistics of an allocation: for each job, the L1
//! switches and cells (groups) its nodes sit under.
use vstd::prelude::*;
use vstd::string::*;
use crate::ir::{EntityKind, EntityView, IRView, Id, TopologyIR};
use crate::order::{sorted_list, sorted_set_of, strictly_sorted};
use crate::text::views;

verus! {

broadcast use vstd::seq_lib::group_seq_properties;

/// Per-switch breakdown inside one job.
pub struct SwitchStats {
    pub switch_id: String,
    /// The switch's `cell`, or `?`.
    pub cell: String,
    /// The switch's `rack`, or `?`.
    pub rack: String,
    /// The job's nodes under this switch, in the job's order.
    pub nodes: Vec<String>,
    pub node_count: usize,
}

/// Per-cell breakdown inside one job.
pub struct GroupStats {
    pub cell: String,
    /// Number of distinct L1 switches the job uses in this cell.
    pub switch_count: usize,
    /// The job's nodes in this cell.
    pub node_count: usize,
    /// Per-switch detail, by switch id.
    pub switches: Vec<SwitchStats>,
}

/// Statistics of one job.
pub struct JobStats {
    pub total_nodes: usize,
    /// Number of distinct cells spanned.
    pub group_count: usize,
    /// Number of distinct L1 switches spanned.
    pub total_switch_count: usize,
    /// Per-cell breakdown, by cell name.
    pub groups: Vec<GroupStats>,
    /// Nodes whose L1 switch could not be found.
    pub unresolved_nodes: Vec<String>,
}

/// Statistics of a whole allocation.
pub struct PlacementStats {
    pub job_count: usize,
    pub total_nodes: usize,
    /// The cells used by any job, by name.
    pub distinct_groups: Vec<String>,
    /// The L1 switches used by any job, by name.
    pub distinct_switches: Vec<String>,
    /// Per-job statistics, by job name.
    pub jobs: Vec<(String, JobStats)>,
}

/// The host name of an entity: its `hostname` metadata, else its id.
pub open spec fn host_of(e: EntityView) -> Seq<char> {
    if e.2.contains_key("hostname"@) {
        e.2["hostname"@]
    } else {
        e.0
    }
}

/// The first compute entity with host name `h`.
pub open spec fn first_node(es: Seq<EntityView>, h: Seq<char>) -> Option<int>
    decreases es.len(),
{
    if es.len() == 0 {
        None
    } else {
        match first_node(es.drop_last(), h) {
            Some(j) => Some(j),
            None => if es.last().1 is Compute && host_of(es.last()) == h {
                Some(es.len() - 1)
            } else {
                None
            },
        }
    }
}

/// The first containment list that names `x`.
pub open spec fn first_parent(cs: Seq<crate::ir::ContainsView>, x: Seq<char>) -> Option<int>
    decreases cs.len(),
{
    if cs.len() == 0 {
        None
    } else {
        match first_parent(cs.drop_last(), x) {
            Some(k) => Some(k),
            None => if cs.last().1.contains(x) {
                Some(cs.len() - 1)
            } else {
                None
            },
        }
    }
}

/// The L1 switch a host sits under: the parent (first containment list
/// naming it) of the first compute entity with that host name, when that
/// parent is a level-0 switch.
pub open spec fn resolve(v: IRView, h: Seq<char>) -> Option<Seq<char>> {
    match first_node(v.entities, h) {
        None => None,
        Some(j) => match first_parent(v.contains, v.entities[j].0) {
            None => None,
            Some(k) => match v.entity(v.contains[k].0) {
                Some(e) => if e.1 == (EntityKind::Switch { level: Some(0u32) }) {
                    Some(v.contains[k].0)
                } else {
                    None
                },
                None => None,
            },
        },
    }
}

/// A metadata value of entity `p`, or `dflt`.
pub open spec fn meta_or(v: IRView, p: Seq<char>, key: Seq<char>, dflt: Seq<char>) -> Seq<char> {
    match v.entity(p) {
        Some(e) => if e.2.contains_key(key) {
            e.2[key]
        } else {
            dflt
        },
        None => dflt,
    }
}

pub open spec fn sw_cell(v: IRView, p: Seq<char>) -> Seq<char> {
    meta_or(v, p, "cell"@, "?"@)
}

pub open spec fn sw_rack(v: IRView, p: Seq<char>) -> Seq<char> {
    meta_or(v, p, "rack"@, "?"@)
}

proof fn lemma_first_node_bound(es: Seq<EntityView>, h: Seq<char>)
    ensures
        first_node(es, h) matches Some(j) ==> 0 <= j < es.len() && es[j].1 is Compute && host_of(es[j]) == h,
    decreases es.len(),
{
    if es.len() > 0 {
        lemma_first_node_bound(es.drop_last(), h);
    }
}

pub proof fn lemma_first_parent_bound(cs: Seq<crate::ir::ContainsView>, x: Seq<char>)
    ensures
        first_parent(cs, x) matches Some(k) ==> 0 <= k < cs.len() && cs[k].1.contains(x),
    decreases cs.len(),
{
    if cs.len() > 0 {
        lemma_first_parent_bound(cs.drop_last(), x);
    }
}

/// A metadata value of entity `p`, or `dflt`.
pub(crate) fn meta_value(ir: &TopologyIR, p: &String, key: &str, dflt: &str) -> (r: String)
    ensures
        r@ == meta_or(ir@, p@, key@, dflt@),
{
    match ir.get_entity(&Id(p.clone())) {
        Some(e) => match e.meta.get(key) {
            Some(x) => x.clone(),
            None => String::from_str(dflt),
        },
        None => String::from_str(dflt),
    }
}

/// The L1 switch host `h` sits under.
fn resolve_host(ir: &TopologyIR, h: &String) -> (r: Option<String>)
    ensures
        crate::alps::opt_view(r) == resolve(ir@, h@),
{
    let ghost v = ir@;
    let ghost es = v.entities;
    let mut node: Option<usize> = None;
    let mut j: usize = 0;
    assert(es.take(0).len() == 0);
    while j < ir.entities.len() && node.is_none()
        invariant
            v == ir@,
            es == v.entities,
            j <= es.len(),
            node is None ==> first_node(es.take(j as int), h@) is None,
            node matches Some(n) ==> first_node(es, h@) == Some(n as int),
        decreases es.len() - j,
    {
        let e = &ir.entities[j];
        let name: &String = match e.meta.get("hostname") {
            Some(x) => x,
            None => &e.id.0,
        };
        proof {
            assert(es.take(j + 1).drop_last() == es.take(j as int));
            assert(es.take(j + 1).last() == es[j as int]);
            assert(es[j as int] == e@);
        }
        let is_c = match e.kind {
            EntityKind::Compute => true,
            _ => false,
        };
        if is_c && *name == *h {
            node = Some(j);
            proof {
                lemma_first_prefix_node(es, j + 1, h@);
            }
        }
        j = j + 1;
    }
    proof {
        if node is None {
            assert(es.take(j as int) == es);
        }
    }
    let n = match node {
        Some(n) => n,
        None => return None,
    };
    proof {
        lemma_first_node_bound(es, h@);
    }
    let x = &ir.entities[n].id;
    let ghost cs = v.contains;
    let mut par: Option<usize> = None;
    let mut k: usize = 0;
    assert(cs.take(0).len() == 0);
    while k < ir.contains.len() && par.is_none()
        invariant
            v == ir@,
            cs == v.contains,
            k <= cs.len(),
            par is None ==> first_parent(cs.take(k as int), x@) is None,
            par matches Some(q) ==> first_parent(cs, x@) == Some(q as int),
        decreases cs.len() - k,
    {
        let ch = &ir.contains[k].1;
        let ghost iv = crate::ir::id_views(ch@);
        let mut found = false;
        let mut q: usize = 0;
        while q < ch.len()
            invariant
                iv == crate::ir::id_views(ch@),
                q <= iv.len(),
                found == iv.take(q as int).contains(x@),
            decreases ch.len() - q,
        {
            assert(iv.take(q + 1) == iv.take(q as int).push(iv[q as int]));
            if ch[q].same(x) {
                found = true;
            }
            q = q + 1;
        }
        proof {
            assert(iv.take(q as int) == iv);
            assert(cs[k as int] == (ir.contains@[k as int].0@, iv));
            assert(cs.take(k + 1).drop_last() == cs.take(k as int));
            assert(cs.take(k + 1).last() == cs[k as int]);
        }
        if found {
            par = Some(k);
            proof {
                lemma_first_prefix_parent(cs, k + 1, x@);
            }
        }
        k = k + 1;
    }
    proof {
        if par is None {
            assert(cs.take(k as int) == cs);
        }
    }
    let pk = match par {
        Some(q) => q,
        None => return None,
    };
    proof {
        lemma_first_parent_bound(cs, x@);
    }
    let p = &ir.contains[pk].0;
    match ir.get_entity(p) {
        Some(e) => {
            if e.kind == (EntityKind::Switch { level: Some(0) }) {
                Some(p.0.clone())
            } else {
                None
            }
        },
        None => None,
    }
}

/// A hit in a prefix is the first hit of the whole.
proof fn lemma_first_prefix_node(es: Seq<EntityView>, k: int, h: Seq<char>)
    requires
        0 <= k <= es.len(),
        first_node(es.take(k), h) is Some,
    ensures
        first_node(es, h) == first_node(es.take(k), h),
    decreases es.len() - k,
{
    if k < es.len() {
        assert(es.take(k + 1).drop_last() == es.take(k));
        lemma_first_prefix_node(es, k + 1, h);
    } else {
        assert(es.take(k) == es);
    }
}

/// A hit in a prefix is the first hit of the whole.
proof fn lemma_first_prefix_parent(cs: Seq<crate::ir::ContainsView>, k: int, x: Seq<char>)
    requires
        0 <= k <= cs.len(),
        first_parent(cs.take(k), x) is Some,
    ensures
        first_parent(cs, x) == first_parent(cs.take(k), x),
    decreases cs.len() - k,
{
    if k < cs.len() {
        assert(cs.take(k + 1).drop_last() == cs.take(k));
        lemma_first_prefix_parent(cs, k + 1, x);
    } else {
        assert(cs.take(k) == cs);
    }
}


/// A switch's statistics: id, cell, rack, the job's nodes under it, their number.
pub type SwitchStatsView = (Seq<char>, Seq<char>, Seq<char>, Seq<Seq<char>>, nat);

/// A cell's statistics: name, switch count, node count, its switches.
pub type GroupStatsView = (Seq<char>, nat, nat, Seq<SwitchStatsView>);

/// A job's statistics: node count, cell count, switch count, its cells,
/// the unresolved nodes.
pub type JobStatsView = (nat, nat, nat, Seq<GroupStatsView>, Seq<Seq<char>>);

pub open spec fn switch_stats_view(s: SwitchStats) -> SwitchStatsView {
    (s.switch_id@, s.cell@, s.rack@, views(s.nodes@), s.node_count as nat)
}

pub open spec fn group_stats_view(g: GroupStats) -> GroupStatsView {
    (g.cell@, g.switch_count as nat, g.node_count as nat, g.switches@.map_values(|s: SwitchStats| switch_stats_view(s)))
}

pub open spec fn job_stats_view(j: JobStats) -> JobStatsView {
    (
        j.total_nodes as nat,
        j.group_count as nat,
        j.total_switch_count as nat,
        j.groups@.map_values(|g: GroupStats| group_stats_view(g)),
        views(j.unresolved_nodes@),
    )
}

/// The job's nodes under switch `p`, in order.
pub open spec fn nodes_under(v: IRView, hs: Seq<Seq<char>>, p: Seq<char>) -> Seq<Seq<char>> {
    hs.filter(|h: Seq<char>| resolve(v, h) == Some(p))
}

/// The job's nodes in cell `c`, in order.
pub open spec fn nodes_in_cell(v: IRView, hs: Seq<Seq<char>>, c: Seq<char>) -> Seq<Seq<char>> {
    hs.filter(|h: Seq<char>| resolve(v, h) matches Some(p) && sw_cell(v, p) == c)
}

/// The statistics of switch `p`.
pub open spec fn switch_spec(v: IRView, hs: Seq<Seq<char>>, p: Seq<char>) -> SwitchStatsView {
    (p, sw_cell(v, p), sw_rack(v, p), nodes_under(v, hs, p), nodes_under(v, hs, p).len())
}

/// The L1 switches the job's nodes sit under.
pub open spec fn used_switches(v: IRView, hs: Seq<Seq<char>>) -> Set<Seq<char>> {
    Set::new(|p: Seq<char>| exists|i: int| 0 <= i < hs.len() && resolve(v, hs[i]) == Some(p))
}

/// The used switches of cell `c`.
pub open spec fn cell_switches(v: IRView, hs: Seq<Seq<char>>, c: Seq<char>) -> Set<Seq<char>> {
    Set::new(|p: Seq<char>| used_switches(v, hs).contains(p) && sw_cell(v, p) == c)
}

/// The cells of the used switches.
pub open spec fn used_cells(v: IRView, hs: Seq<Seq<char>>) -> Set<Seq<char>> {
    Set::new(|c: Seq<char>| exists|p: Seq<char>| used_switches(v, hs).contains(p) && sw_cell(v, p) == c)
}

/// The statistics of cell `c`.
pub open spec fn group_spec(v: IRView, hs: Seq<Seq<char>>, c: Seq<char>) -> GroupStatsView {
    let ss = sorted_list(cell_switches(v, hs, c)).map_values(|p: Seq<char>| switch_spec(v, hs, p));
    (c, ss.len(), nodes_in_cell(v, hs, c).len(), ss)
}

/// The statistics of a job with nodes `hs`.
pub open spec fn job_spec(v: IRView, hs: Seq<Seq<char>>) -> JobStatsView {
    let gs = sorted_list(used_cells(v, hs)).map_values(|c: Seq<char>| group_spec(v, hs, c));
    (hs.len(), gs.len(), sorted_list(used_switches(v, hs)).len(), gs, hs.filter(|h: Seq<char>| resolve(v, h) is None))
}

/// The sum of the node counts of a list of switch statistics.
pub open spec fn switch_node_total(ss: Seq<SwitchStatsView>) -> nat
    decreases ss.len(),
{
    if ss.len() == 0 {
        0
    } else {
        switch_node_total(ss.drop_last()) + ss.last().4
    }
}

/// The sum of the node counts of a list of cell statistics.
pub open spec fn group_node_total(gs: Seq<GroupStatsView>) -> nat
    decreases gs.len(),
{
    if gs.len() == 0 {
        0
    } else {
        group_node_total(gs.drop_last()) + gs.last().2
    }
}

/// The counts of a job add up: each cell counts the nodes of its switches,
/// and every node of the job is counted once, in its cell or as
/// unresolved.
pub open spec fn counts_add_up(j: JobStatsView) -> bool {
    &&& forall|i: int| 0 <= i < j.3.len() ==> #[trigger] j.3[i].2 == switch_node_total(j.3[i].3)
    &&& j.0 == group_node_total(j.3) + j.4.len()
}

/// The nodes of `hs` whose key is `Some(x)`.
spec fn key_count(hs: Seq<Seq<char>>, k: spec_fn(Seq<char>) -> Option<Seq<char>>, x: Seq<char>) -> nat {
    hs.filter(|h: Seq<char>| k(h) == Some(x)).len()
}

/// The counts of the keys `l`, added up.
spec fn key_counts(hs: Seq<Seq<char>>, k: spec_fn(Seq<char>) -> Option<Seq<char>>, l: Seq<Seq<char>>) -> nat
    decreases l.len(),
{
    if l.len() == 0 {
        0
    } else {
        key_counts(hs, k, l.drop_last()) + key_count(hs, k, l.last())
    }
}

/// How often `o` is `Some` of an element of `l`.
spec fn occurrences(l: Seq<Seq<char>>, o: Option<Seq<char>>) -> nat
    decreases l.len(),
{
    if l.len() == 0 {
        0
    } else {
        occurrences(l.drop_last(), o) + if o == Some(l.last()) {
            1nat
        } else {
            0nat
        }
    }
}

proof fn lemma_key_counts_empty(k: spec_fn(Seq<char>) -> Option<Seq<char>>, l: Seq<Seq<char>>)
    ensures
        key_counts(Seq::empty(), k, l) == 0,
    decreases l.len(),
{
    if l.len() > 0 {
        lemma_key_counts_empty(k, l.drop_last());
        assert(Seq::<Seq<char>>::empty().filter(|h: Seq<char>| k(h) == Some(l.last())) =~= Seq::<Seq<char>>::empty()) by {
            reveal(Seq::filter);
        }
    }
}

proof fn lemma_key_counts_push(hs: Seq<Seq<char>>, h: Seq<char>, k: spec_fn(Seq<char>) -> Option<Seq<char>>, l: Seq<Seq<char>>)
    ensures
        key_counts(hs.push(h), k, l) == key_counts(hs, k, l) + occurrences(l, k(h)),
    decreases l.len(),
{
    if l.len() > 0 {
        lemma_key_counts_push(hs, h, k, l.drop_last());
        hs.lemma_filter_push(h, |g: Seq<char>| k(g) == Some(l.last()));
    }
}

proof fn lemma_occurrences(l: Seq<Seq<char>>, o: Option<Seq<char>>)
    requires
        l.no_duplicates(),
    ensures
        occurrences(l, o) == (if o matches Some(x) && l.contains(x) {
            1nat
        } else {
            0nat
        }),
    decreases l.len(),
{
    if l.len() > 0 {
        let t = l.drop_last();
        assert(t.no_duplicates());
        lemma_occurrences(t, o);
        match o {
            Some(x) => {
                if l.last() == x {
                    assert(!t.contains(x)) by {
                        if t.contains(x) {
                            let i = choose|i: int| 0 <= i < t.len() && t[i] == x;
                            assert(l[i] == l[l.len() - 1]);
                        }
                    }
                } else {
                    assert(l.contains(x) == t.contains(x)) by {
                        if l.contains(x) {
                            let i = choose|i: int| 0 <= i < l.len() && l[i] == x;
                            assert(t[i] == x);
                        }
                    }
                }
            },
            None => {},
        }
    }
}

/// Counting the nodes of each key and adding up counts the nodes that
/// have a key, when every key occurs once in `l`.
proof fn lemma_key_counts_total(hs: Seq<Seq<char>>, k: spec_fn(Seq<char>) -> Option<Seq<char>>, l: Seq<Seq<char>>)
    requires
        l.no_duplicates(),
        forall|i: int| 0 <= i < hs.len() ==> (k(#[trigger] hs[i]) matches Some(x) ==> l.contains(x)),
    ensures
        key_counts(hs, k, l) == hs.filter(|h: Seq<char>| k(h) is Some).len(),
    decreases hs.len(),
{
    if hs.len() == 0 {
        lemma_key_counts_empty(k, l);
        assert(hs =~= Seq::<Seq<char>>::empty());
        assert(hs.filter(|h: Seq<char>| k(h) is Some) =~= Seq::<Seq<char>>::empty()) by {
            reveal(Seq::filter);
        }
    } else {
        let t = hs.drop_last();
        let h = hs.last();
        assert(hs =~= t.push(h));
        assert forall|i: int| 0 <= i < t.len() implies (k(#[trigger] t[i]) matches Some(x) ==> l.contains(x)) by {
            assert(t[i] == hs[i]);
        }
        lemma_key_counts_total(t, k, l);
        lemma_key_counts_push(t, h, k, l);
        t.lemma_filter_push(h, |g: Seq<char>| k(g) is Some);
        lemma_occurrences(l, k(h));
        assert(k(hs[hs.len() - 1]) matches Some(x) ==> l.contains(x));
    }
}

/// Nodes with a key and nodes without one make up the whole.
proof fn lemma_filter_split(hs: Seq<Seq<char>>, p: spec_fn(Seq<char>) -> bool)
    ensures
        hs.filter(p).len() + hs.filter(|h: Seq<char>| !p(h)).len() == hs.len(),
    decreases hs.len(),
{
    if hs.len() == 0 {
        assert(hs.filter(p) =~= Seq::<Seq<char>>::empty()) by {
            reveal(Seq::filter);
        }
        assert(hs.filter(|h: Seq<char>| !p(h)) =~= Seq::<Seq<char>>::empty()) by {
            reveal(Seq::filter);
        }
    } else {
        let t = hs.drop_last();
        assert(hs =~= t.push(hs.last()));
        lemma_filter_split(t, p);
        t.lemma_filter_push(hs.last(), p);
        t.lemma_filter_push(hs.last(), |h: Seq<char>| !p(h));
    }
}

proof fn lemma_strictly_sorted_no_dups(l: Seq<Seq<char>>)
    requires
        strictly_sorted(l),
    ensures
        l.no_duplicates(),
{
    assert forall|i: int, j: int| 0 <= i < l.len() && 0 <= j < l.len() && i != j implies l[i] != l[j] by {
        if i < j {
            assert(crate::text::seq_lt(l[i], l[j]));
            if l[i] == l[j] {
                crate::order::lemma_lt_irrefl(l[i]);
            }
        } else {
            assert(crate::text::seq_lt(l[j], l[i]));
            if l[i] == l[j] {
                crate::order::lemma_lt_irrefl(l[i]);
            }
        }
    }
}

/// The key of a node for its cell: the cell of its switch.
spec fn cell_key(v: IRView) -> spec_fn(Seq<char>) -> Option<Seq<char>> {
    |h: Seq<char>| match resolve(v, h) {
        Some(p) => Some(sw_cell(v, p)),
        None => None,
    }
}

/// The key of a node for the switches of cell `c`: its switch, when in `c`.
spec fn switch_key(v: IRView, c: Seq<char>) -> spec_fn(Seq<char>) -> Option<Seq<char>> {
    |h: Seq<char>| match resolve(v, h) {
        Some(p) => if sw_cell(v, p) == c {
            Some(p)
        } else {
            None
        },
        None => None,
    }
}

proof fn lemma_group_total(v: IRView, hs: Seq<Seq<char>>, cl: Seq<Seq<char>>)
    ensures
        group_node_total(cl.map_values(|c: Seq<char>| group_spec(v, hs, c))) == key_counts(hs, cell_key(v), cl),
    decreases cl.len(),
{
    if cl.len() > 0 {
        let t = cl.drop_last();
        lemma_group_total(v, hs, t);
        assert(cl.map_values(|c: Seq<char>| group_spec(v, hs, c)).drop_last() =~= t.map_values(|c: Seq<char>| group_spec(v, hs, c)));
        let c = cl.last();
        assert((|h: Seq<char>| resolve(v, h) matches Some(p) && sw_cell(v, p) == c) =~= (|h: Seq<char>| cell_key(v)(h) == Some(c)));
    } else {
        assert(cl.map_values(|c: Seq<char>| group_spec(v, hs, c)) =~= Seq::<GroupStatsView>::empty());
    }
}

proof fn lemma_switch_total(v: IRView, hs: Seq<Seq<char>>, c: Seq<char>, sl: Seq<Seq<char>>)
    requires
        forall|i: int| 0 <= i < sl.len() ==> sw_cell(v, #[trigger] sl[i]) == c,
    ensures
        switch_node_total(sl.map_values(|p: Seq<char>| switch_spec(v, hs, p))) == key_counts(hs, switch_key(v, c), sl),
    decreases sl.len(),
{
    if sl.len() > 0 {
        let t = sl.drop_last();
        assert forall|i: int| 0 <= i < t.len() implies sw_cell(v, #[trigger] t[i]) == c by {
            assert(t[i] == sl[i]);
        }
        lemma_switch_total(v, hs, c, t);
        assert(sl.map_values(|p: Seq<char>| switch_spec(v, hs, p)).drop_last() =~= t.map_values(|p: Seq<char>| switch_spec(v, hs, p)));
        let p = sl.last();
        assert(sw_cell(v, sl[sl.len() - 1]) == c);
        assert((|h: Seq<char>| resolve(v, h) == Some(p)) =~= (|h: Seq<char>| switch_key(v, c)(h) == Some(p)));
    } else {
        assert(sl.map_values(|p: Seq<char>| switch_spec(v, hs, p)) =~= Seq::<SwitchStatsView>::empty());
    }
}

/// Each cell of a job counts the nodes of its switches.
proof fn lemma_cell_counts(v: IRView, hs: Seq<Seq<char>>, c: Seq<char>, sl: Seq<Seq<char>>)
    requires
        strictly_sorted(sl),
        sl.to_set() == cell_switches(v, hs, c),
    ensures
        nodes_in_cell(v, hs, c).len() == switch_node_total(sl.map_values(|p: Seq<char>| switch_spec(v, hs, p))),
{
    assert forall|i: int| 0 <= i < sl.len() implies sw_cell(v, #[trigger] sl[i]) == c by {
        assert(sl.to_set().contains(sl[i]));
    }
    lemma_switch_total(v, hs, c, sl);
    lemma_strictly_sorted_no_dups(sl);
    assert forall|i: int| 0 <= i < hs.len() implies (switch_key(v, c)(#[trigger] hs[i]) matches Some(x) ==> sl.contains(x)) by {
        match switch_key(v, c)(hs[i]) {
            Some(x) => {
                assert(used_switches(v, hs).contains(x));
                assert(cell_switches(v, hs, c).contains(x));
                assert(sl.to_set().contains(x));
            },
            None => {},
        }
    }
    lemma_key_counts_total(hs, switch_key(v, c), sl);
    assert((|h: Seq<char>| switch_key(v, c)(h) is Some) =~= (|h: Seq<char>| resolve(v, h) matches Some(p) && sw_cell(v, p) == c));
}

/// Every node of a job is counted once: in its cell, or as unresolved.
proof fn lemma_job_counts(v: IRView, hs: Seq<Seq<char>>, cl: Seq<Seq<char>>)
    requires
        strictly_sorted(cl),
        cl.to_set() == used_cells(v, hs),
    ensures
        hs.len() == group_node_total(cl.map_values(|c: Seq<char>| group_spec(v, hs, c))) + hs.filter(|h: Seq<char>| resolve(v, h) is None).len(),
{
    lemma_group_total(v, hs, cl);
    lemma_strictly_sorted_no_dups(cl);
    assert forall|i: int| 0 <= i < hs.len() implies (cell_key(v)(#[trigger] hs[i]) matches Some(x) ==> cl.contains(x)) by {
        match resolve(v, hs[i]) {
            Some(p) => {
                assert(used_switches(v, hs).contains(p));
                assert(used_cells(v, hs).contains(sw_cell(v, p)));
                assert(cl.to_set().contains(sw_cell(v, p)));
            },
            None => {},
        }
    }
    lemma_key_counts_total(hs, cell_key(v), cl);
    let some = |h: Seq<char>| cell_key(v)(h) is Some;
    lemma_filter_split(hs, some);
    assert((|h: Seq<char>| !some(h)) =~= (|h: Seq<char>| resolve(v, h) is None));
}

/// The entries of `hs` whose resolution `res` satisfies `keep`.
fn filter_hosts(hs: &Vec<String>, res: &Vec<Option<String>>, ir: &TopologyIR, keep: Ghost<spec_fn(Option<Seq<char>>) -> bool>, sel: &Option<String>, mode: u8) -> (r: Vec<String>)
    requires
        res@.len() == hs@.len(),
        forall|i: int| 0 <= i < res@.len() ==> crate::alps::opt_view(#[trigger] res@[i]) == resolve(ir@, hs@[i]@),
        mode == 0 ==> keep@ == (|o: Option<Seq<char>>| o is None),
        mode == 1 ==> sel is Some && keep@ == (|o: Option<Seq<char>>| o == Some(sel->Some_0@)),
        mode == 2 ==> sel is Some && keep@ == (|o: Option<Seq<char>>| o matches Some(p) && sw_cell(ir@, p) == sel->Some_0@),
        mode <= 2,
    ensures
        views(r@) == views(hs@).filter(|h: Seq<char>| keep@(resolve(ir@, h))),
{
    let ghost hv = views(hs@);
    let ghost pred = |h: Seq<char>| keep@(resolve(ir@, h));
    let mut out: Vec<String> = Vec::new();
    let mut i: usize = 0;
    assert(hv.take(0).filter(pred) == Seq::<Seq<char>>::empty()) by {
        reveal(Seq::filter);
    }
    while i < hs.len()
        invariant
            hv == views(hs@),
            pred == (|h: Seq<char>| keep@(resolve(ir@, h))),
            res@.len() == hs@.len(),
            forall|q: int| 0 <= q < res@.len() ==> crate::alps::opt_view(#[trigger] res@[q]) == resolve(ir@, hs@[q]@),
            mode == 0 ==> keep@ == (|o: Option<Seq<char>>| o is None),
            mode == 1 ==> sel is Some && keep@ == (|o: Option<Seq<char>>| o == Some(sel->Some_0@)),
            mode == 2 ==> sel is Some && keep@ == (|o: Option<Seq<char>>| o matches Some(p) && sw_cell(ir@, p) == sel->Some_0@),
            mode <= 2,
            i <= hv.len(),
            views(out@) == hv.take(i as int).filter(pred),
        decreases hs.len() - i,
    {
        assert(crate::alps::opt_view(res@[i as int]) == resolve(ir@, hv[i as int]));
        let hit = if mode == 0 {
            res[i].is_none()
        } else if mode == 1 {
            match (&res[i], sel) {
                (Some(p), Some(s)) => *p == *s,
                _ => false,
            }
        } else {
            match (&res[i], sel) {
                (Some(p), Some(s)) => {
                    let c = meta_value(ir, p, "cell", "?");
                    c == *s
                },
                _ => false,
            }
        };
        assert(hit == pred(hv[i as int]));
        proof {
            assert(hv.take(i + 1) == hv.take(i as int).push(hv[i as int]));
            hv.take(i as int).lemma_filter_push(hv[i as int], pred);
        }
        if hit {
            out.push(hs[i].clone());
        }
        i = i + 1;
    }
    assert(hv.take(i as int) == hv);
    out
}

/// The statistics of one job with nodes `hostnames`.
pub fn compute_job_stats(hostnames: &Vec<String>, ir: &TopologyIR) -> (r: JobStats)
    ensures
        job_stats_view(r) == job_spec(ir@, views(hostnames@)),
        counts_add_up(job_stats_view(r)),
{
    let (js, _cells, _switches) = job_stats_and_sets(hostnames, ir);
    js
}

/// The statistics of one job, with its cells and switches.
fn job_stats_and_sets(hostnames: &Vec<String>, ir: &TopologyIR) -> (r: (JobStats, Vec<String>, Vec<String>))
    ensures
        job_stats_view(r.0) == job_spec(ir@, views(hostnames@)),
        counts_add_up(job_stats_view(r.0)),
        views(r.1@).to_set() == used_cells(ir@, views(hostnames@)),
        views(r.2@).to_set() == used_switches(ir@, views(hostnames@)),
{
    let ghost v = ir@;
    let ghost hv = views(hostnames@);
    // Resolve every node.
    let mut res: Vec<Option<String>> = Vec::new();
    let mut i: usize = 0;
    while i < hostnames.len()
        invariant
            v == ir@,
            hv == views(hostnames@),
            i <= hv.len(),
            res@.len() == i,
            forall|q: int| 0 <= q < i ==> crate::alps::opt_view(#[trigger] res@[q]) == resolve(v, hostnames@[q]@),
        decreases hostnames.len() - i,
    {
        let r0 = resolve_host(ir, &hostnames[i]);
        let ghost prev = res@;
        res.push(r0);
        assert forall|q: int| 0 <= q < i + 1 implies crate::alps::opt_view(#[trigger] res@[q]) == resolve(v, hostnames@[q]@) by {
            if q < i {
                assert(res@[q] == prev[q]);
            }
        }
        i = i + 1;
    }
    let unresolved = filter_hosts(hostnames, &res, ir, Ghost(|o: Option<Seq<char>>| o is None), &None, 0);
    assert((|h: Seq<char>| (|o: Option<Seq<char>>| o is None)(resolve(v, h))) =~= (|h: Seq<char>| resolve(v, h) is None));
    // The used switches.
    let mut used: Vec<String> = Vec::new();
    let mut k: usize = 0;
    while k < res.len()
        invariant
            v == ir@,
            hv == views(hostnames@),
            res@.len() == hv.len(),
            forall|q: int| 0 <= q < res@.len() ==> crate::alps::opt_view(#[trigger] res@[q]) == resolve(v, hostnames@[q]@),
            k <= hv.len(),
            forall|p: Seq<char>| views(used@).contains(p) <==> exists|q: int| 0 <= q < k && resolve(v, hv[q]) == Some(p),
        decreases res.len() - k,
    {
        let ghost before = views(used@);
        assert(crate::alps::opt_view(res@[k as int]) == resolve(v, hv[k as int]));
        match &res[k] {
            Some(p) => {
                used.push(p.clone());
                assert(views(used@) == before.push(p@));
            },
            None => {},
        }
        assert forall|p: Seq<char>| views(used@).contains(p) <==> exists|q: int| 0 <= q < k + 1 && resolve(v, hv[q]) == Some(p) by {
            if exists|q: int| 0 <= q < k + 1 && resolve(v, hv[q]) == Some(p) {
                let q = choose|q: int| 0 <= q < k + 1 && resolve(v, hv[q]) == Some(p);
                if q < k {
                    assert(before.contains(p));
                }
            }
            if before.contains(p) {
                let q = choose|q: int| 0 <= q < k && resolve(v, hv[q]) == Some(p);
                assert(resolve(v, hv[q]) == Some(p));
            }
        }
        k = k + 1;
    }
    assert(views(used@).to_set() =~= used_switches(v, hv));
    let switches = sorted_set_of(&used);
    // Their cells.
    let mut cells_all: Vec<String> = Vec::new();
    let mut t: usize = 0;
    while t < switches.len()
        invariant
            v == ir@,
            hv == views(hostnames@),
            views(switches@).to_set() == used_switches(v, hv),
            t <= switches@.len(),
            forall|c: Seq<char>| views(cells_all@).contains(c) <==> exists|q: int| 0 <= q < t && sw_cell(v, views(switches@)[q]) == c,
        decreases switches.len() - t,
    {
        let ghost before = views(cells_all@);
        let c = meta_value(ir, &switches[t], "cell", "?");
        cells_all.push(c);
        assert(views(cells_all@) == before.push(sw_cell(v, views(switches@)[t as int])));
        assert forall|c2: Seq<char>| views(cells_all@).contains(c2) <==> exists|q: int| 0 <= q < t + 1 && sw_cell(v, views(switches@)[q]) == c2 by {
            if exists|q: int| 0 <= q < t + 1 && sw_cell(v, views(switches@)[q]) == c2 {
                let q = choose|q: int| 0 <= q < t + 1 && sw_cell(v, views(switches@)[q]) == c2;
                if q < t {
                    assert(before.contains(c2));
                }
            }
            if before.contains(c2) {
                let q = choose|q: int| 0 <= q < t && sw_cell(v, views(switches@)[q]) == c2;
                assert(sw_cell(v, views(switches@)[q]) == c2);
            }
        }
        t = t + 1;
    }
    assert forall|c: Seq<char>| #[trigger] views(cells_all@).to_set().contains(c) == used_cells(v, hv).contains(c) by {
        if views(cells_all@).contains(c) {
            let q = choose|q: int| 0 <= q < t && sw_cell(v, views(switches@)[q]) == c;
            assert(views(switches@).to_set().contains(views(switches@)[q]));
        }
        if used_cells(v, hv).contains(c) {
            let p = choose|p: Seq<char>| used_switches(v, hv).contains(p) && sw_cell(v, p) == c;
            assert(views(switches@).to_set().contains(p));
            let q = choose|q: int| 0 <= q < views(switches@).len() && views(switches@)[q] == p;
            assert(sw_cell(v, views(switches@)[q]) == c);
        }
    }
    assert(views(cells_all@).to_set() =~= used_cells(v, hv));
    let cells = sorted_set_of(&cells_all);
    let ghost cl = views(cells@);
    // One group per cell.
    let mut groups: Vec<GroupStats> = Vec::new();
    let mut g: usize = 0;
    while g < cells.len()
        invariant
            v == ir@,
            hv == views(hostnames@),
            res@.len() == hv.len(),
            forall|q: int| 0 <= q < res@.len() ==> crate::alps::opt_view(#[trigger] res@[q]) == resolve(v, hostnames@[q]@),
            views(switches@).to_set() == used_switches(v, hv),
            cl == views(cells@),
            g <= cl.len(),
            groups@.map_values(|x: GroupStats| group_stats_view(x)) == cl.take(g as int).map_values(|c: Seq<char>| group_spec(v, hv, c)),
            forall|i: int| 0 <= i < g ==> #[trigger] group_spec(v, hv, cl[i]).2 == switch_node_total(group_spec(v, hv, cl[i]).3),
        decreases cells.len() - g,
    {
        let cell = &cells[g];
        // The used switches of this cell.
        let mut mine: Vec<String> = Vec::new();
        let mut q: usize = 0;
        while q < switches.len()
            invariant
                v == ir@,
                views(switches@).to_set() == used_switches(v, hv),
                q <= switches@.len(),
                forall|p: Seq<char>| views(mine@).contains(p) <==> exists|w: int| 0 <= w < q && views(switches@)[w] == p && sw_cell(v, p) == cell@,
            decreases switches.len() - q,
        {
            let ghost before = views(mine@);
            let c = meta_value(ir, &switches[q], "cell", "?");
            if c == *cell {
                mine.push(switches[q].clone());
                assert(views(mine@) == before.push(views(switches@)[q as int]));
            }
            assert forall|p: Seq<char>| views(mine@).contains(p) <==> exists|w: int| 0 <= w < q + 1 && views(switches@)[w] == p && sw_cell(v, p) == cell@ by {
                if exists|w: int| 0 <= w < q + 1 && views(switches@)[w] == p && sw_cell(v, p) == cell@ {
                    let w = choose|w: int| 0 <= w < q + 1 && views(switches@)[w] == p && sw_cell(v, p) == cell@;
                    if w < q {
                        assert(before.contains(p));
                    }
                }
                if before.contains(p) {
                    let w = choose|w: int| 0 <= w < q && views(switches@)[w] == p && sw_cell(v, p) == cell@;
                    assert(views(switches@)[w] == p);
                }
            }
            q = q + 1;
        }
        assert forall|p: Seq<char>| #[trigger] views(mine@).to_set().contains(p) == cell_switches(v, hv, cell@).contains(p) by {
            if views(mine@).contains(p) {
                let w = choose|w: int| 0 <= w < q && views(switches@)[w] == p && sw_cell(v, p) == cell@;
                assert(views(switches@).to_set().contains(views(switches@)[w]));
            }
            if cell_switches(v, hv, cell@).contains(p) {
                assert(views(switches@).to_set().contains(p));
                let w = choose|w: int| 0 <= w < views(switches@).len() && views(switches@)[w] == p;
                assert(views(switches@)[w] == p);
            }
        }
        assert(views(mine@).to_set() =~= cell_switches(v, hv, cell@));
        let sws = sorted_set_of(&mine);
        let ghost sl = views(sws@);
        proof {
            lemma_cell_counts(v, hv, cell@, sl);
        }
        let mut stats: Vec<SwitchStats> = Vec::new();
        let mut w: usize = 0;
        while w < sws.len()
            invariant
                v == ir@,
                hv == views(hostnames@),
                res@.len() == hv.len(),
                forall|q2: int| 0 <= q2 < res@.len() ==> crate::alps::opt_view(#[trigger] res@[q2]) == resolve(v, hostnames@[q2]@),
                sl == views(sws@),
                w <= sl.len(),
                stats@.map_values(|x: SwitchStats| switch_stats_view(x)) == sl.take(w as int).map_values(|p: Seq<char>| switch_spec(v, hv, p)),
            decreases sws.len() - w,
        {
            let p = &sws[w];
            let sel = Some(p.clone());
            let nodes = filter_hosts(hostnames, &res, ir, Ghost(|o: Option<Seq<char>>| o == Some(p@)), &sel, 1);
            assert((|h: Seq<char>| (|o: Option<Seq<char>>| o == Some(p@))(resolve(v, h))) =~= (|h: Seq<char>| resolve(v, h) == Some(p@)));
            let cell_p = meta_value(ir, p, "cell", "?");
            let rack_p = meta_value(ir, p, "rack", "?");
            let n = nodes.len();
            let st = SwitchStats { switch_id: p.clone(), cell: cell_p, rack: rack_p, nodes, node_count: n };
            assert(switch_stats_view(st) == switch_spec(v, hv, sl[w as int]));
            let ghost prev = stats@;
            stats.push(st);
            proof {
                assert(sl.take(w + 1) == sl.take(w as int).push(sl[w as int]));
                assert(stats@.map_values(|x: SwitchStats| switch_stats_view(x)) =~= prev.map_values(|x: SwitchStats| switch_stats_view(x)).push(switch_stats_view(st)));
                assert(sl.take(w + 1).map_values(|p: Seq<char>| switch_spec(v, hv, p)) =~= sl.take(w as int).map_values(|p: Seq<char>| switch_spec(v, hv, p)).push(switch_spec(v, hv, sl[w as int])));
            }
            w = w + 1;
        }
        assert(sl.take(w as int) == sl);
        let csel = Some(cell.clone());
        let in_cell = filter_hosts(hostnames, &res, ir, Ghost(|o: Option<Seq<char>>| o matches Some(p) && sw_cell(v, p) == cell@), &csel, 2);
        assert((|h: Seq<char>| (|o: Option<Seq<char>>| o matches Some(p) && sw_cell(v, p) == cell@)(resolve(v, h))) =~= (|h: Seq<char>| resolve(v, h) matches Some(p) && sw_cell(v, p) == cell@));
        let sc = stats.len();
        let gs = GroupStats { cell: cell.clone(), switch_count: sc, node_count: in_cell.len(), switches: stats };
        assert(group_stats_view(gs) == group_spec(v, hv, cl[g as int]));
        let ghost prev = groups@;
        groups.push(gs);
        proof {
            assert(cl.take(g + 1) == cl.take(g as int).push(cl[g as int]));
            assert(groups@.map_values(|x: GroupStats| group_stats_view(x)) =~= prev.map_values(|x: GroupStats| group_stats_view(x)).push(group_stats_view(gs)));
            assert(cl.take(g + 1).map_values(|c: Seq<char>| group_spec(v, hv, c)) =~= cl.take(g as int).map_values(|c: Seq<char>| group_spec(v, hv, c)).push(group_spec(v, hv, cl[g as int])));
        }
        g = g + 1;
    }
    assert(cl.take(g as int) == cl);
    proof {
        lemma_job_counts(v, hv, cl);
        let j = job_spec(v, hv);
        assert(j.3 == cl.map_values(|c: Seq<char>| group_spec(v, hv, c)));
        assert forall|i: int| 0 <= i < j.3.len() implies #[trigger] j.3[i].2 == switch_node_total(j.3[i].3) by {
            assert(j.3[i] == group_spec(v, hv, cl[i]));
        }
    }
    let gc = groups.len();
    let sc = switches.len();
    (JobStats {
        total_nodes: hostnames.len(),
        group_count: gc,
        total_switch_count: sc,
        groups,
        unresolved_nodes: unresolved,
    }, cells, switches)
}

/// An allocation as text: job names and their node names.
pub open spec fn alloc_view(a: Seq<(String, Vec<String>)>) -> Seq<(Seq<char>, Seq<Seq<char>>)> {
    a.map_values(|j: (String, Vec<String>)| (j.0@, views(j.1@)))
}

/// The number of nodes over all jobs.
pub open spec fn total_hosts(a: Seq<(Seq<char>, Seq<Seq<char>>)>) -> nat
    decreases a.len(),
{
    if a.len() == 0 {
        0
    } else {
        total_hosts(a.drop_last()) + a.last().1.len()
    }
}

/// The cells any job uses.
pub open spec fn all_cells(v: IRView, a: Seq<(Seq<char>, Seq<Seq<char>>)>) -> Set<Seq<char>> {
    Set::new(|c: Seq<char>| exists|i: int| 0 <= i < a.len() && used_cells(v, a[i].1).contains(c))
}

/// The L1 switches any job uses.
pub open spec fn all_switches(v: IRView, a: Seq<(Seq<char>, Seq<Seq<char>>)>) -> Set<Seq<char>> {
    Set::new(|p: Seq<char>| exists|i: int| 0 <= i < a.len() && used_switches(v, a[i].1).contains(p))
}

/// Statistics of an allocation: job count, node count, cells, switches,
/// per-job statistics.
pub type PlacementStatsView = (nat, nat, Seq<Seq<char>>, Seq<Seq<char>>, Seq<(Seq<char>, JobStatsView)>);

pub open spec fn placement_stats_view(s: PlacementStats) -> PlacementStatsView {
    (
        s.job_count as nat,
        s.total_nodes as nat,
        views(s.distinct_groups@),
        views(s.distinct_switches@),
        s.jobs@.map_values(|j: (String, JobStats)| (j.0@, job_stats_view(j.1))),
    )
}

/// The statistics of an allocation.
pub open spec fn placement_spec(v: IRView, a: Seq<(Seq<char>, Seq<Seq<char>>)>) -> PlacementStatsView {
    (
        a.len(),
        total_hosts(a),
        sorted_list(all_cells(v, a)),
        sorted_list(all_switches(v, a)),
        a.map_values(|j: (Seq<char>, Seq<Seq<char>>)| (j.0, job_spec(v, j.1))),
    )
}

impl PlacementStats {
    /// Statistics of `allocation` (job name and its nodes, by job name)
    /// over the topology `ir`.
    pub fn compute(ir: &TopologyIR, allocation: &Vec<(String, Vec<String>)>) -> (r: PlacementStats)
        requires
            total_hosts(alloc_view(allocation@)) <= usize::MAX,
        ensures
            placement_stats_view(r) == placement_spec(ir@, alloc_view(allocation@)),
            placement_counts_add_up(placement_stats_view(r)),
    {
        let ghost v = ir@;
        let ghost a = alloc_view(allocation@);
        let mut jobs: Vec<(String, JobStats)> = Vec::new();
        let mut cells: Vec<String> = Vec::new();
        let mut switches: Vec<String> = Vec::new();
        let mut total: usize = 0;
        let ghost cset = |q: int| used_cells(v, a[q].1);
        let ghost sset = |q: int| used_switches(v, a[q].1);
        let mut i: usize = 0;
        assert(a.take(0) == Seq::<(Seq<char>, Seq<Seq<char>>)>::empty());
        while i < allocation.len()
            invariant
                v == ir@,
                a == alloc_view(allocation@),
                cset == (|q: int| used_cells(v, a[q].1)),
                sset == (|q: int| used_switches(v, a[q].1)),
                total_hosts(a) <= usize::MAX,
                i <= a.len(),
                total == total_hosts(a.take(i as int)),
                jobs@.map_values(|j: (String, JobStats)| (j.0@, job_stats_view(j.1))) == a.take(i as int).map_values(|j: (Seq<char>, Seq<Seq<char>>)| (j.0, job_spec(v, j.1))),
                forall|q: int| 0 <= q < i ==> counts_add_up(#[trigger] job_spec(v, a[q].1)),
                forall|c: Seq<char>| #[trigger] views(cells@).contains(c) <==> exists|q: int| 0 <= q < i && #[trigger] cset(q).contains(c),
                forall|p: Seq<char>| #[trigger] views(switches@).contains(p) <==> exists|q: int| 0 <= q < i && #[trigger] sset(q).contains(p),
            decreases allocation.len() - i,
        {
            let (js, jc, jsw) = job_stats_and_sets(&allocation[i].1, ir);
            assert(views(allocation@[i as int].1@) == a[i as int].1);
            proof {
                assert(a.take(i + 1).drop_last() == a.take(i as int));
                assert(a.take(i + 1).last() == a[i as int]);
                lemma_total_prefix(a, i + 1);
            }
            total = total + allocation[i].1.len();
            let ghost c0 = views(cells@);
            let ghost s0 = views(switches@);
            append_names(&mut cells, &jc);
            append_names(&mut switches, &jsw);
            proof {
                assert(a[i as int].1 == views(allocation@[i as int].1@));
                lemma_union_step(c0, views(jc@), cset, i as int);
                lemma_union_step(s0, views(jsw@), sset, i as int);
            }
            let ghost prev = jobs@;
            jobs.push((allocation[i].0.clone(), js));
            proof {
                assert(a.take(i + 1) == a.take(i as int).push(a[i as int]));
                assert(jobs@.map_values(|j: (String, JobStats)| (j.0@, job_stats_view(j.1))) =~= prev.map_values(|j: (String, JobStats)| (j.0@, job_stats_view(j.1))).push((a[i as int].0, job_spec(v, a[i as int].1))));
                assert(a.take(i + 1).map_values(|j: (Seq<char>, Seq<Seq<char>>)| (j.0, job_spec(v, j.1))) =~= a.take(i as int).map_values(|j: (Seq<char>, Seq<Seq<char>>)| (j.0, job_spec(v, j.1))).push((a[i as int].0, job_spec(v, a[i as int].1))));
            }
            i = i + 1;
        }
        assert(a.take(i as int) == a);
        assert forall|c: Seq<char>| #[trigger] views(cells@).to_set().contains(c) == all_cells(v, a).contains(c) by {
            if views(cells@).contains(c) {
                let q = choose|q: int| 0 <= q < i && #[trigger] cset(q).contains(c);
                assert(used_cells(v, a[q].1).contains(c));
            }
            if all_cells(v, a).contains(c) {
                let q = choose|q: int| 0 <= q < a.len() && used_cells(v, a[q].1).contains(c);
                assert(cset(q).contains(c));
            }
        }
        assert forall|p: Seq<char>| #[trigger] views(switches@).to_set().contains(p) == all_switches(v, a).contains(p) by {
            if views(switches@).contains(p) {
                let q = choose|q: int| 0 <= q < i && #[trigger] sset(q).contains(p);
                assert(used_switches(v, a[q].1).contains(p));
            }
            if all_switches(v, a).contains(p) {
                let q = choose|q: int| 0 <= q < a.len() && used_switches(v, a[q].1).contains(p);
                assert(sset(q).contains(p));
            }
        }
        assert(views(cells@).to_set() =~= all_cells(v, a));
        assert(views(switches@).to_set() =~= all_switches(v, a));
        let distinct_groups = sorted_set_of(&cells);
        let distinct_switches = sorted_set_of(&switches);
        let jc = jobs.len();
        proof {
            lemma_jobs_total(v, a);
            let js = a.map_values(|j: (Seq<char>, Seq<Seq<char>>)| (j.0, job_spec(v, j.1)));
            assert forall|q: int| 0 <= q < js.len() implies counts_add_up(#[trigger] js[q].1) by {
                assert(js[q].1 == job_spec(v, a[q].1));
            }
        }
        PlacementStats { job_count: jc, total_nodes: total, distinct_groups, distinct_switches, jobs }
    }
}

/// The node counts of the jobs, added up.
pub open spec fn jobs_node_total(js: Seq<(Seq<char>, JobStatsView)>) -> nat
    decreases js.len(),
{
    if js.len() == 0 {
        0
    } else {
        jobs_node_total(js.drop_last()) + js.last().1.0
    }
}

/// The counts of an allocation add up: the total is the sum of the jobs'
/// node counts, and each job's counts add up.
pub open spec fn placement_counts_add_up(p: PlacementStatsView) -> bool {
    &&& p.1 == jobs_node_total(p.4)
    &&& forall|q: int| 0 <= q < p.4.len() ==> counts_add_up(#[trigger] p.4[q].1)
}

proof fn lemma_jobs_total(v: IRView, a: Seq<(Seq<char>, Seq<Seq<char>>)>)
    ensures
        total_hosts(a) == jobs_node_total(a.map_values(|j: (Seq<char>, Seq<Seq<char>>)| (j.0, job_spec(v, j.1)))),
    decreases a.len(),
{
    if a.len() > 0 {
        lemma_jobs_total(v, a.drop_last());
        assert(a.map_values(|j: (Seq<char>, Seq<Seq<char>>)| (j.0, job_spec(v, j.1))).drop_last() =~= a.drop_last().map_values(
            |j: (Seq<char>, Seq<Seq<char>>)| (j.0, job_spec(v, j.1)),
        ));
    } else {
        assert(a.map_values(|j: (Seq<char>, Seq<Seq<char>>)| (j.0, job_spec(v, j.1))) =~= Seq::<(Seq<char>, JobStatsView)>::empty());
    }
}

/// Every prefix has no more nodes than the whole.
proof fn lemma_total_prefix(a: Seq<(Seq<char>, Seq<Seq<char>>)>, k: int)
    requires
        0 <= k <= a.len(),
    ensures
        total_hosts(a.take(k)) <= total_hosts(a),
    decreases a.len() - k,
{
    if k < a.len() {
        assert(a.take(k + 1).drop_last() == a.take(k));
        lemma_total_prefix(a, k + 1);
    } else {
        assert(a.take(k) == a);
    }
}

/// Append names.
fn append_names(dst: &mut Vec<String>, src: &Vec<String>)
    ensures
        views(final(dst)@) == views(old(dst)@) + views(src@),
{
    let ghost d0 = views(dst@);
    let mut k: usize = 0;
    while k < src.len()
        invariant
            k <= src@.len(),
            views(dst@) == d0 + views(src@).take(k as int),
        decreases src.len() - k,
    {
        let ghost before = views(dst@);
        dst.push(src[k].clone());
        assert(views(dst@) == before.push(views(src@)[k as int]));
        assert(views(src@).take(k + 1) == views(src@).take(k as int).push(views(src@)[k as int]));
        k = k + 1;
    }
    assert(views(src@).take(k as int) == views(src@));
}

/// The names collected so far, then those of one more set, are the union
/// of the sets.
proof fn lemma_union_step(c0: Seq<Seq<char>>, add: Seq<Seq<char>>, sets: spec_fn(int) -> Set<Seq<char>>, i: int)
    requires
        0 <= i,
        forall|c: Seq<char>| #[trigger] c0.contains(c) <==> exists|q: int| 0 <= q < i && #[trigger] sets(q).contains(c),
        add.to_set() == sets(i),
    ensures
        forall|c: Seq<char>| #[trigger] (c0 + add).contains(c) <==> exists|q: int| 0 <= q < i + 1 && #[trigger] sets(q).contains(c),
{
    let n = c0 + add;
    assert forall|c: Seq<char>| #[trigger] n.contains(c) implies exists|q: int| 0 <= q < i + 1 && #[trigger] sets(q).contains(c) by {
        let t = choose|t: int| 0 <= t < n.len() && n[t] == c;
        if t < c0.len() {
            assert(c0[t] == c);
            assert(c0.contains(c));
            let q = choose|q: int| 0 <= q < i && #[trigger] sets(q).contains(c);
            assert(0 <= q < i + 1 && sets(q).contains(c));
            assert(exists|q2: int| 0 <= q2 < i + 1 && #[trigger] sets(q2).contains(c));
        } else {
            assert(add[t - c0.len()] == c);
            assert(add.contains(c));
            assert(add.to_set().contains(c));
            assert(sets(i).contains(c));
            assert(exists|q2: int| 0 <= q2 < i + 1 && #[trigger] sets(q2).contains(c));
        }
    }
    assert forall|c: Seq<char>| (exists|q: int| 0 <= q < i + 1 && #[trigger] sets(q).contains(c)) implies #[trigger] n.contains(c) by {
        let q = choose|q: int| 0 <= q < i + 1 && #[trigger] sets(q).contains(c);
        if q == i {
            assert(add.to_set().contains(c));
            assert(add.contains(c));
            let t = choose|t: int| 0 <= t < add.len() && add[t] == c;
            assert(n[c0.len() + t] == c);
        } else {
            assert(c0.contains(c));
            let t = choose|t: int| 0 <= t < c0.len() && c0[t] == c;
            assert(n[t] == c);
        }
    }
}
} // verus!
