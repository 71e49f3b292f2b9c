//! The compute nodes of a topology arranged for placement: one pool per L1
//! switch, ordered by group (cell), rack and switch, with the groups listed.
use vstd::prelude::*;
use vstd::string::*;
use vstd::hash_map::StringHashMap;
use crate::ir::{id_views, EntityKind, Id, NameSet, TopologyIR};
use crate::text::{chars_of, chars_lt, seq_lt};

verus! {

broadcast use vstd::seq_lib::group_seq_properties;

/// The free-standing view of one L1 switch: where it sits and the compute
/// nodes under it.
#[derive(Debug)]
pub struct L1Pool {
    /// The switch's `cell` metadata, or `ungrouped`.
    pub cell: String,
    /// Whether the switch has `cell` metadata.
    pub has_cell: bool,
    /// The switch's `rack` metadata, or `?`.
    pub rack: String,
    pub id: Id,
    pub nodes: Vec<Id>,
}

/// The compute nodes of a topology arranged by group, rack and L1 switch.
#[derive(Debug)]
pub struct TopoView {
    /// One pool per L1 switch, ordered by (cell, rack, switch id).
    pub pools: Vec<L1Pool>,
    /// The pools of each group (cell), groups in order of name.
    pub cells: Vec<Vec<usize>>,
}

/// A node of the view: pool index and position in the pool.
pub type NodeRef = (usize, usize);

impl TopoView {
    pub open spec fn valid(self, r: NodeRef) -> bool {
        r.0 < self.pools@.len() && r.1 < self.pools@[r.0 as int].nodes@.len()
    }

    /// The name of a node.
    pub open spec fn node(self, r: NodeRef) -> Seq<char> {
        self.pools@[r.0 as int].nodes@[r.1 as int]@
    }

    pub open spec fn cell(self, p: int) -> Seq<char> {
        self.pools@[p].cell@
    }

    /// Every group lists pools of one cell, in increasing order; groups have
    /// different cells and together list every pool.
    pub open spec fn cells_ok(self) -> bool {
        &&& forall|g: int| 0 <= g < self.cells@.len() ==> #[trigger] self.cells@[g]@.len() > 0
        &&& forall|g: int, i: int|
            0 <= g < self.cells@.len() && 0 <= i < self.cells@[g]@.len() ==> #[trigger] self.cells@[g]@[i]
                < self.pools@.len() && self.cell(self.cells@[g]@[i] as int) == self.cell(
                self.cells@[g]@[0] as int,
            )
        &&& forall|g: int, i: int, j: int|
            0 <= g < self.cells@.len() && 0 <= i < j < self.cells@[g]@.len()
                ==> #[trigger] self.cells@[g]@[i] < #[trigger] self.cells@[g]@[j]
        &&& forall|g1: int, g2: int|
            0 <= g1 < g2 < self.cells@.len() ==> self.cell(#[trigger] self.cells@[g1]@[0] as int)
                != self.cell(#[trigger] self.cells@[g2]@[0] as int)
        &&& forall|p: int| 0 <= p < self.pools@.len() ==> #[trigger] listed(self.cells@, p)
    }

    /// No node is listed twice, and the groups are consistent.
    pub open spec fn wf(self) -> bool {
        &&& forall|a: NodeRef, b: NodeRef|
            self.valid(a) && self.valid(b) && a != b ==> #[trigger] self.node(a) != #[trigger] self.node(
                b,
            )
        &&& self.cells_ok()
    }
}

/// Pool `p` is in some group.
pub open spec fn listed(cells: Seq<Vec<usize>>, p: int) -> bool {
    exists|g: int, i: int| 0 <= g < cells.len() && 0 <= i < cells[g]@.len() && #[trigger] cells[g]@[i] == p
}

/// Whether `x` is a compute node under switch `sw` in `ir`.
pub open spec fn compute_child(ir: crate::ir::IRView, sw: Seq<char>, x: Seq<char>) -> bool {
    &&& ir.children(sw).contains(x)
    &&& ir.entity(x) matches Some(e) && e.1 is Compute
}

/// Whether `sw` is an L1 switch of `ir`.
pub open spec fn l1_switch(ir: crate::ir::IRView, sw: Seq<char>) -> bool {
    ir.entity(sw) matches Some(e) && e.1 == EntityKind::Switch { level: Some(0) }
}

/// Every pool is an L1 switch of `ir` and holds compute nodes under it.
pub open spec fn view_sound(v: TopoView, ir: crate::ir::IRView) -> bool {
    &&& forall|p: int| 0 <= p < v.pools@.len() ==> l1_switch(ir, #[trigger] v.pools@[p].id@)
    &&& forall|r: NodeRef| v.valid(r) ==> compute_child(ir, v.pools@[r.0 as int].id@, #[trigger] v.node(r))
}

/// The pool holds every compute node under its switch.
pub open spec fn holds_all(ir: crate::ir::IRView, pool: L1Pool) -> bool {
    forall|x: Seq<char>| compute_child(ir, pool.id@, x) ==> exists|k: int| 0 <= k < pool.nodes@.len() && #[trigger] pool.nodes@[k]@ == x
}

/// Some pool is that of switch `sw`.
pub open spec fn has_pool(pools: Seq<L1Pool>, sw: Seq<char>) -> bool {
    exists|p: int| 0 <= p < pools.len() && #[trigger] pools[p].id@ == sw
}

/// Every L1 switch of `ir` has a pool, and every compute node under an L1
/// switch is in the view.
pub open spec fn view_complete(v: TopoView, ir: crate::ir::IRView) -> bool {
    &&& forall|sw: Seq<char>| l1_switch(ir, sw) ==> #[trigger] has_pool(v.pools@, sw)
    &&& forall|sw: Seq<char>, x: Seq<char>|
        l1_switch(ir, sw) && #[trigger] compute_child(ir, sw, x) ==> exists|r: NodeRef| v.valid(r) && #[trigger] v.node(r) == x
}

/// Strict order of pools by (cell, rack, switch id).
pub open spec fn pool_lt(a: &L1Pool, b: &L1Pool) -> bool {
    ||| seq_lt(a.cell@, b.cell@)
    ||| (a.cell@ == b.cell@ && seq_lt(a.rack@, b.rack@))
    ||| (a.cell@ == b.cell@ && a.rack@ == b.rack@ && seq_lt(a.id@, b.id@))
}

fn pool_less(a: &L1Pool, b: &L1Pool) -> (r: bool)
    ensures
        r == pool_lt(a, b),
{
    let ac = chars_of(a.cell.as_str());
    let bc = chars_of(b.cell.as_str());
    if chars_lt(ac.as_slice(), bc.as_slice()) {
        return true;
    }
    if a.cell != b.cell {
        return false;
    }
    let ar = chars_of(a.rack.as_str());
    let br = chars_of(b.rack.as_str());
    if chars_lt(ar.as_slice(), br.as_slice()) {
        return true;
    }
    if a.rack != b.rack {
        return false;
    }
    let ai = chars_of(a.id.0.as_str());
    let bi = chars_of(b.id.0.as_str());
    chars_lt(ai.as_slice(), bi.as_slice())
}

fn same_key(a: &L1Pool, b: &L1Pool) -> (r: bool)
    ensures
        r == (a.cell@ == b.cell@ && a.rack@ == b.rack@ && a.id@ == b.id@),
{
    a.cell == b.cell && a.rack == b.rack && a.id.same(&b.id)
}

/// The metadata value of `key`, or `dflt` when absent.
fn meta_or(m: &crate::kv::StrMap, key: &str, dflt: &str) -> (r: (String, bool))
    ensures
        r.1 == m@.contains_key(key@),
        r.0@ == (if m@.contains_key(key@) {
            m@[key@]
        } else {
            dflt@
        }),
{
    match m.get(key) {
        Some(v) => (v.clone(), true),
        None => (String::from_str(dflt), false),
    }
}

impl TopoView {
    /// Arrange the compute nodes of `ir` by group, rack and L1 switch.  A node
    /// listed under several switches is kept under the first in pool order.
    pub fn build(ir: &TopologyIR) -> (v: TopoView)
        ensures
            v.wf(),
            view_sound(v, ir@),
            view_complete(v, ir@),
    {
        // One pool per L1 switch, kept sorted by key.
        let mut sorted: Vec<L1Pool> = Vec::new();
        let mut i: usize = 0;
        while i < ir.entities.len()
            invariant
                i <= ir@.entities.len(),
                forall|p: int| 0 <= p < sorted@.len() ==> l1_switch(ir@, #[trigger] sorted@[p].id@),
                forall|p: int, k: int|
                    0 <= p < sorted@.len() && 0 <= k < sorted@[p].nodes@.len() ==> compute_child(
                        ir@,
                        sorted@[p].id@,
                        #[trigger] sorted@[p].nodes@[k]@,
                    ),
                forall|p: int| 0 <= p < sorted@.len() ==> holds_all(ir@, #[trigger] sorted@[p]),
                forall|j: int|
                    0 <= j < i && l1_switch(ir@, #[trigger] ir@.entities[j].0) && crate::ir::entity_pos(ir@.entities, ir@.entities[j].0)
                        == Some(j as nat) ==> has_pool(sorted@, ir@.entities[j].0),
            decreases ir.entities.len() - i,
        {
            let e = &ir.entities[i];
            if e.kind == (EntityKind::Switch { level: Some(0) }) {
                proof {
                    crate::ir::lemma_pos_props(ir@.entities, e.id@);
                    assert(ir@.entities[i as int].0 == e.id@);
                }
                let ent = ir.get_entity(&e.id);
                let is_l1 = match ent {
                    Some(x) => x.kind == (EntityKind::Switch { level: Some(0) }),
                    None => false,
                };
                // The first entity with this id is the one the topology knows.
                if is_l1 {
                    let (cell, has_cell) = meta_or(&e.meta, "cell", "ungrouped");
                    let (rack, _) = meta_or(&e.meta, "rack", "?");
                    let mut nodes: Vec<Id> = Vec::new();
                    match ir.children_of(&e.id) {
                        Some(children) => {
                            let mut c: usize = 0;
                            while c < children.len()
                                invariant
                                    c <= children@.len(),
                                    id_views(children@) == ir@.children(e.id@),
                                    forall|k: int|
                                        0 <= k < nodes@.len() ==> compute_child(
                                            ir@,
                                            e.id@,
                                            #[trigger] nodes@[k]@,
                                        ),
                                    forall|k2: int|
                                        0 <= k2 < c && (ir@.entity(#[trigger] children@[k2]@) matches Some(x) && x.1 is Compute)
                                            ==> exists|m: int| 0 <= m < nodes@.len() && nodes@[m]@ == children@[k2]@,
                                decreases children.len() - c,
                            {
                                let is_compute = match ir.get_entity(&children[c]) {
                                    Some(x) => x.kind == EntityKind::Compute,
                                    None => false,
                                };
                                if is_compute {
                                    let ghost prev = nodes@;
                                    nodes.push(children[c].copy());
                                    assert(nodes@[prev.len() as int]@ == children@[c as int]@);
                                    assert forall|k2: int|
                                        0 <= k2 < c + 1 && (ir@.entity(#[trigger] children@[k2]@) matches Some(x) && x.1 is Compute)
                                            implies exists|m: int| 0 <= m < nodes@.len() && nodes@[m]@ == children@[k2]@ by {
                                        if k2 < c {
                                            let m = choose|m: int| 0 <= m < prev.len() && prev[m]@ == children@[k2]@;
                                            assert(nodes@[m] == prev[m]);
                                        }
                                    }
                                    assert(ir@.children(e.id@)[c as int] == children@[c as int]@);
                                    assert forall|k: int| 0 <= k < nodes@.len() implies compute_child(
                                        ir@,
                                        e.id@,
                                        #[trigger] nodes@[k]@,
                                    ) by {
                                        if k < prev.len() {
                                            assert(nodes@[k] == prev[k]);
                                        }
                                    }
                                }
                                c = c + 1;
                            }
                            assert forall|x: Seq<char>| compute_child(ir@, e.id@, x) implies exists|k: int|
                                0 <= k < nodes@.len() && #[trigger] nodes@[k]@ == x by {
                                let k2 = choose|k2: int| 0 <= k2 < ir@.children(e.id@).len() && ir@.children(e.id@)[k2] == x;
                                assert(children@[k2]@ == x);
                            }
                        },
                        None => {
                            assert forall|x: Seq<char>| compute_child(ir@, e.id@, x) implies exists|k: int|
                                0 <= k < nodes@.len() && #[trigger] nodes@[k]@ == x by {
                                assert(ir@.children(e.id@).len() == 0);
                            }
                        },
                    }
                    let ghost nv = nodes@;
                    assert(forall|x: Seq<char>| compute_child(ir@, e.id@, x) ==> exists|k: int|
                        0 <= k < nv.len() && #[trigger] nv[k]@ == x);
                    let pool = L1Pool { cell, has_cell, rack, id: e.id.copy(), nodes };
                    assert forall|x: Seq<char>| compute_child(ir@, pool.id@, x) implies exists|k: int|
                        0 <= k < pool.nodes@.len() && #[trigger] pool.nodes@[k]@ == x by {
                        assert(pool.nodes@ == nv);
                        let k = choose|k: int| 0 <= k < nv.len() && #[trigger] nv[k]@ == x;
                        assert(pool.nodes@[k]@ == x);
                    }
                    assert(holds_all(ir@, pool));
                    let mut q: usize = 0;
                    while q < sorted.len() && pool_less(&sorted[q], &pool)
                        invariant
                            q <= sorted@.len(),
                        decreases sorted.len() - q,
                    {
                        q = q + 1;
                    }
                    let ghost before = sorted@;
                    let ghost pv = pool;
                    let ghost mut did_set = false;
                    if q < sorted.len() && same_key(&sorted[q], &pool) {
                        sorted.set(q, pool);
                        proof {
                            did_set = true;
                        }
                    } else {
                        sorted.insert(q, pool);
                    }
                    proof {
                        assert(sorted@[q as int] == pv);
                        assert forall|p: int| 0 <= p < sorted@.len() implies holds_all(ir@, #[trigger] sorted@[p]) by {
                            if sorted@[p] != pv {
                                let j = choose|j: int| 0 <= j < before.len() && before[j] == sorted@[p];
                                assert(holds_all(ir@, before[j]));
                            }
                        }
                        assert forall|p0: int| 0 <= p0 < before.len() implies #[trigger] has_pool(sorted@, before[p0].id@) by {
                            if did_set {
                                if p0 == q {
                                    assert(sorted@[p0].id@ == before[p0].id@);
                                } else {
                                    assert(sorted@[p0] == before[p0]);
                                }
                            } else {
                                if p0 < q {
                                    assert(sorted@[p0] == before[p0]);
                                } else {
                                    assert(sorted@[p0 + 1] == before[p0]);
                                }
                            }
                        }
                        assert forall|j: int|
                            0 <= j < i + 1 && l1_switch(ir@, #[trigger] ir@.entities[j].0) && crate::ir::entity_pos(ir@.entities, ir@.entities[j].0)
                                == Some(j as nat) implies has_pool(sorted@, ir@.entities[j].0) by {
                            if j < i {
                                assert(has_pool(before, ir@.entities[j].0));
                                let p0 = choose|p0: int| 0 <= p0 < before.len() && #[trigger] before[p0].id@ == ir@.entities[j].0;
                                assert(has_pool(sorted@, before[p0].id@));
                            } else {
                                assert(sorted@[q as int].id@ == ir@.entities[j].0);
                            }
                        }
                        assert forall|p: int| 0 <= p < sorted@.len() implies l1_switch(
                            ir@,
                            #[trigger] sorted@[p].id@,
                        ) by {
                            if sorted@[p] != pool {
                                assert(before.contains(sorted@[p]));
                            }
                        }
                        assert forall|p: int, k: int|
                            0 <= p < sorted@.len() && 0 <= k < sorted@[p].nodes@.len() implies compute_child(
                                ir@,
                                sorted@[p].id@,
                                #[trigger] sorted@[p].nodes@[k]@,
                            ) by {
                            if sorted@[p] != pool {
                                let j = choose|j: int| 0 <= j < before.len() && before[j] == sorted@[p];
                                assert(compute_child(ir@, before[j].id@, before[j].nodes@[k]@));
                            }
                        }
                    }
                }
            }
            proof {
                let y = ir@.entities[i as int].0;
                if l1_switch(ir@, y) && crate::ir::entity_pos(ir@.entities, y) == Some(i as nat) {
                    assert(has_pool(sorted@, y));
                }
            }
            i = i + 1;
        }
        // Keep each node under the first pool that lists it.
        let mut seen: NameSet = StringHashMap::new();
        let mut pools: Vec<L1Pool> = Vec::new();
        let mut p: usize = 0;
        while p < sorted.len()
            invariant
                p <= sorted@.len(),
                pools@.len() == p,
                forall|q: int| 0 <= q < sorted@.len() ==> l1_switch(ir@, #[trigger] sorted@[q].id@),
                forall|q: int, k: int|
                    0 <= q < sorted@.len() && 0 <= k < sorted@[q].nodes@.len() ==> compute_child(
                        ir@,
                        sorted@[q].id@,
                        #[trigger] sorted@[q].nodes@[k]@,
                    ),
                forall|q: int| 0 <= q < p ==> #[trigger] pools@[q].id@ == sorted@[q].id@ && pools@[q].cell@
                    == sorted@[q].cell@,
                forall|q: int, k: int|
                    0 <= q < p && 0 <= k < pools@[q].nodes@.len() ==> compute_child(
                        ir@,
                        pools@[q].id@,
                        #[trigger] pools@[q].nodes@[k]@,
                    ),
                forall|a: NodeRef, b: NodeRef|
                    valid_in(pools@, a) && valid_in(pools@, b) && a != b ==> #[trigger] node_in(
                        pools@,
                        a,
                    ) != #[trigger] node_in(pools@, b),
                forall|x: Seq<char>|
                    seen@.contains_key(x) <==> exists|a: NodeRef|
                        valid_in(pools@, a) && #[trigger] node_in(pools@, a) == x,
                forall|q: int| 0 <= q < sorted@.len() ==> holds_all(ir@, #[trigger] sorted@[q]),
                forall|j: int|
                    0 <= j < ir@.entities.len() && l1_switch(ir@, #[trigger] ir@.entities[j].0) && crate::ir::entity_pos(ir@.entities, ir@.entities[j].0)
                        == Some(j as nat) ==> has_pool(sorted@, ir@.entities[j].0),
                forall|q: int, k: int|
                    0 <= q < p && 0 <= k < sorted@[q].nodes@.len() ==> in_pools(pools@, #[trigger] sorted@[q].nodes@[k]@),
            decreases sorted.len() - p,
        {
            let src = &sorted[p];
            let mut kept: Vec<Id> = Vec::new();
            let mut k: usize = 0;
            while k < src.nodes.len()
                invariant
                    k <= src.nodes@.len(),
                    kept@.len() <= k,
                    p < sorted@.len(),
                    src == sorted@[p as int],
                    forall|j: int|
                        0 <= j < kept@.len() ==> src.nodes@.contains(#[trigger] kept@[j]),
                    forall|a: int, b: int|
                        0 <= a < b < kept@.len() ==> #[trigger] kept@[a]@ != #[trigger] kept@[b]@,
                    forall|a: NodeRef|
                        valid_in(pools@, a) ==> forall|j: int|
                            0 <= j < kept@.len() ==> #[trigger] kept@[j]@ != node_in(pools@, a),
                    forall|x: Seq<char>|
                        seen@.contains_key(x) <==> (exists|a: NodeRef|
                            valid_in(pools@, a) && #[trigger] node_in(pools@, a) == x) || (exists|
                            j: int,
                        | 0 <= j < kept@.len() && kept@[j]@ == x),
                    forall|j: int| 0 <= j < k ==> seen@.contains_key(#[trigger] src.nodes@[j]@),
                    forall|q: int, k2: int|
                        0 <= q < p && 0 <= k2 < sorted@[q].nodes@.len() ==> in_pools(pools@, #[trigger] sorted@[q].nodes@[k2]@),
                decreases src.nodes.len() - k,
            {
                let name = &src.nodes[k];
                if !seen.contains_key(name.0.as_str()) {
                    let ghost prev = kept@;
                    seen.insert(name.0.clone(), ());
                    kept.push(name.copy());
                    proof {
                        assert(kept@[kept@.len() - 1] == src.nodes@[k as int]);
                        assert forall|j: int| 0 <= j < kept@.len() implies src.nodes@.contains(
                            #[trigger] kept@[j],
                        ) by {
                            if j < prev.len() {
                                assert(kept@[j] == prev[j]);
                            }
                        }
                        assert forall|a: int, b: int|
                            0 <= a < b < kept@.len() implies #[trigger] kept@[a]@ != #[trigger] kept@[b]@ by {
                            if b == kept@.len() - 1 {
                                assert(kept@[a] == prev[a]);
                            } else {
                                assert(kept@[a] == prev[a] && kept@[b] == prev[b]);
                            }
                        }
                        assert forall|x: Seq<char>|
                            seen@.contains_key(x) <==> (exists|a: NodeRef|
                                valid_in(pools@, a) && #[trigger] node_in(pools@, a) == x) || (exists|
                                j: int,
                            | 0 <= j < kept@.len() && kept@[j]@ == x) by {
                            if exists|j: int| 0 <= j < prev.len() && prev[j]@ == x {
                                let j = choose|j: int| 0 <= j < prev.len() && prev[j]@ == x;
                                assert(kept@[j] == prev[j]);
                            }
                            if exists|j: int| 0 <= j < kept@.len() && kept@[j]@ == x {
                                let j = choose|j: int| 0 <= j < kept@.len() && kept@[j]@ == x;
                                if j < prev.len() {
                                    assert(kept@[j] == prev[j]);
                                }
                            }
                        }
                    }
                }
                k = k + 1;
            }
            let ghost old_pools = pools@;
            let np = L1Pool {
                cell: src.cell.clone(),
                has_cell: src.has_cell,
                rack: src.rack.clone(),
                id: src.id.copy(),
                nodes: kept,
            };
            pools.push(np);
            proof {
                lemma_push_pool_distinct(old_pools, np);
                assert forall|x: Seq<char>|
                    seen@.contains_key(x) <==> exists|a: NodeRef|
                        valid_in(pools@, a) && #[trigger] node_in(pools@, a) == x by {
                    lemma_push_pool_names(old_pools, np, x);
                }
                assert forall|q: int, k: int|
                    0 <= q < p + 1 && 0 <= k < sorted@[q].nodes@.len() implies in_pools(pools@, #[trigger] sorted@[q].nodes@[k]@) by {
                    let x = sorted@[q].nodes@[k]@;
                    lemma_push_pool_names(old_pools, np, x);
                    if q == p {
                        assert(seen@.contains_key(src.nodes@[k]@));
                    }
                }
                assert forall|q: int, k: int|
                    0 <= q < p + 1 && 0 <= k < pools@[q].nodes@.len() implies compute_child(
                        ir@,
                        pools@[q].id@,
                        #[trigger] pools@[q].nodes@[k]@,
                    ) by {
                    if q == p {
                        let j = choose|j: int| 0 <= j < src.nodes@.len() && src.nodes@[j] == np.nodes@[k];
                        assert(compute_child(ir@, src.id@, src.nodes@[j]@));
                    } else {
                        assert(pools@[q] == old_pools[q]);
                    }
                }
            }
            p = p + 1;
        }
        let cells = group_cells(&pools);
        let v = TopoView { pools, cells };
        assert forall|a: NodeRef, b: NodeRef|
            v.valid(a) && v.valid(b) && a != b implies #[trigger] v.node(a) != #[trigger] v.node(b) by {
            assert(valid_in(v.pools@, a) && valid_in(v.pools@, b));
            assert(node_in(v.pools@, a) != node_in(v.pools@, b));
        }
        assert forall|r: NodeRef| v.valid(r) implies compute_child(
            ir@,
            v.pools@[r.0 as int].id@,
            #[trigger] v.node(r),
        ) by {
            assert(compute_child(ir@, v.pools@[r.0 as int].id@, v.pools@[r.0 as int].nodes@[r.1 as int]@));
        }
        assert forall|q: int| 0 <= q < v.pools@.len() implies l1_switch(ir@, #[trigger] v.pools@[q].id@) by {
            assert(v.pools@[q].id@ == sorted@[q].id@);
            assert(l1_switch(ir@, sorted@[q].id@));
        }
        assert forall|sw: Seq<char>| l1_switch(ir@, sw) implies #[trigger] has_pool(v.pools@, sw) by {
            crate::ir::lemma_pos_props(ir@.entities, sw);
            let j = crate::ir::entity_pos(ir@.entities, sw)->Some_0 as int;
            assert(ir@.entities[j].0 == sw);
            assert(has_pool(sorted@, ir@.entities[j].0));
            let p0 = choose|p0: int| 0 <= p0 < sorted@.len() && #[trigger] sorted@[p0].id@ == sw;
            assert(v.pools@[p0].id@ == sw);
        }
        assert forall|sw: Seq<char>, x: Seq<char>|
            l1_switch(ir@, sw) && #[trigger] compute_child(ir@, sw, x) implies exists|r: NodeRef| v.valid(r) && #[trigger] v.node(r) == x by {
            crate::ir::lemma_pos_props(ir@.entities, sw);
            let j = crate::ir::entity_pos(ir@.entities, sw)->Some_0 as int;
            assert(ir@.entities[j].0 == sw);
            assert(has_pool(sorted@, ir@.entities[j].0));
            let p0 = choose|p0: int| 0 <= p0 < sorted@.len() && #[trigger] sorted@[p0].id@ == sw;
            assert(holds_all(ir@, sorted@[p0]));
            let k = choose|k: int| 0 <= k < sorted@[p0].nodes@.len() && #[trigger] sorted@[p0].nodes@[k]@ == x;
            assert(in_pools(v.pools@, sorted@[p0].nodes@[k]@));
            let a = choose|a: NodeRef| valid_in(v.pools@, a) && #[trigger] node_in(v.pools@, a) == sorted@[p0].nodes@[k]@;
            assert(v.valid(a) && v.node(a) == x);
        }
        v
    }
}

/// `x` is a node of one of the pools.
pub open spec fn in_pools(pools: Seq<L1Pool>, x: Seq<char>) -> bool {
    exists|a: NodeRef| valid_in(pools, a) && #[trigger] node_in(pools, a) == x
}

pub open spec fn valid_in(pools: Seq<L1Pool>, r: NodeRef) -> bool {
    r.0 < pools.len() && r.1 < pools[r.0 as int].nodes@.len()
}

pub open spec fn node_in(pools: Seq<L1Pool>, r: NodeRef) -> Seq<char> {
    pools[r.0 as int].nodes@[r.1 as int]@
}

proof fn lemma_push_pool_distinct(pools: Seq<L1Pool>, np: L1Pool)
    requires
        forall|a: NodeRef, b: NodeRef|
            valid_in(pools, a) && valid_in(pools, b) && a != b ==> #[trigger] node_in(pools, a)
                != #[trigger] node_in(pools, b),
        forall|a: int, b: int|
            0 <= a < b < np.nodes@.len() ==> #[trigger] np.nodes@[a]@ != #[trigger] np.nodes@[b]@,
        forall|a: NodeRef|
            valid_in(pools, a) ==> forall|j: int|
                0 <= j < np.nodes@.len() ==> #[trigger] np.nodes@[j]@ != node_in(pools, a),
    ensures
        forall|a: NodeRef, b: NodeRef|
            valid_in(pools.push(np), a) && valid_in(pools.push(np), b) && a != b ==> #[trigger] node_in(
                pools.push(np),
                a,
            ) != #[trigger] node_in(pools.push(np), b),
{
    let q = pools.push(np);
    assert forall|a: NodeRef, b: NodeRef|
        valid_in(q, a) && valid_in(q, b) && a != b implies #[trigger] node_in(q, a)
            != #[trigger] node_in(q, b) by {
        let n = pools.len();
        if a.0 < n && b.0 < n {
            assert(q[a.0 as int] == pools[a.0 as int] && q[b.0 as int] == pools[b.0 as int]);
            assert(valid_in(pools, a) && valid_in(pools, b));
            assert(node_in(pools, a) != node_in(pools, b));
        } else if a.0 == n && b.0 == n {
            if a.1 < b.1 {
                assert(np.nodes@[a.1 as int]@ != np.nodes@[b.1 as int]@);
            } else {
                assert(np.nodes@[b.1 as int]@ != np.nodes@[a.1 as int]@);
            }
        } else if a.0 == n {
            assert(q[b.0 as int] == pools[b.0 as int]);
            assert(valid_in(pools, b));
            assert(np.nodes@[a.1 as int]@ != node_in(pools, b));
        } else {
            assert(q[a.0 as int] == pools[a.0 as int]);
            assert(valid_in(pools, a));
            assert(np.nodes@[b.1 as int]@ != node_in(pools, a));
        }
    }
}

proof fn lemma_push_pool_names(pools: Seq<L1Pool>, np: L1Pool, x: Seq<char>)
    requires
        pools.len() < usize::MAX,
        np.nodes@.len() <= usize::MAX,
    ensures
        (exists|a: NodeRef| valid_in(pools.push(np), a) && #[trigger] node_in(pools.push(np), a) == x)
            <==> ((exists|a: NodeRef| valid_in(pools, a) && #[trigger] node_in(pools, a) == x) || (exists|
            j: int,
        | 0 <= j < np.nodes@.len() && np.nodes@[j]@ == x)),
{
    let q = pools.push(np);
    let n = pools.len();
    if exists|a: NodeRef| valid_in(q, a) && #[trigger] node_in(q, a) == x {
        let a = choose|a: NodeRef| valid_in(q, a) && #[trigger] node_in(q, a) == x;
        if a.0 < n {
            assert(q[a.0 as int] == pools[a.0 as int]);
            assert(valid_in(pools, a) && node_in(pools, a) == x);
        } else {
            assert(np.nodes@[a.1 as int]@ == x);
        }
    }
    if exists|a: NodeRef| valid_in(pools, a) && #[trigger] node_in(pools, a) == x {
        let a = choose|a: NodeRef| valid_in(pools, a) && #[trigger] node_in(pools, a) == x;
        assert(q[a.0 as int] == pools[a.0 as int]);
        assert(valid_in(q, a) && node_in(q, a) == x);
    }
    if exists|j: int| 0 <= j < np.nodes@.len() && np.nodes@[j]@ == x {
        let j = choose|j: int| 0 <= j < np.nodes@.len() && np.nodes@[j]@ == x;
        let a: NodeRef = (n as usize, j as usize);
        assert(valid_in(q, a) && node_in(q, a) == x);
    }
}

/// Group pools by cell: one list of pool indices per distinct cell, in order
/// of first appearance.
fn group_cells(pools: &Vec<L1Pool>) -> (cells: Vec<Vec<usize>>)
    ensures
        (TopoView { pools: *pools, cells }).cells_ok(),
{
    let mut cells: Vec<Vec<usize>> = Vec::new();
    let mut p: usize = 0;
    while p < pools.len()
        invariant
            p <= pools@.len(),
            forall|g: int| 0 <= g < cells@.len() ==> #[trigger] cells@[g]@.len() > 0,
            forall|g: int, i: int|
                0 <= g < cells@.len() && 0 <= i < cells@[g]@.len() ==> #[trigger] cells@[g]@[i] < p
                    && pools@[cells@[g]@[i] as int].cell@ == pools@[cells@[g]@[0] as int].cell@,
            forall|g: int, i: int, j: int|
                0 <= g < cells@.len() && 0 <= i < j < cells@[g]@.len() ==> #[trigger] cells@[g]@[i]
                    < #[trigger] cells@[g]@[j],
            forall|g1: int, g2: int|
                0 <= g1 < g2 < cells@.len() ==> pools@[#[trigger] cells@[g1]@[0] as int].cell@
                    != pools@[#[trigger] cells@[g2]@[0] as int].cell@,
            forall|q: int| 0 <= q < p ==> #[trigger] listed(cells@, q),
        decreases pools.len() - p,
    {
        let mut g: usize = 0;
        let mut found = false;
        while g < cells.len() && !found
            invariant
                g <= cells@.len(),
                p < pools@.len(),
                forall|h: int| 0 <= h < cells@.len() ==> #[trigger] cells@[h]@.len() > 0,
                forall|h: int, i: int|
                    0 <= h < cells@.len() && 0 <= i < cells@[h]@.len() ==> #[trigger] cells@[h]@[i] < p,
                found ==> g < cells@.len() && pools@[cells@[g as int]@[0] as int].cell@ == pools@[p as int].cell@,
                !found ==> forall|h: int|
                    0 <= h < g ==> pools@[#[trigger] cells@[h]@[0] as int].cell@ != pools@[p as int].cell@,
            decreases cells.len() - g, if found {
                0int
            } else {
                1int
            },
        {
            let first = cells[g][0];
            assert(cells@[g as int]@[0] < p);
            if pools[first].cell == pools[p].cell {
                found = true;
            } else {
                g = g + 1;
            }
        }
        let ghost old_cells = cells@;
        if found {
            let mut grp = cells.remove(g);
            grp.push(p);
            cells.insert(g, grp);
            proof {
                assert forall|h: int| 0 <= h < cells@.len() && h != g implies #[trigger] cells@[h]
                    == old_cells[h] by {}
                assert(cells@[g as int]@ == old_cells[g as int]@.push(p));
                assert forall|q: int| 0 <= q < p + 1 implies #[trigger] listed(cells@, q) by {
                    if q == p {
                        assert(cells@[g as int]@[old_cells[g as int]@.len() as int] == q);
                    } else {
                        assert(listed(old_cells, q));
                        let (h, i) = choose|h: int, i: int|
                            0 <= h < old_cells.len() && 0 <= i < old_cells[h]@.len() && #[trigger] old_cells[h]@[i]
                                == q;
                        assert(cells@[h]@[i] == q);
                    }
                }
            }
        } else {
            let mut grp: Vec<usize> = Vec::new();
            grp.push(p);
            cells.push(grp);
            proof {
                assert forall|h: int| 0 <= h < old_cells.len() implies #[trigger] cells@[h]
                    == old_cells[h] by {}
                assert forall|q: int| 0 <= q < p + 1 implies #[trigger] listed(cells@, q) by {
                    if q == p {
                        assert(cells@[old_cells.len() as int]@[0] == q);
                    } else {
                        assert(listed(old_cells, q));
                        let (h, i) = choose|h: int, i: int|
                            0 <= h < old_cells.len() && 0 <= i < old_cells[h]@.len() && #[trigger] old_cells[h]@[i]
                                == q;
                        assert(cells@[h]@[i] == q);
                    }
                }
            }
        }
        p = p + 1;
    }
    cells
}

} // verus!
