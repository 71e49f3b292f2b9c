//! Alps: the dragonfly groups of a topology built from per-cabinet
//! switches, recovered from `scontrol show topology` records.  Each Level=0
//! record names a group and its nodes; each leaf switch is matched to the
//! group that shares most of its compute nodes, each cabinet takes the
//! group most of its switches voted for, and cabinets are replaced by group
//! entities.
use vstd::prelude::*;
use vstd::string::*;
use crate::ir::{with_child, with_entity, ContainsView, Entity, EntityKind, EntityView, IRView, Id, LinkView, TopologyIR};
use crate::kv::StrMap;
use crate::nodelist::{expand_nodelist, expand_nodelist_spec, fields_of, parse_line_chars, NodeListParseError};
use crate::order::{dedup_first, join, join_strings, sorted_list, sorted_set_of, unique_in_order};
use crate::text::{chars_lt, chars_of, lines, lines_of, parse_usize, seq_lt, trim, trim_chars, views, words};

verus! {

broadcast use vstd::seq_lib::group_seq_properties;

/// A Level=0 record: the group's name and its nodes.
pub struct AlpsGroup {
    pub name: String,
    pub nodes: Vec<String>,
}

/// A group as text: its name and its node names.
pub type GroupView = (Seq<char>, Seq<Seq<char>>);

pub open spec fn group_view(g: AlpsGroup) -> GroupView {
    (g.name@, views(g.nodes@))
}

pub open spec fn group_views(gs: Seq<AlpsGroup>) -> Seq<GroupView> {
    gs.map_values(|g: AlpsGroup| group_view(g))
}

/// The fields of a Level=0 record with a name and a node list.
pub open spec fn level0_fields(f: Map<Seq<char>, Seq<char>>) -> bool {
    &&& f.contains_key("Level"@)
    &&& parse_unsigned_u32(f["Level"@]) == Some(0nat)
    &&& f.contains_key("SwitchName"@)
    &&& f.contains_key("Nodes"@)
}

pub open spec fn parse_unsigned_u32(s: Seq<char>) -> Option<nat> {
    crate::text::parse_unsigned(s, u32::MAX as nat)
}

/// The groups of the records `ls` (trimmed lines), in order; the first node
/// list that does not expand is an error.
pub open spec fn groups_spec(ls: Seq<Seq<char>>) -> Result<Seq<GroupView>, Seq<char>>
    decreases ls.len(),
{
    if ls.len() == 0 {
        Ok(Seq::empty())
    } else {
        match groups_spec(ls.drop_last()) {
            Err(m) => Err(m),
            Ok(g) => {
                let f = fields_of(words(trim(ls.last())));
                if level0_fields(f) {
                    match expand_nodelist_spec(f["Nodes"@]) {
                        Err(m) => Err(m),
                        Ok(ns) => Ok(g.push((f["SwitchName"@], ns))),
                    }
                } else {
                    Ok(g)
                }
            },
        }
    }
}

/// Once a prefix of the records fails, so do all of them.
pub proof fn lemma_groups_err_prefix(ls: Seq<Seq<char>>, k: int)
    requires
        0 <= k <= ls.len(),
        groups_spec(ls.take(k)) is Err,
    ensures
        groups_spec(ls) == groups_spec(ls.take(k)),
    decreases ls.len() - k,
{
    if k < ls.len() {
        assert(ls.take(k + 1).drop_last() =~= ls.take(k));
        lemma_groups_err_prefix(ls, k + 1);
    } else {
        assert(ls.take(k) =~= ls);
    }
}

/// Parse the Level=0 records of `scontrol show topology` output; other
/// levels and records without a name or node list are skipped.
pub fn parse_groups(raw: &str) -> (r: Result<Vec<AlpsGroup>, NodeListParseError>)
    ensures
        match groups_spec(lines_of(raw@)) {
            Ok(gs) => r matches Ok(v) && group_views(v@) == gs,
            Err(m) => r matches Err(e) && e.msg@ == m,
        },
{
    let chars = chars_of(raw);
    let ls = lines(chars.as_slice());
    let ghost lv = ls@.map_values(|x: Vec<char>| x@);
    assert(lv == lines_of(raw@));
    let mut groups: Vec<AlpsGroup> = Vec::new();
    let mut i: usize = 0;
    assert(lv.take(0) =~= Seq::<Seq<char>>::empty());
    assert(group_views(groups@) =~= Seq::<GroupView>::empty());
    while i < ls.len()
        invariant
            lv == ls@.map_values(|x: Vec<char>| x@),
            lv == lines_of(raw@),
            i <= lv.len(),
            groups_spec(lv.take(i as int)) == Ok::<Seq<GroupView>, Seq<char>>(group_views(groups@)),
        decreases ls.len() - i,
    {
        let t = trim_chars(ls[i].as_slice());
        let kv = parse_line_chars(t.as_slice());
        proof {
            assert(lv.take(i + 1).drop_last() =~= lv.take(i as int));
            assert(lv.take(i + 1).last() == lv[i as int]);
        }
        let ghost f = kv@;
        let mut keep = false;
        match kv.get("Level") {
            Some(lv_s) => {
                let lc = chars_of(lv_s.as_str());
                match parse_usize(lc.as_slice()) {
                    Some(level) => {
                        if level == 0 {
                            keep = true;
                        }
                    },
                    None => {},
                }
            },
            None => {},
        }
        if keep {
            match kv.get("SwitchName") {
                Some(name) => {
                    match kv.get("Nodes") {
                        Some(nodes_raw) => {
                            assert(level0_fields(f));
                            match expand_nodelist(nodes_raw.as_str()) {
                                Ok(nodes) => {
                                    let ghost before = group_views(groups@);
                                    let ghost nv = views(nodes@);
                                    groups.push(AlpsGroup { name: name.clone(), nodes });
                                    assert(group_views(groups@) =~= before.push((name@, nv)));
                                },
                                Err(e) => {
                                    proof {
                                        assert(t@ == trim(lv[i as int]));
                                        assert(f == fields_of(words(trim(lv.take(i + 1).last()))));
                                        assert(nodes_raw@ == f["Nodes"@]);
                                        assert(groups_spec(lv.take(i + 1)) == Err::<Seq<GroupView>, Seq<char>>(e.msg@));
                                        lemma_groups_err_prefix(lv, i + 1);
                                        assert(lv.take(lv.len() as int) =~= lv);
                                    }
                                    return Err(e);
                                },
                            }
                        },
                        None => {},
                    }
                },
                None => {},
            }
        }
        i = i + 1;
    }
    assert(lv.take(i as int) =~= lv);
    Ok(groups)
}


/// `c` is a compute entity.
pub open spec fn is_compute(v: IRView, c: Seq<char>) -> bool {
    v.entity(c) matches Some(e) && e.1 is Compute
}

/// The compute entities a switch contains, each once, in order.
pub open spec fn compute_children(v: IRView, s: Seq<char>) -> Seq<Seq<char>> {
    dedup_first(v.children(s).filter(|c: Seq<char>| is_compute(v, c)))
}

/// How many of `ch` a group lists.
pub open spec fn overlap(ch: Seq<Seq<char>>, g: GroupView) -> nat {
    ch.filter(|x: Seq<char>| g.1.contains(x)).len()
}

/// The group sharing most of `ch` (the last one among equals), if any
/// shares one.
pub open spec fn best_group(ch: Seq<Seq<char>>, gs: Seq<GroupView>) -> Option<int>
    decreases gs.len(),
{
    if gs.len() == 0 {
        None
    } else {
        let b = best_group(ch, gs.drop_last());
        let o = overlap(ch, gs.last());
        if o > 0 && (match b {
            Some(i) => o >= overlap(ch, gs[i]),
            None => true,
        }) {
            Some(gs.len() - 1)
        } else {
            b
        }
    }
}

/// The best group is one of the groups.
pub proof fn lemma_best_bound(ch: Seq<Seq<char>>, gs: Seq<GroupView>)
    ensures
        best_group(ch, gs) matches Some(i) ==> 0 <= i < gs.len(),
    decreases gs.len(),
{
    if gs.len() > 0 {
        lemma_best_bound(ch, gs.drop_last());
    }
}

/// The group a leaf (Level 0) switch is matched to: the best group for its
/// compute children.
pub open spec fn switch_group(v: IRView, gs: Seq<GroupView>, x: Seq<char>) -> Option<Seq<char>> {
    match v.entity(x) {
        Some(e) => if e.1 == (EntityKind::Switch { level: Some(0u32) }) && compute_children(v, x).len() > 0 {
            match best_group(compute_children(v, x), gs) {
                Some(i) => Some(gs[i].0),
                None => None,
            }
        } else {
            None
        },
        None => None,
    }
}

/// Whether `x` is one of `v`.
fn names_contain(v: &Vec<String>, x: &String) -> (b: bool)
    ensures
        b == views(v@).contains(x@),
{
    let mut i: usize = 0;
    while i < v.len()
        invariant
            i <= v@.len(),
            forall|q: int| 0 <= q < i ==> views(v@)[q] != x@,
        decreases v.len() - i,
    {
        if v[i] == *x {
            assert(views(v@)[i as int] == x@);
            return true;
        }
        i = i + 1;
    }
    false
}

/// The compute entities switch `s` contains, each once, in order.
fn compute_children_of(ir: &TopologyIR, s: &Id) -> (r: Vec<String>)
    ensures
        views(r@) == compute_children(ir@, s@),
{
    let ghost v = ir@;
    let ghost pred = |c: Seq<char>| is_compute(v, c);
    let mut out: Vec<String> = Vec::new();
    match ir.children_of(s) {
        Some(ch) => {
            let ghost cv = crate::ir::id_views(ch@);
            let mut i: usize = 0;
            assert(cv.take(0) =~= Seq::<Seq<char>>::empty());
            assert(views(out@) =~= cv.take(0).filter(pred)) by {
                reveal(Seq::filter);
            }
            while i < ch.len()
                invariant
                    v == ir@,
                    pred == (|c: Seq<char>| is_compute(v, c)),
                    cv == crate::ir::id_views(ch@),
                    i <= cv.len(),
                    views(out@) == cv.take(i as int).filter(pred),
                decreases ch.len() - i,
            {
                let keep = match ir.get_entity(&ch[i]) {
                    Some(e) => match e.kind {
                        EntityKind::Compute => true,
                        _ => false,
                    },
                    None => false,
                };
                assert(keep == pred(cv[i as int]));
                let ghost before = views(out@);
                if keep {
                    out.push(ch[i].0.clone());
                }
                proof {
                    assert(cv.take(i + 1) == cv.take(i as int).push(cv[i as int]));
                    cv.take(i as int).lemma_filter_push(cv[i as int], pred);
                    if keep {
                        assert(views(out@) == before.push(cv[i as int]));
                    } else {
                        assert(views(out@) == before);
                    }
                }
                i = i + 1;
            }
            assert(cv.take(i as int) == cv);
        },
        None => {
            assert(ir@.children(s@) == Seq::<Seq<char>>::empty());
            assert(views(out@) =~= Seq::<Seq<char>>::empty().filter(pred)) by {
                reveal(Seq::filter);
            }
        },
    }
    unique_in_order(&out)
}

/// How many of `ch` group `g` lists.
fn overlap_of(ch: &Vec<String>, g: &AlpsGroup) -> (n: usize)
    ensures
        n == overlap(views(ch@), group_view(*g)),
{
    let ghost c = views(ch@);
    let ghost gv = group_view(*g);
    let ghost pred = |x: Seq<char>| gv.1.contains(x);
    let mut n: usize = 0;
    let mut i: usize = 0;
    assert(c.take(0).filter(pred).len() == 0) by {
        reveal(Seq::filter);
    }
    while i < ch.len()
        invariant
            c == views(ch@),
            gv == group_view(*g),
            pred == (|x: Seq<char>| gv.1.contains(x)),
            i <= c.len(),
            n == c.take(i as int).filter(pred).len(),
            n <= i,
        decreases ch.len() - i,
    {
        let hit = names_contain(&g.nodes, &ch[i]);
        proof {
            assert(c.take(i + 1) == c.take(i as int).push(c[i as int]));
            c.take(i as int).lemma_filter_push(c[i as int], pred);
        }
        if hit {
            n = n + 1;
        }
        i = i + 1;
    }
    assert(c.take(i as int) == c);
    n
}

/// The index of the best group for `ch`.
fn best_of(ch: &Vec<String>, groups: &Vec<AlpsGroup>) -> (r: Option<usize>)
    ensures
        r is None <==> best_group(views(ch@), group_views(groups@)) is None,
        r matches Some(b) ==> best_group(views(ch@), group_views(groups@)) == Some(b as int) && b < groups@.len(),
{
    let ghost c = views(ch@);
    let ghost gs = group_views(groups@);
    let mut best: Option<usize> = None;
    let mut best_n: usize = 0;
    let mut i: usize = 0;
    assert(gs.take(0).len() == 0);
    while i < groups.len()
        invariant
            c == views(ch@),
            gs == group_views(groups@),
            i <= gs.len(),
            match best_group(c, gs.take(i as int)) {
                Some(b) => best matches Some(bb) && bb as int == b && b < i && best_n == overlap(c, gs[b]),
                None => best is None,
            },
        decreases groups.len() - i,
    {
        let o = overlap_of(ch, &groups[i]);
        proof {
            lemma_best_bound(c, gs.take(i as int));
            assert(gs.take(i + 1).drop_last() == gs.take(i as int));
            assert(gs.take(i + 1).last() == gs[i as int]);
            assert(group_view(groups@[i as int]) == gs[i as int]);
            match best_group(c, gs.take(i as int)) {
                Some(b) => {
                    assert(gs.take(i + 1)[b] == gs[b]);
                },
                None => {},
            }
        }
        let better = o > 0 && match best {
            Some(_) => o >= best_n,
            None => true,
        };
        if better {
            best = Some(i);
            best_n = o;
        }
        i = i + 1;
    }
    assert(gs.take(i as int) == gs);
    proof {
        lemma_best_bound(c, gs);
    }
    best
}

/// An entity's id finds it in a well-formed topology.
proof fn lemma_entity_at(v: IRView, j: int)
    requires
        v.wf(),
        0 <= j < v.entities.len(),
    ensures
        v.entity(v.entities[j].0) == Some(v.entities[j]),
{
    crate::ir::lemma_pos_is(v.entities, v.entities[j].0, j);
}

pub open spec fn opt_view(o: Option<String>) -> Option<Seq<char>> {
    match o {
        Some(s) => Some(s@),
        None => None,
    }
}

/// For each entity, the group it is matched to (leaf switches only).
fn match_switches(ir: &TopologyIR, groups: &Vec<AlpsGroup>) -> (r: Vec<Option<String>>)
    requires
        ir@.wf(),
    ensures
        r@.len() == ir@.entities.len(),
        forall|j: int| 0 <= j < r@.len() ==> opt_view(#[trigger] r@[j]) == switch_group(ir@, group_views(groups@), ir@.entities[j].0),
{
    let ghost gs = group_views(groups@);
    let mut out: Vec<Option<String>> = Vec::new();
    let mut j: usize = 0;
    while j < ir.entities.len()
        invariant
            ir@.wf(),
            gs == group_views(groups@),
            j <= ir@.entities.len(),
            out@.len() == j,
            forall|q: int| 0 <= q < j ==> opt_view(#[trigger] out@[q]) == switch_group(ir@, gs, ir@.entities[q].0),
        decreases ir.entities.len() - j,
    {
        let e = &ir.entities[j];
        proof {
            lemma_entity_at(ir@, j as int);
            assert(ir@.entities[j as int] == e@);
        }
        let ghost x = e@.0;
        let mut g: Option<String> = None;
        if e.kind == (EntityKind::Switch { level: Some(0) }) {
            let ch = compute_children_of(ir, &e.id);
            assert(views(ch@) == compute_children(ir@, x));
            if ch.len() > 0 {
                let bo = best_of(&ch, groups);
                proof {
                    lemma_best_bound(views(ch@), gs);
                }
                match bo {
                    Some(b) => {
                        let nm = groups[b].name.clone();
                        assert(nm@ == groups@[b as int].name@);
                        assert(gs[b as int].0 == groups@[b as int].name@);
                        g = Some(nm);
                        assert(opt_view(g) == switch_group(ir@, gs, x));
                    },
                    None => {
                        assert(opt_view(g) == switch_group(ir@, gs, x));
                    },
                }
            } else {
                assert(compute_children(ir@, x).len() == 0);
                assert(opt_view(g) == switch_group(ir@, gs, x));
            }
        } else {
            assert(opt_view(g) == switch_group(ir@, gs, x));
        }
        assert(opt_view(g) == switch_group(ir@, gs, ir@.entities[j as int].0));
        let ghost prev = out@;
        out.push(g);
        assert forall|q: int| 0 <= q < j + 1 implies opt_view(#[trigger] out@[q]) == switch_group(ir@, gs, ir@.entities[q].0) by {
            if q < j {
                assert(out@[q] == prev[q]);
            }
        }
        j = j + 1;
    }
    out
}

/// The parent whose containment list names `x`, the last one if several do.
pub open spec fn parent_of(cs: Seq<ContainsView>, x: Seq<char>) -> Option<Seq<char>>
    decreases cs.len(),
{
    if cs.len() == 0 {
        None
    } else if cs.last().1.contains(x) {
        Some(cs.last().0)
    } else {
        parent_of(cs.drop_last(), x)
    }
}

/// The votes for cabinet `c` among entities `es`: the group of each matched
/// switch whose parent is `c`, in order.
pub open spec fn votes_in(v: IRView, gs: Seq<GroupView>, es: Seq<EntityView>, c: Seq<char>) -> Seq<Seq<char>>
    decreases es.len(),
{
    if es.len() == 0 {
        Seq::empty()
    } else {
        let r = votes_in(v, gs, es.drop_last(), c);
        let x = es.last().0;
        match switch_group(v, gs, x) {
            Some(g) => if parent_of(v.contains, x) == Some(c) {
                r.push(g)
            } else {
                r
            },
            None => r,
        }
    }
}

/// How often `n` occurs in `vs`.
pub open spec fn count_of(vs: Seq<Seq<char>>, n: Seq<char>) -> nat {
    vs.filter(|m: Seq<char>| m == n).len()
}

/// `n` wins the vote `vs`: no name has more votes, and of those with as
/// many it comes first by name.
pub open spec fn is_winner(vs: Seq<Seq<char>>, n: Seq<char>) -> bool {
    &&& vs.contains(n)
    &&& forall|m: Seq<char>| #[trigger] vs.contains(m) ==> count_of(vs, m) < count_of(vs, n) || (count_of(vs, m) == count_of(vs, n) && !seq_lt(m, n))
}

pub open spec fn winner(vs: Seq<Seq<char>>) -> Seq<char> {
    choose|n: Seq<char>| is_winner(vs, n)
}

/// A cabinet (a switch without level) takes the group most of its matched
/// switches voted for.
pub open spec fn cabinet_group(v: IRView, gs: Seq<GroupView>, c: Seq<char>) -> Option<Seq<char>> {
    match v.entity(c) {
        Some(e) => if e.1 == (EntityKind::Switch { level: None }) && votes_in(v, gs, v.entities, c).len() > 0 {
            Some(winner(votes_in(v, gs, v.entities, c)))
        } else {
            None
        },
        None => None,
    }
}

/// At most one name wins a vote.
pub proof fn lemma_winner_unique(vs: Seq<Seq<char>>, a: Seq<char>, b: Seq<char>)
    requires
        is_winner(vs, a),
        is_winner(vs, b),
    ensures
        a == b,
{
    assert(vs.contains(b));
    assert(vs.contains(a));
    crate::order::lemma_lt_total(a, b);
}

/// The parent whose containment list names `x`, the last one if several do.
fn parent_name(ir: &TopologyIR, x: &String) -> (r: Option<String>)
    ensures
        opt_view(r) == parent_of(ir@.contains, x@),
{
    let ghost cs = ir@.contains;
    let mut k: usize = ir.contains.len();
    while k > 0
        invariant
            cs == ir@.contains,
            k <= cs.len(),
            parent_of(cs, x@) == parent_of(cs.take(k as int), x@),
        decreases k,
    {
        let ch = &ir.contains[k - 1].1;
        let ghost iv = crate::ir::id_views(ch@);
        let mut found = false;
        let mut q: usize = 0;
        while q < ch.len()
            invariant
                iv == crate::ir::id_views(ch@),
                q <= iv.len(),
                found == iv.take(q as int).contains(x@),
            decreases ch.len() - q,
        {
            assert(iv.take(q + 1) == iv.take(q as int).push(iv[q as int]));
            if ch[q].0 == *x {
                found = true;
            }
            q = q + 1;
        }
        assert(crate::ir::id_views(ch@).take(q as int) == crate::ir::id_views(ch@));
        let ghost t = cs.take(k as int);
        assert(t.last() == cs[k - 1]);
        assert(cs[k - 1] == (ir.contains@[k - 1].0@, crate::ir::id_views(ch@)));
        assert(t.drop_last() == cs.take(k - 1));
        if found {
            return Some(ir.contains[k - 1].0.0.clone());
        }
        k = k - 1;
    }
    assert(cs.take(0).len() == 0);
    None
}

/// The winner of a non-empty vote.
fn winner_of(vs: &Vec<String>) -> (r: String)
    requires
        vs@.len() > 0,
    ensures
        r@ == winner(views(vs@)),
{
    let ghost v = views(vs@);
    let mut best: usize = 0;
    let mut best_c: usize = 0;
    let mut i: usize = 0;
    while i < vs.len()
        invariant
            v == views(vs@),
            v.len() > 0,
            i <= v.len(),
            best < v.len(),
            i > 0 ==> best_c == count_of(v, v[best as int]),
            forall|t: int| 0 <= t < i ==> count_of(v, #[trigger] v[t]) < best_c
                || (count_of(v, v[t]) == best_c && !seq_lt(v[t], v[best as int])),
        decreases vs.len() - i,
    {
        let c = count_name(vs, &vs[i]);
        let take = i == 0 || c > best_c || (c == best_c && chars_lt(chars_of(vs[i].as_str()).as_slice(), chars_of(vs[best].as_str()).as_slice()));
        if take {
            proof {
                assert forall|t: int| 0 <= t < i + 1 implies count_of(v, #[trigger] v[t]) < c
                    || (count_of(v, v[t]) == c && !seq_lt(v[t], v[i as int])) by {
                    if t < i {
                        if count_of(v, v[t]) == c && seq_lt(v[t], v[i as int]) {
                            if i > 0 && c == best_c {
                                crate::order::lemma_lt_trans(v[t], v[i as int], v[best as int]);
                            }
                        }
                    } else {
                        crate::order::lemma_lt_irrefl(v[i as int]);
                    }
                }
            }
            best = i;
            best_c = c;
        } else {
            proof {
                crate::order::lemma_lt_total(v[i as int], v[best as int]);
                crate::order::lemma_lt_irrefl(v[best as int]);
            }
        }
        i = i + 1;
    }
    proof {
        let n = v[best as int];
        assert(v.contains(n));
        assert forall|m: Seq<char>| #[trigger] v.contains(m) implies count_of(v, m) < count_of(v, n) || (count_of(v, m) == count_of(v, n) && !seq_lt(m, n)) by {
            let t = choose|t: int| 0 <= t < v.len() && v[t] == m;
            assert(count_of(v, v[t]) < best_c || (count_of(v, v[t]) == best_c && !seq_lt(v[t], n)));
        }
        assert(is_winner(v, n));
        lemma_winner_unique(v, n, winner(v));
    }
    vs[best].clone()
}

/// How often `x` occurs in `vs`.
fn count_name(vs: &Vec<String>, x: &String) -> (n: usize)
    ensures
        n == count_of(views(vs@), x@),
{
    let ghost v = views(vs@);
    let ghost pred = |m: Seq<char>| m == x@;
    let mut n: usize = 0;
    let mut i: usize = 0;
    assert(v.take(0).filter(pred).len() == 0) by {
        reveal(Seq::filter);
    }
    while i < vs.len()
        invariant
            v == views(vs@),
            pred == (|m: Seq<char>| m == x@),
            i <= v.len(),
            n == v.take(i as int).filter(pred).len(),
            n <= i,
        decreases vs.len() - i,
    {
        proof {
            assert(v.take(i + 1) == v.take(i as int).push(v[i as int]));
            v.take(i as int).lemma_filter_push(v[i as int], pred);
        }
        if vs[i] == *x {
            n = n + 1;
        }
        i = i + 1;
    }
    assert(v.take(i as int) == v);
    assert(pred == (|m: Seq<char>| m == x@));
    n
}

/// For each entity, the group it takes as a cabinet.
fn match_cabinets(ir: &TopologyIR, groups: &Vec<AlpsGroup>, sg: &Vec<Option<String>>) -> (r: Vec<Option<String>>)
    requires
        ir@.wf(),
        sg@.len() == ir@.entities.len(),
        forall|j: int| 0 <= j < sg@.len() ==> opt_view(#[trigger] sg@[j]) == switch_group(ir@, group_views(groups@), ir@.entities[j].0),
    ensures
        r@.len() == ir@.entities.len(),
        forall|j: int| 0 <= j < r@.len() ==> opt_view(#[trigger] r@[j]) == cabinet_group(ir@, group_views(groups@), ir@.entities[j].0),
{
    let ghost gs = group_views(groups@);
    let ghost v = ir@;
    let ghost es = ir@.entities;
    let mut parents: Vec<Option<String>> = Vec::new();
    let mut j: usize = 0;
    while j < ir.entities.len()
        invariant
            v == ir@,
            es == v.entities,
            j <= es.len(),
            parents@.len() == j,
            forall|q: int| 0 <= q < j ==> opt_view(#[trigger] parents@[q]) == parent_of(v.contains, es[q].0),
        decreases ir.entities.len() - j,
    {
        let p = parent_name(ir, &ir.entities[j].id.0);
        let ghost prev = parents@;
        parents.push(p);
        assert forall|q: int| 0 <= q < j + 1 implies opt_view(#[trigger] parents@[q]) == parent_of(v.contains, es[q].0) by {
            if q < j {
                assert(parents@[q] == prev[q]);
            }
        }
        j = j + 1;
    }
    let mut out: Vec<Option<String>> = Vec::new();
    let mut c: usize = 0;
    while c < ir.entities.len()
        invariant
            v == ir@,
            es == v.entities,
            v.wf(),
            gs == group_views(groups@),
            sg@.len() == es.len(),
            parents@.len() == es.len(),
            forall|q: int| 0 <= q < sg@.len() ==> opt_view(#[trigger] sg@[q]) == switch_group(v, gs, es[q].0),
            forall|q: int| 0 <= q < parents@.len() ==> opt_view(#[trigger] parents@[q]) == parent_of(v.contains, es[q].0),
            c <= es.len(),
            out@.len() == c,
            forall|q: int| 0 <= q < c ==> opt_view(#[trigger] out@[q]) == cabinet_group(v, gs, es[q].0),
        decreases ir.entities.len() - c,
    {
        let ce = &ir.entities[c];
        proof {
            lemma_entity_at(v, c as int);
        }
        let ghost cx = es[c as int].0;
        let mut res: Option<String> = None;
        if ce.kind == (EntityKind::Switch { level: None }) {
            let mut votes: Vec<String> = Vec::new();
            let mut k: usize = 0;
            assert(es.take(0).len() == 0);
            while k < ir.entities.len()
                invariant
                    v == ir@,
                    es == v.entities,
                    gs == group_views(groups@),
                    sg@.len() == es.len(),
                    parents@.len() == es.len(),
                    forall|q: int| 0 <= q < sg@.len() ==> opt_view(#[trigger] sg@[q]) == switch_group(v, gs, es[q].0),
                    forall|q: int| 0 <= q < parents@.len() ==> opt_view(#[trigger] parents@[q]) == parent_of(v.contains, es[q].0),
                    ce@.0 == cx,
                    k <= es.len(),
                    views(votes@) == votes_in(v, gs, es.take(k as int), cx),
                decreases ir.entities.len() - k,
            {
                proof {
                    assert(es.take(k + 1).drop_last() == es.take(k as int));
                    assert(es.take(k + 1).last() == es[k as int]);
                    assert(opt_view(sg@[k as int]) == switch_group(v, gs, es[k as int].0));
                    assert(opt_view(parents@[k as int]) == parent_of(v.contains, es[k as int].0));
                }
                match &sg[k] {
                    Some(g) => {
                        let same = match &parents[k] {
                            Some(p) => *p == ce.id.0,
                            None => false,
                        };
                        if same {
                            let ghost prev = views(votes@);
                            votes.push(g.clone());
                            assert(views(votes@) == prev.push(g@));
                        }
                    },
                    None => {},
                }
                k = k + 1;
            }
            assert(es.take(k as int) == es);
            if votes.len() > 0 {
                res = Some(winner_of(&votes));
            }
        }
        assert(opt_view(res) == cabinet_group(v, gs, cx));
        let ghost prev = out@;
        out.push(res);
        assert forall|q: int| 0 <= q < c + 1 implies opt_view(#[trigger] out@[q]) == cabinet_group(v, gs, es[q].0) by {
            if q < c {
                assert(out@[q] == prev[q]);
            }
        }
        c = c + 1;
    }
    out
}

/// A leaf switch without a group: it is dropped.
pub open spec fn unmatched_leaf(v: IRView, gs: Seq<GroupView>, x: Seq<char>) -> bool {
    v.entity(x) matches Some(e) && e.1 == (EntityKind::Switch { level: Some(0u32) }) && switch_group(v, gs, x) is None
}

/// What becomes of a name: a cabinet becomes its group, an unmatched leaf
/// switch disappears, anything else stays.
pub open spec fn rewrite(v: IRView, gs: Seq<GroupView>, x: Seq<char>) -> Option<Seq<char>> {
    match cabinet_group(v, gs, x) {
        Some(g) => Some(g),
        None => if unmatched_leaf(v, gs, x) {
            None
        } else {
            Some(x)
        },
    }
}

/// A matched switch's metadata: its old `cell` moves to `cabinet` (empty if
/// it had none) and `cell` becomes its group.
pub open spec fn retag(m: Map<Seq<char>, Seq<char>>, g: Seq<char>) -> Map<Seq<char>, Seq<char>> {
    m.remove("cell"@).insert("cabinet"@, if m.contains_key("cell"@) { m["cell"@] } else { Seq::empty() }).insert("cell"@, g)
}

/// The entities that stay (not cabinets with a group, not unmatched leaf
/// switches), matched switches retagged, added in order.
pub open spec fn kept_entities(v: IRView, gs: Seq<GroupView>, es: Seq<EntityView>) -> Seq<EntityView>
    decreases es.len(),
{
    if es.len() == 0 {
        Seq::empty()
    } else {
        let r = kept_entities(v, gs, es.drop_last());
        let e = es.last();
        if cabinet_group(v, gs, e.0) is None && !unmatched_leaf(v, gs, e.0) {
            with_entity(r, match switch_group(v, gs, e.0) {
                Some(g) => (e.0, e.1, retag(e.2, g)),
                None => e,
            })
        } else {
            r
        }
    }
}

/// What becomes of a name, given the per-entity groups.
fn rewrite_name(ir: &TopologyIR, groups: &Vec<AlpsGroup>, sg: &Vec<Option<String>>, cab: &Vec<Option<String>>, x: &String) -> (r: Option<String>)
    requires
        ir@.wf(),
        sg@.len() == ir@.entities.len(),
        cab@.len() == ir@.entities.len(),
        forall|j: int| 0 <= j < sg@.len() ==> opt_view(#[trigger] sg@[j]) == switch_group(ir@, group_views(groups@), ir@.entities[j].0),
        forall|j: int| 0 <= j < cab@.len() ==> opt_view(#[trigger] cab@[j]) == cabinet_group(ir@, group_views(groups@), ir@.entities[j].0),
    ensures
        opt_view(r) == rewrite(ir@, group_views(groups@), x@),
{
    let id = Id(x.clone());
    match ir.position(&id) {
        Some(k) => {
            proof {
                crate::ir::lemma_pos_props(ir@.entities, x@);
                assert(ir@.entity(x@) == Some(ir@.entities[k as int]));
                assert(opt_view(sg@[k as int]) == switch_group(ir@, group_views(groups@), ir@.entities[k as int].0));
                assert(opt_view(cab@[k as int]) == cabinet_group(ir@, group_views(groups@), ir@.entities[k as int].0));
            }
            match &cab[k] {
                Some(g) => Some(g.clone()),
                None => {
                    if ir.entities[k].kind == (EntityKind::Switch { level: Some(0) }) && sg[k].is_none() {
                        None
                    } else {
                        Some(x.clone())
                    }
                },
            }
        },
        None => {
            assert(ir@.entity(x@) is None);
            Some(x.clone())
        },
    }
}

/// Add the entities that stay, retagging the matched switches.
fn add_kept_entities(out: &mut TopologyIR, ir: &TopologyIR, groups: &Vec<AlpsGroup>, sg: &Vec<Option<String>>, cab: &Vec<Option<String>>)
    requires
        ir@.wf(),
        old(out)@.entities.len() == 0,
        old(out)@.wf(),
        sg@.len() == ir@.entities.len(),
        cab@.len() == ir@.entities.len(),
        forall|j: int| 0 <= j < sg@.len() ==> opt_view(#[trigger] sg@[j]) == switch_group(ir@, group_views(groups@), ir@.entities[j].0),
        forall|j: int| 0 <= j < cab@.len() ==> opt_view(#[trigger] cab@[j]) == cabinet_group(ir@, group_views(groups@), ir@.entities[j].0),
    ensures
        final(out)@.entities == kept_entities(ir@, group_views(groups@), ir@.entities),
        final(out)@.links == old(out)@.links,
        final(out)@.contains == old(out)@.contains,
        final(out)@.wf(),
{
    let ghost v = ir@;
    let ghost gs = group_views(groups@);
    let ghost es = v.entities;
    let ghost l0 = out@.links;
    let ghost c0 = out@.contains;
    let mut j: usize = 0;
    assert(es.take(0).len() == 0);
    while j < ir.entities.len()
        invariant
            v == ir@,
            v.wf(),
            gs == group_views(groups@),
            es == v.entities,
            sg@.len() == es.len(),
            cab@.len() == es.len(),
            forall|q: int| 0 <= q < sg@.len() ==> opt_view(#[trigger] sg@[q]) == switch_group(v, gs, es[q].0),
            forall|q: int| 0 <= q < cab@.len() ==> opt_view(#[trigger] cab@[q]) == cabinet_group(v, gs, es[q].0),
            j <= es.len(),
            out@.entities == kept_entities(v, gs, es.take(j as int)),
            out@.links == l0,
            out@.contains == c0,
            out@.wf(),
        decreases ir.entities.len() - j,
    {
        let e = &ir.entities[j];
        proof {
            lemma_entity_at(v, j as int);
            assert(es.take(j + 1).drop_last() == es.take(j as int));
            assert(es.take(j + 1).last() == es[j as int]);
            assert(opt_view(sg@[j as int]) == switch_group(v, gs, es[j as int].0));
            assert(opt_view(cab@[j as int]) == cabinet_group(v, gs, es[j as int].0));
        }
        let dropped_leaf = e.kind == (EntityKind::Switch { level: Some(0) }) && sg[j].is_none();
        if cab[j].is_none() && !dropped_leaf {
            let mut ne = e.copy();
            match &sg[j] {
                Some(g) => {
                    let old_cell = ne.meta.remove("cell");
                    let cabinet = match old_cell {
                        Some(c) => c,
                        None => String::from_str(""),
                    };
                    proof {
                        reveal_strlit("");
                    }
                    ne.meta.insert(String::from_str("cabinet"), cabinet);
                    ne.meta.insert(String::from_str("cell"), g.clone());
                    assert(cabinet@ == (if e@.2.contains_key("cell"@) { e@.2["cell"@] } else { Seq::<char>::empty() }));
                    assert(ne@.2 =~= retag(e@.2, g@));
                },
                None => {},
            }
            out.add_entity(ne);
        }
        j = j + 1;
    }
    assert(es.take(j as int) == es);
}

/// The groups that some cabinet takes.
pub open spec fn won_groups(v: IRView, gs: Seq<GroupView>) -> Set<Seq<char>> {
    Set::new(|g: Seq<char>| exists|j: int| 0 <= j < v.entities.len() && cabinet_group(v, gs, v.entities[j].0) == Some(g))
}

/// The cabinets that take group `g`.
pub open spec fn cabinets_of(v: IRView, gs: Seq<GroupView>, g: Seq<char>) -> Set<Seq<char>> {
    Set::new(|c: Seq<char>| exists|j: int| 0 <= j < v.entities.len() && v.entities[j].0 == c && cabinet_group(v, gs, c) == Some(g))
}

/// The entity that stands for group `g`: its cabinets, by name, in
/// `cabinet_xname`.
pub open spec fn group_entity(v: IRView, gs: Seq<GroupView>, g: Seq<char>) -> EntityView {
    (
        g,
        EntityKind::Group,
        Map::<Seq<char>, Seq<char>>::empty().insert("cell"@, g).insert("cabinet_xname"@, join(sorted_list(cabinets_of(v, gs, g)), ","@)),
    )
}

/// The entities after adding the group entities of `gl` in order.
pub open spec fn with_groups(es: Seq<EntityView>, v: IRView, gs: Seq<GroupView>, gl: Seq<Seq<char>>) -> Seq<EntityView>
    decreases gl.len(),
{
    if gl.len() == 0 {
        es
    } else {
        with_entity(with_groups(es, v, gs, gl.drop_last()), group_entity(v, gs, gl.last()))
    }
}

/// The rewritten containment of one parent's list.
pub open spec fn row_pairs(v: IRView, gs: Seq<GroupView>, np: Seq<char>, ch: Seq<Seq<char>>) -> Seq<(Seq<char>, Seq<char>)>
    decreases ch.len(),
{
    if ch.len() == 0 {
        Seq::empty()
    } else {
        let r = row_pairs(v, gs, np, ch.drop_last());
        match rewrite(v, gs, ch.last()) {
            Some(c) => r.push((np, c)),
            None => r,
        }
    }
}

/// The rewritten (parent, child) pairs, in order.
pub open spec fn contains_pairs(v: IRView, gs: Seq<GroupView>, cs: Seq<ContainsView>) -> Seq<(Seq<char>, Seq<char>)>
    decreases cs.len(),
{
    if cs.len() == 0 {
        Seq::empty()
    } else {
        let r = contains_pairs(v, gs, cs.drop_last());
        match rewrite(v, gs, cs.last().0) {
            Some(np) => r + row_pairs(v, gs, np, cs.last().1),
            None => r,
        }
    }
}

/// The containment lists built by adding the pairs in order.
pub open spec fn fold_contains(ps: Seq<(Seq<char>, Seq<char>)>) -> Seq<ContainsView>
    decreases ps.len(),
{
    if ps.len() == 0 {
        Seq::empty()
    } else {
        with_child(fold_contains(ps.drop_last()), ps.last().0, ps.last().1)
    }
}

/// The links with both ends rewritten, those with a dropped end left out.
pub open spec fn rewritten_links(v: IRView, gs: Seq<GroupView>, ls: Seq<LinkView>) -> Seq<LinkView>
    decreases ls.len(),
{
    if ls.len() == 0 {
        Seq::empty()
    } else {
        let r = rewritten_links(v, gs, ls.drop_last());
        let l = ls.last();
        match (rewrite(v, gs, l.0), rewrite(v, gs, l.1)) {
            (Some(a), Some(b)) => r.push((a, b, l.2)),
            _ => r,
        }
    }
}

/// The topology with cabinets replaced by their groups.
pub open spec fn grouped_view(v: IRView, gs: Seq<GroupView>) -> IRView {
    IRView {
        entities: with_groups(kept_entities(v, gs, v.entities), v, gs, sorted_list(won_groups(v, gs))),
        links: rewritten_links(v, gs, v.links),
        contains: fold_contains(contains_pairs(v, gs, v.contains)),
    }
}

/// Add one group entity per group that some cabinet takes, in order of
/// group name.
fn add_group_entities(out: &mut TopologyIR, ir: &TopologyIR, groups: &Vec<AlpsGroup>, cab: &Vec<Option<String>>)
    requires
        ir@.wf(),
        old(out)@.wf(),
        cab@.len() == ir@.entities.len(),
        forall|j: int| 0 <= j < cab@.len() ==> opt_view(#[trigger] cab@[j]) == cabinet_group(ir@, group_views(groups@), ir@.entities[j].0),
    ensures
        final(out)@.entities == with_groups(old(out)@.entities, ir@, group_views(groups@), sorted_list(won_groups(ir@, group_views(groups@)))),
        final(out)@.links == old(out)@.links,
        final(out)@.contains == old(out)@.contains,
        final(out)@.wf(),
{
    let ghost v = ir@;
    let ghost gs = group_views(groups@);
    let ghost es = v.entities;
    let mut winners: Vec<String> = Vec::new();
    let mut j: usize = 0;
    while j < cab.len()
        invariant
            v == ir@,
            gs == group_views(groups@),
            es == v.entities,
            cab@.len() == es.len(),
            forall|q: int| 0 <= q < cab@.len() ==> opt_view(#[trigger] cab@[q]) == cabinet_group(v, gs, es[q].0),
            j <= es.len(),
            forall|g: Seq<char>| views(winners@).contains(g) <==> exists|q: int| 0 <= q < j && cabinet_group(v, gs, es[q].0) == Some(g),
        decreases cab.len() - j,
    {
        let ghost before = views(winners@);
        assert(opt_view(cab@[j as int]) == cabinet_group(v, gs, es[j as int].0));
        match &cab[j] {
            Some(g) => {
                winners.push(g.clone());
                assert(views(winners@) == before.push(g@));
            },
            None => {},
        }
        assert forall|g: Seq<char>| views(winners@).contains(g) <==> exists|q: int| 0 <= q < j + 1 && cabinet_group(v, gs, es[q].0) == Some(g) by {
            if exists|q: int| 0 <= q < j + 1 && cabinet_group(v, gs, es[q].0) == Some(g) {
                let q = choose|q: int| 0 <= q < j + 1 && cabinet_group(v, gs, es[q].0) == Some(g);
                if q < j {
                    assert(before.contains(g));
                }
            }
            if views(winners@).contains(g) && !before.contains(g) {
                assert(cabinet_group(v, gs, es[j as int].0) == Some(g));
            }
            if before.contains(g) {
                let q = choose|q: int| 0 <= q < j && cabinet_group(v, gs, es[q].0) == Some(g);
                assert(cabinet_group(v, gs, es[q].0) == Some(g));
            }
        }
        j = j + 1;
    }
    assert(views(winners@).to_set() =~= won_groups(v, gs));
    let gl = sorted_set_of(&winners);
    let ghost glv = views(gl@);
    let ghost start = out@.entities;
    let ghost l0 = out@.links;
    let ghost c0 = out@.contains;
    let mut k: usize = 0;
    assert(glv.take(0).len() == 0);
    while k < gl.len()
        invariant
            v == ir@,
            gs == group_views(groups@),
            es == v.entities,
            cab@.len() == es.len(),
            forall|q: int| 0 <= q < cab@.len() ==> opt_view(#[trigger] cab@[q]) == cabinet_group(v, gs, es[q].0),
            glv == views(gl@),
            k <= glv.len(),
            out@.entities == with_groups(start, v, gs, glv.take(k as int)),
            out@.links == l0,
            out@.contains == c0,
            out@.wf(),
        decreases gl.len() - k,
    {
        let g = &gl[k];
        let mut cabs: Vec<String> = Vec::new();
        let mut q: usize = 0;
        while q < cab.len()
            invariant
                v == ir@,
                es == v.entities,
                cab@.len() == es.len(),
                forall|t: int| 0 <= t < cab@.len() ==> opt_view(#[trigger] cab@[t]) == cabinet_group(v, gs, es[t].0),
                q <= es.len(),
                forall|c: Seq<char>| views(cabs@).contains(c) <==> exists|t: int| 0 <= t < q && es[t].0 == c && cabinet_group(v, gs, c) == Some(g@),
            decreases cab.len() - q,
        {
            let ghost before = views(cabs@);
            assert(opt_view(cab@[q as int]) == cabinet_group(v, gs, es[q as int].0));
            let hit = match &cab[q] {
                Some(w) => *w == *g,
                None => false,
            };
            if hit {
                cabs.push(ir.entities[q].id.0.clone());
                assert(views(cabs@) == before.push(es[q as int].0));
            }
            assert forall|c: Seq<char>| views(cabs@).contains(c) <==> exists|t: int| 0 <= t < q + 1 && es[t].0 == c && cabinet_group(v, gs, c) == Some(g@) by {
                if exists|t: int| 0 <= t < q + 1 && es[t].0 == c && cabinet_group(v, gs, c) == Some(g@) {
                    let t = choose|t: int| 0 <= t < q + 1 && es[t].0 == c && cabinet_group(v, gs, c) == Some(g@);
                    if t < q {
                        assert(before.contains(c));
                    }
                }
                if before.contains(c) {
                    let t = choose|t: int| 0 <= t < q && es[t].0 == c && cabinet_group(v, gs, c) == Some(g@);
                    assert(es[t].0 == c);
                }
            }
            q = q + 1;
        }
        assert(views(cabs@).to_set() =~= cabinets_of(v, gs, g@));
        let sorted = sorted_set_of(&cabs);
        let xn = join_strings(&sorted, ",");
        let mut meta = StrMap::new();
        meta.insert(String::from_str("cell"), g.clone());
        meta.insert(String::from_str("cabinet_xname"), xn);
        let ent = Entity { id: Id(g.clone()), kind: EntityKind::Group, meta };
        assert(ent@ =~= group_entity(v, gs, glv[k as int]));
        out.add_entity(ent);
        proof {
            assert(glv.take(k + 1).drop_last() == glv.take(k as int));
            assert(glv.take(k + 1).last() == glv[k as int]);
        }
        k = k + 1;
    }
    assert(glv.take(k as int) == glv);
}

/// Lemma: folding a sequence extended by one pair adds that pair.
proof fn lemma_fold_push(a: Seq<(Seq<char>, Seq<char>)>, x: (Seq<char>, Seq<char>))
    ensures
        fold_contains(a.push(x)) == with_child(fold_contains(a), x.0, x.1),
{
    assert(a.push(x).drop_last() == a);
}

/// Add the rewritten containment.
fn add_rewritten_contains(out: &mut TopologyIR, ir: &TopologyIR, groups: &Vec<AlpsGroup>, sg: &Vec<Option<String>>, cab: &Vec<Option<String>>)
    requires
        ir@.wf(),
        old(out)@.wf(),
        old(out)@.contains.len() == 0,
        sg@.len() == ir@.entities.len(),
        cab@.len() == ir@.entities.len(),
        forall|j: int| 0 <= j < sg@.len() ==> opt_view(#[trigger] sg@[j]) == switch_group(ir@, group_views(groups@), ir@.entities[j].0),
        forall|j: int| 0 <= j < cab@.len() ==> opt_view(#[trigger] cab@[j]) == cabinet_group(ir@, group_views(groups@), ir@.entities[j].0),
    ensures
        final(out)@.contains == fold_contains(contains_pairs(ir@, group_views(groups@), ir@.contains)),
        final(out)@.entities == old(out)@.entities,
        final(out)@.links == old(out)@.links,
        final(out)@.wf(),
{
    let ghost v = ir@;
    let ghost gs = group_views(groups@);
    let ghost cs = v.contains;
    let ghost e0 = out@.entities;
    let ghost l0 = out@.links;
    let mut k: usize = 0;
    assert(cs.take(0).len() == 0);
    assert(out@.contains == fold_contains(contains_pairs(v, gs, cs.take(0))));
    while k < ir.contains.len()
        invariant
            v == ir@,
            v.wf(),
            gs == group_views(groups@),
            cs == v.contains,
            sg@.len() == v.entities.len(),
            cab@.len() == v.entities.len(),
            forall|j: int| 0 <= j < sg@.len() ==> opt_view(#[trigger] sg@[j]) == switch_group(v, gs, v.entities[j].0),
            forall|j: int| 0 <= j < cab@.len() ==> opt_view(#[trigger] cab@[j]) == cabinet_group(v, gs, v.entities[j].0),
            k <= cs.len(),
            out@.contains == fold_contains(contains_pairs(v, gs, cs.take(k as int))),
            out@.entities == e0,
            out@.links == l0,
            out@.wf(),
        decreases ir.contains.len() - k,
    {
        let parent = &ir.contains[k].0;
        let ch = &ir.contains[k].1;
        let ghost iv = crate::ir::id_views(ch@);
        proof {
            assert(cs[k as int] == (parent@, iv));
            assert(cs.take(k + 1).drop_last() == cs.take(k as int));
            assert(cs.take(k + 1).last() == cs[k as int]);
        }
        let rp = rewrite_name(ir, groups, sg, cab, &parent.0);
        match rp {
            Some(np) => {
                let ghost base = contains_pairs(v, gs, cs.take(k as int));
                let mut q: usize = 0;
                assert(iv.take(0).len() == 0);
                assert(base + row_pairs(v, gs, np@, iv.take(0)) == base);
                while q < ch.len()
                    invariant
                        v == ir@,
                        v.wf(),
                        gs == group_views(groups@),
                        sg@.len() == v.entities.len(),
                        cab@.len() == v.entities.len(),
                        forall|j: int| 0 <= j < sg@.len() ==> opt_view(#[trigger] sg@[j]) == switch_group(v, gs, v.entities[j].0),
                        forall|j: int| 0 <= j < cab@.len() ==> opt_view(#[trigger] cab@[j]) == cabinet_group(v, gs, v.entities[j].0),
                        iv == crate::ir::id_views(ch@),
                        q <= iv.len(),
                        out@.contains == fold_contains(base + row_pairs(v, gs, np@, iv.take(q as int))),
                        out@.entities == e0,
                        out@.links == l0,
                        out@.wf(),
                    decreases ch.len() - q,
                {
                    let rc = rewrite_name(ir, groups, sg, cab, &ch[q].0);
                    proof {
                        assert(iv.take(q + 1).drop_last() == iv.take(q as int));
                        assert(iv.take(q + 1).last() == iv[q as int]);
                        assert(iv[q as int] == ch@[q as int]@);
                    }
                    match rc {
                        Some(c) => {
                            let ghost cv = c@;
                            out.add_contains(Id(np.clone()), Id(c));
                            proof {
                                let rp0 = row_pairs(v, gs, np@, iv.take(q as int));
                                assert(row_pairs(v, gs, np@, iv.take(q + 1)) == rp0.push((np@, cv)));
                                assert(base + rp0.push((np@, cv)) == (base + rp0).push((np@, cv)));
                                lemma_fold_push(base + rp0, (np@, cv));
                            }
                        },
                        None => {},
                    }
                    q = q + 1;
                }
                assert(iv.take(q as int) == iv);
            },
            None => {},
        }
        k = k + 1;
    }
    assert(cs.take(k as int) == cs);
}

/// Add the rewritten links.
fn add_rewritten_links(out: &mut TopologyIR, ir: &TopologyIR, groups: &Vec<AlpsGroup>, sg: &Vec<Option<String>>, cab: &Vec<Option<String>>)
    requires
        ir@.wf(),
        old(out)@.links.len() == 0,
        sg@.len() == ir@.entities.len(),
        cab@.len() == ir@.entities.len(),
        forall|j: int| 0 <= j < sg@.len() ==> opt_view(#[trigger] sg@[j]) == switch_group(ir@, group_views(groups@), ir@.entities[j].0),
        forall|j: int| 0 <= j < cab@.len() ==> opt_view(#[trigger] cab@[j]) == cabinet_group(ir@, group_views(groups@), ir@.entities[j].0),
    ensures
        final(out)@.links == rewritten_links(ir@, group_views(groups@), ir@.links),
        final(out)@.entities == old(out)@.entities,
        final(out)@.contains == old(out)@.contains,
        old(out)@.wf() ==> final(out)@.wf(),
{
    let ghost v = ir@;
    let ghost gs = group_views(groups@);
    let ghost ls = v.links;
    let ghost start = out@;
    let mut i: usize = 0;
    assert(ls.take(0).len() == 0);
    while i < ir.links.len()
        invariant
            v == ir@,
            v.wf(),
            gs == group_views(groups@),
            ls == v.links,
            sg@.len() == v.entities.len(),
            cab@.len() == v.entities.len(),
            forall|j: int| 0 <= j < sg@.len() ==> opt_view(#[trigger] sg@[j]) == switch_group(v, gs, v.entities[j].0),
            forall|j: int| 0 <= j < cab@.len() ==> opt_view(#[trigger] cab@[j]) == cabinet_group(v, gs, v.entities[j].0),
            i <= ls.len(),
            out@.links == rewritten_links(v, gs, ls.take(i as int)),
            out@.entities == start.entities,
            out@.contains == start.contains,
            start.wf() ==> out@.wf(),
        decreases ir.links.len() - i,
    {
        let l = &ir.links[i];
        proof {
            assert(ls.take(i + 1).drop_last() == ls.take(i as int));
            assert(ls.take(i + 1).last() == ls[i as int]);
            assert(ls[i as int] == l@);
        }
        let a = rewrite_name(ir, groups, sg, cab, &l.from.0);
        let b = rewrite_name(ir, groups, sg, cab, &l.to.0);
        match (a, b) {
            (Some(x), Some(y)) => {
                out.add_link(Id(x), Id(y), l.weight);
            },
            _ => {},
        }
        i = i + 1;
    }
    assert(ls.take(i as int) == ls);
}

/// Replace cabinets by their dragonfly groups: each leaf (Level 0) switch
/// is matched to the group of `groups` that shares most of its compute
/// nodes (the last among equals), and keeps its old `cell` as `cabinet`
/// with the group as `cell`; leaf switches without a match are dropped;
/// each cabinet (a switch without level) over matched switches becomes the
/// group most of them voted for (the first by name among equals), a group
/// entity listing its cabinets; containment and links are rewritten
/// accordingly.
pub fn groups_from_topology(ir: &TopologyIR, groups: &Vec<AlpsGroup>) -> (r: TopologyIR)
    requires
        ir@.wf(),
    ensures
        r@ == grouped_view(ir@, group_views(groups@)),
        r@.wf(),
{
    let sg = match_switches(ir, groups);
    let cab = match_cabinets(ir, groups, &sg);
    let mut out = TopologyIR::new();
    add_kept_entities(&mut out, ir, groups, &sg, &cab);
    add_group_entities(&mut out, ir, groups, &cab);
    add_rewritten_contains(&mut out, ir, groups, &sg, &cab);
    add_rewritten_links(&mut out, ir, groups, &sg, &cab);
    out
}

/// Parse the `scontrol show topology` records and replace cabinets by the
/// groups they name (see `groups_from_topology`); fails with the first node
/// list that does not expand.
pub fn get_groups_from_topo(ir: TopologyIR, raw: &str) -> (r: Result<TopologyIR, NodeListParseError>)
    requires
        ir@.wf(),
    ensures
        match groups_spec(lines_of(raw@)) {
            Ok(gs) => r matches Ok(t) && t@ == grouped_view(ir@, gs) && t@.wf(),
            Err(m) => r matches Err(e) && e.msg@ == m,
        },
{
    let groups = match parse_groups(raw) {
        Ok(g) => g,
        Err(e) => return Err(e),
    };
    Ok(groups_from_topology(&ir, &groups))
}
} // verus!
