//! Normalization of topologies in which a node hangs under several
//! switches: such nodes are moved under one synthetic switch per set of
//! parents, so that afterwards every node has exactly one parent.
use vstd::prelude::*;
use vstd::string::*;
use crate::ir::{id_views, ContainsView, EntityView, Entity, Id, IRView, TopologyIR};
use crate::order::{sorted, sorted_version, join, join_strings, sort_strings};
use crate::text::seq_lt;
use crate::text::{chars_of, extend_chars, string_of, views};

verus! {

broadcast use vstd::seq_lib::group_seq_properties;

/// The views of containment lists.
pub open spec fn cviews(v: Seq<(Id, Vec<Id>)>) -> Seq<ContainsView> {
    v.map_values(|c: (Id, Vec<Id>)| (c.0@, id_views(c.1@)))
}

/// Occurrences of `x` in a list.
pub open spec fn count_in(s: Seq<Seq<char>>, x: Seq<char>) -> nat
    decreases s.len(),
{
    if s.len() == 0 {
        0
    } else {
        count_in(s.drop_last(), x) + if s.last() == x {
            1nat
        } else {
            0nat
        }
    }
}

/// Occurrences of `x` as a child, over all containment lists.
pub open spec fn occ(cs: Seq<ContainsView>, x: Seq<char>) -> nat
    decreases cs.len(),
{
    if cs.len() == 0 {
        0
    } else {
        occ(cs.drop_last(), x) + count_in(cs.last().1, x)
    }
}

proof fn lemma_occ_update(cs: Seq<ContainsView>, k: int, nl: ContainsView, x: Seq<char>)
    requires
        0 <= k < cs.len(),
    ensures
        occ(cs.update(k, nl), x) + count_in(cs[k].1, x) == occ(cs, x) + count_in(nl.1, x),
    decreases cs.len(),
{
    if k < cs.len() - 1 {
        assert(cs.update(k, nl).drop_last() =~= cs.drop_last().update(k, nl));
        lemma_occ_update(cs.drop_last(), k, nl, x);
    } else {
        assert(cs.update(k, nl).drop_last() =~= cs.drop_last());
    }
}

proof fn lemma_occ_push(cs: Seq<ContainsView>, nl: ContainsView, x: Seq<char>)
    ensures
        occ(cs.push(nl), x) == occ(cs, x) + count_in(nl.1, x),
{
    assert(cs.push(nl).drop_last() =~= cs);
}

proof fn lemma_count_push(s: Seq<Seq<char>>, y: Seq<char>, x: Seq<char>)
    ensures
        count_in(s.push(y), x) == count_in(s, x) + if y == x {
            1nat
        } else {
            0nat
        },
{
    assert(s.push(y).drop_last() =~= s);
}

proof fn lemma_count_pos(s: Seq<Seq<char>>, q: int)
    requires
        0 <= q < s.len(),
    ensures
        count_in(s, s[q]) >= 1,
    decreases s.len(),
{
    if q < s.len() - 1 {
        lemma_count_pos(s.drop_last(), q);
    }
}

proof fn lemma_occ_ge(cs: Seq<ContainsView>, k: int, x: Seq<char>)
    requires
        0 <= k < cs.len(),
    ensures
        occ(cs, x) >= count_in(cs[k].1, x),
    decreases cs.len(),
{
    if k < cs.len() - 1 {
        lemma_occ_ge(cs.drop_last(), k, x);
    }
}

/// Each list kept with only the children `keep` accepts.
pub open spec fn filter_lists(cs: Seq<ContainsView>, keep: spec_fn(Seq<char>) -> bool) -> Seq<ContainsView> {
    Seq::new(cs.len(), |k: int| (cs[k].0, cs[k].1.filter(keep)))
}

proof fn lemma_count_filter(s: Seq<Seq<char>>, keep: spec_fn(Seq<char>) -> bool, x: Seq<char>)
    ensures
        count_in(s.filter(keep), x) == if keep(x) {
            count_in(s, x)
        } else {
            0
        },
    decreases s.len(),
{
    reveal(Seq::filter);
    if s.len() > 0 {
        lemma_count_filter(s.drop_last(), keep, x);
        if keep(s.last()) {
            lemma_count_push(s.drop_last().filter(keep), s.last(), x);
        }
    }
}

proof fn lemma_occ_filter(cs: Seq<ContainsView>, keep: spec_fn(Seq<char>) -> bool, x: Seq<char>)
    ensures
        occ(filter_lists(cs, keep), x) == if keep(x) {
            occ(cs, x)
        } else {
            0
        },
    decreases cs.len(),
{
    if cs.len() > 0 {
        assert(filter_lists(cs, keep).drop_last() =~= filter_lists(cs.drop_last(), keep));
        lemma_occ_filter(cs.drop_last(), keep, x);
        lemma_count_filter(cs.last().1, keep, x);
    }
}

/// The parent of each occurrence of `x` as a child, in list order.
pub open spec fn parents_of(cs: Seq<ContainsView>, x: Seq<char>) -> Seq<Seq<char>>
    decreases cs.len(),
{
    if cs.len() == 0 {
        Seq::empty()
    } else {
        parents_of(cs.drop_last(), x) + Seq::new(count_in(cs.last().1, x), |i: int| cs.last().0)
    }
}

proof fn lemma_parents_len(cs: Seq<ContainsView>, x: Seq<char>)
    ensures
        parents_of(cs, x).len() == occ(cs, x),
    decreases cs.len(),
{
    if cs.len() > 0 {
        lemma_parents_len(cs.drop_last(), x);
    }
}

/// Every node that `cs` lists more than once sits, in `r`, only under the
/// synthetic switch named after its sorted parents.
pub open spec fn under_synthetic(cs: Seq<ContainsView>, r: Seq<ContainsView>) -> bool {
    forall|k: int, y: Seq<char>|
        0 <= k < r.len() && #[trigger] r[k].1.contains(y) && occ(cs, y) > 1 ==> r[k].0 == synthetic_name(
            sorted_version(parents_of(cs, y)),
        )
}

/// The least of the names of `s` comes first in its sorted version.
proof fn lemma_least_first(s: Seq<Seq<char>>, b: int)
    requires
        0 <= b < s.len(),
        forall|q: int| 0 <= q < s.len() ==> !seq_lt(#[trigger] s[q], s[b]),
        sorted(sorted_version(s)),
        sorted_version(s).to_multiset() == s.to_multiset(),
    ensures
        sorted_version(s).len() > 0,
        sorted_version(s)[0] == s[b],
{
    broadcast use vstd::seq_lib::group_to_multiset_ensures;
    let l = sorted_version(s);
    assert(s.contains(s[b]));
    assert(s.to_multiset().count(s[b]) > 0);
    assert(l.contains(s[b]));
    let u = choose|u: int| 0 <= u < l.len() && l[u] == s[b];
    assert(l.to_multiset().count(l[0]) > 0);
    assert(s.contains(l[0]));
    let q = choose|q: int| 0 <= q < s.len() && s[q] == l[0];
    assert(!seq_lt(l[0], s[b]));
    if u > 0 {
        assert(!seq_lt(l[u], l[0]));
    }
    crate::order::lemma_lt_total(l[0], s[b]);
}

/// A synthetic switch entity: named after the sorted parents of a node that
/// `cs` lists more than once, a copy of the entity of the least of them
/// marked `__synthetic = "true"`.
pub open spec fn synthetic_of(cs: Seq<ContainsView>, es: Seq<EntityView>, e: EntityView) -> bool {
    exists|y: Seq<char>|
        occ(cs, y) > 1 && e.0 == synthetic_name(sorted_version(#[trigger] parents_of(cs, y))) && exists|j: int|
            0 <= j < es.len() && es[j].0 == sorted_version(parents_of(cs, y))[0] && e.1 == es[j].1 && e.2 == es[j].2.insert(
                "__synthetic"@,
                "true"@,
            )
}

/// The entities after normalization: those of `es` and synthetic switches
/// (see `synthetic_of`); every entity of `es` stays unless a synthetic
/// switch took its id; each node listed more than once whose least parent
/// is an entity has its synthetic switch.
pub open spec fn entities_normalized(cs: Seq<ContainsView>, es: Seq<EntityView>, res: Seq<EntityView>) -> bool {
    &&& forall|j: int| 0 <= j < res.len() ==> es.contains(#[trigger] res[j]) || synthetic_of(cs, es, res[j])
    &&& forall|j: int|
        0 <= j < es.len() ==> res.contains(#[trigger] es[j]) || exists|y: Seq<char>|
            occ(cs, y) > 1 && es[j].0 == synthetic_name(sorted_version(#[trigger] parents_of(cs, y)))
    &&& forall|y: Seq<char>|
        occ(cs, y) > 1 && crate::ir::entity_pos(es, sorted_version(parents_of(cs, y))[0]) is Some ==> crate::ir::entity_pos(
            res,
            synthetic_name(sorted_version(#[trigger] parents_of(cs, y))),
        ) is Some
}

/// The lists kept by `drop_empty` are lists of `cs`.
proof fn lemma_drop_empty_sub(cs: Seq<ContainsView>)
    ensures
        forall|k: int| 0 <= k < drop_empty(cs).len() ==> cs.contains(#[trigger] drop_empty(cs)[k]),
    decreases cs.len(),
{
    reveal(Seq::filter);
    if cs.len() > 0 {
        lemma_drop_empty_sub(cs.drop_last());
        let d = drop_empty(cs.drop_last());
        assert forall|k: int| 0 <= k < drop_empty(cs).len() implies cs.contains(#[trigger] drop_empty(cs)[k]) by {
            if k < d.len() {
                assert(drop_empty(cs)[k] == d[k]);
                let i = choose|i: int| 0 <= i < cs.drop_last().len() && cs.drop_last()[i] == d[k];
                assert(cs[i] == d[k]);
            } else {
                assert(drop_empty(cs)[k] == cs.last());
                assert(cs[cs.len() - 1] == cs.last());
            }
        }
    }
}

/// The lists that are not empty.
pub open spec fn drop_empty(cs: Seq<ContainsView>) -> Seq<ContainsView> {
    cs.filter(|c: ContainsView| c.1.len() > 0)
}

proof fn lemma_occ_drop_empty(cs: Seq<ContainsView>, x: Seq<char>)
    ensures
        occ(drop_empty(cs), x) == occ(cs, x),
    decreases cs.len(),
{
    reveal(Seq::filter);
    if cs.len() > 0 {
        lemma_occ_drop_empty(cs.drop_last(), x);
        let c = cs.last();
        if c.1.len() > 0 {
            lemma_occ_push(drop_empty(cs.drop_last()), c, x);
        } else {
            assert(count_in(c.1, x) == 0);
        }
    }
}

/// The name of the synthetic switch for a (sorted) set of parents.
pub open spec fn synthetic_name(sorted_parents: Seq<Seq<char>>) -> Seq<char> {
    "__synthetic_l1_"@ + join(sorted_parents, "_"@)
}

/// Index of the child `x` among `kids`.
fn find_kid(kids: &Vec<Id>, x: &Id) -> (r: Option<usize>)
    ensures
        r matches Some(k) ==> k < kids@.len() && kids@[k as int]@ == x@,
        r is None ==> forall|k: int| 0 <= k < kids@.len() ==> kids@[k]@ != x@,
{
    let mut k: usize = 0;
    while k < kids.len()
        invariant
            k <= kids@.len(),
            forall|q: int| 0 <= q < k ==> kids@[q]@ != x@,
        decreases kids.len() - k,
    {
        if kids[k].same(x) {
            return Some(k);
        }
        k = k + 1;
    }
    None
}

/// Entity `e` is one of `es`, or a copy of one under another name marked
/// `__synthetic = "true"`.
pub open spec fn from_or_synthetic(es: Seq<EntityView>, e: EntityView) -> bool {
    ||| es.contains(e)
    ||| exists|j: int| 0 <= j < es.len() && e.1 == (#[trigger] es[j]).1 && e.2 == es[j].2.insert("__synthetic"@, "true"@)
}

/// A node that one list alone holds stays in a list of the same parent.
pub open spec fn keeps_single_parents(cs: Seq<ContainsView>, r: Seq<ContainsView>) -> bool {
    forall|k: int, j: int|
        0 <= k < cs.len() && 0 <= j < cs[k].1.len() && occ(cs, #[trigger] cs[k].1[j]) == 1 ==> exists|k2: int|
            0 <= k2 < r.len() && r[k2].0 == cs[k].0 && r[k2].1.contains(cs[k].1[j])
}

/// Move every node that some containment lists share to a synthetic switch
/// named after its sorted parents (a copy of the least parent's entity,
/// marked `__synthetic`); lists left empty go.  Afterwards each node that
/// some list contained is contained by exactly one list, once.
#[verifier::spinoff_prover]
#[verifier::rlimit(100)]
pub fn normalize_multiparent_topology(ir: &TopologyIR) -> (r: TopologyIR)
    ensures
        forall|x: Seq<char>| #[trigger] occ(r@.contains, x) == if occ(ir@.contains, x) > 0 {
            1nat
        } else {
            0nat
        },
        r@.links == ir@.links,
        keeps_single_parents(ir@.contains, r@.contains),
        forall|j: int| 0 <= j < r@.entities.len() ==> from_or_synthetic(ir@.entities, #[trigger] r@.entities[j]),
        under_synthetic(ir@.contains, r@.contains),
        entities_normalized(ir@.contains, ir@.entities, r@.entities),
{
    let ghost cs = ir@.contains;
    // Each child, with its parents (one per occurrence).
    let mut kids: Vec<Id> = Vec::new();
    let mut pars: Vec<Vec<Id>> = Vec::new();
    let mut l: usize = 0;
    while l < ir.contains.len()
        invariant
            cs == ir@.contains,
            l <= cs.len(),
            kids@.len() == pars@.len(),
            forall|a: int, b: int| 0 <= a < b < kids@.len() ==> #[trigger] kids@[a]@ != #[trigger] kids@[b]@,
            forall|a: int| 0 <= a < kids@.len() ==> #[trigger] pars@[a]@.len() == occ(cs.take(l as int), kids@[a]@),
            forall|x: Seq<char>| occ(cs.take(l as int), x) > 0 ==> exists|a: int| 0 <= a < kids@.len() && #[trigger] kids@[a]@ == x,
            forall|a: int| 0 <= a < kids@.len() ==> id_views(#[trigger] pars@[a]@) == parents_of(cs.take(l as int), kids@[a]@),
        decreases ir.contains.len() - l,
    {
        let parent = &ir.contains[l].0;
        let children = &ir.contains[l].1;
        let ghost before_t = cs.take(l as int);
        let ghost cl = cs[l as int].1;
        assert(cs[l as int] == (parent@, id_views(children@)));
        assert(cs.take(l + 1).drop_last() =~= before_t);
        let mut j: usize = 0;
        while j < children.len()
            invariant
                cs == ir@.contains,
                l < cs.len(),
                cl == cs[l as int].1,
                cl == id_views(children@),
                j <= children@.len(),
                kids@.len() == pars@.len(),
                forall|a: int, b: int| 0 <= a < b < kids@.len() ==> #[trigger] kids@[a]@ != #[trigger] kids@[b]@,
                forall|a: int| 0 <= a < kids@.len() ==> #[trigger] pars@[a]@.len() == occ(cs.take(l as int), kids@[a]@) + count_in(cl.take(j as int), kids@[a]@),
                forall|x: Seq<char>| occ(cs.take(l as int), x) + count_in(cl.take(j as int), x) > 0 ==> exists|a: int| 0 <= a < kids@.len() && #[trigger] kids@[a]@ == x,
                forall|a: int|
                    0 <= a < kids@.len() ==> id_views(#[trigger] pars@[a]@) == parents_of(cs.take(l as int), kids@[a]@) + Seq::new(
                        count_in(cl.take(j as int), kids@[a]@),
                        |i: int| cs[l as int].0,
                    ),
                parent@ == cs[l as int].0,
            decreases children.len() - j,
        {
            let c = &children[j];
            assert(cl.take(j + 1).drop_last() =~= cl.take(j as int));
            assert(cl.take(j + 1).last() == c@);
            let ghost old_kids = kids@;
            let ghost old_pars = pars@;
            let ghost mut wit: int = 0;
            match find_kid(&kids, c) {
                Some(k) => {
                    proof {
                        wit = k as int;
                    }
                    let mut ps = pars.remove(k);
                    ps.push(parent.copy());
                    pars.insert(k, ps);
                    proof {
                        assert forall|a: int| 0 <= a < kids@.len() implies #[trigger] pars@[a]@.len() == occ(cs.take(l as int), kids@[a]@) + count_in(cl.take(j + 1), kids@[a]@) by {
                            if a != k {
                                assert(pars@[a] == old_pars[a]);
                            }
                        }
                        assert forall|a: int|
                            0 <= a < kids@.len() implies id_views(#[trigger] pars@[a]@) == parents_of(cs.take(l as int), kids@[a]@) + Seq::new(
                                count_in(cl.take(j + 1), kids@[a]@),
                                |i: int| cs[l as int].0,
                            ) by {
                            if a != k {
                                assert(pars@[a] == old_pars[a]);
                            } else {
                                let n = count_in(cl.take(j as int), c@);
                                assert(id_views(pars@[a]@) =~= id_views(old_pars[a]@).push(parent@));
                                assert(Seq::new(n + 1, |i: int| cs[l as int].0) =~= Seq::new(n, |i: int| cs[l as int].0).push(cs[l as int].0));
                            }
                        }
                    }
                },
                None => {
                    kids.push(c.copy());
                    proof {
                        wit = old_kids.len() as int;
                    }
                    let mut ps: Vec<Id> = Vec::new();
                    ps.push(parent.copy());
                    pars.push(ps);
                    proof {
                        assert forall|a: int| 0 <= a < kids@.len() implies #[trigger] pars@[a]@.len() == occ(cs.take(l as int), kids@[a]@) + count_in(cl.take(j + 1), kids@[a]@) by {
                            if a < old_kids.len() {
                                assert(pars@[a] == old_pars[a]);
                                assert(kids@[a] == old_kids[a]);
                            } else {
                                // a new child had no occurrence before
                                if occ(cs.take(l as int), c@) + count_in(cl.take(j as int), c@) > 0 {
                                    let q = choose|q: int| 0 <= q < old_kids.len() && #[trigger] old_kids[q]@ == c@;
                                }
                            }
                        }
                        assert forall|a: int, b: int| 0 <= a < b < kids@.len() implies #[trigger] kids@[a]@ != #[trigger] kids@[b]@ by {
                            if b == kids@.len() - 1 {
                                assert(kids@[a] == old_kids[a]);
                            } else {
                                assert(kids@[a] == old_kids[a] && kids@[b] == old_kids[b]);
                            }
                        }
                        assert forall|a: int|
                            0 <= a < kids@.len() implies id_views(#[trigger] pars@[a]@) == parents_of(cs.take(l as int), kids@[a]@) + Seq::new(
                                count_in(cl.take(j + 1), kids@[a]@),
                                |i: int| cs[l as int].0,
                            ) by {
                            if a < old_kids.len() {
                                assert(pars@[a] == old_pars[a]);
                                assert(kids@[a] == old_kids[a]);
                            } else {
                                assert(pars@[a]@.len() == occ(cs.take(l as int), c@) + count_in(cl.take(j + 1), c@));
                                if occ(cs.take(l as int), c@) + count_in(cl.take(j as int), c@) > 0 {
                                    let q = choose|q: int| 0 <= q < old_kids.len() && #[trigger] old_kids[q]@ == c@;
                                }
                                lemma_parents_len(cs.take(l as int), c@);
                                assert(parents_of(cs.take(l as int), c@) =~= Seq::<Seq<char>>::empty());
                                assert(id_views(pars@[a]@) =~= seq![parent@]);
                                assert(Seq::new(1, |i: int| cs[l as int].0) =~= seq![cs[l as int].0]);
                            }
                        }
                    }
                },
            }
            proof {
                assert forall|x: Seq<char>| occ(cs.take(l as int), x) + count_in(cl.take(j + 1), x) > 0 implies exists|a: int| 0 <= a < kids@.len() && #[trigger] kids@[a]@ == x by {
                    if x == c@ {
                        assert(kids@[wit]@ == x);
                    } else {
                        let q = choose|q: int| 0 <= q < old_kids.len() && #[trigger] old_kids[q]@ == x;
                        assert(kids@[q] == old_kids[q]);
                    }
                }
            }
            j = j + 1;
        }
        assert(cl.take(j as int) =~= cl);
        proof {
            assert forall|x: Seq<char>| occ(cs.take(l + 1), x) == occ(cs.take(l as int), x) + count_in(cl, x) by {}
            assert forall|x: Seq<char>| parents_of(cs.take(l + 1), x) == parents_of(cs.take(l as int), x) + Seq::new(
                count_in(cl, x),
                |i: int| cs[l as int].0,
            ) by {
                assert(cs.take(l + 1).last() == cs[l as int]);
                assert(Seq::new(count_in(cl, x), |i: int| cs.take(l + 1).last().0) =~= Seq::new(
                    count_in(cl, x),
                    |i: int| cs[l as int].0,
                ));
            }
        }
        l = l + 1;
    }
    assert(cs.take(l as int) =~= cs);
    // Synthetic switch names for nodes with several parents.
    let mut synth: Vec<String> = Vec::new();
    let mut any_multi = false;
    let mut k: usize = 0;
    while k < kids.len()
        invariant
            k <= kids@.len(),
            kids@.len() == pars@.len(),
            synth@.len() == k,
            any_multi == exists|a: int| 0 <= a < k && #[trigger] pars@[a]@.len() > 1,
            forall|a: int| 0 <= a < kids@.len() ==> id_views(#[trigger] pars@[a]@) == parents_of(cs, kids@[a]@),
            forall|a: int| 0 <= a < k ==> (#[trigger] synth@[a])@ == synthetic_name(sorted_version(parents_of(cs, kids@[a]@))),
            forall|a: int|
                0 <= a < k ==> sorted(sorted_version(#[trigger] parents_of(cs, kids@[a]@))) && sorted_version(
                    parents_of(cs, kids@[a]@),
                ).to_multiset() == parents_of(cs, kids@[a]@).to_multiset(),
        decreases kids.len() - k,
    {
        let mut names: Vec<String> = Vec::new();
        let mut q: usize = 0;
        while q < pars[k].len()
            invariant
                k < pars@.len(),
                q <= pars@[k as int]@.len(),
                names@.len() == q,
                views(names@) == id_views(pars@[k as int]@).take(q as int),
            decreases pars@[k as int]@.len() - q,
        {
            let ghost prev = views(names@);
            names.push(pars[k][q].0.clone());
            assert(views(names@) =~= prev.push(pars@[k as int]@[q as int]@));
            assert(id_views(pars@[k as int]@).take(q + 1) =~= id_views(pars@[k as int]@).take(q as int).push(
                pars@[k as int]@[q as int]@,
            ));
            q = q + 1;
        }
        assert(id_views(pars@[k as int]@).take(q as int) =~= id_views(pars@[k as int]@));
        let sorted = sort_strings(&names);
        let mut sn: Vec<char> = chars_of("__synthetic_l1_");
        let joined = crate::order::join_chars(&sorted, "_");
        extend_chars(&mut sn, joined.as_slice());
        let ghost prev_synth = synth@;
        synth.push(string_of(sn.as_slice()));
        proof {
            assert(synth@[k as int]@ == synthetic_name(sorted_version(parents_of(cs, kids@[k as int]@))));
            assert forall|a: int| 0 <= a < k + 1 implies (#[trigger] synth@[a])@ == synthetic_name(sorted_version(parents_of(cs, kids@[a]@))) by {
                if a < k {
                    assert(synth@[a] == prev_synth[a]);
                }
            }
            assert(views(names@) == parents_of(cs, kids@[k as int]@));
        }
        if pars[k].len() > 1 {
            any_multi = true;
        }
        k = k + 1;
    }
    if !any_multi {
        proof {
            assert forall|x: Seq<char>| #[trigger] occ(cs, x) == if occ(cs, x) > 0 {
                1nat
            } else {
                0nat
            } by {
                if occ(cs, x) > 0 {
                    let a = choose|a: int| 0 <= a < kids@.len() && #[trigger] kids@[a]@ == x;
                    assert(pars@[a]@.len() <= 1);
                }
            }
            assert forall|k: int, j: int|
                0 <= k < cs.len() && 0 <= j < cs[k].1.len() && occ(cs, #[trigger] cs[k].1[j]) == 1 implies exists|k2: int|
                    0 <= k2 < cs.len() && cs[k2].0 == cs[k].0 && cs[k2].1.contains(cs[k].1[j]) by {
                assert(cs[k].1.contains(cs[k].1[j]));
            }
            assert(under_synthetic(cs, cs));
        }
        let r = ir.copy();
        assert forall|j: int| 0 <= j < r@.entities.len() implies from_or_synthetic(ir@.entities, #[trigger] r@.entities[j]) by {
            assert(ir@.entities.contains(r@.entities[j]));
        }
        proof {
            assert forall|j: int| 0 <= j < ir@.entities.len() implies r@.entities.contains(#[trigger] ir@.entities[j]) by {
                assert(r@.entities[j] == ir@.entities[j]);
            }
            assert forall|y: Seq<char>| occ(cs, y) <= 1 by {
                if occ(cs, y) > 0 {
                    let a = choose|a: int| 0 <= a < kids@.len() && #[trigger] kids@[a]@ == y;
                    assert(pars@[a]@.len() <= 1);
                }
            }
            assert(entities_normalized(cs, ir@.entities, r@.entities));
        }
        return r;
    }
    // Lists keep their single-parent children.
    let ghost single = |x: Seq<char>| occ(cs, x) == 1;
    let mut contains: Vec<(Id, Vec<Id>)> = Vec::new();
    let mut l2: usize = 0;
    while l2 < ir.contains.len()
        invariant
            cs == ir@.contains,
            l2 <= cs.len(),
            kids@.len() == pars@.len(),
            forall|a: int, b: int| 0 <= a < b < kids@.len() ==> #[trigger] kids@[a]@ != #[trigger] kids@[b]@,
            forall|a: int| 0 <= a < kids@.len() ==> #[trigger] pars@[a]@.len() == occ(cs, kids@[a]@),
            forall|x: Seq<char>| occ(cs, x) > 0 ==> exists|a: int| 0 <= a < kids@.len() && #[trigger] kids@[a]@ == x,
            single == (|x: Seq<char>| occ(cs, x) == 1),
            cviews(contains@) == filter_lists(cs.take(l2 as int), single),
        decreases ir.contains.len() - l2,
    {
        let children = &ir.contains[l2].1;
        let ghost cl = id_views(children@);
        assert(cs[l2 as int] == (ir.contains@[l2 as int].0@, cl));
        let mut kept: Vec<Id> = Vec::new();
        proof {
            assert forall|q: int| 0 <= q < children@.len() implies occ(cs, #[trigger] cl[q]) > 0 by {
                lemma_count_pos(cl, q);
                lemma_occ_ge(cs, l2 as int, cl[q]);
            }
        }
        let mut j: usize = 0;
        while j < children.len()
            invariant
                cs == ir@.contains,
                cl == id_views(children@),
                j <= children@.len(),
                kids@.len() == pars@.len(),
                forall|a: int| 0 <= a < kids@.len() ==> #[trigger] pars@[a]@.len() == occ(cs, kids@[a]@),
                forall|x: Seq<char>| occ(cs, x) > 0 ==> exists|a: int| 0 <= a < kids@.len() && #[trigger] kids@[a]@ == x,
                single == (|x: Seq<char>| occ(cs, x) == 1),
                id_views(kept@) == cl.take(j as int).filter(single),
                forall|q: int| 0 <= q < children@.len() ==> occ(cs, #[trigger] cl[q]) > 0,
            decreases children.len() - j,
        {
            let c = &children[j];
            assert(cl[j as int] == c@);
            assert(cl.take(j + 1).drop_last() =~= cl.take(j as int));
            reveal(Seq::filter);
            let ghost prev = id_views(kept@);
            match find_kid(&kids, c) {
                Some(kk) => {
                    if pars[kk].len() == 1 {
                        kept.push(c.copy());
                        assert(id_views(kept@) =~= prev.push(c@));
                    }
                },
                None => {
                    proof {
                        assert(occ(cs, c@) > 0);
                        let a = choose_kid(kids@, c@);
                    }
                },
            }
            j = j + 1;
        }
        assert(cl.take(j as int) =~= cl);
        let ghost prevc = cviews(contains@);
        let ghost kv = id_views(kept@);
        assert(kv == cl.filter(single));
        let pc = ir.contains[l2].0.copy();
        assert(pc@ == cs[l2 as int].0);
        contains.push((pc, kept));
        assert(cviews(contains@) =~= prevc.push((cs[l2 as int].0, cl.filter(single))));
        assert(filter_lists(cs.take(l2 + 1), single) =~= filter_lists(cs.take(l2 as int), single).push((cs[l2 as int].0, cs[l2 as int].1.filter(single))));
        l2 = l2 + 1;
    }
    assert(cs.take(l2 as int) =~= cs);
    proof {
        assert forall|x: Seq<char>| occ(filter_lists(cs, single), x) == if occ(cs, x) == 1 { 1nat } else { 0nat } by {
            lemma_occ_filter(cs, single, x);
        }
    }
    // Each node with several parents goes under its synthetic switch.
    let mut ent = ir.copy();
    assert forall|j: int| 0 <= j < ent@.entities.len() implies from_or_synthetic(ir@.entities, #[trigger] ent@.entities[j]) by {
        assert(ir@.entities.contains(ent@.entities[j]));
    }
    assert forall|k: int| 0 <= k < cs.len() implies (#[trigger] cviews(contains@)[k]).0 == cs[k].0 by {
        assert(cviews(contains@)[k] == filter_lists(cs, single)[k]);
    }
    assert forall|k: int, y: Seq<char>|
        0 <= k < cs.len() && #[trigger] cs[k].1.filter(single).contains(y) implies cviews(contains@)[k].1.contains(y) by {
        assert(cviews(contains@)[k] == filter_lists(cs, single)[k]);
    }
    proof {
        broadcast use vstd::seq_lib::group_filter_ensures;
        assert forall|k: int, y: Seq<char>|
            0 <= k < cviews(contains@).len() && #[trigger] cviews(contains@)[k].1.contains(y) && occ(cs, y) > 1 implies cviews(
                contains@,
            )[k].0 == synthetic_name(sorted_version(parents_of(cs, y))) by {
            assert(cviews(contains@)[k] == filter_lists(cs, single)[k]);
            let t = choose|t: int| 0 <= t < cs[k].1.filter(single).len() && cs[k].1.filter(single)[t] == y;
            assert(single(cs[k].1.filter(single)[t]));
        }
    }
    let mut m: usize = 0;
    while m < kids.len()
        invariant
            m <= kids@.len(),
            forall|a: int| 0 <= a < kids@.len() ==> (#[trigger] synth@[a])@ == synthetic_name(sorted_version(parents_of(cs, kids@[a]@))),
            under_synthetic(cs, cviews(contains@)),
            forall|a: int|
                0 <= a < kids@.len() ==> sorted(sorted_version(#[trigger] parents_of(cs, kids@[a]@))) && sorted_version(
                    parents_of(cs, kids@[a]@),
                ).to_multiset() == parents_of(cs, kids@[a]@).to_multiset(),
            forall|a: int| 0 <= a < kids@.len() ==> id_views(#[trigger] pars@[a]@) == parents_of(cs, kids@[a]@),
            forall|j: int| 0 <= j < ent@.entities.len() ==> ir@.entities.contains(#[trigger] ent@.entities[j]) || synthetic_of(cs, ir@.entities, ent@.entities[j]),
            forall|j: int|
                0 <= j < ir@.entities.len() ==> ent@.entities.contains(#[trigger] ir@.entities[j]) || exists|a: int|
                    0 <= a < m && occ(cs, kids@[a]@) > 1 && ir@.entities[j].0 == (#[trigger] synth@[a])@,
            forall|a: int|
                0 <= a < m && occ(cs, kids@[a]@) > 1 && ir@.has(sorted_version(parents_of(cs, kids@[a]@))[0]) ==> ent@.has(
                    (#[trigger] synth@[a])@,
                ),
            cs == ir@.contains,
            kids@.len() == pars@.len(),
            synth@.len() == kids@.len(),
            forall|a: int, b: int| 0 <= a < b < kids@.len() ==> #[trigger] kids@[a]@ != #[trigger] kids@[b]@,
            forall|a: int| 0 <= a < kids@.len() ==> #[trigger] pars@[a]@.len() == occ(cs, kids@[a]@),
            forall|x: Seq<char>| occ(cs, x) > 0 ==> exists|a: int| 0 <= a < kids@.len() && #[trigger] kids@[a]@ == x,
            forall|x: Seq<char>| #[trigger] occ(cviews(contains@), x) == if occ(cs, x) == 1 {
                1nat
            } else if occ(cs, x) > 1 && exists|a: int| 0 <= a < m && #[trigger] kids@[a]@ == x {
                1nat
            } else {
                0nat
            },
            ent@.links == ir@.links,
            contains@.len() >= cs.len(),
            forall|k: int| 0 <= k < cs.len() ==> (#[trigger] cviews(contains@)[k]).0 == cs[k].0,
            forall|k: int, y: Seq<char>|
                0 <= k < cs.len() && #[trigger] cs[k].1.filter(single).contains(y) ==> cviews(contains@)[k].1.contains(y),
            single == (|x: Seq<char>| occ(cs, x) == 1),
            forall|j: int| 0 <= j < ent@.entities.len() ==> from_or_synthetic(ir@.entities, #[trigger] ent@.entities[j]),
        decreases kids.len() - m,
    {
        if pars[m].len() > 1 {
            // The synthetic switch entity, a copy of the first parent.
            let mut best: usize = 0;
            let mut q: usize = 1;
            proof {
                crate::order::lemma_lt_irrefl(pars@[m as int]@[0]@);
            }
            while q < pars[m].len()
                invariant
                    m < pars@.len(),
                    best < pars@[m as int]@.len(),
                    1 <= q <= pars@[m as int]@.len(),
                    forall|q2: int| 0 <= q2 < q ==> !seq_lt((#[trigger] pars@[m as int]@[q2])@, pars@[m as int]@[best as int]@),
                decreases pars@[m as int]@.len() - q,
            {
                let a = chars_of(pars[m][q].0.as_str());
                let b = chars_of(pars[m][best].0.as_str());
                let ghost ob = best as int;
                if crate::text::chars_lt(a.as_slice(), b.as_slice()) {
                    best = q;
                    proof {
                        let ps = pars@[m as int]@;
                        assert forall|q2: int| 0 <= q2 < q + 1 implies !seq_lt((#[trigger] ps[q2])@, ps[best as int]@) by {
                            if q2 == q {
                                crate::order::lemma_lt_irrefl(ps[q2]@);
                            } else if seq_lt(ps[q2]@, ps[best as int]@) {
                                crate::order::lemma_lt_trans(ps[q2]@, ps[best as int]@, ps[ob]@);
                            }
                        }
                    }
                }
                q = q + 1;
            }
            proof {
                let pv = parents_of(cs, kids@[m as int]@);
                assert(id_views(pars@[m as int]@) == pv);
                assert forall|q2: int| 0 <= q2 < pv.len() implies !seq_lt(#[trigger] pv[q2], pv[best as int]) by {
                    assert(pv[q2] == pars@[m as int]@[q2]@);
                }
                lemma_least_first(pv, best as int);
                assert(sorted_version(pv)[0] == pars@[m as int]@[best as int]@);
                assert(occ(cs, kids@[m as int]@) > 1);
            }
            match ir.get_entity(&pars[m][best]) {
                Some(pe) => {
                    let mut se = pe.copy();
                    se.id = Id(synth[m].clone());
                    se.meta.insert(String::from_str("__synthetic"), String::from_str("true"));
                    let ghost e0 = ent@.entities;
                    proof {
                        crate::ir::lemma_pos_props(ir@.entities, pars@[m as int]@[best as int]@);
                        let pk = crate::ir::entity_pos(ir@.entities, pars@[m as int]@[best as int]@)->Some_0 as int;
                        assert(pe@ == ir@.entities[pk]);
                        reveal_strlit("__synthetic");
                        reveal_strlit("true");
                        assert(from_or_synthetic(ir@.entities, se@));
                    }
                    proof {
                        let pk = crate::ir::entity_pos(ir@.entities, pars@[m as int]@[best as int]@)->Some_0 as int;
                        let y = kids@[m as int]@;
                        assert(se@.0 == synthetic_name(sorted_version(parents_of(cs, y))));
                        assert(ir@.entities[pk].0 == sorted_version(parents_of(cs, y))[0]);
                        assert(synthetic_of(cs, ir@.entities, se@));
                    }
                    ent.add_entity(se);
                    proof {
                        crate::ir::lemma_pos_props(e0, se@.0);
                        assert forall|j: int| 0 <= j < ent@.entities.len() implies from_or_synthetic(ir@.entities, #[trigger] ent@.entities[j]) by {
                            if ent@.entities[j] != se@ {
                                assert(ent@.entities[j] == e0[j]);
                            }
                        }
                        assert forall|j: int| 0 <= j < ent@.entities.len() implies ir@.entities.contains(#[trigger] ent@.entities[j])
                            || synthetic_of(cs, ir@.entities, ent@.entities[j]) by {
                            if ent@.entities[j] != se@ {
                                assert(ent@.entities[j] == e0[j]);
                            }
                        }
                        assert forall|j: int|
                            0 <= j < ir@.entities.len() implies ent@.entities.contains(#[trigger] ir@.entities[j]) || exists|a: int|
                                0 <= a < m + 1 && occ(cs, kids@[a]@) > 1 && ir@.entities[j].0 == (#[trigger] synth@[a])@ by {
                            if ir@.entities[j].0 == synth@[m as int]@ {
                                assert(occ(cs, kids@[m as int]@) > 1 && ir@.entities[j].0 == synth@[m as int]@);
                            } else if e0.contains(ir@.entities[j]) {
                                let t = choose|t: int| 0 <= t < e0.len() && e0[t] == ir@.entities[j];
                                assert(ent@.entities[t] == e0[t]);
                            } else {
                                let a = choose|a: int|
                                    0 <= a < m && occ(cs, kids@[a]@) > 1 && ir@.entities[j].0 == (#[trigger] synth@[a])@;
                            }
                        }
                        assert forall|a: int|
                            0 <= a < m + 1 && occ(cs, kids@[a]@) > 1 && ir@.has(sorted_version(parents_of(cs, kids@[a]@))[0]) implies ent@.has(
                                (#[trigger] synth@[a])@,
                            ) by {
                            let x = synth@[a]@;
                            crate::ir::lemma_pos_props(ent@.entities, x);
                            if a < m {
                                crate::ir::lemma_pos_props(e0, x);
                                let t = crate::ir::entity_pos(e0, x)->Some_0 as int;
                                assert(ent@.entities[t].0 == x);
                            } else {
                                match crate::ir::entity_pos(e0, se@.0) {
                                    Some(p) => {
                                        assert(ent@.entities[p as int] == se@);
                                    },
                                    None => {
                                        assert(ent@.entities[e0.len() as int] == se@);
                                    },
                                }
                            }
                        }
                    }
                },
                None => {
                    proof {
                        crate::ir::lemma_pos_props(ir@.entities, pars@[m as int]@[best as int]@);
                        assert(!ir@.has(sorted_version(parents_of(cs, kids@[m as int]@))[0]));
                        assert forall|j: int|
                            0 <= j < ir@.entities.len() implies ent@.entities.contains(#[trigger] ir@.entities[j]) || exists|a: int|
                                0 <= a < m + 1 && occ(cs, kids@[a]@) > 1 && ir@.entities[j].0 == (#[trigger] synth@[a])@ by {
                            if !ent@.entities.contains(ir@.entities[j]) {
                                let a = choose|a: int|
                                    0 <= a < m && occ(cs, kids@[a]@) > 1 && ir@.entities[j].0 == (#[trigger] synth@[a])@;
                            }
                        }
                    }
                },
            }
            // Append to the synthetic switch's list.
            let ghost before = cviews(contains@);
            let mut p: usize = 0;
            let mut found = false;
            while p < contains.len() && !found
                invariant
                    m < synth@.len(),
                    p <= contains@.len(),
                    found ==> p < contains@.len() && contains@[p as int].0@ == synth@[m as int]@,
                decreases contains.len() - p, if found { 0int } else { 1int },
            {
                if contains[p].0.0 == synth[m] {
                    found = true;
                } else {
                    p = p + 1;
                }
            }
            if found {
                let (pid, mut ch) = contains.remove(p);
                let ghost old_ch = id_views(ch@);
                assert(pid@ == before[p as int].0 && old_ch == before[p as int].1);
                ch.push(kids[m].copy());
                assert(id_views(ch@) =~= old_ch.push(kids@[m as int]@));
                contains.insert(p, (pid, ch));
                proof {
                    let now = cviews(contains@);
                    assert forall|k: int| 0 <= k < cs.len() implies (#[trigger] cviews(contains@)[k]).0 == cs[k].0 by {
                        if k != p {
                            assert(now[k] == before[k]);
                        }
                    }
                    assert forall|k: int, y: Seq<char>|
                        0 <= k < cs.len() && #[trigger] cs[k].1.filter(single).contains(y) implies cviews(contains@)[k].1.contains(y) by {
                        if k != p {
                            assert(now[k] == before[k]);
                        } else {
                            let i = choose|i: int| 0 <= i < old_ch.len() && old_ch[i] == y;
                            assert(now[k].1[i] == y);
                        }
                    }
                    assert(now =~= before.update(p as int, (before[p as int].0, old_ch.push(kids@[m as int]@))));
                    assert forall|k: int, y: Seq<char>|
                        0 <= k < now.len() && #[trigger] now[k].1.contains(y) && occ(cs, y) > 1 implies now[k].0 == synthetic_name(
                            sorted_version(parents_of(cs, y)),
                        ) by {
                        if k != p {
                            assert(now[k] == before[k]);
                        } else {
                            let i = choose|i: int| 0 <= i < now[k].1.len() && now[k].1[i] == y;
                            if i < old_ch.len() {
                                assert(old_ch[i] == y);
                                assert(before[k].1.contains(y));
                            } else {
                                assert(y == kids@[m as int]@);
                            }
                        }
                    }
                    assert forall|x: Seq<char>| #[trigger] occ(now, x) == occ(before, x) + if x == kids@[m as int]@ { 1nat } else { 0nat } by {
                        lemma_occ_update(before, p as int, (before[p as int].0, old_ch.push(kids@[m as int]@)), x);
                        lemma_count_push(old_ch, kids@[m as int]@, x);
                    }
                }
            } else {
                let mut ch: Vec<Id> = Vec::new();
                ch.push(kids[m].copy());
                contains.push((Id(synth[m].clone()), ch));
                proof {
                    let now = cviews(contains@);
                    assert forall|k: int| 0 <= k < cs.len() implies (#[trigger] cviews(contains@)[k]).0 == cs[k].0 by {
                        assert(now[k] == before[k]);
                    }
                    assert forall|k: int, y: Seq<char>|
                        0 <= k < cs.len() && #[trigger] cs[k].1.filter(single).contains(y) implies cviews(contains@)[k].1.contains(y) by {
                        assert(now[k] == before[k]);
                    }
                    assert(id_views(ch@) =~= Seq::<Seq<char>>::empty().push(kids@[m as int]@));
                    assert(now =~= before.push((synth@[m as int]@, id_views(ch@))));
                    assert forall|k: int, y: Seq<char>|
                        0 <= k < now.len() && #[trigger] now[k].1.contains(y) && occ(cs, y) > 1 implies now[k].0 == synthetic_name(
                            sorted_version(parents_of(cs, y)),
                        ) by {
                        if k < before.len() {
                            assert(now[k] == before[k]);
                        } else {
                            assert(now[k].1 == seq![kids@[m as int]@]);
                            assert(y == kids@[m as int]@);
                        }
                    }
                    assert forall|x: Seq<char>| #[trigger] occ(now, x) == occ(before, x) + if x == kids@[m as int]@ { 1nat } else { 0nat } by {
                        lemma_occ_push(before, (synth@[m as int]@, id_views(ch@)), x);
                        lemma_count_push(Seq::<Seq<char>>::empty(), kids@[m as int]@, x);
                    }
                }
            }
        }
        proof {
            let now = cviews(contains@);
            assert forall|x: Seq<char>| #[trigger] occ(now, x) == if occ(cs, x) == 1 {
                1nat
            } else if occ(cs, x) > 1 && exists|a: int| 0 <= a < m + 1 && #[trigger] kids@[a]@ == x {
                1nat
            } else {
                0nat
            } by {
                if x == kids@[m as int]@ {
                    if exists|a: int| 0 <= a < m && #[trigger] kids@[a]@ == x {
                        let a = choose|a: int| 0 <= a < m && #[trigger] kids@[a]@ == x;
                        assert(kids@[a]@ != kids@[m as int]@);
                    }
                } else {
                    if exists|a: int| 0 <= a < m + 1 && #[trigger] kids@[a]@ == x {
                        let a = choose|a: int| 0 <= a < m + 1 && #[trigger] kids@[a]@ == x;
                        assert(a != m);
                    }
                }
            }
        }
        m = m + 1;
    }
    // Lists left empty go.
    let mut out: Vec<(Id, Vec<Id>)> = Vec::new();
    let ghost cv = cviews(contains@);
    let mut e: usize = 0;
    while e < contains.len()
        invariant
            e <= contains@.len(),
            cv == cviews(contains@),
            cviews(out@) == drop_empty(cv.take(e as int)),
            under_synthetic(cs, cv),
            cs == ir@.contains,
            forall|j: int| 0 <= j < ent@.entities.len() ==> ir@.entities.contains(#[trigger] ent@.entities[j]) || synthetic_of(cs, ir@.entities, ent@.entities[j]),
            forall|j: int|
                0 <= j < ir@.entities.len() ==> ent@.entities.contains(#[trigger] ir@.entities[j]) || exists|a: int|
                    0 <= a < kids@.len() && occ(cs, kids@[a]@) > 1 && ir@.entities[j].0 == (#[trigger] synth@[a])@,
            forall|a: int|
                0 <= a < kids@.len() && occ(cs, kids@[a]@) > 1 && ir@.has(sorted_version(parents_of(cs, kids@[a]@))[0]) ==> ent@.has(
                    (#[trigger] synth@[a])@,
                ),
            forall|a: int| 0 <= a < kids@.len() ==> (#[trigger] synth@[a])@ == synthetic_name(sorted_version(parents_of(cs, kids@[a]@))),
            forall|x: Seq<char>| occ(cs, x) > 0 ==> exists|a: int| 0 <= a < kids@.len() && #[trigger] kids@[a]@ == x,
            forall|j: int| 0 <= j < ent@.entities.len() ==> from_or_synthetic(ir@.entities, #[trigger] ent@.entities[j]),
        decreases contains.len() - e,
    {
        reveal(Seq::filter);
        assert(cv.take(e + 1).drop_last() =~= cv.take(e as int));
        let ghost prev = cviews(out@);
        if contains[e].1.len() > 0 {
            let c = (contains[e].0.copy(), crate::ir::copy_ids(&contains[e].1));
            out.push(c);
            assert(cviews(out@) =~= prev.push(cv[e as int]));
        }
        e = e + 1;
    }
    assert(cv.take(e as int) =~= cv);
    proof {
        assert forall|x: Seq<char>| #[trigger] occ(drop_empty(cv), x) == if occ(cs, x) > 0 { 1nat } else { 0nat } by {
            lemma_occ_drop_empty(cv, x);
            assert(occ(cv, x) == if occ(cs, x) == 1 {
                1nat
            } else if occ(cs, x) > 1 && exists|a: int| 0 <= a < kids@.len() && #[trigger] kids@[a]@ == x {
                1nat
            } else {
                0nat
            });
            if occ(cs, x) > 1 {
                let a = choose|a: int| 0 <= a < kids@.len() && #[trigger] kids@[a]@ == x;
            }
        }
        assert forall|k: int, j: int|
            0 <= k < cs.len() && 0 <= j < cs[k].1.len() && occ(cs, #[trigger] cs[k].1[j]) == 1 implies exists|k2: int|
                0 <= k2 < drop_empty(cv).len() && drop_empty(cv)[k2].0 == cs[k].0 && drop_empty(cv)[k2].1.contains(cs[k].1[j]) by {
            let y = cs[k].1[j];
            assert(cs[k].1.contains(y));
            cs[k].1.lemma_filter_contains(single, j);
            assert(cv[k].1.contains(y));
            assert(cv[k].1.len() > 0);
            cv.lemma_filter_contains(|c: ContainsView| c.1.len() > 0, k);
            let k2 = choose|k2: int| 0 <= k2 < drop_empty(cv).len() && drop_empty(cv)[k2] == cv[k];
        }
    }
    proof {
        lemma_drop_empty_sub(cv);
        assert forall|k: int, y: Seq<char>|
            0 <= k < drop_empty(cv).len() && #[trigger] drop_empty(cv)[k].1.contains(y) && occ(cs, y) > 1 implies drop_empty(
                cv,
            )[k].0 == synthetic_name(sorted_version(parents_of(cs, y))) by {
            let i = choose|i: int| 0 <= i < cv.len() && cv[i] == drop_empty(cv)[k];
            assert(cv[i].1.contains(y));
        }
    }
    proof {
        let es = ir@.entities;
        let res = ent@.entities;
        assert forall|j: int|
            0 <= j < es.len() implies res.contains(#[trigger] es[j]) || exists|y: Seq<char>|
                occ(cs, y) > 1 && es[j].0 == synthetic_name(sorted_version(#[trigger] parents_of(cs, y))) by {
            if !res.contains(es[j]) {
                let a = choose|a: int| 0 <= a < kids@.len() && occ(cs, kids@[a]@) > 1 && es[j].0 == (#[trigger] synth@[a])@;
                assert(es[j].0 == synthetic_name(sorted_version(parents_of(cs, kids@[a]@))));
            }
        }
        assert forall|y: Seq<char>|
            occ(cs, y) > 1 && crate::ir::entity_pos(es, sorted_version(parents_of(cs, y))[0]) is Some implies crate::ir::entity_pos(
                res,
                synthetic_name(sorted_version(#[trigger] parents_of(cs, y))),
            ) is Some by {
            let a = choose|a: int| 0 <= a < kids@.len() && #[trigger] kids@[a]@ == y;
            assert(synth@[a]@ == synthetic_name(sorted_version(parents_of(cs, y))));
            assert(ent@.has(synth@[a]@));
        }
        assert(entities_normalized(cs, es, res));
    }
    let ghost ev = ent@;
    let r = TopologyIR { entities: ent.entities, links: ent.links, contains: out };
    assert(r@.entities == ev.entities);
    assert forall|j: int| 0 <= j < r@.entities.len() implies from_or_synthetic(ir@.entities, #[trigger] r@.entities[j]) by {
        assert(r@.entities[j] == ev.entities[j]);
    }
    r
}

/// A child that occurs is among `kids`.
proof fn choose_kid(kids: Seq<Id>, x: Seq<char>) -> (a: int)
    requires
        exists|a: int| 0 <= a < kids.len() && #[trigger] kids[a]@ == x,
    ensures
        0 <= a < kids.len() && kids[a]@ == x,
{
    choose|a: int| 0 <= a < kids.len() && #[trigger] kids[a]@ == x
}

} // verus!
