//! Placement of jobs on compute nodes under topology constraints: a job
//! may ask for its nodes under one L1 switch, within one group (cell), across
//! groups, or in blocks that share an L1 switch.
use vstd::prelude::*;
use vstd::string::*;
use vstd::hash_map::StringHashMap;
use rand::rngs::SmallRng;
use crate::ir::{id_views, EntityKind, EntityView, Id, NameSet, TopologyIR};
use crate::order::join;
use crate::view::{compute_child, l1_switch, listed, node_in, valid_in, view_sound, L1Pool, NodeRef, TopoView};
use crate::random::{is_perm, random_permutation, seeded_rng};
use crate::text::{chars_of, chars_lt, dec_digits, extend_chars, format_padded, seq_lt, string_of, zero_pad};

verus! {

broadcast use vstd::seq_lib::group_seq_properties;

/// The placement constraint of a job.
#[derive(Clone, Copy, Debug, PartialEq, Eq, Structural)]
pub enum PlacementClass {
    /// All nodes under one L1 switch.
    IntraL1,
    /// All nodes within one group, under at least two L1 switches.
    IntraGroup,
    /// Nodes in at least two groups.
    InterGroup,
    /// Blocks of the given size, each under one L1 switch, all in one group.
    IntraGroupSameL1(usize),
    /// Blocks of the given size, each under one L1 switch, in at least two groups.
    InterGroupSameL1(usize),
}

/// How far the placer relaxes a constraint that cannot be met.
///
/// Strict honours every constraint exactly; Relaxed lets IntraGroup spill
/// across groups (and IntraGroupSameL1 become InterGroupSameL1); BestEffort
/// additionally lets IntraL1 spill to IntraGroup and then InterGroup, and
/// the block classes drop their block alignment.
#[derive(Clone, Copy, Debug, PartialEq, Eq, Structural)]
pub enum PlacementStrategy {
    Strict,
    Relaxed,
    BestEffort,
}

/// A job to place: how many nodes and under which constraint.
#[derive(Clone, Copy, Debug)]
pub struct JobRequest {
    pub nodes: usize,
    pub placement_class: PlacementClass,
}

/// A placed job: its nodes, the class asked for and the class achieved.
#[derive(Debug)]
pub struct JobPlacement {
    pub nodes: Vec<String>,
    pub placement_class: String,
    pub achieved_class: String,
}

/// Outcome of placing a set of jobs.
#[derive(Debug)]
pub enum PlacementResult {
    /// Every job placed; one entry per job, in order of job name.
    Placed { placements: Vec<(String, JobPlacement)> },
    /// Some job could not be placed.
    Infeasible { reason: String },
}



/// No node reference occurs twice among the lists.
pub open spec fn lists_disjoint(lists: Seq<Vec<NodeRef>>) -> bool {
    forall|a: int, i: int, b: int, j: int|
        0 <= a < lists.len() && 0 <= i < lists[a]@.len() && 0 <= b < lists.len() && 0 <= j
            < lists[b]@.len() && (a != b || i != j) ==> #[trigger] lists[a]@[i] != #[trigger] lists[b]@[j]
}

/// Each pick is taken from the list its source names.
pub open spec fn picked_from(lists: Seq<Vec<NodeRef>>, picks: Seq<NodeRef>, from: Seq<usize>) -> bool {
    &&& from.len() == picks.len()
    &&& forall|i: int|
        0 <= i < picks.len() ==> #[trigger] from[i] < lists.len() && lists[from[i] as int]@.contains(
            picks[i],
        )
}

/// The total length of the lists from index `q` on.
pub open spec fn rest_len(lists: Seq<Vec<NodeRef>>, q: int) -> int
    decreases lists.len() - q,
{
    if q < 0 || q >= lists.len() {
        0
    } else {
        lists[q]@.len() + rest_len(lists, q + 1)
    }
}

proof fn lemma_rest_push(l: Seq<Vec<NodeRef>>, x: Vec<NodeRef>, q: int)
    requires
        0 <= q <= l.len(),
    ensures
        rest_len(l.push(x), q) == rest_len(l, q) + x@.len(),
    decreases l.len() - q,
{
    if q < l.len() {
        lemma_rest_push(l, x, q + 1);
        assert(l.push(x)[q] == l[q]);
    } else {
        assert(l.push(x)[q] == x);
        assert(rest_len(l.push(x), q + 1) == 0);
    }
}

proof fn lemma_rest_remove_tail(l: Seq<Vec<NodeRef>>, i: int, q: int)
    requires
        0 <= i <= q,
        i < l.len(),
    ensures
        rest_len(l.remove(i), q) == rest_len(l, q + 1),
    decreases l.len() - q,
{
    if q + 1 < l.len() {
        lemma_rest_remove_tail(l, i, q + 1);
        assert(l.remove(i)[q] == l[q + 1]);
    }
}

proof fn lemma_rest_remove(l: Seq<Vec<NodeRef>>, i: int, q: int)
    requires
        0 <= q <= i < l.len(),
    ensures
        rest_len(l.remove(i), q) == rest_len(l, q) - l[i]@.len(),
    decreases i - q,
{
    if q == i {
        lemma_rest_remove_tail(l, i, q);
    } else {
        lemma_rest_remove(l, i, q + 1);
        assert(l.remove(i)[q] == l[q]);
    }
}

proof fn lemma_rest_nonneg(l: Seq<Vec<NodeRef>>, q: int)
    ensures
        rest_len(l, q) >= 0,
    decreases l.len() - q,
{
    if 0 <= q < l.len() {
        lemma_rest_nonneg(l, q + 1);
    }
}

/// Reordering lists keeps their total length.
proof fn lemma_rest_perm(lists: Seq<Vec<NodeRef>>, order: Seq<usize>, r: Seq<Vec<NodeRef>>)
    requires
        is_perm(order, lists.len()),
        r.len() == lists.len(),
        lists.len() <= usize::MAX,
        forall|i: int| 0 <= i < r.len() ==> #[trigger] r[i]@ == lists[order[i] as int]@,
    ensures
        rest_len(r, 0) == rest_len(lists, 0),
    decreases lists.len(),
{
    let n = lists.len();
    if n > 0 {
        crate::random::lemma_perm_covers(order, n, (n - 1) as usize);
        let i0 = choose|i: int| 0 <= i < order.len() && order[i] == (n - 1) as usize;
        let l2 = lists.drop_last();
        let r2 = r.remove(i0);
        let o2 = order.remove(i0);
        assert forall|i: int| 0 <= i < o2.len() implies #[trigger] o2[i] < (n - 1) as nat by {
            let i1 = if i < i0 { i } else { i + 1 };
            assert(o2[i] == order[i1]);
            assert(i1 != i0);
        }
        assert forall|a: int, b: int| 0 <= a < b < o2.len() implies #[trigger] o2[a] != #[trigger] o2[b] by {
            let a1 = if a < i0 { a } else { a + 1 };
            let b1 = if b < i0 { b } else { b + 1 };
            assert(o2[a] == order[a1] && o2[b] == order[b1]);
        }
        assert forall|i: int| 0 <= i < r2.len() implies #[trigger] r2[i]@ == l2[o2[i] as int]@ by {
            let i1 = if i < i0 { i } else { i + 1 };
            assert(r2[i] == r[i1] && o2[i] == order[i1]);
        }
        lemma_rest_perm(l2, o2, r2);
        lemma_rest_remove(r, i0, 0);
        assert(order[i0] as int == n - 1);
        assert(r[i0]@ == lists[(n - 1) as int]@);
        assert(lists == l2.push(lists.last()));
        lemma_rest_push(l2, lists.last(), 0);
        assert(rest_len(r, 0) == rest_len(r2, 0) + r[i0]@.len());
        assert(rest_len(lists, 0) == rest_len(l2, 0) + lists[(n - 1) as int]@.len());
    }
}

/// The sum of `s` from index `q` on.
pub open spec fn int_rest(s: Seq<int>, q: int) -> int
    decreases s.len() - q,
{
    if q < 0 || q >= s.len() {
        0
    } else {
        s[q] + int_rest(s, q + 1)
    }
}

proof fn lemma_int_push(l: Seq<int>, x: int, q: int)
    requires
        0 <= q <= l.len(),
    ensures
        int_rest(l.push(x), q) == int_rest(l, q) + x,
    decreases l.len() - q,
{
    if q < l.len() {
        lemma_int_push(l, x, q + 1);
        assert(l.push(x)[q] == l[q]);
    } else {
        assert(l.push(x)[q] == x);
        assert(int_rest(l.push(x), q + 1) == 0);
    }
}

proof fn lemma_int_remove_tail(l: Seq<int>, i: int, q: int)
    requires
        0 <= i <= q,
        i < l.len(),
    ensures
        int_rest(l.remove(i), q) == int_rest(l, q + 1),
    decreases l.len() - q,
{
    if q + 1 < l.len() {
        lemma_int_remove_tail(l, i, q + 1);
        assert(l.remove(i)[q] == l[q + 1]);
    }
}

proof fn lemma_int_remove(l: Seq<int>, i: int, q: int)
    requires
        0 <= q <= i < l.len(),
    ensures
        int_rest(l.remove(i), q) == int_rest(l, q) - l[i],
    decreases i - q,
{
    if q == i {
        lemma_int_remove_tail(l, i, q);
    } else {
        lemma_int_remove(l, i, q + 1);
        assert(l.remove(i)[q] == l[q]);
    }
}

/// Summing in another order gives the same sum.
proof fn lemma_int_perm(a: Seq<int>, order: Seq<usize>, b: Seq<int>)
    requires
        is_perm(order, a.len()),
        b.len() == a.len(),
        a.len() <= usize::MAX,
        forall|i: int| 0 <= i < b.len() ==> #[trigger] b[i] == a[order[i] as int],
    ensures
        int_rest(b, 0) == int_rest(a, 0),
    decreases a.len(),
{
    let n = a.len();
    if n > 0 {
        crate::random::lemma_perm_covers(order, n, (n - 1) as usize);
        let i0 = choose|i: int| 0 <= i < order.len() && order[i] == (n - 1) as usize;
        let a2 = a.drop_last();
        let b2 = b.remove(i0);
        let o2 = order.remove(i0);
        assert forall|i: int| 0 <= i < o2.len() implies #[trigger] o2[i] < (n - 1) as nat by {
            let i1 = if i < i0 { i } else { i + 1 };
            assert(o2[i] == order[i1]);
            assert(i1 != i0);
        }
        assert forall|x: int, y: int| 0 <= x < y < o2.len() implies #[trigger] o2[x] != #[trigger] o2[y] by {
            let x1 = if x < i0 { x } else { x + 1 };
            let y1 = if y < i0 { y } else { y + 1 };
            assert(o2[x] == order[x1] && o2[y] == order[y1]);
        }
        assert forall|i: int| 0 <= i < b2.len() implies #[trigger] b2[i] == a2[o2[i] as int] by {
            let i1 = if i < i0 { i } else { i + 1 };
            assert(b2[i] == b[i1] && o2[i] == order[i1]);
        }
        lemma_int_perm(a2, o2, b2);
        lemma_int_remove(b, i0, 0);
        assert(order[i0] as int == n - 1);
        assert(a == a2.push(a.last()));
        lemma_int_push(a2, a.last(), 0);
    }
}

/// The free nodes of each group, groups in order.
pub open spec fn cell_frees(v: TopoView, used: Map<Seq<char>, ()>) -> Seq<int> {
    Seq::new(v.cells@.len(), |g: int| cell_free_count(v, used, g) as int)
}

/// One for each group with a free node, groups in order.
pub open spec fn cell_busy(v: TopoView, used: Map<Seq<char>, ()>) -> Seq<int> {
    Seq::new(v.cells@.len(), |g: int| if cell_free_count(v, used, g) > 0 { 1int } else { 0int })
}

/// `n` free nodes can be spread over at least two groups: `n` is at least
/// two, two groups have free nodes, and there are `n` free nodes in all.
pub open spec fn inter_group_feasible(v: TopoView, used: Map<Seq<char>, ()>, n: int) -> bool {
    &&& n >= 2
    &&& int_rest(cell_busy(v, used), 0) >= 2
    &&& int_rest(cell_frees(v, used), 0) >= n
}

/// The lists' lengths split at `q`.
proof fn lemma_rest_split(l: Seq<Vec<NodeRef>>, q: int)
    requires
        0 <= q <= l.len(),
    ensures
        rest_len(l, 0) == rest_len(l.take(q), 0) + rest_len(l, q),
    decreases q,
{
    if q > 0 {
        lemma_rest_split(l, q - 1);
        assert(l.take(q) == l.take(q - 1).push(l[q - 1]));
        lemma_rest_push(l.take(q - 1), l[q - 1], 0);
    } else {
        assert(rest_len(l.take(0), 0) == 0);
    }
}

pub open spec fn sum_from(s: Seq<usize>, q: int) -> int
    decreases s.len() - q,
{
    if q < 0 || q >= s.len() {
        0
    } else {
        s[q] + sum_from(s, q + 1)
    }
}

proof fn lemma_sum_from_nonneg(s: Seq<usize>, q: int)
    ensures
        sum_from(s, q) >= 0,
    decreases s.len() - q,
{
    if 0 <= q < s.len() {
        lemma_sum_from_nonneg(s, q + 1);
    }
}

proof fn lemma_sum_from_lens(s: Seq<usize>, lists: Seq<Vec<NodeRef>>, q: int)
    requires
        0 <= q,
        s.len() == lists.len(),
        forall|i: int| 0 <= i < s.len() ==> #[trigger] s[i] == lists[i]@.len(),
    ensures
        sum_from(s, q) == rest_len(lists, q),
    decreases s.len() - q,
{
    if q < s.len() {
        lemma_sum_from_lens(s, lists, q + 1);
    }
}

proof fn lemma_sum_from_update(s: Seq<usize>, i: int, x: usize, q: int)
    requires
        0 <= q,
        0 <= i < s.len(),
    ensures
        sum_from(s.update(i, x), q) == sum_from(s, q) + (if q <= i { x - s[i] } else { 0 }),
    decreases s.len() - q,
{
    if q < s.len() {
        lemma_sum_from_update(s, i, x, q + 1);
    }
}

proof fn lemma_sum_from_remove_tail(s: Seq<usize>, i: int, q: int)
    requires
        0 <= i <= q,
        i < s.len(),
    ensures
        sum_from(s.remove(i), q) == sum_from(s, q + 1),
    decreases s.len() - q,
{
    if q + 1 < s.len() {
        lemma_sum_from_remove_tail(s, i, q + 1);
    }
}

proof fn lemma_sum_from_remove(s: Seq<usize>, i: int, q: int)
    requires
        0 <= q <= i < s.len(),
    ensures
        sum_from(s.remove(i), q) == sum_from(s, q) - s[i],
    decreases i - q,
{
    if q == i {
        lemma_sum_from_remove_tail(s, i, q);
    } else {
        lemma_sum_from_remove(s, i, q + 1);
        assert(s.remove(i)[q] == s[q]);
    }
}

/// How many picks the first list gives: all of it, but fewer than `n`.
pub open spec fn spread_take(first: int, n: int) -> int {
    if first >= n {
        n - 1
    } else {
        first
    }
}

/// Spread `n` picks over several lists: from the first (largest) list at most
/// `n - 1` from its front, the rest one at a time from the back of the other
/// lists in turn, dropping a list once it is exhausted.  Stops early when
/// only the first list is left.
#[verifier::spinoff_prover]
#[verifier::rlimit(60)]
fn spread_pick(lists: &Vec<Vec<NodeRef>>, n: usize) -> (r: (Vec<NodeRef>, Vec<usize>))
    requires
        lists@.len() >= 1,
        lists@[0]@.len() >= 1,
        n >= 1,
        lists_disjoint(lists@),
    ensures
        r.0@.len() == (if n <= spread_take(lists@[0]@.len() as int, n as int) + rest_len(lists@, 1) {
            n as int
        } else {
            spread_take(lists@[0]@.len() as int, n as int) + rest_len(lists@, 1)
        }),
        forall|i: int|
            0 <= i < spread_take(lists@[0]@.len() as int, n as int) ==> #[trigger] r.1@[i] == 0 && r.0@[i]
                == lists@[0]@[i],
        forall|i: int| spread_take(lists@[0]@.len() as int, n as int) <= i < r.0@.len() ==> #[trigger] r.1@[i] != 0,
        picked_from(lists@, r.0@, r.1@),
        forall|i: int, j: int| 0 <= i < j < r.0@.len() ==> #[trigger] r.0@[i] != #[trigger] r.0@[j],
{
    let first_len = lists[0].len();
    let dominant_cap = if first_len >= n {
        n - 1
    } else {
        first_len
    };
    let take = if dominant_cap < n {
        dominant_cap
    } else {
        n
    };
    let mut result: Vec<NodeRef> = Vec::new();
    let mut from: Vec<usize> = Vec::new();
    let ghost mut pos: Seq<int> = Seq::empty();
    let mut t: usize = 0;
    while t < take
        invariant
            lists@.len() >= 1,
            t <= take <= first_len,
            first_len == lists@[0]@.len(),
            take <= n,
            result@.len() == t,
            from@.len() == t,
            pos.len() == t,
            forall|i: int| 0 <= i < t ==> #[trigger] from@[i] == 0 && pos[i] == i,
            forall|i: int| 0 <= i < t ==> #[trigger] result@[i] == lists@[0]@[i],
        decreases take - t,
    {
        result.push(lists[0][t]);
        from.push(0);
        proof {
            pos = pos.push(t as int);
        }
        t = t + 1;
    }
    let mut alive: Vec<usize> = Vec::new();
    let mut ends: Vec<usize> = Vec::new();
    let mut l: usize = 0;
    while l < lists.len()
        invariant
            l <= lists@.len(),
            alive@.len() == l,
            ends@.len() == l,
            forall|q: int| 0 <= q < l ==> #[trigger] alive@[q] == q,
            forall|q: int| 0 <= q < l ==> #[trigger] ends@[q] == lists@[q]@.len(),
        decreases lists.len() - l,
    {
        alive.push(l);
        ends.push(lists[l].len());
        l = l + 1;
    }
    proof {
        lemma_sum_from_lens(ends@, lists@, 1);
    }
    assert forall|i: int| 0 <= i < result@.len() implies 0 <= #[trigger] pos[i]
        < lists@[from@[i] as int]@.len() by {
        assert(from@[i] == 0);
    }
    assert forall|i: int| 0 <= i < result@.len() implies #[trigger] result@[i]
        == lists@[from@[i] as int]@[pos[i]] by {
        assert(from@[i] == 0);
    }
    let mut pi: usize = 1;
    while result.len() < n
        invariant
            lists@.len() >= 1,
            lists_disjoint(lists@),
            take <= first_len,
            first_len == lists@[0]@.len(),
            take >= 1 || n == 1,
            result@.len() <= n,
            result@.len() >= take,
            take == spread_take(first_len as int, n as int),
            result@.len() - take + sum_from(ends@, 1) == rest_len(lists@, 1),
            forall|q: int| 0 <= q < ends@.len() ==> #[trigger] ends@[q] >= 0,
            forall|i: int| 0 <= i < take ==> #[trigger] from@[i] == 0 && result@[i] == lists@[0]@[i],
            forall|i: int| take <= i < result@.len() ==> #[trigger] from@[i] != 0,
            pi == result@.len() - take + 1,
            alive@.len() == ends@.len(),
            alive@.len() >= 1,
            alive@[0] == 0,
            forall|q: int| 0 <= q < alive@.len() ==> #[trigger] alive@[q] < lists@.len(),
            forall|a: int, b: int| 0 <= a < b < alive@.len() ==> #[trigger] alive@[a] < #[trigger] alive@[b],
            forall|q: int|
                1 <= q < alive@.len() ==> #[trigger] ends@[q] <= lists@[alive@[q] as int]@.len(),
            from@.len() == result@.len(),
            pos.len() == result@.len(),
            forall|i: int| 0 <= i < result@.len() ==> #[trigger] from@[i] < lists@.len(),
            forall|i: int|
                0 <= i < result@.len() ==> 0 <= #[trigger] pos[i] < lists@[from@[i] as int]@.len(),
            forall|i: int|
                0 <= i < result@.len() ==> #[trigger] result@[i] == lists@[from@[i] as int]@[pos[i]],
            forall|i: int| 0 <= i < result@.len() && #[trigger] from@[i] == 0 ==> pos[i] < take,
            forall|i: int, q: int|
                0 <= i < result@.len() && 1 <= q < alive@.len() && #[trigger] from@[i] == #[trigger] alive@[q]
                    ==> pos[i] >= ends@[q],
            forall|i: int, j: int|
                0 <= i < j < result@.len() ==> (#[trigger] from@[i], pos[i]) != (#[trigger] from@[j], pos[j]),
        ensures
            result@.len() >= n || alive@.len() == 1,
        decreases n - result@.len() + alive@.len(),
    {
        let remaining = alive.len() - 1;
        if remaining == 0 {
            break;
        }
        let idx = 1 + (pi % remaining);
        let o = alive[idx];
        let e = ends[idx];
        if e > 0 {
            let item = lists[o][e - 1];
            let ghost old_from = from@;
            let ghost old_pos = pos;
            let ghost old_ends = ends@;
            let ghost old_result = result@;
            result.push(item);
            from.push(o);
            ends.set(idx, e - 1);
            proof {
                lemma_sum_from_update(old_ends, idx as int, (e - 1) as usize, 1);
                assert(alive@[0] < alive@[idx as int]);
                assert forall|i: int| 0 <= i < take implies #[trigger] from@[i] == 0 && result@[i] == lists@[0]@[i] by {
                    assert(from@[i] == old_from[i] && result@[i] == old_result[i]);
                }
                assert forall|i: int| take <= i < result@.len() implies #[trigger] from@[i] != 0 by {
                    if i < old_from.len() {
                        assert(from@[i] == old_from[i]);
                    }
                }
                pos = pos.push(e - 1);
                assert(e <= lists@[o as int]@.len());
                let last = result@.len() - 1;
                assert(from@[last] == o && pos[last] == e - 1 && result@[last] == item);
                assert(forall|i: int| 0 <= i < last ==> from@[i] == old_from[i] && pos[i] == old_pos[i]);
                assert forall|i: int, q: int|
                    0 <= i < result@.len() && 1 <= q < alive@.len() && #[trigger] from@[i] == #[trigger] alive@[q]
                        implies pos[i] >= ends@[q] by {
                    if i < old_from.len() {
                        assert(from@[i] == old_from[i] && pos[i] == old_pos[i]);
                        if q == idx {
                            assert(old_pos[i] >= old_ends[q]);
                        }
                    } else {
                        assert(alive@[q] == o);
                        assert(q == idx);
                    }
                }
                assert forall|i: int, j: int|
                    0 <= i < j < result@.len() implies (#[trigger] from@[i], pos[i]) != (
                        #[trigger] from@[j],
                        pos[j],
                    ) by {
                    if j == result@.len() - 1 && from@[i] == o {
                        assert(old_from[i] == alive@[idx as int]);
                        assert(old_pos[i] >= old_ends[idx as int]);
                    }
                }
            }
            pi = pi + 1;
        } else {
            let ghost old_alive = alive@;
            let ghost old_ends = ends@;
            alive.remove(idx);
            ends.remove(idx);
            proof {
                lemma_sum_from_remove(old_ends, idx as int, 1);
                assert forall|i: int, q: int|
                    0 <= i < result@.len() && 1 <= q < alive@.len() && #[trigger] from@[i] == #[trigger] alive@[q]
                        implies pos[i] >= ends@[q] by {
                    if q < idx {
                        assert(alive@[q] == old_alive[q] && ends@[q] == old_ends[q]);
                    } else {
                        assert(alive@[q] == old_alive[q + 1] && ends@[q] == old_ends[q + 1]);
                    }
                }
                assert forall|a: int, b: int| 0 <= a < b < alive@.len() implies #[trigger] alive@[a]
                    < #[trigger] alive@[b] by {
                    let a0 = if a < idx { a } else { a + 1 };
                    let b0 = if b < idx { b } else { b + 1 };
                    assert(alive@[a] == old_alive[a0] && alive@[b] == old_alive[b0]);
                }
                assert forall|q: int| 1 <= q < alive@.len() implies #[trigger] ends@[q]
                    <= lists@[alive@[q] as int]@.len() by {
                    let q0 = if q < idx { q } else { q + 1 };
                    assert(alive@[q] == old_alive[q0] && ends@[q] == old_ends[q0]);
                }
            }
        }
    }
    proof {
        lemma_sum_from_nonneg(ends@, 1);
        if alive@.len() == 1 {
            assert(sum_from(ends@, 1) == 0);
        }
        assert forall|i: int, j: int| 0 <= i < j < result@.len() implies #[trigger] result@[i]
            != #[trigger] result@[j] by {
            let a = from@[i] as int;
            let b = from@[j] as int;
            assert(lists@[a]@[pos[i]] != lists@[b]@[pos[j]]);
        }
        assert forall|i: int| 0 <= i < result@.len() implies #[trigger] from@[i] < lists@.len()
            && lists@[from@[i] as int]@.contains(result@[i]) by {
            assert(lists@[from@[i] as int]@[pos[i]] == result@[i]);
        }
    }
    (result, from)
}

/// Where the `j`-th block of `bs` entries cut from the back of a list of
/// length `len` starts.
#[verifier::opaque]
pub open spec fn back_start(len: int, bs: int, j: int) -> int {
    len - (j + 1) * bs
}

/// Cut up to `take` blocks of `bs` consecutive entries from the back of
/// `list` (the last block first) and append them, tagged with list `li`
/// and their start position.  Returns how many were cut.
fn append_blocks_from_back(
    list: &Vec<NodeRef>,
    bs: usize,
    take: usize,
    li: usize,
    blocks: &mut Vec<Vec<NodeRef>>,
    src: &mut Vec<usize>,
    bpos: &mut Vec<usize>,
) -> (added: usize)
    requires
        bs >= 1,
        old(blocks)@.len() == old(src)@.len(),
        old(bpos)@.len() == old(src)@.len(),
    ensures
        added as int == (if (take as int) < (list@.len() as int) / (bs as int) { take as int } else { (list@.len() as int) / (bs as int) }),
        final(blocks)@.len() == old(blocks)@.len() + added,
        forall|b: int|
            old(blocks)@.len() <= b < final(blocks)@.len() ==> #[trigger] final(bpos)@[b] == back_start(
                list@.len() as int,
                bs as int,
                b - old(blocks)@.len(),
            ),
        final(src)@.len() == final(blocks)@.len(),
        final(bpos)@.len() == final(blocks)@.len(),
        forall|b: int| 0 <= b < old(blocks)@.len() ==> #[trigger] final(blocks)@[b] == old(blocks)@[b],
        forall|b: int| 0 <= b < old(blocks)@.len() ==> #[trigger] final(src)@[b] == old(src)@[b],
        forall|b: int| 0 <= b < old(blocks)@.len() ==> #[trigger] final(bpos)@[b] == old(bpos)@[b],
        forall|b: int| old(blocks)@.len() <= b < final(blocks)@.len() ==> #[trigger] final(src)@[b] == li,
        forall|b: int|
            old(blocks)@.len() <= b < final(blocks)@.len() ==> #[trigger] final(blocks)@[b]@.len() == bs,
        forall|b: int|
            old(blocks)@.len() <= b < final(blocks)@.len() ==> #[trigger] final(bpos)@[b] + bs
                <= list@.len(),
        forall|b: int, q: int|
            old(blocks)@.len() <= b < final(blocks)@.len() && 0 <= q < bs ==> #[trigger] final(blocks)@[b]@[q]
                == list@[final(bpos)@[b] + q],
        forall|b1: int, b2: int|
            old(blocks)@.len() <= b1 < b2 < final(blocks)@.len() ==> #[trigger] final(bpos)@[b2] + bs
                <= #[trigger] final(bpos)@[b1],
{
    let ghost b0 = blocks@.len();
    let ghost ob = blocks@;
    let ghost os = src@;
    let ghost op = bpos@;
    let mut end: usize = list.len();
    let mut t: usize = 0;
    while t < take && end >= bs
        invariant
            bs >= 1,
            end <= list@.len(),
            t <= take,
            blocks@.len() == b0 + t,
            src@.len() == blocks@.len(),
            bpos@.len() == blocks@.len(),
            b0 == ob.len(),
            ob.len() == os.len(),
            ob.len() == op.len(),
            end == list@.len() - t * bs,
            forall|b: int| b0 <= b < blocks@.len() ==> #[trigger] bpos@[b] == back_start(list@.len() as int, bs as int, b - b0),
            forall|b: int| 0 <= b < b0 ==> #[trigger] blocks@[b] == ob[b],
            forall|b: int| 0 <= b < b0 ==> #[trigger] src@[b] == os[b],
            forall|b: int| 0 <= b < b0 ==> #[trigger] bpos@[b] == op[b],
            forall|b: int| b0 <= b < blocks@.len() ==> #[trigger] bpos@[b] >= end,
            forall|b: int| b0 <= b < blocks@.len() ==> #[trigger] src@[b] == li,
            forall|b: int| b0 <= b < blocks@.len() ==> #[trigger] blocks@[b]@.len() == bs,
            forall|b: int| b0 <= b < blocks@.len() ==> #[trigger] bpos@[b] + bs <= list@.len(),
            forall|b: int, q: int|
                b0 <= b < blocks@.len() && 0 <= q < bs ==> #[trigger] blocks@[b]@[q] == list@[bpos@[b] + q],
            forall|b1: int, b2: int|
                b0 <= b1 < b2 < blocks@.len() ==> #[trigger] bpos@[b2] + bs <= #[trigger] bpos@[b1],
        decreases take - t,
    {
        let from = end - bs;
        let mut block: Vec<NodeRef> = Vec::new();
        let mut q: usize = from;
        while q < end
            invariant
                from <= q <= end,
                end <= list@.len(),
                block@.len() == q - from,
                forall|x: int| 0 <= x < block@.len() ==> #[trigger] block@[x] == list@[from + x],
            decreases end - q,
        {
            block.push(list[q]);
            q = q + 1;
        }
        assert(from == list@.len() - (t + 1) * bs) by (nonlinear_arith)
            requires
                from == end - bs,
                end == list@.len() - t * bs,
        ;
        assert(from == back_start(list@.len() as int, bs as int, t as int)) by {
            reveal(back_start);
        }
        blocks.push(block);
        src.push(li);
        bpos.push(from);
        end = from;
        t = t + 1;
    }
    proof {
        let len = list@.len() as int;
        let b = bs as int;
        if end < bs {
            vstd::arithmetic::div_mod::lemma_fundamental_div_mod_converse(len, b, t as int, end as int);
        } else {
            assert(t == take);
            assert(t <= len / b) by (nonlinear_arith)
                requires
                    t * b <= len,
                    b >= 1,
            {
                vstd::arithmetic::div_mod::lemma_fundamental_div_mod(len, b);
                if t > len / b {
                    assert((len / b + 1) * b <= t * b) by (nonlinear_arith)
                        requires
                            t >= len / b + 1,
                            b >= 1,
                    ;
                }
            }
        }
    }
    t
}

/// How many blocks `block_pick` takes from the lists from `i` on, having
/// taken `got` blocks so far, `used` of them from dominant lists: list `i`
/// gives as many as it holds (`len / bs`), at most what is left to take and,
/// if dominant, at most what is left of the budget.
pub open spec fn blocks_from(
    lists: Seq<Vec<NodeRef>>,
    bs: int,
    num_blocks: int,
    dominant: Seq<bool>,
    budget: int,
    i: int,
    got: int,
    used: int,
) -> int
    decreases lists.len() - i,
{
    if i < 0 || i >= lists.len() || got >= num_blocks {
        got
    } else {
        let cap = (lists[i]@.len() as int) / bs;
        let limit = if dominant[i] {
            if budget >= used {
                budget - used
            } else {
                0
            }
        } else {
            cap
        };
        let take = if limit < num_blocks - got {
            limit
        } else {
            num_blocks - got
        };
        let added = if take < cap {
            take
        } else {
            cap
        };
        blocks_from(lists, bs, num_blocks, dominant, budget, i + 1, got + added, if dominant[i] {
            used + added
        } else {
            used
        })
    }
}

/// How many blocks the first list gives to `block_pick`: as many as it
/// holds (`cap0`), at most `nb` and, if dominant, at most `budget`.
pub open spec fn first_take(cap0: int, dom0: bool, budget: int, nb: int) -> int {
    let limit = if dom0 {
        budget
    } else {
        cap0
    };
    let take = if limit < nb {
        limit
    } else {
        nb
    };
    if take < cap0 {
        take
    } else {
        cap0
    }
}

/// The blocks of `bs` entries each list holds.
pub open spec fn caps(l: Seq<Vec<NodeRef>>, bs: int) -> Seq<int> {
    Seq::new(l.len(), |i: int| l[i]@.len() as int / bs)
}

proof fn lemma_int_nonneg(s: Seq<int>, q: int)
    requires
        forall|i: int| 0 <= i < s.len() ==> #[trigger] s[i] >= 0,
    ensures
        int_rest(s, q) >= 0,
    decreases s.len() - q,
{
    if 0 <= q < s.len() {
        lemma_int_nonneg(s, q + 1);
    }
}

proof fn lemma_int_split(s: Seq<int>, q: int)
    requires
        0 <= q <= s.len(),
    ensures
        int_rest(s, 0) == int_rest(s.take(q), 0) + int_rest(s, q),
    decreases q,
{
    if q > 0 {
        lemma_int_split(s, q - 1);
        assert(s.take(q) == s.take(q - 1).push(s[q - 1]));
        lemma_int_push(s.take(q - 1), s[q - 1], 0);
    } else {
        assert(int_rest(s.take(0), 0) == 0);
    }
}

/// From a list on that is not dominant, `block_pick` takes every block the
/// lists hold, up to `num_blocks`.
proof fn lemma_blocks_tail(
    l: Seq<Vec<NodeRef>>,
    bs: int,
    nb: int,
    dom: Seq<bool>,
    budget: int,
    i: int,
    got: int,
    used: int,
)
    requires
        0 <= i <= l.len(),
        dom.len() == l.len(),
        bs >= 1,
        0 <= got <= nb,
        forall|j: int| i <= j < l.len() ==> !#[trigger] dom[j],
    ensures
        blocks_from(l, bs, nb, dom, budget, i, got, used) == (if got + int_rest(caps(l, bs), i) < nb {
            got + int_rest(caps(l, bs), i)
        } else {
            nb
        }),
    decreases l.len() - i,
{
    assert forall|j: int| 0 <= j < caps(l, bs).len() implies #[trigger] caps(l, bs)[j] >= 0 by {
        assert(l[j]@.len() as int / bs >= 0);
    }
    lemma_int_nonneg(caps(l, bs), i);
    if i < l.len() {
        lemma_int_nonneg(caps(l, bs), i + 1);
        let cap = l[i]@.len() as int / bs;
        assert(caps(l, bs)[i] == cap);
        assert(cap >= 0);
        assert(int_rest(caps(l, bs), i) == cap + int_rest(caps(l, bs), i + 1));
        if got < nb {
            let take = if cap < nb - got { cap } else { nb - got };
            assert(!dom[i]);
            lemma_blocks_tail(l, bs, nb, dom, budget, i + 1, got + take, used);
            assert(blocks_from(l, bs, nb, dom, budget, i, got, used) == blocks_from(l, bs, nb, dom, budget, i + 1, got + take, used));
        }
    }
}

/// Take up to `num_blocks` blocks of `bs` consecutive entries from the back
/// of the lists, list by list: a list gives at most `len / bs` blocks, and
/// the lists marked `dominant` together at most `budget`.
#[verifier::spinoff_prover]
fn block_pick(
    lists: &Vec<Vec<NodeRef>>,
    bs: usize,
    num_blocks: usize,
    dominant: &Vec<bool>,
    budget: usize,
) -> (r: (Vec<Vec<NodeRef>>, Vec<usize>))
    requires
        bs >= 1,
        dominant@.len() == lists@.len(),
        lists_disjoint(lists@),
    ensures
        r.0@.len() == r.1@.len(),
        r.0@.len() == blocks_from(lists@, bs as int, num_blocks as int, dominant@, budget as int, 0, 0, 0),
        r.0@.len() <= num_blocks,
        lists@.len() > 0 && num_blocks > 0 ==> forall|b: int|
            0 <= b < r.0@.len() ==> (#[trigger] r.1@[b] == 0 <==> b < first_take(
                lists@[0]@.len() as int / bs as int,
                dominant@[0],
                budget as int,
                num_blocks as int,
            )),
        forall|b: int| 0 <= b < r.0@.len() ==> #[trigger] r.0@[b]@.len() == bs,
        forall|b: int, t: int|
            0 <= b < r.0@.len() && 0 <= t < r.0@[b]@.len() ==> #[trigger] r.1@[b] < lists@.len()
                && lists@[r.1@[b] as int]@.contains(#[trigger] r.0@[b]@[t]),
        lists_disjoint(r.0@),
{
    let mut blocks: Vec<Vec<NodeRef>> = Vec::new();
    let mut src: Vec<usize> = Vec::new();
    let mut bpos: Vec<usize> = Vec::new();
    let mut used_dom: usize = 0;
    let mut i: usize = 0;
    while i < lists.len() && blocks.len() < num_blocks
        invariant
            bs >= 1,
            dominant@.len() == lists@.len(),
            i <= lists@.len(),
            blocks@.len() == src@.len(),
            bpos@.len() == src@.len(),
            blocks@.len() <= num_blocks,
            used_dom <= blocks@.len(),
            blocks_from(lists@, bs as int, num_blocks as int, dominant@, budget as int, 0, 0, 0) == blocks_from(
                lists@,
                bs as int,
                num_blocks as int,
                dominant@,
                budget as int,
                i as int,
                blocks@.len() as int,
                used_dom as int,
            ),
            forall|b: int| 0 <= b < blocks@.len() ==> #[trigger] src@[b] < i,
            i == 0 ==> blocks@.len() == 0,
            i >= 1 && lists@.len() > 0 ==> forall|b: int|
                0 <= b < blocks@.len() ==> (#[trigger] src@[b] == 0 <==> b < first_take(
                    lists@[0]@.len() as int / bs as int,
                    dominant@[0],
                    budget as int,
                    num_blocks as int,
                )),
            i >= 1 && lists@.len() > 0 ==> blocks@.len() >= first_take(
                lists@[0]@.len() as int / bs as int,
                dominant@[0],
                budget as int,
                num_blocks as int,
            ),
            forall|b: int|
                0 <= b < blocks@.len() ==> #[trigger] blocks@[b]@.len() == bs && bpos@[b] + bs
                    <= lists@[src@[b] as int]@.len(),
            forall|b: int, q: int|
                0 <= b < blocks@.len() && 0 <= q < bs ==> #[trigger] blocks@[b]@[q]
                    == lists@[src@[b] as int]@[bpos@[b] + q],
            forall|b1: int, b2: int|
                0 <= b1 < b2 < blocks@.len() && src@[b1] == src@[b2] ==> #[trigger] bpos@[b2] + bs
                    <= #[trigger] bpos@[b1],
        decreases lists.len() - i,
    {
        let len = lists[i].len();
        let cap = len / bs;
        let limit = if dominant[i] {
            if budget >= used_dom {
                budget - used_dom
            } else {
                0
            }
        } else {
            cap
        };
        let left = num_blocks - blocks.len();
        let take = if limit < left {
            limit
        } else {
            left
        };
        let ghost b0 = blocks@.len();
        let ghost old_src = src@;
        let ghost old_bpos = bpos@;
        let ghost old_blocks = blocks@;
        let ghost old_used = used_dom;
        let added = append_blocks_from_back(&lists[i], bs, take, i, &mut blocks, &mut src, &mut bpos);
        if dominant[i] {
            used_dom = used_dom + added;
        }
        proof {
            assert(blocks_from(lists@, bs as int, num_blocks as int, dominant@, budget as int, i as int, b0 as int, old_used as int)
                == blocks_from(lists@, bs as int, num_blocks as int, dominant@, budget as int, i + 1, blocks@.len() as int, used_dom as int));
            assert forall|b: int|
                0 <= b < blocks@.len() implies #[trigger] blocks@[b]@.len() == bs && bpos@[b] + bs
                    <= lists@[src@[b] as int]@.len() by {
                if b < b0 {
                    assert(blocks@[b] == old_blocks[b] && src@[b] == old_src[b] && bpos@[b] == old_bpos[b]);
                }
            }
            assert forall|b: int, q: int|
                0 <= b < blocks@.len() && 0 <= q < bs implies #[trigger] blocks@[b]@[q]
                    == lists@[src@[b] as int]@[bpos@[b] + q] by {
                if b < b0 {
                    assert(blocks@[b] == old_blocks[b] && src@[b] == old_src[b] && bpos@[b] == old_bpos[b]);
                }
            }
            assert forall|b1: int, b2: int|
                0 <= b1 < b2 < blocks@.len() && src@[b1] == src@[b2] implies #[trigger] bpos@[b2] + bs
                    <= #[trigger] bpos@[b1] by {
                if b2 < b0 {
                    assert(src@[b1] == old_src[b1] && bpos@[b1] == old_bpos[b1]);
                    assert(src@[b2] == old_src[b2] && bpos@[b2] == old_bpos[b2]);
                } else if b1 < b0 {
                    assert(src@[b1] == old_src[b1]);
                }
            }
        }
        i = i + 1;
    }
    proof {
        assert forall|b: int, t: int|
            0 <= b < blocks@.len() && 0 <= t < blocks@[b]@.len() implies #[trigger] src@[b] < lists@.len()
                && lists@[src@[b] as int]@.contains(#[trigger] blocks@[b]@[t]) by {
            assert(blocks@[b]@[t] == lists@[src@[b] as int]@[bpos@[b] + t]);
        }
        assert forall|a: int, x: int, b: int, y: int|
            0 <= a < blocks@.len() && 0 <= x < blocks@[a]@.len() && 0 <= b < blocks@.len() && 0 <= y
                < blocks@[b]@.len() && (a != b || x != y) implies #[trigger] blocks@[a]@[x]
                != #[trigger] blocks@[b]@[y] by {
            let la = src@[a] as int;
            let lb = src@[b] as int;
            assert(blocks@[a]@[x] == lists@[la]@[bpos@[a] + x]);
            assert(blocks@[b]@[y] == lists@[lb]@[bpos@[b] + y]);
            if la == lb && a != b {
                if a < b {
                    assert(bpos@[b] + bs <= bpos@[a]);
                } else {
                    assert(bpos@[a] + bs <= bpos@[b]);
                }
            }
        }
    }
    (blocks, src)
}


/// The node at position `k` of pool `p`.
pub open spec fn node_at(v: TopoView, p: int, k: int) -> Seq<char> {
    v.pools@[p].nodes@[k]@
}

/// Number of the first `m` nodes of pool `p` that are not used.
pub open spec fn free_upto(v: TopoView, used: Map<Seq<char>, ()>, p: int, m: int) -> nat
    decreases m,
{
    if m <= 0 {
        0
    } else {
        free_upto(v, used, p, m - 1) + if used.contains_key(node_at(v, p, m - 1)) {
            0nat
        } else {
            1nat
        }
    }
}

/// Number of free nodes of pool `p`.
pub open spec fn free_count(v: TopoView, used: Map<Seq<char>, ()>, p: int) -> nat {
    free_upto(v, used, p, v.pools@[p].nodes@.len() as int)
}

/// A valid node of the view that is not used.
pub open spec fn fresh_ref(v: TopoView, used: Map<Seq<char>, ()>, r: NodeRef) -> bool {
    v.valid(r) && !used.contains_key(v.node(r))
}

/// Distinct free nodes of the view.
pub open spec fn fresh(v: TopoView, used: Map<Seq<char>, ()>, picks: Seq<NodeRef>) -> bool {
    &&& forall|i: int| 0 <= i < picks.len() ==> fresh_ref(v, used, #[trigger] picks[i])
    &&& forall|i: int, j: int| 0 <= i < j < picks.len() ==> #[trigger] picks[i] != #[trigger] picks[j]
}

/// Every list holds free nodes only.
pub open spec fn lists_fresh(v: TopoView, used: Map<Seq<char>, ()>, lists: Seq<Vec<NodeRef>>) -> bool {
    forall|a: int, i: int|
        0 <= a < lists.len() && 0 <= i < lists[a]@.len() ==> fresh_ref(v, used, #[trigger] lists[a]@[i])
}

impl TopoView {
    /// The free nodes of pool `p`, in order.
    fn free_in_pool(&self, p: usize, used: &NameSet) -> (r: Vec<NodeRef>)
        requires
            p < self.pools@.len(),
        ensures
            r@.len() == free_count(*self, used@, p as int),
            forall|i: int| 0 <= i < r@.len() ==> fresh_ref(*self, used@, #[trigger] r@[i]) && r@[i].0 == p,
            forall|i: int, j: int| 0 <= i < j < r@.len() ==> #[trigger] r@[i].1 < #[trigger] r@[j].1,
    {
        let nodes = &self.pools[p].nodes;
        let mut r: Vec<NodeRef> = Vec::new();
        let mut k: usize = 0;
        while k < nodes.len()
            invariant
                p < self.pools@.len(),
                nodes == self.pools@[p as int].nodes,
                k <= nodes@.len(),
                r@.len() == free_upto(*self, used@, p as int, k as int),
                forall|i: int| 0 <= i < r@.len() ==> fresh_ref(*self, used@, #[trigger] r@[i]) && r@[i].0 == p
                    && r@[i].1 < k,
                forall|i: int, j: int| 0 <= i < j < r@.len() ==> #[trigger] r@[i].1 < #[trigger] r@[j].1,
            decreases nodes.len() - k,
        {
            if !used.contains_key(nodes[k].0.as_str()) {
                r.push((p, k));
            }
            k = k + 1;
        }
        r
    }
}

/// Whether some pick lies in another pool than the first pick.
fn spans_two_pools(picks: &Vec<NodeRef>) -> (b: bool)
    requires
        picks@.len() > 0,
    ensures
        b == exists|i: int| 0 <= i < picks@.len() && #[trigger] picks@[i].0 != picks@[0].0,
{
    let mut i: usize = 0;
    while i < picks.len()
        invariant
            i <= picks@.len(),
            picks@.len() > 0,
            forall|j: int| 0 <= j < i ==> #[trigger] picks@[j].0 == picks@[0].0,
        decreases picks.len() - i,
    {
        if picks[i].0 != picks[0].0 {
            return true;
        }
        i = i + 1;
    }
    false
}

/// A stable ordering of indices by decreasing key: `r[a]` comes before
/// `r[b]` when its key is larger, or equal with a smaller index.
pub fn order_desc_stable(keys: &Vec<usize>) -> (r: Vec<usize>)
    ensures
        is_perm(r@, keys@.len()),
        forall|a: int, b: int|
            0 <= a < b < r@.len() ==> keys@[#[trigger] r@[a] as int] > keys@[#[trigger] r@[b] as int] || (
            keys@[r@[a] as int] == keys@[r@[b] as int] && r@[a] < r@[b]),
{
    let mut r: Vec<usize> = Vec::new();
    let mut i: usize = 0;
    while i < keys.len()
        invariant
            i <= keys@.len(),
            r@.len() == i,
            forall|a: int| 0 <= a < r@.len() ==> #[trigger] r@[a] < i,
            forall|a: int, b: int| 0 <= a < b < r@.len() ==> #[trigger] r@[a] != #[trigger] r@[b],
            forall|a: int, b: int|
                0 <= a < b < r@.len() ==> keys@[#[trigger] r@[a] as int] > keys@[#[trigger] r@[b] as int] || (
                keys@[r@[a] as int] == keys@[r@[b] as int] && r@[a] < r@[b]),
        decreases keys.len() - i,
    {
        let mut q: usize = 0;
        while q < r.len() && keys[r[q]] >= keys[i]
            invariant
                q <= r@.len(),
                i < keys@.len(),
                forall|a: int| 0 <= a < r@.len() ==> #[trigger] r@[a] < i,
                forall|a: int| 0 <= a < q ==> keys@[#[trigger] r@[a] as int] >= keys@[i as int],
            decreases r.len() - q,
        {
            q = q + 1;
        }
        let ghost old_r = r@;
        r.insert(q, i);
        proof {
            assert(r@ =~= old_r.insert(q as int, i));
            assert forall|a: int, b: int| 0 <= a < b < r@.len() implies #[trigger] r@[a] != #[trigger] r@[b] by {
                if a < q && b > q {
                    assert(r@[a] == old_r[a] && r@[b] == old_r[b - 1]);
                } else if b < q {
                    assert(r@[a] == old_r[a] && r@[b] == old_r[b]);
                } else if a > q {
                    assert(r@[a] == old_r[a - 1] && r@[b] == old_r[b - 1]);
                }
            }
            assert forall|a: int, b: int|
                0 <= a < b < r@.len() implies keys@[#[trigger] r@[a] as int] > keys@[#[trigger] r@[b] as int] || (
                keys@[r@[a] as int] == keys@[r@[b] as int] && r@[a] < r@[b]) by {
                if a < q && b == q {
                    assert(r@[a] == old_r[a]);
                } else if a == q && b > q {
                    assert(r@[b] == old_r[b - 1]);
                    assert(keys@[old_r[q as int] as int] < keys@[i as int]);
                    if b - 1 > q {
                        assert(keys@[old_r[q as int] as int] > keys@[old_r[b - 1] as int] || keys@[old_r[q as int] as int]
                            == keys@[old_r[b - 1] as int]);
                    }
                } else if a < q && b > q {
                    assert(r@[a] == old_r[a] && r@[b] == old_r[b - 1]);
                } else if b < q {
                    assert(r@[a] == old_r[a] && r@[b] == old_r[b]);
                } else {
                    assert(r@[a] == old_r[a - 1] && r@[b] == old_r[b - 1]);
                }
            }
        }
        i = i + 1;
    }
    r
}

/// A copy of a list of node references.
fn copy_refs(v: &Vec<NodeRef>) -> (r: Vec<NodeRef>)
    ensures
        r@ == v@,
{
    let mut r: Vec<NodeRef> = Vec::new();
    let mut i: usize = 0;
    while i < v.len()
        invariant
            i <= v@.len(),
            r@ == v@.take(i as int),
        decreases v.len() - i,
    {
        r.push(v[i]);
        i = i + 1;
    }
    r
}

/// The lists reordered: element `order[i]` goes to position `i`.
fn reorder_lists(lists: &Vec<Vec<NodeRef>>, order: &Vec<usize>) -> (r: Vec<Vec<NodeRef>>)
    requires
        is_perm(order@, lists@.len()),
    ensures
        r@.len() == lists@.len(),
        forall|i: int| 0 <= i < r@.len() ==> #[trigger] r@[i]@ == lists@[order@[i] as int]@,
{
    let mut r: Vec<Vec<NodeRef>> = Vec::new();
    let mut i: usize = 0;
    while i < order.len()
        invariant
            i <= order@.len(),
            is_perm(order@, lists@.len()),
            r@.len() == i,
            forall|j: int| 0 <= j < i ==> #[trigger] r@[j]@ == lists@[order@[j] as int]@,
        decreases order.len() - i,
    {
        r.push(copy_refs(&lists[order[i]]));
        i = i + 1;
    }
    r
}

/// A list reordered: element `order[i]` goes to position `i`.
fn reorder_refs(v: &Vec<NodeRef>, order: &Vec<usize>) -> (r: Vec<NodeRef>)
    requires
        is_perm(order@, v@.len()),
    ensures
        r@.len() == v@.len(),
        forall|i: int| 0 <= i < r@.len() ==> #[trigger] r@[i] == v@[order@[i] as int],
{
    crate::random::apply_perm(v, order)
}

/// Reordering lists by a permutation keeps them disjoint and fresh.
proof fn lemma_reorder_lists(
    v: TopoView,
    used: Map<Seq<char>, ()>,
    lists: Seq<Vec<NodeRef>>,
    order: Seq<usize>,
    r: Seq<Vec<NodeRef>>,
)
    requires
        is_perm(order, lists.len()),
        r.len() == lists.len(),
        forall|i: int| 0 <= i < r.len() ==> #[trigger] r[i]@ == lists[order[i] as int]@,
        lists_disjoint(lists),
        lists_fresh(v, used, lists),
    ensures
        lists_disjoint(r),
        lists_fresh(v, used, r),
{
    assert forall|a: int, i: int, b: int, j: int|
        0 <= a < r.len() && 0 <= i < r[a]@.len() && 0 <= b < r.len() && 0 <= j < r[b]@.len() && (a
            != b || i != j) implies #[trigger] r[a]@[i] != #[trigger] r[b]@[j] by {
        let oa = order[a] as int;
        let ob = order[b] as int;
        assert(r[a]@[i] == lists[oa]@[i] && r[b]@[j] == lists[ob]@[j]);
        if a != b {
            assert(oa != ob);
        }
    }
    assert forall|a: int, i: int| 0 <= a < r.len() && 0 <= i < r[a]@.len() implies fresh_ref(
        v,
        used,
        #[trigger] r[a]@[i],
    ) by {
        assert(r[a]@[i] == lists[order[a] as int]@[i]);
    }
}

/// Concatenation of blocks.
pub open spec fn flatten(blocks: Seq<Vec<NodeRef>>) -> Seq<NodeRef>
    decreases blocks.len(),
{
    if blocks.len() == 0 {
        Seq::empty()
    } else {
        flatten(blocks.drop_last()) + blocks.last()@
    }
}

proof fn lemma_flatten_len(blocks: Seq<Vec<NodeRef>>, bs: int)
    requires
        forall|b: int| 0 <= b < blocks.len() ==> #[trigger] blocks[b]@.len() == bs,
    ensures
        flatten(blocks).len() == blocks.len() * bs,
    decreases blocks.len(),
{
    if blocks.len() > 0 {
        let k = blocks.len() as int;
        lemma_flatten_len(blocks.drop_last(), bs);
        assert(blocks.last()@.len() == bs);
        assert((k - 1) * bs + bs == k * bs) by (nonlinear_arith);
    }
}

proof fn lemma_flatten_first(blocks: Seq<Vec<NodeRef>>)
    requires
        blocks.len() > 0,
        blocks[0]@.len() > 0,
    ensures
        flatten(blocks).len() > 0,
        flatten(blocks)[0] == blocks[0]@[0],
    decreases blocks.len(),
{
    if blocks.len() > 1 {
        lemma_flatten_first(blocks.drop_last());
    } else {
        assert(flatten(blocks.drop_last()).len() == 0);
    }
}

/// Every block lies under one L1 switch and has `bs` nodes.
pub open spec fn aligned_blocks(blocks: Seq<Vec<NodeRef>>, bs: nat) -> bool {
    &&& forall|b: int| 0 <= b < blocks.len() ==> #[trigger] blocks[b]@.len() == bs
    &&& forall|b: int, t: int|
        0 <= b < blocks.len() && 0 <= t < blocks[b]@.len() ==> (#[trigger] blocks[b]@[t]).0
            == blocks[b]@[0].0
}

/// The picks are blocks of `bs` nodes, each under one L1 switch.
pub open spec fn blocked(picks: Seq<NodeRef>, bs: nat) -> bool {
    exists|blocks: Seq<Vec<NodeRef>>| #[trigger] flatten(blocks) == picks && aligned_blocks(blocks, bs)
}

/// `x` occurs in one of the lists.
pub open spec fn in_lists(lists: Seq<Vec<NodeRef>>, x: NodeRef) -> bool {
    exists|a: int, i: int| 0 <= a < lists.len() && 0 <= i < lists[a]@.len() && #[trigger] lists[a]@[i] == x
}

/// Concatenate blocks.
#[verifier::spinoff_prover]
fn flatten_blocks(blocks: &Vec<Vec<NodeRef>>) -> (r: Vec<NodeRef>)
    ensures
        r@ == flatten(blocks@),
        lists_disjoint(blocks@) ==> forall|i: int, j: int|
            0 <= i < j < r@.len() ==> #[trigger] r@[i] != #[trigger] r@[j],
        forall|i: int| 0 <= i < r@.len() ==> #[trigger] in_lists(blocks@, r@[i]),
{
    let mut r: Vec<NodeRef> = Vec::new();
    let ghost mut wa: Seq<int> = Seq::empty();
    let ghost mut wx: Seq<int> = Seq::empty();
    let mut b: usize = 0;
    while b < blocks.len()
        invariant
            b <= blocks@.len(),
            r@ == flatten(blocks@.take(b as int)),
            wa.len() == r@.len(),
            wx.len() == r@.len(),
            forall|i: int|
                0 <= i < r@.len() ==> 0 <= #[trigger] wa[i] < b && 0 <= wx[i] < blocks@[wa[i]]@.len() && r@[i]
                    == blocks@[wa[i]]@[wx[i]],
            forall|i: int, j: int| 0 <= i < j < r@.len() ==> (#[trigger] wa[i], wx[i]) != (#[trigger] wa[j], wx[j]),
        decreases blocks.len() - b,
    {
        assert(blocks@.take(b + 1).drop_last() =~= blocks@.take(b as int));
        let ghost before = r@;
        let mut t: usize = 0;
        while t < blocks[b].len()
            invariant
                b < blocks@.len(),
                t <= blocks@[b as int]@.len(),
                r@ == before + blocks@[b as int]@.take(t as int),
                wa.len() == r@.len(),
                wx.len() == r@.len(),
                forall|i: int|
                    0 <= i < before.len() ==> 0 <= #[trigger] wa[i] < b && 0 <= wx[i] < blocks@[wa[i]]@.len()
                        && r@[i] == blocks@[wa[i]]@[wx[i]],
                forall|i: int|
                    before.len() <= i < r@.len() ==> #[trigger] wa[i] == b && wx[i] == i - before.len()
                        && r@[i] == blocks@[b as int]@[wx[i]],
                forall|i: int, j: int|
                    0 <= i < j < r@.len() ==> (#[trigger] wa[i], wx[i]) != (#[trigger] wa[j], wx[j]),
            decreases blocks@[b as int]@.len() - t,
        {
            let ghost r0 = r@;
            r.push(blocks[b][t]);
            proof {
                wa = wa.push(b as int);
                wx = wx.push(t as int);
                assert(blocks@[b as int]@.take(t + 1) =~= blocks@[b as int]@.take(t as int).push(blocks@[b as int]@[t as int]));
                assert(r@[r0.len() as int] == blocks@[b as int]@[t as int]);
            }
            t = t + 1;
        }
        assert(blocks@[b as int]@.take(t as int) =~= blocks@[b as int]@);
        b = b + 1;
    }
    assert(blocks@.take(b as int) =~= blocks@);
    proof {
        assert forall|i: int| 0 <= i < r@.len() implies #[trigger] in_lists(blocks@, r@[i]) by {
            assert(r@[i] == blocks@[wa[i]]@[wx[i]]);
        }
        if lists_disjoint(blocks@) {
            assert forall|i: int, j: int| 0 <= i < j < r@.len() implies #[trigger] r@[i] != #[trigger] r@[j] by {
                assert(r@[i] == blocks@[wa[i]]@[wx[i]]);
                assert(r@[j] == blocks@[wa[j]]@[wx[j]]);
            }
        }
    }
    r
}

/// Number of free nodes in the first `m` pools of group `g`.
pub open spec fn cell_free_upto(v: TopoView, used: Map<Seq<char>, ()>, g: int, m: int) -> nat
    decreases m,
{
    if m <= 0 {
        0
    } else {
        cell_free_upto(v, used, g, m - 1) + free_count(v, used, v.cells@[g]@[m - 1] as int)
    }
}

/// Number of the first `m` pools of group `g` that have a free node.
pub open spec fn busy_upto(v: TopoView, used: Map<Seq<char>, ()>, g: int, m: int) -> nat
    decreases m,
{
    if m <= 0 {
        0
    } else {
        busy_upto(v, used, g, m - 1) + if free_count(v, used, v.cells@[g]@[m - 1] as int) > 0 {
            1nat
        } else {
            0nat
        }
    }
}

/// Group `g` can give `n` free nodes spread over at least two L1 switches:
/// `n` is at least two, two of its switches have free nodes, and it has `n`
/// free nodes in all.
pub open spec fn spanning_feasible(v: TopoView, used: Map<Seq<char>, ()>, g: int, n: int) -> bool {
    &&& n >= 2
    &&& busy_upto(v, used, g, v.cells@[g]@.len() as int) >= 2
    &&& cell_free_count(v, used, g) >= n
}

/// Some group can give `n` nodes as `place_intra_group` picks them: one
/// node from any group with a free node, more spread over two of its L1
/// switches.
pub open spec fn intra_group_feasible(v: TopoView, used: Map<Seq<char>, ()>, n: int) -> bool {
    exists|g: int| 0 <= g < v.cells@.len() && #[trigger] intra_group_ok(v, used, g, n)
}

/// Group `g` can give `n` nodes as `place_intra_group` picks them.
pub open spec fn intra_group_ok(v: TopoView, used: Map<Seq<char>, ()>, g: int, n: int) -> bool {
    cell_free_count(v, used, g) >= n && (n == 1 || spanning_feasible(v, used, g, n))
}

/// Blocks of `bs` free nodes the first `m` pools of group `g` hold.
pub open spec fn cell_caps_upto(v: TopoView, used: Map<Seq<char>, ()>, g: int, bs: int, m: int) -> int
    decreases m,
{
    if m <= 0 {
        0
    } else {
        cell_caps_upto(v, used, g, bs, m - 1) + free_count(v, used, v.cells@[g]@[m - 1] as int) as int / bs
    }
}

/// Number of the first `m` pools of group `g` with at least `bs` free nodes.
pub open spec fn cell_fit_upto(v: TopoView, used: Map<Seq<char>, ()>, g: int, bs: int, m: int) -> nat
    decreases m,
{
    if m <= 0 {
        0
    } else {
        cell_fit_upto(v, used, g, bs, m - 1) + if free_count(v, used, v.cells@[g]@[m - 1] as int) >= bs {
            1nat
        } else {
            0nat
        }
    }
}

/// Group `g` can give `nb` blocks of `bs` free nodes, each under one L1
/// switch, over at least two switches: `nb` is at least two, two of its
/// switches hold a block, and its switches hold `nb` blocks in all.
pub open spec fn same_l1_ok(v: TopoView, used: Map<Seq<char>, ()>, g: int, bs: int, nb: int) -> bool {
    &&& nb >= 2
    &&& cell_fit_upto(v, used, g, bs, v.cells@[g]@.len() as int) >= 2
    &&& cell_caps_upto(v, used, g, bs, v.cells@[g]@.len() as int) >= nb
}

/// Some group can give `total` nodes in blocks of `bs` under single L1
/// switches, over at least two switches.
pub open spec fn intra_same_l1_feasible(v: TopoView, used: Map<Seq<char>, ()>, total: int, bs: int) -> bool {
    &&& bs >= 1
    &&& total % bs == 0
    &&& exists|g: int| 0 <= g < v.cells@.len() && #[trigger] same_l1_ok(v, used, g, bs, total / bs)
}

/// Number of free nodes in group `g`.
pub open spec fn cell_free_count(v: TopoView, used: Map<Seq<char>, ()>, g: int) -> nat {
    cell_free_upto(v, used, g, v.cells@[g]@.len() as int)
}

impl TopoView {
    /// The free nodes of group `g`, pool by pool.
    fn cell_free_refs(&self, g: usize, used: &NameSet) -> (r: Vec<NodeRef>)
        requires
            self.wf(),
            g < self.cells@.len(),
        ensures
            r@.len() == cell_free_count(*self, used@, g as int),
            fresh(*self, used@, r@),
            forall|i: int|
                0 <= i < r@.len() ==> self.cell(#[trigger] r@[i].0 as int) == self.cell(
                    self.cells@[g as int]@[0] as int,
                ),
    {
        let grp = &self.cells[g];
        let mut r: Vec<NodeRef> = Vec::new();
        let mut i: usize = 0;
        while i < grp.len()
            invariant
                self.wf(),
                g < self.cells@.len(),
                grp == self.cells@[g as int],
                i <= grp@.len(),
                r@.len() == cell_free_upto(*self, used@, g as int, i as int),
                fresh(*self, used@, r@),
                forall|j: int| 0 <= j < r@.len() ==> self.cell(#[trigger] r@[j].0 as int) == self.cell(grp@[0] as int),
                forall|j: int| 0 <= j < r@.len() ==> exists|q: int| 0 <= q < i && #[trigger] r@[j].0 == grp@[q],
            decreases grp.len() - i,
        {
            let p = grp[i];
            let part = self.free_in_pool(p, used);
            let ghost before = r@;
            let mut k: usize = 0;
            while k < part.len()
                invariant
                    self.wf(),
                    g < self.cells@.len(),
                    grp == self.cells@[g as int],
                    i < grp@.len(),
                    p == grp@[i as int],
                    k <= part@.len(),
                    r@ == before + part@.take(k as int),
                    fresh(*self, used@, before),
                    forall|j: int| 0 <= j < before.len() ==> self.cell(#[trigger] before[j].0 as int) == self.cell(grp@[0] as int),
                    forall|j: int| 0 <= j < before.len() ==> exists|q: int| 0 <= q < i && #[trigger] before[j].0 == grp@[q],
                    forall|j: int| 0 <= j < part@.len() ==> fresh_ref(*self, used@, #[trigger] part@[j]) && part@[j].0 == p,
                    forall|a: int, b: int| 0 <= a < b < part@.len() ==> #[trigger] part@[a].1 < #[trigger] part@[b].1,
                decreases part.len() - k,
            {
                r.push(part[k]);
                k = k + 1;
            }
            proof {
                assert(part@.take(k as int) =~= part@);
                assert(self.cells@[g as int]@[i as int] < self.pools@.len());
                assert forall|a: int, b: int| 0 <= a < b < r@.len() implies #[trigger] r@[a] != #[trigger] r@[b] by {
                    if a < before.len() && b >= before.len() {
                        let q = choose|q: int| 0 <= q < i && #[trigger] before[a].0 == grp@[q];
                        assert(grp@[q] < grp@[i as int]);
                        assert(r@[b] == part@[b - before.len()]);
                    } else if a >= before.len() {
                        assert(r@[a] == part@[a - before.len()] && r@[b] == part@[b - before.len()]);
                    }
                }
                assert forall|j: int| 0 <= j < r@.len() implies fresh_ref(*self, used@, #[trigger] r@[j]) by {
                    if j >= before.len() {
                        assert(r@[j] == part@[j - before.len()]);
                    }
                }
                assert forall|j: int| 0 <= j < r@.len() implies self.cell(#[trigger] r@[j].0 as int) == self.cell(grp@[0] as int) by {
                    if j >= before.len() {
                        assert(r@[j] == part@[j - before.len()]);
                    }
                }
                assert forall|j: int| 0 <= j < r@.len() implies exists|q: int| 0 <= q < i + 1 && #[trigger] r@[j].0 == grp@[q] by {
                    if j >= before.len() {
                        assert(r@[j] == part@[j - before.len()]);
                        assert(r@[j].0 == grp@[i as int]);
                    } else {
                        let q = choose|q: int| 0 <= q < i && #[trigger] before[j].0 == grp@[q];
                        assert(r@[j] == before[j]);
                    }
                }
            }
            i = i + 1;
        }
        r
    }
}

/// All picks lie in the group of the first one.
pub open spec fn one_cell(v: TopoView, picks: Seq<NodeRef>) -> bool {
    forall|i: int| 0 <= i < picks.len() ==> v.cell(#[trigger] picks[i].0 as int) == v.cell(picks[0].0 as int)
}

/// Some pick lies under another L1 switch than the first one.
pub open spec fn two_pools(picks: Seq<NodeRef>) -> bool {
    exists|i: int| 0 <= i < picks.len() && #[trigger] picks[i].0 != picks[0].0
}

/// Some pick lies in another group than the first one.
pub open spec fn two_cells(v: TopoView, picks: Seq<NodeRef>) -> bool {
    exists|i: int| 0 <= i < picks.len() && v.cell(#[trigger] picks[i].0 as int) != v.cell(picks[0].0 as int)
}

/// Two picks lie under switches with different `cell` metadata.
pub open spec fn two_named_cells(v: TopoView, picks: Seq<NodeRef>) -> bool {
    exists|i: int, j: int|
        0 <= i < picks.len() && 0 <= j < picks.len() && v.pools@[#[trigger] picks[i].0 as int].has_cell
            && v.pools@[#[trigger] picks[j].0 as int].has_cell && v.cell(picks[i].0 as int) != v.cell(
            picks[j].0 as int,
        )
}

/// The picks meet the constraint of class `c`.
pub open spec fn meets(v: TopoView, c: PlacementClass, picks: Seq<NodeRef>) -> bool {
    match c {
        PlacementClass::IntraL1 => forall|i: int| 0 <= i < picks.len() ==> #[trigger] picks[i].0 == picks[0].0,
        PlacementClass::IntraGroup => one_cell(v, picks) && (picks.len() >= 2 ==> two_pools(picks)),
        PlacementClass::InterGroup => two_cells(v, picks),
        PlacementClass::IntraGroupSameL1(bs) => one_cell(v, picks) && two_pools(picks) && blocked(picks, bs as nat),
        PlacementClass::InterGroupSameL1(bs) => two_named_cells(v, picks) && blocked(picks, bs as nat),
    }
}

/// Whether some pick lies in another group than the first one.
fn spans_two_cells(v: &TopoView, picks: &Vec<NodeRef>) -> (b: bool)
    requires
        picks@.len() > 0,
        forall|i: int| 0 <= i < picks@.len() ==> v.valid(#[trigger] picks@[i]),
    ensures
        b == two_cells(*v, picks@),
{
    let c0 = &v.pools[picks[0].0].cell;
    let mut i: usize = 0;
    while i < picks.len()
        invariant
            i <= picks@.len(),
            picks@.len() > 0,
            forall|j: int| 0 <= j < picks@.len() ==> v.valid(#[trigger] picks@[j]),
            c0@ == v.cell(picks@[0].0 as int),
            forall|j: int| 0 <= j < i ==> v.cell(#[trigger] picks@[j].0 as int) == c0@,
        decreases picks.len() - i,
    {
        assert(v.valid(picks@[i as int]));
        if v.pools[picks[i].0].cell != *c0 {
            return true;
        }
        i = i + 1;
    }
    false
}

/// Whether two picks lie under switches with different `cell` metadata.
fn spans_two_named_cells(v: &TopoView, picks: &Vec<NodeRef>) -> (b: bool)
    requires
        forall|i: int| 0 <= i < picks@.len() ==> v.valid(#[trigger] picks@[i]),
    ensures
        b == two_named_cells(*v, picks@),
{
    // The first pick with a cell name; then any pick with another one.
    let mut first: usize = 0;
    while first < picks.len() && !v.pools[picks[first].0].has_cell
        invariant
            first <= picks@.len(),
            forall|i: int| 0 <= i < picks@.len() ==> v.valid(#[trigger] picks@[i]),
            forall|j: int| 0 <= j < first ==> !v.pools@[#[trigger] picks@[j].0 as int].has_cell,
        decreases picks.len() - first,
    {
        first = first + 1;
    }
    if first == picks.len() {
        return false;
    }
    let c0 = &v.pools[picks[first].0].cell;
    let mut i: usize = 0;
    while i < picks.len()
        invariant
            i <= picks@.len(),
            first < picks@.len(),
            forall|k: int| 0 <= k < picks@.len() ==> v.valid(#[trigger] picks@[k]),
            v.pools@[picks@[first as int].0 as int].has_cell,
            c0@ == v.cell(picks@[first as int].0 as int),
            forall|j: int|
                0 <= j < i && v.pools@[#[trigger] picks@[j].0 as int].has_cell ==> v.cell(picks@[j].0 as int) == c0@,
        decreases picks.len() - i,
    {
        assert(v.valid(picks@[i as int]));
        if v.pools[picks[i].0].has_cell && v.pools[picks[i].0].cell != *c0 {
            assert(v.pools@[picks@[first as int].0 as int].has_cell);
            return true;
        }
        i = i + 1;
    }
    proof {
        if two_named_cells(*v, picks@) {
            let (a, b) = choose|a: int, b: int|
                0 <= a < picks@.len() && 0 <= b < picks@.len() && v.pools@[#[trigger] picks@[a].0 as int].has_cell
                    && v.pools@[#[trigger] picks@[b].0 as int].has_cell && v.cell(picks@[a].0 as int)
                    != v.cell(picks@[b].0 as int);
            assert(v.cell(picks@[a].0 as int) == c0@);
            assert(v.cell(picks@[b].0 as int) == c0@);
        }
    }
    false
}

/// `c[i] = a[b[i]]`: shuffling by `a` and then ordering by `b`.
fn compose_perm(a: &Vec<usize>, b: &Vec<usize>) -> (c: Vec<usize>)
    requires
        is_perm(a@, a@.len()),
        is_perm(b@, a@.len()),
    ensures
        is_perm(c@, a@.len()),
        forall|i: int| 0 <= i < c@.len() ==> #[trigger] c@[i] == a@[b@[i] as int],
{
    let c = crate::random::apply_perm(a, b);
    proof {
        assert forall|i: int, j: int| 0 <= i < j < c@.len() implies #[trigger] c@[i] != #[trigger] c@[j] by {
            assert(b@[i] != b@[j]);
            if b@[i] < b@[j] {
                assert(a@[b@[i] as int] != a@[b@[j] as int]);
            } else {
                assert(a@[b@[j] as int] != a@[b@[i] as int]);
            }
        }
    }
    c
}

/// Every list is internally free of repeats.
pub open spec fn lists_each_distinct(lists: Seq<Vec<NodeRef>>) -> bool {
    forall|a: int, i: int, j: int|
        0 <= a < lists.len() && 0 <= i < j < lists[a]@.len() ==> #[trigger] lists[a]@[i] != #[trigger] lists[a]@[j]
}

/// All entries of a list share its first entry's pool.
pub open spec fn lists_uniform(lists: Seq<Vec<NodeRef>>) -> bool {
    forall|a: int, i: int| 0 <= a < lists.len() && 0 <= i < lists[a]@.len() ==> (#[trigger] lists[a]@[i]).0 == lists[a]@[0].0
}

/// All entries of the lists lie in group (cell) `c`.
pub open spec fn lists_in_cell(v: TopoView, lists: Seq<Vec<NodeRef>>, c: Seq<char>) -> bool {
    forall|a: int, i: int| 0 <= a < lists.len() && 0 <= i < lists[a]@.len() ==> v.cell((#[trigger] lists[a]@[i]).0 as int) == c
}

/// Lists whose entries carry distinct keys are disjoint.
proof fn lemma_keyed_disjoint(lists: Seq<Vec<NodeRef>>, key: spec_fn(NodeRef) -> Seq<char>, keys: Seq<Seq<char>>)
    requires
        keys.len() == lists.len(),
        forall|a: int, i: int| 0 <= a < lists.len() && 0 <= i < lists[a]@.len() ==> key(#[trigger] lists[a]@[i]) == keys[a],
        forall|a: int, b: int| 0 <= a < b < keys.len() ==> #[trigger] keys[a] != #[trigger] keys[b],
        lists_each_distinct(lists),
    ensures
        lists_disjoint(lists),
{
    assert forall|a: int, i: int, b: int, j: int|
        0 <= a < lists.len() && 0 <= i < lists[a]@.len() && 0 <= b < lists.len() && 0 <= j < lists[b]@.len() && (a
            != b || i != j) implies #[trigger] lists[a]@[i] != #[trigger] lists[b]@[j] by {
        if a == b {
            if i < j {
                assert(lists[a]@[i] != lists[a]@[j]);
            } else {
                assert(lists[a]@[j] != lists[a]@[i]);
            }
        } else {
            assert(key(lists[a]@[i]) == keys[a]);
            assert(key(lists[b]@[j]) == keys[b]);
            if a < b {
                assert(keys[a] != keys[b]);
            } else {
                assert(keys[b] != keys[a]);
            }
        }
    }
}

/// Reordering lists keeps each list's contents, hence uniformity and cell.
proof fn lemma_reorder_shape(
    v: TopoView,
    lists: Seq<Vec<NodeRef>>,
    order: Seq<usize>,
    r: Seq<Vec<NodeRef>>,
    c: Seq<char>,
)
    requires
        is_perm(order, lists.len()),
        r.len() == lists.len(),
        forall|i: int| 0 <= i < r.len() ==> #[trigger] r[i]@ == lists[order[i] as int]@,
    ensures
        lists_uniform(lists) ==> lists_uniform(r),
        lists_in_cell(v, lists, c) ==> lists_in_cell(v, r, c),
        forall|i: int| 0 <= i < r.len() ==> #[trigger] r[i]@.len() == lists[order[i] as int]@.len(),
{
    if lists_uniform(lists) {
        assert forall|a: int, i: int| 0 <= a < r.len() && 0 <= i < r[a]@.len() implies (#[trigger] r[a]@[i]).0 == r[a]@[0].0 by {
            assert(r[a]@[i] == lists[order[a] as int]@[i]);
            assert(r[a]@[0] == lists[order[a] as int]@[0]);
        }
    }
    if lists_in_cell(v, lists, c) {
        assert forall|a: int, i: int| 0 <= a < r.len() && 0 <= i < r[a]@.len() implies v.cell((#[trigger] r[a]@[i]).0 as int) == c by {
            assert(r[a]@[i] == lists[order[a] as int]@[i]);
        }
    }
}

/// The placement engine: a normalized topology, its view, and a seeded
/// random generator.
pub struct Placer {
    ir: TopologyIR,
    view: TopoView,
    rng: SmallRng,
    /// The seed the generator was last seeded with.
    seed: Ghost<u64>,
}

/// Some L1 switch has at least `n` free nodes.
pub open spec fn intra_l1_feasible(v: TopoView, used: Map<Seq<char>, ()>, n: int) -> bool {
    exists|p: int| 0 <= p < v.pools@.len() && free_count(v, used, p) >= n
}

impl Placer {
    /// The arrangement of compute nodes the placer works on.
    pub closed spec fn topo(&self) -> TopoView {
        self.view
    }

    /// The topology the placer works on.
    pub closed spec fn topology(&self) -> crate::ir::IRView {
        self.ir@
    }

    /// The seed the generator was last seeded with: the draws since then
    /// are those of the stream that this seed fixes.
    pub closed spec fn seed(&self) -> u64 {
        self.seed@
    }

    pub closed spec fn inv(&self) -> bool {
        self.view.wf() && view_sound(self.view, self.ir@)
    }

    /// Pick the nodes of one randomly chosen L1 switch with at least `n`
    /// free nodes.
    fn place_intra_l1(&mut self, n: usize, used: &NameSet) -> (r: Option<Vec<NodeRef>>)
        requires
            old(self).view.wf(),
        ensures
            final(self).view == old(self).view,
            final(self).ir == old(self).ir,
            r is Some <==> intra_l1_feasible(old(self).view, used@, n as int),
            r matches Some(v) ==> v@.len() == n && fresh(old(self).view, used@, v@) && meets(
                old(self).view,
                PlacementClass::IntraL1,
                v@,
            ),
    {
        let mut cands: Vec<usize> = Vec::new();
        let mut p: usize = 0;
        while p < self.view.pools.len()
            invariant
                p <= self.view.pools@.len(),
                forall|i: int| 0 <= i < cands@.len() ==> #[trigger] cands@[i] < self.view.pools@.len()
                    && free_count(self.view, used@, cands@[i] as int) >= n,
                forall|q: int| 0 <= q < p && free_count(self.view, used@, q) >= n ==> cands@.contains(q as usize),
            decreases self.view.pools.len() - p,
        {
            let f = self.view.free_in_pool(p, used);
            if f.len() >= n {
                cands.push(p);
            }
            p = p + 1;
        }
        let perm = random_permutation(cands.len(), &mut self.rng);
        if cands.len() == 0 {
            proof {
                assert forall|q: int| 0 <= q < self.view.pools@.len() implies !(free_count(self.view, used@, q) >= n) by {
                    if free_count(self.view, used@, q) >= n {
                        assert(cands@.contains(q as usize));
                    }
                }
            }
            return None;
        }
        let chosen = cands[perm[0]];
        let free = self.view.free_in_pool(chosen, used);
        let fperm = random_permutation(free.len(), &mut self.rng);
        let mut out: Vec<NodeRef> = Vec::new();
        let mut i: usize = 0;
        while i < n
            invariant
                i <= n,
                n <= free@.len(),
                is_perm(fperm@, free@.len()),
                out@.len() == i,
                forall|j: int| 0 <= j < i ==> #[trigger] out@[j] == free@[fperm@[j] as int],
            decreases n - i,
        {
            out.push(free[fperm[i]]);
            i = i + 1;
        }
        proof {
            assert forall|a: int, b: int| 0 <= a < b < out@.len() implies #[trigger] out@[a] != #[trigger] out@[b] by {
                let fa = fperm@[a] as int;
                let fb = fperm@[b] as int;
                assert(fa != fb);
                if fa < fb {
                    assert(free@[fa].1 < free@[fb].1);
                } else {
                    assert(free@[fb].1 < free@[fa].1);
                }
            }
            assert forall|j: int| 0 <= j < out@.len() implies fresh_ref(self.view, used@, #[trigger] out@[j]) && out@[j].0 == chosen by {
                assert(out@[j] == free@[fperm@[j] as int]);
            }
            assert(cands@[perm@[0] as int] == chosen);
        }
        Some(out)
    }

    /// Pick `n` free nodes of group `g` spread over at least two L1 switches.
    fn pick_spanning_l1(&mut self, g: usize, n: usize, used: &NameSet) -> (r: Option<Vec<NodeRef>>)
        requires
            old(self).view.wf(),
            g < old(self).view.cells@.len(),
            n >= 1,
        ensures
            final(self).view == old(self).view,
            final(self).ir == old(self).ir,
            r matches Some(v) ==> v@.len() == n && fresh(old(self).view, used@, v@) && one_cell(old(self).view, v@)
                && two_pools(v@) && old(self).view.cell(v@[0].0 as int) == old(self).view.cell(
                old(self).view.cells@[g as int]@[0] as int,
            ),
            r is Some <==> spanning_feasible(old(self).view, used@, g as int, n as int),
    {
        let ghost v = self.view;
        let ghost c = v.cell(v.cells@[g as int]@[0] as int);
        let mut lists: Vec<Vec<NodeRef>> = Vec::new();
        let ghost mut tags: Seq<Seq<char>> = Seq::empty();
        let mut i: usize = 0;
        while i < self.view.cells[g].len()
            invariant
                v == self.view,
                v.wf(),
                g < v.cells@.len(),
                c == v.cell(v.cells@[g as int]@[0] as int),
                i <= v.cells@[g as int]@.len(),
                tags.len() == lists@.len(),
                lists@.len() == busy_upto(v, used@, g as int, i as int),
                rest_len(lists@, 0) == cell_free_upto(v, used@, g as int, i as int),
                forall|a: int| 0 <= a < lists@.len() ==> #[trigger] lists@[a]@.len() > 0,
                lists_fresh(v, used@, lists@),
                lists_each_distinct(lists@),
                lists_in_cell(v, lists@, c),
                lists_uniform(lists@),
                forall|a: int, x: int|
                    0 <= a < lists@.len() && 0 <= x < lists@[a]@.len() ==> (|r: NodeRef| dec_key(r.0))(#[trigger] lists@[a]@[x]) == tags[a],
                forall|a: int| 0 <= a < tags.len() ==> exists|q: int| 0 <= q < i && #[trigger] tags[a] == dec_key(v.cells@[g as int]@[q]),
                forall|a: int, b: int| 0 <= a < b < tags.len() ==> #[trigger] tags[a] != #[trigger] tags[b],
            decreases v.cells@[g as int]@.len() - i,
        {
            let p = self.view.cells[g][i];
            let f = self.view.free_in_pool(p, used);
            if f.len() > 0 {
                let ghost old_lists = lists@;
                lists.push(f);
                proof {
                    lemma_rest_push(old_lists, f, 0);
                    assert(v.cells@[g as int]@[i as int] < v.pools@.len());
                    assert forall|a: int, b: int| 0 <= a < b < tags.len() + 1 implies #[trigger] tags.push(dec_key(p))[a]
                        != #[trigger] tags.push(dec_key(p))[b] by {
                        if b == tags.len() {
                            let q = choose|q: int| 0 <= q < i && #[trigger] tags[a] == dec_key(v.cells@[g as int]@[q]);
                            assert(v.cells@[g as int]@[q] < v.cells@[g as int]@[i as int]);
                            lemma_dec_key_injective(v.cells@[g as int]@[q], p);
                        }
                    }
                    tags = tags.push(dec_key(p));
                    assert forall|a: int, x: int|
                        0 <= a < lists@.len() && 0 <= x < lists@[a]@.len() implies (|r: NodeRef| dec_key(r.0))(#[trigger] lists@[a]@[x]) == tags[a] by {
                        if a < old_lists.len() {
                            assert(lists@[a] == old_lists[a]);
                        }
                    }
                    assert forall|a: int| 0 <= a < tags.len() implies exists|q: int| 0 <= q < i + 1 && #[trigger] tags[a] == dec_key(v.cells@[g as int]@[q]) by {
                        if a < tags.len() - 1 {
                            let q = choose|q: int| 0 <= q < i && #[trigger] tags[a] == dec_key(v.cells@[g as int]@[q]);
                        } else {
                            assert(tags[a] == dec_key(v.cells@[g as int]@[i as int]));
                        }
                    }
                    assert(v.cells@[g as int]@[i as int] == p);
                    assert(v.cells_ok());
                    assert(v.cell(v.cells@[g as int]@[i as int] as int) == v.cell(v.cells@[g as int]@[0] as int));
                    assert(v.cell(p as int) == c);
                    assert forall|a: int, x: int| 0 <= a < lists@.len() && 0 <= x < lists@[a]@.len() implies v.cell((#[trigger] lists@[a]@[x]).0 as int) == c by {
                        if a < old_lists.len() {
                            assert(lists@[a] == old_lists[a]);
                        } else {
                            assert(lists@[a]@[x] == f@[x]);
                        }
                    }
                    assert forall|a: int, x: int| 0 <= a < lists@.len() && 0 <= x < lists@[a]@.len() implies fresh_ref(v, used@, #[trigger] lists@[a]@[x]) by {
                        if a < old_lists.len() {
                            assert(lists@[a] == old_lists[a]);
                        }
                    }
                    assert forall|a: int, x: int, y: int| 0 <= a < lists@.len() && 0 <= x < y < lists@[a]@.len() implies #[trigger] lists@[a]@[x] != #[trigger] lists@[a]@[y] by {
                        if a < old_lists.len() {
                            assert(lists@[a] == old_lists[a]);
                        } else {
                            assert(f@[x].1 < f@[y].1);
                        }
                    }
                    assert forall|a: int, x: int| 0 <= a < lists@.len() && 0 <= x < lists@[a]@.len() implies (#[trigger] lists@[a]@[x]).0 == lists@[a]@[0].0 by {
                        if a < old_lists.len() {
                            assert(lists@[a] == old_lists[a]);
                        }
                    }
                }
            }
            i = i + 1;
        }
        if lists.len() < 2 {
            return None;
        }
        proof {
            lemma_keyed_disjoint(lists@, |r: NodeRef| dec_key(r.0), tags);
        }
        let perm = random_permutation(lists.len(), &mut self.rng);
        let mut keys: Vec<usize> = Vec::new();
        let mut k: usize = 0;
        while k < perm.len()
            invariant
                k <= perm@.len(),
                is_perm(perm@, lists@.len()),
                keys@.len() == k,
                forall|j: int| 0 <= j < k ==> #[trigger] keys@[j] == lists@[perm@[j] as int]@.len(),
            decreases perm.len() - k,
        {
            keys.push(lists[perm[k]].len());
            k = k + 1;
        }
        let ord = order_desc_stable(&keys);
        let order = compose_perm(&perm, &ord);
        let ordered = reorder_lists(&lists, &order);
        proof {
            lemma_reorder_lists(v, used@, lists@, order@, ordered@);
            lemma_reorder_shape(v, lists@, order@, ordered@, c);
            assert(ordered@[0]@ == lists@[order@[0] as int]@);
        }
        let (picks, from) = spread_pick(&ordered, n);
        proof {
            lemma_rest_perm(lists@, order@, ordered@);
            lemma_rest_nonneg(ordered@, 2);
            let l0 = ordered@[0]@.len() as int;
            assert(rest_len(ordered@, 0) == l0 + rest_len(ordered@, 1));
            assert(rest_len(ordered@, 1) == ordered@[1]@.len() + rest_len(ordered@, 2));
            assert(ordered@[1]@ == lists@[order@[1] as int]@);
            assert(ordered@[1]@.len() > 0);
            assert(ordered@[0]@.len() > 0);
            if spanning_feasible(v, used@, g as int, n as int) {
                assert(picks@.len() == n);
                assert(from@[0] == 0 && picks@[0] == ordered@[0]@[0]);
                let b = from@[n - 1] as int;
                assert(b != 0);
                assert(ordered@[b]@.contains(picks@[n - 1]));
                let x = choose|x: int| 0 <= x < ordered@[b]@.len() && ordered@[b]@[x] == picks@[n - 1];
                assert(ordered@[b]@ == lists@[order@[b] as int]@);
                assert((|r: NodeRef| dec_key(r.0))(lists@[order@[b] as int]@[x]) == tags[order@[b] as int]);
                assert((|r: NodeRef| dec_key(r.0))(lists@[order@[0] as int]@[0]) == tags[order@[0] as int]);
                assert(order@[b] != order@[0]);
                assert(picks@[n - 1].0 != picks@[0].0);
            }
        }
        if picks.len() == n && spans_two_pools(&picks) {
            proof {
                assert forall|j: int| 0 <= j < picks@.len() implies fresh_ref(v, used@, #[trigger] picks@[j]) && v.cell(picks@[j].0 as int) == c by {
                    let a = from@[j] as int;
                    assert(ordered@[a]@.contains(picks@[j]));
                    let x = choose|x: int| 0 <= x < ordered@[a]@.len() && ordered@[a]@[x] == picks@[j];
                    assert(fresh_ref(v, used@, ordered@[a]@[x]));
                }
            }
            Some(picks)
        } else {
            None
        }
    }
}


impl Placer {
    /// Pick `n` nodes within one group, spread over at least two L1 switches
    /// (a single node may come from anywhere in the group); the groups with
    /// the most free nodes are tried first.
    fn place_intra_group(&mut self, n: usize, used: &NameSet) -> (r: Option<Vec<NodeRef>>)
        requires
            old(self).view.wf(),
            n >= 1,
        ensures
            final(self).view == old(self).view,
            final(self).ir == old(self).ir,
            r matches Some(v) ==> v@.len() == n && fresh(old(self).view, used@, v@) && meets(
                old(self).view,
                PlacementClass::IntraGroup,
                v@,
            ),
            r is Some <==> intra_group_feasible(old(self).view, used@, n as int),
    {
        let ghost v = self.view;
        let mut cand: Vec<usize> = Vec::new();
        let mut counts: Vec<usize> = Vec::new();
        let mut g: usize = 0;
        while g < self.view.cells.len()
            invariant
                v == self.view,
                v.wf(),
                g <= v.cells@.len(),
                cand@.len() == counts@.len(),
                forall|i: int| 0 <= i < cand@.len() ==> #[trigger] cand@[i] < v.cells@.len(),
                forall|i: int| 0 <= i < cand@.len() ==> cell_free_count(v, used@, #[trigger] cand@[i] as int) >= n,
                forall|q: int| 0 <= q < g && #[trigger] cell_free_count(v, used@, q) >= n ==> cand@.contains(q as usize),
            decreases self.view.cells.len() - g,
        {
            let c = self.view.cell_free_refs(g, used).len();
            if c >= n {
                cand.push(g);
                counts.push(c);
            }
            g = g + 1;
        }
        let perm = random_permutation(cand.len(), &mut self.rng);
        let mut keys: Vec<usize> = Vec::new();
        let mut k: usize = 0;
        while k < perm.len()
            invariant
                k <= perm@.len(),
                is_perm(perm@, cand@.len()),
                cand@.len() == counts@.len(),
                keys@.len() == k,
            decreases perm.len() - k,
        {
            keys.push(counts[perm[k]]);
            k = k + 1;
        }
        let ord = order_desc_stable(&keys);
        let order = compose_perm(&perm, &ord);
        let mut t: usize = 0;
        while t < order.len()
            invariant
                v == self.view,
                v.wf(),
                n >= 1,
                t <= order@.len(),
                is_perm(order@, cand@.len()),
                forall|i: int| 0 <= i < cand@.len() ==> #[trigger] cand@[i] < v.cells@.len(),
                forall|i: int| 0 <= i < cand@.len() ==> cell_free_count(v, used@, #[trigger] cand@[i] as int) >= n,
                forall|q: int| 0 <= q < v.cells@.len() && #[trigger] cell_free_count(v, used@, q) >= n ==> cand@.contains(q as usize),
                v.cells@.len() <= usize::MAX,
                cand@.len() <= usize::MAX,
                forall|tt: int| 0 <= tt < t ==> n != 1 && !spanning_feasible(v, used@, cand@[#[trigger] order@[tt] as int] as int, n as int),
                self.ir == old(self).ir,
                v == old(self).view,
            decreases order.len() - t,
        {
            let g = cand[order[t]];
            let sel = self.pick_spanning_l1(g, n, used);
            match sel {
                Some(picks) => {
                    proof {
                        assert(cell_free_count(v, used@, cand@[order@[t as int] as int] as int) >= n);
                        assert(intra_group_ok(v, used@, cand@[order@[t as int] as int] as int, n as int));
                    }
                    return Some(picks);
                },
                None => {},
            }
            if n == 1 {
                let pool = self.view.cell_free_refs(g, used);
                let fp = random_permutation(pool.len(), &mut self.rng);
                if pool.len() > 0 {
                    let mut one: Vec<NodeRef> = Vec::new();
                    one.push(pool[fp[0]]);
                    proof {
                        assert(fresh_ref(v, used@, pool@[fp@[0] as int]));
                        assert(one@[0] == pool@[fp@[0] as int]);
                        assert(cell_free_count(v, used@, cand@[order@[t as int] as int] as int) >= n);
                        assert(intra_group_ok(v, used@, cand@[order@[t as int] as int] as int, n as int));
                    }
                    return Some(one);
                }
            }
            proof {
                assert(cell_free_count(v, used@, cand@[order@[t as int] as int] as int) >= n);
            }
            t = t + 1;
        }
        proof {
            if intra_group_feasible(v, used@, n as int) {
                let q = choose|q: int| 0 <= q < v.cells@.len() && #[trigger] intra_group_ok(v, used@, q, n as int);
                assert(cand@.contains(q as usize));
                let ci = choose|ci: int| 0 <= ci < cand@.len() && cand@[ci] == q as usize;
                crate::random::lemma_perm_covers(order@, cand@.len(), ci as usize);
                let tt = choose|tt: int| 0 <= tt < order@.len() && order@[tt] == ci as usize;
                assert(cand@[order@[tt] as int] == q);
                assert(n != 1 && !spanning_feasible(v, used@, cand@[order@[tt] as int] as int, n as int));
            }
        }
        None
    }

    /// Pick `n` nodes spanning at least two groups: from the group with the
    /// most free nodes at most `n - 1`, the rest round-robin from the others.
    fn place_inter_group(&mut self, n: usize, used: &NameSet) -> (r: Option<Vec<NodeRef>>)
        requires
            old(self).view.wf(),
            n >= 1,
        ensures
            final(self).view == old(self).view,
            final(self).ir == old(self).ir,
            r matches Some(v) ==> v@.len() == n && fresh(old(self).view, used@, v@) && meets(
                old(self).view,
                PlacementClass::InterGroup,
                v@,
            ),
            r is Some <==> inter_group_feasible(old(self).view, used@, n as int),
    {
        let ghost v = self.view;
        let gperm = random_permutation(self.view.cells.len(), &mut self.rng);
        let ghost fr = cell_frees(v, used@);
        let ghost bz = cell_busy(v, used@);
        let mut lists: Vec<Vec<NodeRef>> = Vec::new();
        let ghost mut tags: Seq<Seq<char>> = Seq::empty();
        let ghost mut gs: Seq<int> = Seq::empty();
        let mut t: usize = 0;
        while t < gperm.len()
            invariant
                v == self.view,
                v.wf(),
                is_perm(gperm@, v.cells@.len()),
                t <= gperm@.len(),
                tags.len() == lists@.len(),
                gs.len() == lists@.len(),
                forall|a: int| 0 <= a < lists@.len() ==> #[trigger] lists@[a]@.len() > 0,
                lists_fresh(v, used@, lists@),
                lists_each_distinct(lists@),
                forall|a: int, x: int|
                    0 <= a < lists@.len() && 0 <= x < lists@[a]@.len() ==> (|r: NodeRef| v.cell(r.0 as int))(#[trigger] lists@[a]@[x]) == tags[a],
                forall|a: int| 0 <= a < tags.len() ==> 0 <= #[trigger] gs[a] < t && tags[a] == v.cell(v.cells@[gperm@[gs[a]] as int]@[0] as int),
                forall|a: int, b: int| 0 <= a < b < gs.len() ==> #[trigger] gs[a] < #[trigger] gs[b],
                self.ir == old(self).ir,
                v == old(self).view,
                fr == cell_frees(v, used@),
                bz == cell_busy(v, used@),
                rest_len(lists@, 0) == int_rest(Seq::new(t as nat, |i: int| fr[gperm@[i] as int]), 0),
                lists@.len() == int_rest(Seq::new(t as nat, |i: int| bz[gperm@[i] as int]), 0),
            decreases gperm.len() - t,
        {
            let g = gperm[t];
            let free = self.view.cell_free_refs(g, used);
            let fp = random_permutation(free.len(), &mut self.rng);
            let sh = reorder_refs(&free, &fp);
            proof {
                let f0 = Seq::new(t as nat, |i: int| fr[gperm@[i] as int]);
                let f1 = Seq::new((t + 1) as nat, |i: int| fr[gperm@[i] as int]);
                assert(f1 == f0.push(fr[g as int]));
                lemma_int_push(f0, fr[g as int], 0);
                let b0 = Seq::new(t as nat, |i: int| bz[gperm@[i] as int]);
                let b1 = Seq::new((t + 1) as nat, |i: int| bz[gperm@[i] as int]);
                assert(b1 == b0.push(bz[g as int]));
                lemma_int_push(b0, bz[g as int], 0);
                assert(fr[g as int] == sh@.len());
            }
            if sh.len() > 0 {
                let ghost old_lists = lists@;
                lists.push(sh);
                proof {
                    lemma_rest_push(old_lists, sh, 0);
                    tags = tags.push(v.cell(v.cells@[g as int]@[0] as int));
                    gs = gs.push(t as int);
                    assert forall|a: int, x: int|
                        0 <= a < lists@.len() && 0 <= x < lists@[a]@.len() implies (|r: NodeRef| v.cell(r.0 as int))(#[trigger] lists@[a]@[x]) == tags[a] by {
                        if a < old_lists.len() {
                            assert(lists@[a] == old_lists[a]);
                        } else {
                            assert(lists@[a]@[x] == free@[fp@[x] as int]);
                        }
                    }
                    assert forall|a: int, x: int| 0 <= a < lists@.len() && 0 <= x < lists@[a]@.len() implies fresh_ref(v, used@, #[trigger] lists@[a]@[x]) by {
                        if a < old_lists.len() {
                            assert(lists@[a] == old_lists[a]);
                        } else {
                            assert(lists@[a]@[x] == free@[fp@[x] as int]);
                        }
                    }
                    assert forall|a: int, x: int, y: int| 0 <= a < lists@.len() && 0 <= x < y < lists@[a]@.len() implies #[trigger] lists@[a]@[x] != #[trigger] lists@[a]@[y] by {
                        if a < old_lists.len() {
                            assert(lists@[a] == old_lists[a]);
                        } else {
                            let fx = fp@[x] as int;
                            let fy = fp@[y] as int;
                            assert(fx != fy);
                            if fx < fy {
                                assert(free@[fx] != free@[fy]);
                            } else {
                                assert(free@[fy] != free@[fx]);
                            }
                        }
                    }
                }
            }
            t = t + 1;
        }
        proof {
            assert(Seq::new(t as nat, |i: int| fr[gperm@[i] as int]).len() == fr.len());
            lemma_int_perm(fr, gperm@, Seq::new(t as nat, |i: int| fr[gperm@[i] as int]));
            lemma_int_perm(bz, gperm@, Seq::new(t as nat, |i: int| bz[gperm@[i] as int]));
        }
        // Total free nodes, counted up to n.
        let mut total: usize = 0;
        let mut q: usize = 0;
        while q < lists.len() && total < n
            invariant
                q <= lists@.len(),
                total <= n,
                total == (if rest_len(lists@.take(q as int), 0) < n { rest_len(lists@.take(q as int), 0) } else { n as int }),
            decreases lists.len() - q,
        {
            proof {
                assert(lists@.take(q + 1) == lists@.take(q as int).push(lists@[q as int]));
                lemma_rest_push(lists@.take(q as int), lists@[q as int], 0);
            }
            let l = lists[q].len();
            if l >= n - total {
                total = n;
            } else {
                total = total + l;
            }
            q = q + 1;
        }
        proof {
            lemma_rest_split(lists@, q as int);
            lemma_rest_nonneg(lists@, q as int);
            if q == lists@.len() {
                assert(lists@.take(q as int) == lists@);
            }
        }
        if total < n || lists.len() < 2 {
            return None;
        }
        proof {
            assert forall|a: int, b: int| 0 <= a < b < tags.len() implies #[trigger] tags[a] != #[trigger] tags[b] by {
                let ga = gperm@[gs[a]] as int;
                let gb = gperm@[gs[b]] as int;
                assert(gperm@[gs[a]] != gperm@[gs[b]]);
                assert(v.cells_ok());
                if ga < gb {
                    assert(v.cell(v.cells@[ga]@[0] as int) != v.cell(v.cells@[gb]@[0] as int));
                } else {
                    assert(v.cell(v.cells@[gb]@[0] as int) != v.cell(v.cells@[ga]@[0] as int));
                }
            }
            lemma_keyed_disjoint(lists@, |r: NodeRef| v.cell(r.0 as int), tags);
        }
        let mut keys: Vec<usize> = Vec::new();
        let mut k: usize = 0;
        while k < lists.len()
            invariant
                k <= lists@.len(),
                keys@.len() == k,
                forall|j: int| 0 <= j < k ==> #[trigger] keys@[j] == lists@[j]@.len(),
            decreases lists.len() - k,
        {
            keys.push(lists[k].len());
            k = k + 1;
        }
        let ord = order_desc_stable(&keys);
        let ordered = reorder_lists(&lists, &ord);
        proof {
            lemma_reorder_lists(v, used@, lists@, ord@, ordered@);
            assert(ordered@[0]@ == lists@[ord@[0] as int]@);
        }
        let (picks, from) = spread_pick(&ordered, n);
        proof {
            lemma_rest_perm(lists@, ord@, ordered@);
            lemma_rest_nonneg(ordered@, 2);
            let l0 = ordered@[0]@.len() as int;
            assert(rest_len(ordered@, 0) == l0 + rest_len(ordered@, 1));
            assert(rest_len(ordered@, 1) == ordered@[1]@.len() + rest_len(ordered@, 2));
            assert(ordered@[1]@ == lists@[ord@[1] as int]@);
            assert(ordered@[1]@.len() > 0);
            assert(ordered@[0]@.len() > 0);
            if n >= 2 {
                assert(picks@.len() == n);
                assert(spread_take(l0, n as int) >= 1);
                assert(0 < spread_take(ordered@[0]@.len() as int, n as int));
                assert(from@[0] == 0);
                assert(picks@[0] == ordered@[0]@[0]);
                let b = from@[n - 1] as int;
                assert(b != 0);
                assert(ordered@[b]@.contains(picks@[n - 1]));
                let x = choose|x: int| 0 <= x < ordered@[b]@.len() && ordered@[b]@[x] == picks@[n - 1];
                assert(ordered@[b]@ == lists@[ord@[b] as int]@);
                assert((|r: NodeRef| v.cell(r.0 as int))(lists@[ord@[b] as int]@[x]) == tags[ord@[b] as int]);
                assert((|r: NodeRef| v.cell(r.0 as int))(lists@[ord@[0] as int]@[0]) == tags[ord@[0] as int]);
                assert(ord@[b] != ord@[0]);
                assert(v.cell(picks@[n - 1].0 as int) != v.cell(picks@[0].0 as int));
                assert(two_cells(v, picks@));
            }
        }
        proof {
            assert forall|j: int| 0 <= j < picks@.len() implies fresh_ref(v, used@, #[trigger] picks@[j]) by {
                let a = from@[j] as int;
                assert(ordered@[a]@.contains(picks@[j]));
                let x = choose|x: int| 0 <= x < ordered@[a]@.len() && ordered@[a]@[x] == picks@[j];
                assert(fresh_ref(v, used@, ordered@[a]@[x]));
            }
        }
        if picks.len() == n && spans_two_cells(&self.view, &picks) {
            Some(picks)
        } else {
            None
        }
    }
}


/// `a` is `b` reordered.
pub open spec fn permuted(a: Seq<NodeRef>, b: Seq<NodeRef>) -> bool {
    exists|lp: Seq<usize>|
        #[trigger] is_perm(lp, b.len()) && a.len() == b.len() && forall|x: int| 0 <= x < a.len() ==> a[x] == b[lp[x] as int]
}

/// Facts about one list that carry over to a reordering of it.
proof fn lemma_permuted_entry(a: Seq<NodeRef>, b: Seq<NodeRef>, x: int) -> (y: int)
    requires
        permuted(a, b),
        0 <= x < a.len(),
    ensures
        0 <= y < b.len(),
        a[x] == b[y],
{
    let lp = choose|lp: Seq<usize>|
        #[trigger] is_perm(lp, b.len()) && a.len() == b.len() && forall|x: int| 0 <= x < a.len() ==> a[x] == b[lp[x] as int];
    lp[x] as int
}

proof fn lemma_permuted_distinct(a: Seq<NodeRef>, b: Seq<NodeRef>)
    requires
        permuted(a, b),
        forall|i: int, j: int| 0 <= i < j < b.len() ==> #[trigger] b[i] != #[trigger] b[j],
    ensures
        forall|i: int, j: int| 0 <= i < j < a.len() ==> #[trigger] a[i] != #[trigger] a[j],
{
    let lp = choose|lp: Seq<usize>|
        #[trigger] is_perm(lp, b.len()) && a.len() == b.len() && forall|x: int| 0 <= x < a.len() ==> a[x] == b[lp[x] as int];
    assert forall|i: int, j: int| 0 <= i < j < a.len() implies #[trigger] a[i] != #[trigger] a[j] by {
        let li = lp[i] as int;
        let lj = lp[j] as int;
        assert(li != lj);
        if li < lj {
            assert(b[li] != b[lj]);
        } else {
            assert(b[lj] != b[li]);
        }
    }
}

impl Placer {
    /// Shuffle the order of the lists, then shuffle each list (in the new
    /// order), then order the lists by decreasing length, ties kept.
    /// Returns the lists and, for each, the index of the list it came from.
    fn shuffle_lists_then_sort(&mut self, lists: &Vec<Vec<NodeRef>>) -> (r: (Vec<Vec<NodeRef>>, Vec<usize>))
        ensures
            final(self).view == old(self).view,
            final(self).ir == old(self).ir,
            is_perm(r.1@, lists@.len()),
            r.0@.len() == lists@.len(),
            forall|i: int| 0 <= i < r.0@.len() ==> permuted(#[trigger] r.0@[i]@, lists@[r.1@[i] as int]@),
            forall|a: int, b: int|
                0 <= a < b < r.0@.len() ==> (#[trigger] r.0@[a])@.len() >= (#[trigger] r.0@[b])@.len(),
    {
        let perm = random_permutation(lists.len(), &mut self.rng);
        let mut sh: Vec<Vec<NodeRef>> = Vec::new();
        let mut i: usize = 0;
        while i < perm.len()
            invariant
                i <= perm@.len(),
                is_perm(perm@, lists@.len()),
                sh@.len() == i,
                forall|j: int| 0 <= j < i ==> permuted(#[trigger] sh@[j]@, lists@[perm@[j] as int]@),
                self.view == old(self).view,
                self.ir == old(self).ir,
            decreases perm.len() - i,
        {
            let l = &lists[perm[i]];
            let lp = random_permutation(l.len(), &mut self.rng);
            let x = reorder_refs(l, &lp);
            assert(is_perm(lp@, l@.len()));
            assert(permuted(x@, l@));
            sh.push(x);
            i = i + 1;
        }
        let mut keys: Vec<usize> = Vec::new();
        let mut k: usize = 0;
        while k < sh.len()
            invariant
                k <= sh@.len(),
                keys@.len() == k,
                forall|j: int| 0 <= j < k ==> #[trigger] keys@[j] == sh@[j]@.len(),
            decreases sh.len() - k,
        {
            keys.push(sh[k].len());
            k = k + 1;
        }
        let ord = order_desc_stable(&keys);
        let ordered = reorder_lists(&sh, &ord);
        let order = compose_perm(&perm, &ord);
        proof {
            assert forall|a: int| 0 <= a < ordered@.len() implies permuted(#[trigger] ordered@[a]@, lists@[order@[a] as int]@) by {
                assert(ordered@[a]@ == sh@[ord@[a] as int]@);
                assert(order@[a] == perm@[ord@[a] as int]);
            }
            assert forall|a: int, b: int|
                0 <= a < b < ordered@.len() implies (#[trigger] ordered@[a])@.len() >= (#[trigger] ordered@[b])@.len() by {
                assert(ordered@[a]@ == sh@[ord@[a] as int]@);
                assert(ordered@[b]@ == sh@[ord@[b] as int]@);
            }
        }
        (ordered, order)
    }

    /// Place `num_blocks` blocks of `bs` nodes in group `g`, each block under
    /// one L1 switch and the blocks under at least two.
    fn try_intra_group_same_l1_in_cell(
        &mut self,
        g: usize,
        total: usize,
        bs: usize,
        num_blocks: usize,
        used: &NameSet,
    ) -> (r: Option<Vec<NodeRef>>)
        requires
            old(self).view.wf(),
            g < old(self).view.cells@.len(),
            bs >= 1,
            num_blocks >= 1,
        ensures
            final(self).view == old(self).view,
            final(self).ir == old(self).ir,
            r matches Some(v) ==> v@.len() == total && fresh(old(self).view, used@, v@) && meets(
                old(self).view,
                PlacementClass::IntraGroupSameL1(bs),
                v@,
            ),
            total == num_blocks * bs ==> (r is Some <==> same_l1_ok(old(self).view, used@, g as int, bs as int, num_blocks as int)),
    {
        let ghost v = self.view;
        let ghost c = v.cell(v.cells@[g as int]@[0] as int);
        let mut lists: Vec<Vec<NodeRef>> = Vec::new();
        let ghost mut tags: Seq<Seq<char>> = Seq::empty();
        let mut i: usize = 0;
        while i < self.view.cells[g].len()
            invariant
                v == self.view,
                v.wf(),
                g < v.cells@.len(),
                c == v.cell(v.cells@[g as int]@[0] as int),
                i <= v.cells@[g as int]@.len(),
                tags.len() == lists@.len(),
                bs >= 1,
                lists@.len() == cell_fit_upto(v, used@, g as int, bs as int, i as int),
                int_rest(caps(lists@, bs as int), 0) == cell_caps_upto(v, used@, g as int, bs as int, i as int),
                forall|a: int| 0 <= a < lists@.len() ==> #[trigger] lists@[a]@.len() >= bs,
                lists_fresh(v, used@, lists@),
                lists_each_distinct(lists@),
                lists_in_cell(v, lists@, c),
                forall|a: int, x: int|
                    0 <= a < lists@.len() && 0 <= x < lists@[a]@.len() ==> (|r: NodeRef| dec_key(r.0))(#[trigger] lists@[a]@[x]) == tags[a],
                forall|a: int| 0 <= a < tags.len() ==> exists|q: int| 0 <= q < i && #[trigger] tags[a] == dec_key(v.cells@[g as int]@[q]),
                forall|a: int, b: int| 0 <= a < b < tags.len() ==> #[trigger] tags[a] != #[trigger] tags[b],
            decreases v.cells@[g as int]@.len() - i,
        {
            let p = self.view.cells[g][i];
            let f = self.view.free_in_pool(p, used);
            proof {
                if f@.len() < bs {
                    vstd::arithmetic::div_mod::lemma_basic_div(f@.len() as int, bs as int);
                }
            }
            if f.len() >= bs {
                let ghost old_lists = lists@;
                lists.push(f);
                proof {
                    assert(caps(lists@, bs as int) == caps(old_lists, bs as int).push(f@.len() as int / bs as int));
                    lemma_int_push(caps(old_lists, bs as int), f@.len() as int / bs as int, 0);
                    assert forall|a: int| 0 <= a < lists@.len() implies #[trigger] lists@[a]@.len() >= bs by {
                        if a < old_lists.len() {
                            assert(lists@[a] == old_lists[a]);
                        }
                    }
                    assert(v.cells@[g as int]@[i as int] < v.pools@.len());
                    assert(v.cells_ok());
                    assert(v.cell(v.cells@[g as int]@[i as int] as int) == v.cell(v.cells@[g as int]@[0] as int));
                    assert forall|a: int, b: int| 0 <= a < b < tags.len() + 1 implies #[trigger] tags.push(dec_key(p))[a]
                        != #[trigger] tags.push(dec_key(p))[b] by {
                        if b == tags.len() {
                            let q = choose|q: int| 0 <= q < i && #[trigger] tags[a] == dec_key(v.cells@[g as int]@[q]);
                            assert(v.cells@[g as int]@[q] < v.cells@[g as int]@[i as int]);
                            lemma_dec_key_injective(v.cells@[g as int]@[q], p);
                        }
                    }
                    tags = tags.push(dec_key(p));
                    assert forall|a: int, x: int|
                        0 <= a < lists@.len() && 0 <= x < lists@[a]@.len() implies (|r: NodeRef| dec_key(r.0))(#[trigger] lists@[a]@[x]) == tags[a] by {
                        if a < old_lists.len() {
                            assert(lists@[a] == old_lists[a]);
                        }
                    }
                    assert forall|a: int| 0 <= a < tags.len() implies exists|q: int| 0 <= q < i + 1 && #[trigger] tags[a] == dec_key(v.cells@[g as int]@[q]) by {
                        if a < tags.len() - 1 {
                            let q = choose|q: int| 0 <= q < i && #[trigger] tags[a] == dec_key(v.cells@[g as int]@[q]);
                        } else {
                            assert(tags[a] == dec_key(v.cells@[g as int]@[i as int]));
                        }
                    }
                    assert forall|a: int, x: int| 0 <= a < lists@.len() && 0 <= x < lists@[a]@.len() implies v.cell((#[trigger] lists@[a]@[x]).0 as int) == c by {
                        if a < old_lists.len() {
                            assert(lists@[a] == old_lists[a]);
                        } else {
                            assert(lists@[a]@[x] == f@[x]);
                        }
                    }
                    assert forall|a: int, x: int| 0 <= a < lists@.len() && 0 <= x < lists@[a]@.len() implies fresh_ref(v, used@, #[trigger] lists@[a]@[x]) by {
                        if a < old_lists.len() {
                            assert(lists@[a] == old_lists[a]);
                        }
                    }
                    assert forall|a: int, x: int, y: int| 0 <= a < lists@.len() && 0 <= x < y < lists@[a]@.len() implies #[trigger] lists@[a]@[x] != #[trigger] lists@[a]@[y] by {
                        if a < old_lists.len() {
                            assert(lists@[a] == old_lists[a]);
                        } else {
                            assert(f@[x].1 < f@[y].1);
                        }
                    }
                }
            }
            i = i + 1;
        }
        if lists.len() < 2 {
            return None;
        }
        // Block slots, counted up to num_blocks.
        let mut slots: usize = 0;
        let mut q: usize = 0;
        while q < lists.len() && slots < num_blocks
            invariant
                q <= lists@.len(),
                slots <= num_blocks,
                bs >= 1,
                slots == (if int_rest(caps(lists@, bs as int).take(q as int), 0) < num_blocks {
                    int_rest(caps(lists@, bs as int).take(q as int), 0)
                } else {
                    num_blocks as int
                }),
            decreases lists.len() - q,
        {
            proof {
                let cs = caps(lists@, bs as int);
                assert(cs.take(q + 1) == cs.take(q as int).push(cs[q as int]));
                lemma_int_push(cs.take(q as int), cs[q as int], 0);
                assert(cs[q as int] == lists@[q as int]@.len() as int / bs as int);
            }
            let x = lists[q].len() / bs;
            if x >= num_blocks - slots {
                slots = num_blocks;
            } else {
                slots = slots + x;
            }
            q = q + 1;
        }
        proof {
            let cs = caps(lists@, bs as int);
            assert forall|j: int| 0 <= j < cs.len() implies #[trigger] cs[j] >= 0 by {
                assert(lists@[j]@.len() as int / bs as int >= 0);
            }
            lemma_int_split(cs, q as int);
            lemma_int_nonneg(cs, q as int);
            if q == lists@.len() {
                assert(cs.take(q as int) == cs);
            }
        }
        if slots < num_blocks {
            return None;
        }
        let (ordered, order) = self.shuffle_lists_then_sort(&lists);
        let ghost tags2 = Seq::new(ordered@.len(), |a: int| tags[order@[a] as int]);
        proof {
            let key = |r: NodeRef| dec_key(r.0);
            assert forall|a: int, x: int|
                0 <= a < ordered@.len() && 0 <= x < ordered@[a]@.len() implies key(#[trigger] ordered@[a]@[x]) == tags2[a] by {
                let y = lemma_permuted_entry(ordered@[a]@, lists@[order@[a] as int]@, x);
            }
            assert forall|a: int, b: int| 0 <= a < b < tags2.len() implies #[trigger] tags2[a] != #[trigger] tags2[b] by {
                let oa = order@[a] as int;
                let ob = order@[b] as int;
                assert(oa != ob);
                if oa < ob {
                    assert(tags[oa] != tags[ob]);
                } else {
                    assert(tags[ob] != tags[oa]);
                }
            }
            assert forall|a: int, x: int, y: int| 0 <= a < ordered@.len() && 0 <= x < y < ordered@[a]@.len() implies #[trigger] ordered@[a]@[x] != #[trigger] ordered@[a]@[y] by {
                let la = lists@[order@[a] as int]@;
                assert forall|i: int, j: int| 0 <= i < j < la.len() implies #[trigger] la[i] != #[trigger] la[j] by {}
                lemma_permuted_distinct(ordered@[a]@, la);
            }
            lemma_keyed_disjoint(ordered@, key, tags2);
            assert forall|a: int, x: int| 0 <= a < ordered@.len() && 0 <= x < ordered@[a]@.len() implies fresh_ref(v, used@, #[trigger] ordered@[a]@[x])
                && v.cell(ordered@[a]@[x].0 as int) == c && ordered@[a]@[x].0 == ordered@[a]@[0].0 by {
                let y = lemma_permuted_entry(ordered@[a]@, lists@[order@[a] as int]@, x);
                let y0 = lemma_permuted_entry(ordered@[a]@, lists@[order@[a] as int]@, 0);
                lemma_dec_key_equal(ordered@[a]@[x].0, ordered@[a]@[0].0);
            }
        }
        let top_cap = ordered[0].len() / bs;
        let max_from_top = if top_cap >= num_blocks {
            num_blocks - 1
        } else {
            top_cap
        };
        let mut dominant: Vec<bool> = Vec::new();
        let mut d: usize = 0;
        while d < ordered.len()
            invariant
                d <= ordered@.len(),
                dominant@.len() == d,
                forall|j: int| 0 <= j < d ==> #[trigger] dominant@[j] == (j == 0),
            decreases ordered.len() - d,
        {
            dominant.push(d == 0);
            d = d + 1;
        }
        let (blocks, src) = block_pick(&ordered, bs, num_blocks, &dominant, max_from_top);
        let picks = flatten_blocks(&blocks);
        proof {
            let nb = num_blocks as int;
            let b = bs as int;
            let co = caps(ordered@, b);
            let cl = caps(lists@, b);
            assert forall|i: int| 0 <= i < co.len() implies #[trigger] co[i] == cl[order@[i] as int] by {
                assert(permuted(ordered@[i]@, lists@[order@[i] as int]@));
                let lp = choose|lp: Seq<usize>|
                    #[trigger] is_perm(lp, lists@[order@[i] as int]@.len()) && ordered@[i]@.len() == lists@[order@[i] as int]@.len()
                        && forall|x: int| 0 <= x < ordered@[i]@.len() ==> ordered@[i]@[x] == lists@[order@[i] as int]@[lp[x] as int];
            }
            lemma_int_perm(cl, order@, co);
            assert forall|j: int| 0 <= j < co.len() implies #[trigger] co[j] >= 0 by {
                assert(ordered@[j]@.len() as int / b >= 0);
            }
            lemma_int_nonneg(co, 2);
            lemma_int_nonneg(co, 1);
            assert(int_rest(co, 0) == co[0] + int_rest(co, 1));
            assert(int_rest(co, 1) == co[1] + int_rest(co, 2));
            assert(co[0] == top_cap);
            assert(co[0] >= 1 && co[1] >= 1) by {
                assert(ordered@[0]@.len() == lists@[order@[0] as int]@.len()) by {
                    assert(permuted(ordered@[0]@, lists@[order@[0] as int]@));
                }
                assert(ordered@[1]@.len() == lists@[order@[1] as int]@.len()) by {
                    assert(permuted(ordered@[1]@, lists@[order@[1] as int]@));
                }
                vstd::arithmetic::div_mod::lemma_div_non_zero(ordered@[0]@.len() as int, b);
                vstd::arithmetic::div_mod::lemma_div_non_zero(ordered@[1]@.len() as int, b);
            }
            let mft = max_from_top as int;
            assert(first_take(top_cap as int, true, mft, nb) == mft);
            assert(blocks_from(ordered@, b, nb, dominant@, mft, 0, 0, 0) == blocks_from(ordered@, b, nb, dominant@, mft, 1, mft, mft));
            lemma_blocks_tail(ordered@, b, nb, dominant@, mft, 1, mft, mft);
            lemma_flatten_len(blocks@, b);
            if total == num_blocks * bs && same_l1_ok(v, used@, g as int, b, nb) {
                assert(blocks@.len() == nb);
                assert(picks@.len() == total);
                assert(total > 0) by (nonlinear_arith)
                    requires
                        total == nb * b,
                        nb >= 2,
                        b >= 1,
                ;
                assert(src@[0] == 0);
                let last = nb - 1;
                assert(src@[last] != 0);
                lemma_flatten_first(blocks@);
                assert(picks@[0] == blocks@[0]@[0]);
                assert(flatten(blocks@) == flatten(blocks@.drop_last()) + blocks@[last]@);
                assert(picks@[picks@.len() - 1] == blocks@[last]@[b - 1]);
                assert(ordered@[0]@.contains(blocks@[0]@[0]));
                assert(ordered@[src@[last] as int]@.contains(blocks@[last]@[b - 1]));
                let x0 = choose|x: int| 0 <= x < ordered@[0]@.len() && ordered@[0]@[x] == blocks@[0]@[0];
                let x1 = choose|x: int| 0 <= x < ordered@[src@[last] as int]@.len() && ordered@[src@[last] as int]@[x] == blocks@[last]@[b - 1];
                assert(dec_key(picks@[0].0) == tags2[0]);
                assert(dec_key(picks@[picks@.len() - 1].0) == tags2[src@[last] as int]);
                assert(tags2[0] != tags2[src@[last] as int]);
                assert(picks@[picks@.len() - 1].0 != picks@[0].0);
            }
        }
        if picks.len() == total && total > 0 && spans_two_pools(&picks) {
            proof {
                let nb = num_blocks as int;
                let b = bs as int;
                if total == num_blocks * bs {
                    assert(blocks@.len() == nb) by (nonlinear_arith)
                        requires
                            blocks@.len() * b == nb * b,
                            b >= 1,
                    ;
                    if nb == 1 {
                        assert(flatten(blocks@) == flatten(blocks@.drop_last()) + blocks@[0]@);
                        assert(flatten(blocks@.drop_last()).len() == 0);
                        let i = choose|i: int| 0 <= i < picks@.len() && #[trigger] picks@[i].0 != picks@[0].0;
                        let l = src@[0] as int;
                        assert(ordered@[l]@.contains(blocks@[0]@[i]));
                        assert(ordered@[l]@.contains(blocks@[0]@[0]));
                        assert(false);
                    }
                    assert(same_l1_ok(v, used@, g as int, b, nb));
                }
                assert forall|j: int| 0 <= j < picks@.len() implies fresh_ref(v, used@, #[trigger] picks@[j])
                    && v.cell(picks@[j].0 as int) == c by {
                    assert(in_lists(blocks@, picks@[j]));
                    let (b, t) = choose|b: int, t: int| 0 <= b < blocks@.len() && 0 <= t < blocks@[b]@.len() && #[trigger] blocks@[b]@[t] == picks@[j];
                    assert(lists_contains_fresh(v, used@, ordered@, src@[b] as int, picks@[j], c));
                }
                assert forall|b: int, t: int|
                    0 <= b < blocks@.len() && 0 <= t < blocks@[b]@.len() implies (#[trigger] blocks@[b]@[t]).0 == blocks@[b]@[0].0 by {
                    let l = src@[b] as int;
                    assert(ordered@[l]@.contains(blocks@[b]@[t]));
                    assert(ordered@[l]@.contains(blocks@[b]@[0]));
                }
                assert(aligned_blocks(blocks@, bs as nat));
                assert(blocked(picks@, bs as nat));
            }
            Some(picks)
        } else {
            None
        }
    }
}


/// Two distinct slots of the groups name distinct pools.
proof fn lemma_pools_distinct(v: TopoView, g1: int, i1: int, g2: int, i2: int)
    requires
        v.cells_ok(),
        0 <= g1 < v.cells@.len(),
        0 <= g2 < v.cells@.len(),
        0 <= i1 < v.cells@[g1]@.len(),
        0 <= i2 < v.cells@[g2]@.len(),
        g1 != g2 || i1 != i2,
    ensures
        v.cells@[g1]@[i1] != v.cells@[g2]@[i2],
{
    if g1 == g2 {
        if i1 < i2 {
            assert(v.cells@[g1]@[i1] < v.cells@[g1]@[i2]);
        } else {
            assert(v.cells@[g1]@[i2] < v.cells@[g1]@[i1]);
        }
    } else {
        assert(v.cell(v.cells@[g1]@[i1] as int) == v.cell(v.cells@[g1]@[0] as int));
        assert(v.cell(v.cells@[g2]@[i2] as int) == v.cell(v.cells@[g2]@[0] as int));
        if g1 < g2 {
            assert(v.cell(v.cells@[g1]@[0] as int) != v.cell(v.cells@[g2]@[0] as int));
        } else {
            assert(v.cell(v.cells@[g2]@[0] as int) != v.cell(v.cells@[g1]@[0] as int));
        }
    }
}

impl Placer {
    /// Blocks of `block_size` nodes, each under one L1 switch, all in one
    /// group (tried in random order) and under at least two switches.
    fn place_intra_group_same_l1(&mut self, total: usize, block_size: usize, used: &NameSet) -> (r: Option<Vec<NodeRef>>)
        requires
            old(self).view.wf(),
            total >= 1,
        ensures
            final(self).view == old(self).view,
            final(self).ir == old(self).ir,
            r matches Some(v) ==> v@.len() == total && fresh(old(self).view, used@, v@) && meets(
                old(self).view,
                PlacementClass::IntraGroupSameL1(block_size),
                v@,
            ),
            r is Some <==> intra_same_l1_feasible(old(self).view, used@, total as int, block_size as int),
    {
        if block_size == 0 || total % block_size != 0 {
            return None;
        }
        let num_blocks = total / block_size;
        assert(num_blocks >= 1) by (nonlinear_arith)
            requires
                total >= 1,
                block_size >= 1,
                total % block_size == 0,
                num_blocks == total / block_size,
        ;
        proof {
            vstd::arithmetic::div_mod::lemma_fundamental_div_mod(total as int, block_size as int);
            assert(total == num_blocks * block_size) by (nonlinear_arith)
                requires
                    total as int == block_size * (total as int / block_size as int) + total as int % block_size as int,
                    total as int % block_size as int == 0,
                    num_blocks == total / block_size,
            ;
        }
        let ghost v = self.view;
        let gperm = random_permutation(self.view.cells.len(), &mut self.rng);
        let mut t: usize = 0;
        while t < gperm.len()
            invariant
                self.view.wf(),
                is_perm(gperm@, self.view.cells@.len()),
                t <= gperm@.len(),
                block_size >= 1,
                num_blocks >= 1,
                total == num_blocks * block_size,
                num_blocks == total / block_size,
                total % block_size == 0,
                v == self.view,
                self.view == old(self).view,
                self.ir == old(self).ir,
                self.view.cells@.len() <= usize::MAX,
                forall|tt: int| 0 <= tt < t ==> !same_l1_ok(v, used@, #[trigger] gperm@[tt] as int, block_size as int, num_blocks as int),
            decreases gperm.len() - t,
        {
            match self.try_intra_group_same_l1_in_cell(gperm[t], total, block_size, num_blocks, used) {
                Some(r) => {
                    proof {
                        assert(same_l1_ok(v, used@, gperm@[t as int] as int, block_size as int, num_blocks as int));
                        assert(num_blocks as int == total as int / block_size as int);
                        assert(same_l1_ok(v, used@, gperm@[t as int] as int, block_size as int, total as int / block_size as int));
                        assert(total as int % block_size as int == 0);
                    }
                    return Some(r);
                },
                None => {},
            }
            t = t + 1;
        }
        proof {
            if intra_same_l1_feasible(v, used@, total as int, block_size as int) {
                let q = choose|q: int| 0 <= q < v.cells@.len() && #[trigger] same_l1_ok(v, used@, q, block_size as int, total as int / block_size as int);
                crate::random::lemma_perm_covers(gperm@, v.cells@.len(), q as usize);
                let tt = choose|tt: int| 0 <= tt < gperm@.len() && gperm@[tt] == q as usize;
                assert(gperm@[tt] as int == q);
                assert(!same_l1_ok(v, used@, gperm@[tt] as int, block_size as int, num_blocks as int));
            }
        }
        None
    }

    /// Blocks of `block_size` nodes, each under one L1 switch, spanning at
    /// least two groups; the dominant group gives fewer than all blocks.
    #[verifier::spinoff_prover]
    fn place_inter_group_same_l1(&mut self, total: usize, block_size: usize, used: &NameSet) -> (r: Option<Vec<NodeRef>>)
        requires
            old(self).view.wf(),
            total >= 1,
        ensures
            final(self).view == old(self).view,
            final(self).ir == old(self).ir,
            r matches Some(v) ==> v@.len() == total && fresh(old(self).view, used@, v@) && meets(
                old(self).view,
                PlacementClass::InterGroupSameL1(block_size),
                v@,
            ),
    {
        if block_size == 0 || total % block_size != 0 {
            return None;
        }
        let bs = block_size;
        let num_blocks = total / bs;
        assert(num_blocks >= 1) by (nonlinear_arith)
            requires
                total >= 1,
                bs >= 1,
                total % bs == 0,
                num_blocks == total / bs,
        ;
        let ghost v = self.view;
        let gperm = random_permutation(self.view.cells.len(), &mut self.rng);
        let mut lists: Vec<Vec<NodeRef>> = Vec::new();
        let mut lgroup: Vec<usize> = Vec::new();
        let ghost mut slot_t: Seq<int> = Seq::empty();
        let ghost mut slot_i: Seq<int> = Seq::empty();
        let mut t: usize = 0;
        while t < gperm.len()
            invariant
                v == self.view,
                v.wf(),
                is_perm(gperm@, v.cells@.len()),
                t <= gperm@.len(),
                lgroup@.len() == lists@.len(),
                slot_t.len() == lists@.len(),
                slot_i.len() == lists@.len(),
                lists_fresh(v, used@, lists@),
                lists_each_distinct(lists@),
                forall|a: int|
                    0 <= a < lists@.len() ==> 0 <= #[trigger] slot_t[a] < t && lgroup@[a] == gperm@[slot_t[a]]
                        && 0 <= slot_i[a] < v.cells@[lgroup@[a] as int]@.len(),
                forall|a: int, x: int|
                    0 <= a < lists@.len() && 0 <= x < lists@[a]@.len() ==> (#[trigger] lists@[a]@[x]).0
                        == v.cells@[lgroup@[a] as int]@[slot_i[a]],
                forall|a: int, b: int|
                    0 <= a < b < lists@.len() ==> (#[trigger] slot_t[a] < #[trigger] slot_t[b]) || (slot_t[a] == slot_t[b]
                        && slot_i[a] < slot_i[b]),
                self.view == old(self).view,
                self.ir == old(self).ir,
            decreases gperm.len() - t,
        {
            let g = gperm[t];
            let mut i: usize = 0;
            while i < self.view.cells[g].len()
                invariant
                    v == self.view,
                    v.wf(),
                    is_perm(gperm@, v.cells@.len()),
                    t < gperm@.len(),
                    g == gperm@[t as int],
                    i <= v.cells@[g as int]@.len(),
                    lgroup@.len() == lists@.len(),
                    slot_t.len() == lists@.len(),
                    slot_i.len() == lists@.len(),
                    lists_fresh(v, used@, lists@),
                    lists_each_distinct(lists@),
                    forall|a: int|
                        0 <= a < lists@.len() ==> 0 <= #[trigger] slot_t[a] <= t && lgroup@[a] == gperm@[slot_t[a]]
                            && 0 <= slot_i[a] < v.cells@[lgroup@[a] as int]@.len() && (slot_t[a] == t ==> slot_i[a] < i),
                    forall|a: int, x: int|
                        0 <= a < lists@.len() && 0 <= x < lists@[a]@.len() ==> (#[trigger] lists@[a]@[x]).0
                            == v.cells@[lgroup@[a] as int]@[slot_i[a]],
                    forall|a: int, b: int|
                        0 <= a < b < lists@.len() ==> (#[trigger] slot_t[a] < #[trigger] slot_t[b]) || (slot_t[a] == slot_t[b]
                            && slot_i[a] < slot_i[b]),
                    self.view == old(self).view,
                    self.ir == old(self).ir,
                decreases v.cells@[g as int]@.len() - i,
            {
                let p = self.view.cells[g][i];
                let f = self.view.free_in_pool(p, used);
                if f.len() >= bs {
                    let ghost old_lists = lists@;
                    lists.push(f);
                    lgroup.push(g);
                    proof {
                        assert(v.cells@[g as int]@[i as int] < v.pools@.len());
                        slot_t = slot_t.push(t as int);
                        slot_i = slot_i.push(i as int);
                        assert forall|a: int, x: int|
                            0 <= a < lists@.len() && 0 <= x < lists@[a]@.len() implies (#[trigger] lists@[a]@[x]).0
                                == v.cells@[lgroup@[a] as int]@[slot_i[a]] by {
                            if a < old_lists.len() {
                                assert(lists@[a] == old_lists[a]);
                            }
                        }
                        assert forall|a: int, x: int| 0 <= a < lists@.len() && 0 <= x < lists@[a]@.len() implies fresh_ref(v, used@, #[trigger] lists@[a]@[x]) by {
                            if a < old_lists.len() {
                                assert(lists@[a] == old_lists[a]);
                            }
                        }
                        assert forall|a: int, x: int, y: int| 0 <= a < lists@.len() && 0 <= x < y < lists@[a]@.len() implies #[trigger] lists@[a]@[x] != #[trigger] lists@[a]@[y] by {
                            if a < old_lists.len() {
                                assert(lists@[a] == old_lists[a]);
                            } else {
                                assert(f@[x].1 < f@[y].1);
                            }
                        }
                    }
                }
                i = i + 1;
            }
            t = t + 1;
        }
        if lists.len() == 0 {
            return None;
        }
        // At least two distinct groups among the pools.
        let mut two = false;
        let mut a: usize = 0;
        while a < lgroup.len()
            invariant
                a <= lgroup@.len(),
            decreases lgroup.len() - a,
        {
            if lgroup[a] != lgroup[0] {
                two = true;
            }
            a = a + 1;
        }
        if !two {
            return None;
        }
        let mut slots: usize = 0;
        let mut q: usize = 0;
        while q < lists.len() && slots < num_blocks
            invariant
                q <= lists@.len(),
                slots <= num_blocks,
                bs >= 1,
            decreases lists.len() - q,
        {
            let x = lists[q].len() / bs;
            if x >= num_blocks - slots {
                slots = num_blocks;
            } else {
                slots = slots + x;
            }
            q = q + 1;
        }
        if slots < num_blocks {
            return None;
        }
        proof {
            let key = |r: NodeRef| dec_key(r.0);
            let tags = Seq::new(lists@.len(), |a: int| dec_key(v.cells@[lgroup@[a] as int]@[slot_i[a]]));
            assert forall|a: int, b: int| 0 <= a < b < tags.len() implies #[trigger] tags[a] != #[trigger] tags[b] by {
                let ga = lgroup@[a] as int;
                let gb = lgroup@[b] as int;
                if slot_t[a] != slot_t[b] {
                    assert(gperm@[slot_t[a]] != gperm@[slot_t[b]]);
                }
                lemma_pools_distinct(v, ga, slot_i[a], gb, slot_i[b]);
                lemma_dec_key_injective(v.cells@[ga]@[slot_i[a]], v.cells@[gb]@[slot_i[b]]);
            }
            lemma_keyed_disjoint(lists@, key, tags);
        }
        let (ordered, order) = self.shuffle_lists_then_sort(&lists);
        let mut ogroup: Vec<usize> = Vec::new();
        let mut o: usize = 0;
        while o < order.len()
            invariant
                o <= order@.len(),
                is_perm(order@, lists@.len()),
                lgroup@.len() == lists@.len(),
                ogroup@.len() == o,
                forall|j: int| 0 <= j < o ==> #[trigger] ogroup@[j] == lgroup@[order@[j] as int],
            decreases order.len() - o,
        {
            ogroup.push(lgroup[order[o]]);
            o = o + 1;
        }
        proof {
            let key = |r: NodeRef| dec_key(r.0);
            let tags2 = Seq::new(ordered@.len(), |a: int| dec_key(v.cells@[lgroup@[order@[a] as int] as int]@[slot_i[order@[a] as int]]));
            assert forall|a: int, x: int|
                0 <= a < ordered@.len() && 0 <= x < ordered@[a]@.len() implies key(#[trigger] ordered@[a]@[x]) == tags2[a] by {
                let y = lemma_permuted_entry(ordered@[a]@, lists@[order@[a] as int]@, x);
            }
            assert forall|a: int, b: int| 0 <= a < b < tags2.len() implies #[trigger] tags2[a] != #[trigger] tags2[b] by {
                let oa = order@[a] as int;
                let ob = order@[b] as int;
                assert(oa != ob);
                let ga = lgroup@[oa] as int;
                let gb = lgroup@[ob] as int;
                if slot_t[oa] != slot_t[ob] {
                    assert(gperm@[slot_t[oa]] != gperm@[slot_t[ob]]);
                } else if oa < ob {
                    assert(slot_i[oa] < slot_i[ob]);
                } else {
                    assert(slot_i[ob] < slot_i[oa]);
                }
                lemma_pools_distinct(v, ga, slot_i[oa], gb, slot_i[ob]);
                lemma_dec_key_injective(v.cells@[ga]@[slot_i[oa]], v.cells@[gb]@[slot_i[ob]]);
            }
            assert forall|a: int, x: int, y: int| 0 <= a < ordered@.len() && 0 <= x < y < ordered@[a]@.len() implies #[trigger] ordered@[a]@[x] != #[trigger] ordered@[a]@[y] by {
                let la = lists@[order@[a] as int]@;
                assert forall|i: int, j: int| 0 <= i < j < la.len() implies #[trigger] la[i] != #[trigger] la[j] by {}
                lemma_permuted_distinct(ordered@[a]@, la);
            }
            lemma_keyed_disjoint(ordered@, key, tags2);
            assert forall|a: int, x: int| 0 <= a < ordered@.len() && 0 <= x < ordered@[a]@.len() implies fresh_ref(v, used@, #[trigger] ordered@[a]@[x])
                && ordered@[a]@[x].0 == ordered@[a]@[0].0 by {
                let y = lemma_permuted_entry(ordered@[a]@, lists@[order@[a] as int]@, x);
                let y0 = lemma_permuted_entry(ordered@[a]@, lists@[order@[a] as int]@, 0);
            }
        }
        let dominant_group = ogroup[0];
        let mut dominant: Vec<bool> = Vec::new();
        let mut dom_slots: usize = 0;
        let mut d: usize = 0;
        while d < ordered.len()
            invariant
                d <= ordered@.len(),
                ogroup@.len() == ordered@.len(),
                dominant@.len() == d,
                dom_slots <= num_blocks,
                bs >= 1,
            decreases ordered.len() - d,
        {
            let is_dom = ogroup[d] == dominant_group;
            dominant.push(is_dom);
            if is_dom && dom_slots < num_blocks {
                let x = ordered[d].len() / bs;
                if x >= num_blocks - dom_slots {
                    dom_slots = num_blocks;
                } else {
                    dom_slots = dom_slots + x;
                }
            }
            d = d + 1;
        }
        let max_from_dominant = if dom_slots >= num_blocks {
            num_blocks - 1
        } else {
            dom_slots
        };
        let (blocks, src) = block_pick(&ordered, bs, num_blocks, &dominant, max_from_dominant);
        let picks = flatten_blocks(&blocks);
        proof {
            assert forall|j: int| 0 <= j < picks@.len() implies fresh_ref(v, used@, #[trigger] picks@[j]) by {
                assert(in_lists(blocks@, picks@[j]));
                let (b, t) = choose|b: int, t: int| 0 <= b < blocks@.len() && 0 <= t < blocks@[b]@.len() && #[trigger] blocks@[b]@[t] == picks@[j];
                let l = src@[b] as int;
                assert(ordered@[l]@.contains(picks@[j]));
            }
        }
        if picks.len() == total && spans_two_named_cells(&self.view, &picks) {
            proof {
                assert forall|b: int, t: int|
                    0 <= b < blocks@.len() && 0 <= t < blocks@[b]@.len() implies (#[trigger] blocks@[b]@[t]).0 == blocks@[b]@[0].0 by {
                    let l = src@[b] as int;
                    assert(ordered@[l]@.contains(blocks@[b]@[t]));
                    assert(ordered@[l]@.contains(blocks@[b]@[0]));
                }
                assert(aligned_blocks(blocks@, bs as nat));
                assert(blocked(picks@, bs as nat));
            }
            Some(picks)
        } else {
            None
        }
    }

    /// Place one job under its own constraint.
    fn place_one_inner(&mut self, nodes: usize, class: PlacementClass, used: &NameSet) -> (r: Option<Vec<NodeRef>>)
        requires
            old(self).view.wf(),
            nodes >= 1,
        ensures
            final(self).view == old(self).view,
            final(self).ir == old(self).ir,
            class == PlacementClass::IntraL1 ==> (r is Some <==> intra_l1_feasible(old(self).view, used@, nodes as int)),
            class == PlacementClass::IntraGroup ==> (r is Some <==> intra_group_feasible(old(self).view, used@, nodes as int)),
            class == PlacementClass::InterGroup ==> (r is Some <==> inter_group_feasible(old(self).view, used@, nodes as int)),
            class matches PlacementClass::IntraGroupSameL1(bs) ==> (r is Some <==> intra_same_l1_feasible(
                old(self).view,
                used@,
                nodes as int,
                bs as int,
            )),
            r matches Some(v) ==> v@.len() == nodes && fresh(old(self).view, used@, v@) && meets(
                old(self).view,
                class,
                v@,
            ),
    {
        match class {
            PlacementClass::IntraL1 => self.place_intra_l1(nodes, used),
            PlacementClass::IntraGroup => self.place_intra_group(nodes, used),
            PlacementClass::InterGroup => self.place_inter_group(nodes, used),
            PlacementClass::IntraGroupSameL1(bs) => self.place_intra_group_same_l1(nodes, bs, used),
            PlacementClass::InterGroupSameL1(bs) => self.place_inter_group_same_l1(nodes, bs, used),
        }
    }
}


/// The name of a class as `Debug` prints it, e.g. `IntraGroupSameL1(4)`.
pub open spec fn class_label(c: PlacementClass) -> Seq<char> {
    match c {
        PlacementClass::IntraL1 => "IntraL1"@,
        PlacementClass::IntraGroup => "IntraGroup"@,
        PlacementClass::InterGroup => "InterGroup"@,
        PlacementClass::IntraGroupSameL1(n) => "IntraGroupSameL1("@ + dec_digits(n as nat) + ")"@,
        PlacementClass::InterGroupSameL1(n) => "InterGroupSameL1("@ + dec_digits(n as nat) + ")"@,
    }
}

/// The name of a strategy as `Debug` prints it.
pub open spec fn strategy_label(s: PlacementStrategy) -> Seq<char> {
    match s {
        PlacementStrategy::Strict => "Strict"@,
        PlacementStrategy::Relaxed => "Relaxed"@,
        PlacementStrategy::BestEffort => "BestEffort"@,
    }
}

/// The request is sure to be placed on the nodes not in `used`, whatever
/// the draws: its class (or a fallback the strategy allows) is feasible.
pub open spec fn placeable(v: TopoView, used: Map<Seq<char>, ()>, req: JobRequest, strategy: PlacementStrategy) -> bool {
    let n = req.nodes as int;
    match req.placement_class {
        PlacementClass::IntraL1 => intra_l1_feasible(v, used, n) || (strategy == PlacementStrategy::BestEffort && (
        intra_group_feasible(v, used, n) || inter_group_feasible(v, used, n))),
        PlacementClass::IntraGroup => intra_group_feasible(v, used, n) || (strategy != PlacementStrategy::Strict
            && inter_group_feasible(v, used, n)),
        PlacementClass::InterGroup => inter_group_feasible(v, used, n),
        PlacementClass::IntraGroupSameL1(bs) => intra_same_l1_feasible(v, used, n, bs as int) || (strategy
            == PlacementStrategy::BestEffort && inter_group_feasible(v, used, n)),
        PlacementClass::InterGroupSameL1(_) => strategy == PlacementStrategy::BestEffort && inter_group_feasible(v, used, n),
    }
}

/// A job asking for class `req` may end up placed as `ach` under `strategy`.
pub open spec fn may_achieve(req: PlacementClass, strategy: PlacementStrategy, ach: PlacementClass) -> bool {
    ||| ach == req
    ||| (strategy != PlacementStrategy::Strict && match (req, ach) {
        (PlacementClass::IntraGroup, PlacementClass::InterGroup) => true,
        _ => false,
    })
    ||| (strategy == PlacementStrategy::BestEffort && match (req, ach) {
        (PlacementClass::IntraGroupSameL1(a), PlacementClass::InterGroupSameL1(b)) => a == b,
        (PlacementClass::IntraGroupSameL1(_), PlacementClass::InterGroup) => true,
        (PlacementClass::InterGroupSameL1(_), PlacementClass::InterGroup) => true,
        (PlacementClass::IntraL1, PlacementClass::IntraGroup) => true,
        (PlacementClass::IntraL1, PlacementClass::InterGroup) => true,
        _ => false,
    })
}

/// How the class actually achieved is reported.
pub open spec fn achieved_label(req: PlacementClass, ach: PlacementClass) -> Seq<char> {
    if ach == req {
        class_label(req)
    } else {
        match (req, ach) {
            (PlacementClass::IntraGroup, _) => "InterGroup(relaxed-from-IntraGroup)"@,
            (PlacementClass::IntraGroupSameL1(_), PlacementClass::InterGroupSameL1(_)) => class_label(ach)
                + "(relaxed-from-"@ + class_label(req) + ")"@,
            (PlacementClass::IntraL1, PlacementClass::IntraGroup) => "IntraGroup(best-effort-from-IntraL1)"@,
            (PlacementClass::IntraL1, _) => "InterGroup(best-effort-from-IntraL1)"@,
            _ => "InterGroup(best-effort-from-"@ + class_label(req) + ")"@,
        }
    }
}

/// The achieved class is reported under its own name: the report starts
/// with the name of the class the nodes were placed as, is exactly the
/// requested class's name when that class was met, and says more (the
/// fallback it came from) when it was not.
pub proof fn lemma_achieved_label_names_class(req: PlacementClass, strategy: PlacementStrategy, ach: PlacementClass)
    requires
        may_achieve(req, strategy, ach),
    ensures
        ach == req ==> achieved_label(req, ach) == class_label(req),
        class_label(ach).len() <= achieved_label(req, ach).len(),
        achieved_label(req, ach).take(class_label(ach).len() as int) == class_label(ach),
        ach != req ==> achieved_label(req, ach).len() > class_label(ach).len(),
        ach != req ==> achieved_label(req, ach) != class_label(req),
{
    reveal_strlit("InterGroup");
    reveal_strlit("IntraGroup");
    reveal_strlit("InterGroup(relaxed-from-IntraGroup)");
    reveal_strlit("IntraGroup(best-effort-from-IntraL1)");
    reveal_strlit("InterGroup(best-effort-from-IntraL1)");
    reveal_strlit("InterGroup(best-effort-from-");
    let l = achieved_label(req, ach);
    let c = class_label(ach);
    reveal_strlit("IntraL1");
    reveal_strlit("IntraGroupSameL1(");
    reveal_strlit("InterGroupSameL1(");
    let cr = class_label(req);
    if ach != req {
        // the report differs from the requested class's name at some place
        match req {
            PlacementClass::IntraGroupSameL1(n) => {
                assert(cr[3] == "IntraGroupSameL1("@[3]);
            },
            PlacementClass::InterGroupSameL1(n) => {
                assert(cr[10] == "InterGroupSameL1("@[10]);
            },
            _ => {},
        }
        match ach {
            PlacementClass::InterGroupSameL1(n) => {
                assert(c[3] == "InterGroupSameL1("@[3]);
            },
            _ => {},
        }
    }
    if ach != req {
        match (req, ach) {
            (PlacementClass::IntraGroup, _) => {
                assert(ach == PlacementClass::InterGroup);
                assert(l.take(10) =~= c);
                assert(l[3] != cr[3]);
            },
            (PlacementClass::IntraGroupSameL1(_), PlacementClass::InterGroupSameL1(_)) => {
                let rest = "(relaxed-from-"@ + class_label(req) + ")"@;
                assert(l =~= c + rest);
                assert(l.take(c.len() as int) =~= c);
                reveal_strlit("(relaxed-from-");
                assert(l[3] == c[3]);
                assert(l[3] != cr[3]);
            },
            (PlacementClass::IntraL1, PlacementClass::IntraGroup) => {
                assert(l.take(10) =~= c);
                assert(l[5] != cr[5]);
            },
            (PlacementClass::IntraL1, _) => {
                assert(ach == PlacementClass::InterGroup);
                assert(l.take(10) =~= c);
                assert(l[3] != cr[3]);
            },
            _ => {
                assert(ach == PlacementClass::InterGroup);
                let a = "InterGroup(best-effort-from-"@;
                assert(l =~= a + (class_label(req) + ")"@));
                assert(l.take(10) =~= a.take(10));
                assert(a.take(10) =~= c);
                assert(l[3] == a[3]);
                assert(l[10] == a[10]);
                if req is IntraGroupSameL1 {
                    assert(l[3] != cr[3]);
                } else {
                    assert(req is InterGroupSameL1);
                    assert(l[10] != cr[10]);
                }
            },
        }
    }
}

/// Append a string literal's characters.
fn push_lit(dst: &mut Vec<char>, lit: &str)
    ensures
        final(dst)@ == old(dst)@ + lit@,
{
    let c = chars_of(lit);
    extend_chars(dst, c.as_slice());
}

/// Append a number in decimal.
fn push_num(dst: &mut Vec<char>, n: usize)
    ensures
        final(dst)@ == old(dst)@ + dec_digits(n as nat),
{
    let d = format_padded(n, 0);
    proof {
        assert(zero_pad(dec_digits(n as nat), 0) == dec_digits(n as nat));
    }
    extend_chars(dst, d.as_slice());
}

/// Append a class's name.
fn push_class(dst: &mut Vec<char>, c: PlacementClass)
    ensures
        final(dst)@ == old(dst)@ + class_label(c),
{
    let ghost start = dst@;
    match c {
        PlacementClass::IntraL1 => push_lit(dst, "IntraL1"),
        PlacementClass::IntraGroup => push_lit(dst, "IntraGroup"),
        PlacementClass::InterGroup => push_lit(dst, "InterGroup"),
        PlacementClass::IntraGroupSameL1(n) => {
            push_lit(dst, "IntraGroupSameL1(");
            push_num(dst, n);
            push_lit(dst, ")");
            assert(dst@ =~= start + class_label(c));
        },
        PlacementClass::InterGroupSameL1(n) => {
            push_lit(dst, "InterGroupSameL1(");
            push_num(dst, n);
            push_lit(dst, ")");
            assert(dst@ =~= start + class_label(c));
        },
    }
}

/// The `Debug` name of a class.
pub fn class_text(c: PlacementClass) -> (s: String)
    ensures
        s@ == class_label(c),
{
    let mut v: Vec<char> = Vec::new();
    push_class(&mut v, c);
    assert(v@ =~= class_label(c));
    string_of(v.as_slice())
}

/// The `Debug` name of a strategy.
pub fn strategy_text(st: PlacementStrategy) -> (s: String)
    ensures
        s@ == strategy_label(st),
{
    match st {
        PlacementStrategy::Strict => String::from_str("Strict"),
        PlacementStrategy::Relaxed => String::from_str("Relaxed"),
        PlacementStrategy::BestEffort => String::from_str("BestEffort"),
    }
}

/// How the class actually achieved is reported.
fn achieved_text(req: PlacementClass, ach: PlacementClass) -> (s: String)
    ensures
        s@ == achieved_label(req, ach),
{
    if ach == req {
        return class_text(req);
    }
    let mut v: Vec<char> = Vec::new();
    match (req, ach) {
        (PlacementClass::IntraGroup, _) => push_lit(&mut v, "InterGroup(relaxed-from-IntraGroup)"),
        (PlacementClass::IntraGroupSameL1(_), PlacementClass::InterGroupSameL1(_)) => {
            push_class(&mut v, ach);
            push_lit(&mut v, "(relaxed-from-");
            push_class(&mut v, req);
            push_lit(&mut v, ")");
        },
        (PlacementClass::IntraL1, PlacementClass::IntraGroup) => push_lit(&mut v, "IntraGroup(best-effort-from-IntraL1)"),
        (PlacementClass::IntraL1, _) => push_lit(&mut v, "InterGroup(best-effort-from-IntraL1)"),
        _ => {
            push_lit(&mut v, "InterGroup(best-effort-from-");
            push_class(&mut v, req);
            push_lit(&mut v, ")");
        },
    }
    assert(v@ =~= achieved_label(req, ach));
    string_of(v.as_slice())
}

impl Placer {
    /// Place one job: first under its own class; when that fails and the
    /// strategy allows it, under the relaxations of that class in turn.
    /// Returns the nodes and the class achieved.
    fn place_one_with_strategy(
        &mut self,
        req: &JobRequest,
        used: &NameSet,
        strategy: PlacementStrategy,
    ) -> (r: Option<(Vec<NodeRef>, PlacementClass)>)
        requires
            old(self).view.wf(),
            req.nodes >= 1,
        ensures
            final(self).view == old(self).view,
            final(self).ir == old(self).ir,
            r matches Some((v, ach)) ==> v@.len() == req.nodes && fresh(old(self).view, used@, v@) && meets(
                old(self).view,
                ach,
                v@,
            ) && may_achieve(req.placement_class, strategy, ach),
            placeable(old(self).view, used@, *req, strategy) ==> r is Some,
            req.placement_class == PlacementClass::IntraL1 ==> (r is Some <==> (intra_l1_feasible(
                old(self).view,
                used@,
                req.nodes as int,
            ) || (strategy == PlacementStrategy::BestEffort && (intra_group_feasible(
                old(self).view,
                used@,
                req.nodes as int,
            ) || inter_group_feasible(old(self).view, used@, req.nodes as int))))),
            req.placement_class == PlacementClass::IntraL1 && intra_l1_feasible(old(self).view, used@, req.nodes as int)
                ==> (r matches Some((_, ach)) && ach == PlacementClass::IntraL1),
            req.placement_class == PlacementClass::IntraGroup ==> (r is Some <==> (intra_group_feasible(
                old(self).view,
                used@,
                req.nodes as int,
            ) || (strategy != PlacementStrategy::Strict && inter_group_feasible(old(self).view, used@, req.nodes as int)))),
            req.placement_class == PlacementClass::IntraGroup && intra_group_feasible(old(self).view, used@, req.nodes as int)
                ==> (r matches Some((_, ach)) && ach == PlacementClass::IntraGroup),
            req.placement_class == PlacementClass::InterGroup ==> (r is Some <==> inter_group_feasible(
                old(self).view,
                used@,
                req.nodes as int,
            )),
            req.placement_class matches PlacementClass::IntraGroupSameL1(bs) ==> (intra_same_l1_feasible(
                old(self).view,
                used@,
                req.nodes as int,
                bs as int,
            ) ==> (r matches Some((_, ach)) && ach == req.placement_class)),
            req.placement_class matches PlacementClass::IntraGroupSameL1(bs) ==> (strategy == PlacementStrategy::Strict ==> (r is Some
                <==> intra_same_l1_feasible(old(self).view, used@, req.nodes as int, bs as int))),
    {
        let n = req.nodes;
        let class = req.placement_class;
        match self.place_one_inner(n, class, used) {
            Some(v) => {
                return Some((v, class));
            },
            None => {},
        }
        if strategy == PlacementStrategy::Strict {
            return None;
        }
        match class {
            PlacementClass::IntraGroup => {
                match self.place_one_inner(n, PlacementClass::InterGroup, used) {
                    Some(v) => Some((v, PlacementClass::InterGroup)),
                    None => None,
                }
            },
            PlacementClass::IntraGroupSameL1(bs) => {
                if strategy != PlacementStrategy::BestEffort {
                    return None;
                }
                match self.place_one_inner(n, PlacementClass::InterGroupSameL1(bs), used) {
                    Some(v) => {
                        return Some((v, PlacementClass::InterGroupSameL1(bs)));
                    },
                    None => {},
                }
                if strategy == PlacementStrategy::BestEffort {
                    match self.place_one_inner(n, PlacementClass::InterGroup, used) {
                        Some(v) => Some((v, PlacementClass::InterGroup)),
                        None => None,
                    }
                } else {
                    None
                }
            },
            PlacementClass::InterGroupSameL1(_) => {
                if strategy == PlacementStrategy::BestEffort {
                    match self.place_one_inner(n, PlacementClass::InterGroup, used) {
                        Some(v) => Some((v, PlacementClass::InterGroup)),
                        None => None,
                    }
                } else {
                    None
                }
            },
            PlacementClass::IntraL1 => {
                if strategy == PlacementStrategy::BestEffort {
                    match self.place_one_inner(n, PlacementClass::IntraGroup, used) {
                        Some(v) => {
                            return Some((v, PlacementClass::IntraGroup));
                        },
                        None => {},
                    }
                    match self.place_one_inner(n, PlacementClass::InterGroup, used) {
                        Some(v) => Some((v, PlacementClass::InterGroup)),
                        None => None,
                    }
                } else {
                    None
                }
            },
            _ => None,
        }
    }
}


/// `a + b`, or `usize::MAX` when that is larger.
pub open spec fn sat_add(a: nat, b: nat) -> nat {
    if a + b > usize::MAX {
        usize::MAX as nat
    } else {
        a + b
    }
}

/// Number of compute entities whose name is not used.
pub open spec fn free_compute(es: Seq<EntityView>, used: Map<Seq<char>, ()>) -> nat
    decreases es.len(),
{
    if es.len() == 0 {
        0
    } else {
        free_compute(es.drop_last(), used) + if es.last().1 is Compute && !used.contains_key(es.last().0) {
            1nat
        } else {
            0nat
        }
    }
}

/// Free-node counts of the pools of group `g`, in order.
pub open spec fn pool_frees(v: TopoView, used: Map<Seq<char>, ()>, g: int) -> Seq<nat> {
    Seq::new(v.cells@[g]@.len(), |i: int| free_count(v, used, v.cells@[g]@[i] as int))
}

/// Saturating sum.
pub open spec fn sum_sat(s: Seq<nat>) -> nat
    decreases s.len(),
{
    if s.len() == 0 {
        0
    } else {
        sat_add(sum_sat(s.drop_last()), s.last())
    }
}

/// Number of entries at least `k`.
pub open spec fn count_at_least(s: Seq<nat>, k: nat) -> nat
    decreases s.len(),
{
    if s.len() == 0 {
        0
    } else {
        count_at_least(s.drop_last(), k) + if s.last() >= k {
            1nat
        } else {
            0nat
        }
    }
}

/// The largest entry, or 0.
pub open spec fn max_of(s: Seq<nat>) -> nat
    decreases s.len(),
{
    if s.len() == 0 {
        0
    } else {
        let m = max_of(s.drop_last());
        if s.last() > m {
            s.last()
        } else {
            m
        }
    }
}

/// Decimal texts of the non-zero entries.
pub open spec fn nonzero_texts(s: Seq<nat>) -> Seq<Seq<char>>
    decreases s.len(),
{
    if s.len() == 0 {
        Seq::empty()
    } else if s.last() > 0 {
        nonzero_texts(s.drop_last()).push(dec_digits(s.last()))
    } else {
        nonzero_texts(s.drop_last())
    }
}

/// Block slots per pool.
pub open spec fn slots_of(s: Seq<nat>, bs: nat) -> Seq<nat> {
    Seq::new(s.len(), |i: int| s[i] / bs)
}

/// The block size of a block class.
pub open spec fn block_size_of(c: PlacementClass) -> Option<usize> {
    match c {
        PlacementClass::IntraGroupSameL1(b) => Some(b),
        PlacementClass::InterGroupSameL1(b) => Some(b),
        _ => None,
    }
}

/// The lines that describe group `g` in a failure report.
pub open spec fn cell_lines(v: TopoView, used: Map<Seq<char>, ()>, g: int, c: PlacementClass) -> Seq<Seq<char>> {
    let per = pool_frees(v, used, g);
    let line = "  Cell '"@ + v.cell(v.cells@[g]@[0] as int) + "': "@ + dec_digits(sum_sat(per)) + " free nodes across "@
        + dec_digits(count_at_least(per, 1)) + " L1s (per-L1 free: ["@ + join(nonzero_texts(per), ", "@) + "])."@;
    match block_size_of(c) {
        Some(bs) => seq![
            line,
            "    Block-size "@ + dec_digits(bs as nat) + ": "@ + dec_digits(count_at_least(per, bs as nat))
                + " L1s with ≥1 slot, "@ + dec_digits(sum_sat(slots_of(per, bs as nat))) + " total slots available."@
        ],
        None => seq![line],
    }
}

/// The lines of all groups, in order.
pub open spec fn all_cell_lines(v: TopoView, used: Map<Seq<char>, ()>, c: PlacementClass, m: int) -> Seq<Seq<char>>
    decreases m,
{
    if m <= 0 {
        Seq::empty()
    } else {
        all_cell_lines(v, used, c, m - 1) + cell_lines(v, used, m - 1, c)
    }
}

/// Free-node counts of all pools.
pub open spec fn all_pool_frees(v: TopoView, used: Map<Seq<char>, ()>) -> Seq<nat> {
    Seq::new(v.pools@.len(), |p: int| free_count(v, used, p))
}

/// Free-node counts of all groups.
pub open spec fn all_cell_frees(v: TopoView, used: Map<Seq<char>, ()>) -> Seq<nat> {
    Seq::new(v.cells@.len(), |g: int| sum_sat(pool_frees(v, used, g)))
}

/// The closing line of a failure report, about the class asked for.
pub open spec fn class_line(v: TopoView, used: Map<Seq<char>, ()>, c: PlacementClass, n: usize) -> Seq<char> {
    match c {
        PlacementClass::IntraL1 => "IntraL1 needs "@ + dec_digits(n as nat) + " nodes under one L1; largest free L1 has "@
            + dec_digits(max_of(all_pool_frees(v, used))) + "."@,
        PlacementClass::IntraGroup => "IntraGroup needs "@ + dec_digits(n as nat)
            + " nodes within one cell spanning ≥2 L1s; largest cell has "@ + dec_digits(
            max_of(all_cell_frees(v, used)),
        ) + " free nodes."@,
        PlacementClass::InterGroup => "InterGroup needs "@ + dec_digits(n as nat) + " nodes spanning ≥2 cells; "@
            + dec_digits(count_at_least(all_cell_frees(v, used), 1)) + " cells have free nodes."@,
        PlacementClass::IntraGroupSameL1(bs) => "IntraGroupSameL1("@ + dec_digits(bs as nat) + ") needs "@ + dec_digits(
            n as nat,
        ) + " nodes ("@ + dec_digits((n / bs) as nat) + " blocks of "@ + dec_digits(bs as nat)
            + ") within one cell across ≥2 L1s."@,
        PlacementClass::InterGroupSameL1(bs) => "InterGroupSameL1("@ + dec_digits(bs as nat) + ") needs "@ + dec_digits(
            n as nat,
        ) + " nodes ("@ + dec_digits((n / bs) as nat) + " blocks of "@ + dec_digits(bs as nat)
            + ") spanning ≥2 cells."@,
    }
}

/// The failure report for a job that could not be placed.
pub open spec fn failure_text(ir: crate::ir::IRView, v: TopoView, used: Map<Seq<char>, ()>, req: JobRequest) -> Seq<char> {
    join(
        seq!["Cluster-wide free nodes: "@ + dec_digits(free_compute(ir.entities, used)) + "."@] + all_cell_lines(
            v,
            used,
            req.placement_class,
            v.cells@.len() as int,
        ) + seq![class_line(v, used, req.placement_class, req.nodes)],
        " "@,
    )
}


/// The values of a vector of counts.
pub open spec fn nats(v: Seq<usize>) -> Seq<nat> {
    v.map_values(|x: usize| x as nat)
}

fn sum_sat_exec(v: &Vec<usize>) -> (r: usize)
    ensures
        r == sum_sat(nats(v@)),
{
    let mut r: usize = 0;
    let mut i: usize = 0;
    while i < v.len()
        invariant
            i <= v@.len(),
            r == sum_sat(nats(v@.take(i as int))),
        decreases v.len() - i,
    {
        assert(nats(v@.take(i + 1)).drop_last() =~= nats(v@.take(i as int)));
        assert(nats(v@.take(i + 1)).last() == v@[i as int] as nat);
        r = r.saturating_add(v[i]);
        i = i + 1;
    }
    assert(v@.take(i as int) =~= v@);
    r
}

fn count_at_least_exec(v: &Vec<usize>, k: usize) -> (r: usize)
    ensures
        r == count_at_least(nats(v@), k as nat),
{
    let mut r: usize = 0;
    let mut i: usize = 0;
    while i < v.len()
        invariant
            i <= v@.len(),
            r <= i,
            r == count_at_least(nats(v@.take(i as int)), k as nat),
        decreases v.len() - i,
    {
        assert(nats(v@.take(i + 1)).drop_last() =~= nats(v@.take(i as int)));
        assert(nats(v@.take(i + 1)).last() == v@[i as int] as nat);
        if v[i] >= k {
            r = r + 1;
        }
        i = i + 1;
    }
    assert(v@.take(i as int) =~= v@);
    r
}

fn max_exec(v: &Vec<usize>) -> (r: usize)
    ensures
        r == max_of(nats(v@)),
{
    let mut r: usize = 0;
    let mut i: usize = 0;
    while i < v.len()
        invariant
            i <= v@.len(),
            r == max_of(nats(v@.take(i as int))),
        decreases v.len() - i,
    {
        assert(nats(v@.take(i + 1)).drop_last() =~= nats(v@.take(i as int)));
        assert(nats(v@.take(i + 1)).last() == v@[i as int] as nat);
        if v[i] > r {
            r = v[i];
        }
        i = i + 1;
    }
    assert(v@.take(i as int) =~= v@);
    r
}

fn slots_exec(v: &Vec<usize>, bs: usize) -> (r: Vec<usize>)
    requires
        bs >= 1,
    ensures
        nats(r@) == slots_of(nats(v@), bs as nat),
{
    let mut r: Vec<usize> = Vec::new();
    let mut i: usize = 0;
    while i < v.len()
        invariant
            i <= v@.len(),
            bs >= 1,
            r@.len() == i,
            forall|j: int| 0 <= j < i ==> #[trigger] r@[j] == v@[j] / bs,
        decreases v.len() - i,
    {
        r.push(v[i] / bs);
        i = i + 1;
    }
    assert(nats(r@) =~= slots_of(nats(v@), bs as nat));
    r
}

/// `", "`-joined decimal texts of the non-zero entries.
fn nonzero_text(v: &Vec<usize>) -> (r: Vec<char>)
    ensures
        r@ == join(nonzero_texts(nats(v@)), ", "@),
{
    let mut parts: Vec<String> = Vec::new();
    let mut i: usize = 0;
    while i < v.len()
        invariant
            i <= v@.len(),
            crate::text::views(parts@) == nonzero_texts(nats(v@.take(i as int))),
        decreases v.len() - i,
    {
        assert(nats(v@.take(i + 1)).drop_last() =~= nats(v@.take(i as int)));
        assert(nats(v@.take(i + 1)).last() == v@[i as int] as nat);
        if v[i] > 0 {
            let mut d: Vec<char> = Vec::new();
            push_num(&mut d, v[i]);
            let ghost prev = crate::text::views(parts@);
            let t = string_of(d.as_slice());
            parts.push(t);
            assert(crate::text::views(parts@) =~= prev.push(dec_digits(v@[i as int] as nat)));
        }
        i = i + 1;
    }
    assert(v@.take(i as int) =~= v@);
    crate::order::join_chars(&parts, ", ")
}

impl Placer {
    /// A report on why a job could not be placed: free nodes overall and
    /// per group (and block slots for block classes), then a line about the
    /// class asked for.
    fn failure_debug(&self, req: &JobRequest, used: &NameSet) -> (s: String)
        requires
            self.view.wf(),
            block_size_of(req.placement_class) matches Some(b) ==> b >= 1,
        ensures
            s@ == failure_text(self.ir@, self.view, used@, *req),
    {
        let ghost v = self.view;
        let ghost es = self.ir@.entities;
        let mut lines: Vec<String> = Vec::new();
        let mut tf: usize = 0;
        let mut i: usize = 0;
        while i < self.ir.entities.len()
            invariant
                es == self.ir@.entities,
                i <= es.len(),
                tf <= i,
                tf == free_compute(es.take(i as int), used@),
            decreases self.ir.entities.len() - i,
        {
            let e = &self.ir.entities[i];
            assert(es.take(i + 1).drop_last() =~= es.take(i as int));
            assert(es.take(i + 1).last() == e@);
            if e.kind == EntityKind::Compute && !used.contains_key(e.id.0.as_str()) {
                tf = tf + 1;
            }
            i = i + 1;
        }
        assert(es.take(i as int) =~= es);
        let mut first: Vec<char> = Vec::new();
        push_lit(&mut first, "Cluster-wide free nodes: ");
        push_num(&mut first, tf);
        push_lit(&mut first, ".");
        lines.push(string_of(first.as_slice()));
        let class = req.placement_class;
        let mut cell_totals: Vec<usize> = Vec::new();
        let mut all_frees: Vec<usize> = Vec::new();
        let ghost mut pool_order: Seq<int> = Seq::empty();
        let mut g: usize = 0;
        while g < self.view.cells.len()
            invariant
                v == self.view,
                v.wf(),
                g <= v.cells@.len(),
                block_size_of(class) matches Some(b) ==> b >= 1,
                lines@.len() >= 1,
                crate::text::views(lines@) == seq!["Cluster-wide free nodes: "@ + dec_digits(free_compute(es, used@)) + "."@]
                    + all_cell_lines(v, used@, class, g as int),
                cell_totals@.len() == g,
                forall|j: int| 0 <= j < g ==> #[trigger] cell_totals@[j] == sum_sat(pool_frees(v, used@, j)),
            decreases self.view.cells.len() - g,
        {
            let grp = &self.view.cells[g];
            let mut per: Vec<usize> = Vec::new();
            let mut k: usize = 0;
            while k < grp.len()
                invariant
                    v == self.view,
                    v.wf(),
                    g < v.cells@.len(),
                    grp == v.cells@[g as int],
                    k <= grp@.len(),
                    per@.len() == k,
                    forall|j: int| 0 <= j < k ==> #[trigger] per@[j] == free_count(v, used@, grp@[j] as int),
                decreases grp.len() - k,
            {
                assert(v.cells_ok());
                assert(grp@[k as int] < v.pools@.len());
                per.push(self.view.free_in_pool(grp[k], used).len());
                k = k + 1;
            }
            assert(nats(per@) =~= pool_frees(v, used@, g as int));
            let total = sum_sat_exec(&per);
            let with_any = count_at_least_exec(&per, 1);
            let mut line: Vec<char> = Vec::new();
            push_lit(&mut line, "  Cell '");
            assert(v.cells@[g as int]@.len() > 0);
            let cname = chars_of(self.view.pools[grp[0]].cell.as_str());
            assert(v.cells_ok());
            extend_chars(&mut line, cname.as_slice());
            push_lit(&mut line, "': ");
            push_num(&mut line, total);
            push_lit(&mut line, " free nodes across ");
            push_num(&mut line, with_any);
            push_lit(&mut line, " L1s (per-L1 free: [");
            let nz = nonzero_text(&per);
            extend_chars(&mut line, nz.as_slice());
            push_lit(&mut line, "]).");
            let ghost prev = crate::text::views(lines@);
            let ghost cl = cell_lines(v, used@, g as int, class);
            lines.push(string_of(line.as_slice()));
            match class {
                PlacementClass::IntraGroupSameL1(bs) | PlacementClass::InterGroupSameL1(bs) => {
                    let with_slot = count_at_least_exec(&per, bs);
                    let sl = slots_exec(&per, bs);
                    let slots = sum_sat_exec(&sl);
                    let mut l2: Vec<char> = Vec::new();
                    push_lit(&mut l2, "    Block-size ");
                    push_num(&mut l2, bs);
                    push_lit(&mut l2, ": ");
                    push_num(&mut l2, with_slot);
                    push_lit(&mut l2, " L1s with ≥1 slot, ");
                    push_num(&mut l2, slots);
                    push_lit(&mut l2, " total slots available.");
                    lines.push(string_of(l2.as_slice()));
                    assert(crate::text::views(lines@) =~= prev + cl);
                },
                _ => {
                    assert(crate::text::views(lines@) =~= prev + cl);
                },
            }
            assert(all_cell_lines(v, used@, class, g + 1) == all_cell_lines(v, used@, class, g as int) + cl);
            cell_totals.push(total);
            g = g + 1;
        }
        let mut p: usize = 0;
        while p < self.view.pools.len()
            invariant
                v == self.view,
                p <= v.pools@.len(),
                all_frees@.len() == p,
                forall|j: int| 0 <= j < p ==> #[trigger] all_frees@[j] == free_count(v, used@, j),
            decreases self.view.pools.len() - p,
        {
            all_frees.push(self.view.free_in_pool(p, used).len());
            p = p + 1;
        }
        assert(nats(all_frees@) =~= all_pool_frees(v, used@));
        assert(nats(cell_totals@) =~= all_cell_frees(v, used@));
        let n = req.nodes;
        let mut last: Vec<char> = Vec::new();
        match class {
            PlacementClass::IntraL1 => {
                push_lit(&mut last, "IntraL1 needs ");
                push_num(&mut last, n);
                push_lit(&mut last, " nodes under one L1; largest free L1 has ");
                push_num(&mut last, max_exec(&all_frees));
                push_lit(&mut last, ".");
            },
            PlacementClass::IntraGroup => {
                push_lit(&mut last, "IntraGroup needs ");
                push_num(&mut last, n);
                push_lit(&mut last, " nodes within one cell spanning ≥2 L1s; largest cell has ");
                push_num(&mut last, max_exec(&cell_totals));
                push_lit(&mut last, " free nodes.");
            },
            PlacementClass::InterGroup => {
                push_lit(&mut last, "InterGroup needs ");
                push_num(&mut last, n);
                push_lit(&mut last, " nodes spanning ≥2 cells; ");
                push_num(&mut last, count_at_least_exec(&cell_totals, 1));
                push_lit(&mut last, " cells have free nodes.");
            },
            PlacementClass::IntraGroupSameL1(bs) => {
                push_lit(&mut last, "IntraGroupSameL1(");
                push_num(&mut last, bs);
                push_lit(&mut last, ") needs ");
                push_num(&mut last, n);
                push_lit(&mut last, " nodes (");
                push_num(&mut last, n / bs);
                push_lit(&mut last, " blocks of ");
                push_num(&mut last, bs);
                push_lit(&mut last, ") within one cell across ≥2 L1s.");
            },
            PlacementClass::InterGroupSameL1(bs) => {
                push_lit(&mut last, "InterGroupSameL1(");
                push_num(&mut last, bs);
                push_lit(&mut last, ") needs ");
                push_num(&mut last, n);
                push_lit(&mut last, " nodes (");
                push_num(&mut last, n / bs);
                push_lit(&mut last, " blocks of ");
                push_num(&mut last, bs);
                push_lit(&mut last, ") spanning ≥2 cells.");
            },
        }
        assert(last@ =~= class_line(v, used@, class, n));
        let ghost before = crate::text::views(lines@);
        lines.push(string_of(last.as_slice()));
        assert(crate::text::views(lines@) =~= before.push(class_line(v, used@, class, n)));
        assert(crate::text::views(lines@) =~= seq!["Cluster-wide free nodes: "@ + dec_digits(free_compute(es, used@)) + "."@]
            + all_cell_lines(v, used@, class, v.cells@.len() as int) + seq![class_line(v, used@, class, n)]);
        crate::order::join_strings(&lines, " ")
    }
}


/// Jobs with tighter constraints are placed first.
pub open spec fn class_rank(c: PlacementClass) -> nat {
    match c {
        PlacementClass::IntraL1 => 0,
        PlacementClass::IntraGroupSameL1(_) => 1,
        PlacementClass::InterGroupSameL1(_) => 2,
        PlacementClass::IntraGroup => 3,
        PlacementClass::InterGroup => 4,
    }
}

/// Jobs are placed tightest class first: an IntraL1 job before any other,
/// then IntraGroupSameL1, InterGroupSameL1, IntraGroup and InterGroup jobs
/// in that order; within one class, the job asking for more nodes first.
pub proof fn lemma_tightest_first(jobs: Seq<(String, JobRequest)>, a: int, b: int)
    requires
        0 <= a < jobs.len(),
        0 <= b < jobs.len(),
        a != b,
    ensures
        jobs[a].1.placement_class is IntraL1 && !(jobs[b].1.placement_class is IntraL1) ==> job_before(jobs, a, b)
            && !job_before(jobs, b, a),
        jobs[a].1.placement_class is IntraGroupSameL1 && (jobs[b].1.placement_class is InterGroupSameL1
            || jobs[b].1.placement_class is IntraGroup || jobs[b].1.placement_class is InterGroup) ==> job_before(jobs, a, b)
            && !job_before(jobs, b, a),
        jobs[a].1.placement_class is InterGroupSameL1 && (jobs[b].1.placement_class is IntraGroup
            || jobs[b].1.placement_class is InterGroup) ==> job_before(jobs, a, b) && !job_before(jobs, b, a),
        jobs[a].1.placement_class is IntraGroup && jobs[b].1.placement_class is InterGroup ==> job_before(jobs, a, b)
            && !job_before(jobs, b, a),
        jobs[a].1.placement_class == jobs[b].1.placement_class && jobs[a].1.nodes > jobs[b].1.nodes ==> job_before(
            jobs,
            a,
            b,
        ) && !job_before(jobs, b, a),
{
}

fn rank_of(c: PlacementClass) -> (r: usize)
    ensures
        r == class_rank(c),
{
    match c {
        PlacementClass::IntraL1 => 0,
        PlacementClass::IntraGroupSameL1(_) => 1,
        PlacementClass::InterGroupSameL1(_) => 2,
        PlacementClass::IntraGroup => 3,
        PlacementClass::InterGroup => 4,
    }
}

/// Job `a` is placed before job `b`: tighter class first, then more nodes,
/// then the order of the list (the order of job names).
pub open spec fn job_before(jobs: Seq<(String, JobRequest)>, a: int, b: int) -> bool {
    let ra = class_rank(jobs[a].1.placement_class);
    let rb = class_rank(jobs[b].1.placement_class);
    ||| ra < rb
    ||| (ra == rb && jobs[a].1.nodes > jobs[b].1.nodes)
    ||| (ra == rb && jobs[a].1.nodes == jobs[b].1.nodes && a < b)
}

/// The order in which jobs are placed.
fn order_jobs(jobs: &Vec<(String, JobRequest)>) -> (r: Vec<usize>)
    ensures
        is_perm(r@, jobs@.len()),
        forall|x: usize| x < jobs@.len() ==> r@.contains(x),
        forall|a: int, b: int| 0 <= a < b < r@.len() ==> job_before(jobs@, #[trigger] r@[a] as int, #[trigger] r@[b] as int),
{
    let mut r: Vec<usize> = Vec::new();
    let mut i: usize = 0;
    while i < jobs.len()
        invariant
            i <= jobs@.len(),
            r@.len() == i,
            forall|a: int| 0 <= a < r@.len() ==> #[trigger] r@[a] < i,
            forall|a: int, b: int| 0 <= a < b < r@.len() ==> #[trigger] r@[a] != #[trigger] r@[b],
            forall|x: usize| x < i ==> r@.contains(x),
            forall|a: int, b: int| 0 <= a < b < r@.len() ==> job_before(jobs@, #[trigger] r@[a] as int, #[trigger] r@[b] as int),
        decreases jobs.len() - i,
    {
        let ri = rank_of(jobs[i].1.placement_class);
        let ni = jobs[i].1.nodes;
        let mut q: usize = 0;
        while q < r.len() && !(ri < rank_of(jobs[r[q]].1.placement_class) || (ri == rank_of(jobs[r[q]].1.placement_class)
            && ni > jobs[r[q]].1.nodes))
            invariant
                q <= r@.len(),
                i < jobs@.len(),
                ri == class_rank(jobs@[i as int].1.placement_class),
                ni == jobs@[i as int].1.nodes,
                forall|a: int| 0 <= a < r@.len() ==> #[trigger] r@[a] < i,
                forall|a: int| 0 <= a < q ==> job_before(jobs@, #[trigger] r@[a] as int, i as int),
            decreases r.len() - q,
        {
            q = q + 1;
        }
        let ghost old_r = r@;
        r.insert(q, i);
        proof {
            assert(r@ =~= old_r.insert(q as int, i));
            assert forall|a: int, b: int| 0 <= a < b < r@.len() implies #[trigger] r@[a] != #[trigger] r@[b] by {
                if a < q && b > q {
                    assert(r@[a] == old_r[a] && r@[b] == old_r[b - 1]);
                } else if b < q {
                    assert(r@[a] == old_r[a] && r@[b] == old_r[b]);
                } else if a > q {
                    assert(r@[a] == old_r[a - 1] && r@[b] == old_r[b - 1]);
                }
            }
            assert forall|x: usize| x < i + 1 implies r@.contains(x) by {
                if x < i {
                    assert(old_r.contains(x));
                    let k = choose|k: int| 0 <= k < old_r.len() && old_r[k] == x;
                    if k < q {
                        assert(r@[k] == x);
                    } else {
                        assert(r@[k + 1] == x);
                    }
                } else {
                    assert(r@[q as int] == x);
                }
            }
            assert forall|a: int, b: int|
                0 <= a < b < r@.len() implies job_before(jobs@, #[trigger] r@[a] as int, #[trigger] r@[b] as int) by {
                if a < q && b == q {
                    assert(r@[a] == old_r[a]);
                } else if a == q && b > q {
                    assert(r@[b] == old_r[b - 1]);
                    assert(job_before(jobs@, i as int, old_r[q as int] as int));
                    if b - 1 > q {
                        assert(job_before(jobs@, old_r[q as int] as int, old_r[b - 1] as int));
                    }
                } else if a < q && b > q {
                    assert(r@[a] == old_r[a] && r@[b] == old_r[b - 1]);
                } else if b < q {
                    assert(r@[a] == old_r[a] && r@[b] == old_r[b]);
                } else {
                    assert(r@[a] == old_r[a - 1] && r@[b] == old_r[b - 1]);
                }
            }
        }
        i = i + 1;
    }
    r
}


/// `names` are the names of the nodes `picks` of the view.
pub open spec fn names_of(v: TopoView, picks: Seq<NodeRef>, names: Seq<String>) -> bool {
    &&& names.len() == picks.len()
    &&& forall|k: int| 0 <= k < names.len() ==> v.valid(#[trigger] picks[k]) && names[k]@ == v.node(picks[k])
}

/// `jp` places `req`: as many distinct compute nodes of the view as asked,
/// meeting a class that the strategy allows, with both classes named.
pub open spec fn placement_ok(v: TopoView, req: JobRequest, strategy: PlacementStrategy, jp: JobPlacement) -> bool {
    exists|picks: Seq<NodeRef>, ach: PlacementClass|
        #![trigger names_of(v, picks, jp.nodes@), meets(v, ach, picks)]
        names_of(v, picks, jp.nodes@) && picks.len() == req.nodes && meets(v, ach, picks)
            && may_achieve(req.placement_class, strategy, ach) && jp.placement_class@ == class_label(req.placement_class)
            && jp.achieved_class@ == achieved_label(req.placement_class, ach)
}

/// Under the strict strategy a job is placed under the class it asked for:
/// the class reported as achieved is the class requested.
pub proof fn lemma_strict_achieves_request(v: TopoView, req: JobRequest, jp: JobPlacement)
    requires
        placement_ok(v, req, PlacementStrategy::Strict, jp),
    ensures
        jp.achieved_class@ == jp.placement_class@,
{
    let (picks, ach) = choose|picks: Seq<NodeRef>, ach: PlacementClass|
        #![trigger names_of(v, picks, jp.nodes@), meets(v, ach, picks)]
        names_of(v, picks, jp.nodes@) && picks.len() == req.nodes && meets(v, ach, picks)
            && may_achieve(req.placement_class, PlacementStrategy::Strict, ach) && jp.placement_class@ == class_label(req.placement_class)
            && jp.achieved_class@ == achieved_label(req.placement_class, ach);
    assert(ach == req.placement_class);
}

/// Name `x` is the name of a node given to some job.
pub open spec fn assigned(v: TopoView, done: Seq<Option<JobPlacement>>, gp: Seq<Seq<NodeRef>>, x: Seq<char>) -> bool {
    exists|j: int, k: int|
        0 <= j < done.len() && done[j] is Some && 0 <= k < gp[j].len() && #[trigger] v.node(gp[j][k]) == x
}

/// `gp` gives every job but `i` either no nodes or nodes it could be
/// placed on under `strategy`, and no node to two jobs: what the jobs placed
/// before job `i` may have taken.
pub open spec fn earlier_ok(v: TopoView, jobs: Seq<(String, JobRequest)>, strategy: PlacementStrategy, i: int, gp: Seq<Seq<NodeRef>>) -> bool {
    &&& gp.len() == jobs.len()
    &&& gp[i].len() == 0
    &&& forall|q: int|
        0 <= q < jobs.len() && gp[q].len() > 0 ==> exists|jp: JobPlacement|
            #[trigger] placement_ok(v, jobs[q].1, strategy, jp) && names_of(v, gp[q], jp.nodes@)
    &&& forall|j1: int, k1: int, j2: int, k2: int|
        0 <= j1 < gp.len() && 0 <= j2 < gp.len() && 0 <= k1 < gp[j1].len() && 0 <= k2 < gp[j2].len() && (j1 != j2 || k1
            != k2) ==> v.node(#[trigger] gp[j1][k1]) != v.node(#[trigger] gp[j2][k2])
}

/// The names of the nodes that `gp` gives out.
pub open spec fn used_by(v: TopoView, gp: Seq<Seq<NodeRef>>) -> Map<Seq<char>, ()> {
    Map::new(
        |x: Seq<char>| exists|q: int, k: int| 0 <= q < gp.len() && 0 <= k < gp[q].len() && #[trigger] v.node(gp[q][k]) == x,
        |x: Seq<char>| (),
    )
}

/// No node is given twice, to one job or to two.
pub open spec fn nodes_distinct(ps: Seq<(String, JobPlacement)>) -> bool {
    forall|a: int, i: int, b: int, j: int|
        0 <= a < ps.len() && 0 <= i < ps[a].1.nodes@.len() && 0 <= b < ps.len() && 0 <= j < ps[b].1.nodes@.len() && (a
            != b || i != j) ==> #[trigger] ps[a].1.nodes@[i]@ != #[trigger] ps[b].1.nodes@[j]@
}

/// The reason given when job `name` cannot be placed.
pub open spec fn infeasible_reason(
    name: Seq<char>,
    req: JobRequest,
    strategy: PlacementStrategy,
    report: Seq<char>,
) -> Seq<char> {
    "cannot place job '"@ + name + "': need "@ + dec_digits(req.nodes as nat) + " nodes with class "@ + class_label(
        req.placement_class,
    ) + " (strategy="@ + strategy_label(strategy) + "). "@ + report
}

/// What placing `jobs` under `strategy` promises: either every job placed
/// as asked (in order of the job list, no node given twice), or the reason
/// why some job could not be.
pub open spec fn result_ok(
    r: PlacementResult,
    jobs: Seq<(String, JobRequest)>,
    strategy: PlacementStrategy,
    v: TopoView,
) -> bool {
    match r {
        PlacementResult::Placed { placements } => {
            &&& placements@.len() == jobs.len()
            &&& forall|i: int| 0 <= i < jobs.len() ==> #[trigger] placements@[i].0@ == jobs[i].0@ && placement_ok(
                v,
                jobs[i].1,
                strategy,
                placements@[i].1,
            )
            &&& nodes_distinct(placements@)
        },
        PlacementResult::Infeasible { reason } => exists|i: int, report: Seq<char>|
            0 <= i < jobs.len() && reason@ == #[trigger] infeasible_reason(jobs[i].0@, jobs[i].1, strategy, report)
                && exists|gp: Seq<Seq<NodeRef>>|
                #[trigger] earlier_ok(v, jobs, strategy, i, gp) && !placeable(v, used_by(v, gp), jobs[i].1, strategy),
    }
}

/// Job names in increasing order, each used once (the keys of a map).
pub open spec fn names_sorted(jobs: Seq<(String, JobRequest)>) -> bool {
    forall|a: int, b: int| 0 <= a < b < jobs.len() ==> seq_lt(#[trigger] jobs[a].0@, #[trigger] jobs[b].0@)
}

/// What a job must be for the placer to take it: at least one node, and a
/// block size of at least one.
pub open spec fn job_valid(req: JobRequest) -> bool {
    req.nodes >= 1 && (block_size_of(req.placement_class) matches Some(b) ==> b >= 1)
}

/// Whether the placer takes the request: at least one node, and a block
/// size of at least one.
pub fn job_valid_request(req: &JobRequest) -> (b: bool)
    ensures
        b == job_valid(*req),
{
    req.nodes >= 1 && match req.placement_class {
        PlacementClass::IntraGroupSameL1(b) => b >= 1,
        PlacementClass::InterGroupSameL1(b) => b >= 1,
        _ => true,
    }
}

impl Placer {
    /// Place all jobs (tightest class first, then larger jobs) under
    /// `strategy`, or report the first job that cannot be placed.
    #[verifier::spinoff_prover]
    pub fn place_with_strategy(
        &mut self,
        jobs: &Vec<(String, JobRequest)>,
        strategy: PlacementStrategy,
    ) -> (r: PlacementResult)
        requires
            old(self).inv(),
            forall|i: int| 0 <= i < jobs@.len() ==> job_valid(#[trigger] jobs@[i].1),
        ensures
            final(self).inv(),
            final(self).topo() == old(self).topo(),
            final(self).topology() == old(self).topology(),
            result_ok(r, jobs@, strategy, old(self).topo()),
    {
        let ghost v = self.view;
        let order = order_jobs(jobs);
        let mut used: NameSet = StringHashMap::new();
        let mut done: Vec<Option<JobPlacement>> = Vec::new();
        let ghost mut gp: Seq<Seq<NodeRef>> = Seq::empty();
        let mut z: usize = 0;
        while z < jobs.len()
            invariant
                z <= jobs@.len(),
                done@.len() == z,
                gp.len() == z,
                forall|j: int| 0 <= j < z ==> #[trigger] done@[j] is None,
                forall|j: int| 0 <= j < z ==> #[trigger] gp[j].len() == 0,
            decreases jobs.len() - z,
        {
            done.push(None);
            proof {
                gp = gp.push(Seq::empty());
            }
            z = z + 1;
        }
        let mut t: usize = 0;
        while t < order.len()
            invariant
                v == self.view,
                v.wf(),
                view_sound(v, self.ir@),
                self.view == old(self).view,
                self.ir == old(self).ir,
                is_perm(order@, jobs@.len()),
                forall|x: usize| x < jobs@.len() ==> order@.contains(x),
                forall|i: int| 0 <= i < jobs@.len() ==> job_valid(#[trigger] jobs@[i].1),
                t <= order@.len(),
                done@.len() == jobs@.len(),
                gp.len() == jobs@.len(),
                forall|j: int| 0 <= j < jobs@.len() ==> (#[trigger] done@[j] is Some <==> exists|s: int| 0 <= s < t && order@[s] == j),
                forall|j: int|
                    0 <= j < jobs@.len() && #[trigger] done@[j] is Some ==> placement_ok(v, jobs@[j].1, strategy, done@[j]->Some_0)
                        && names_of(v, gp[j], done@[j]->Some_0.nodes@),
                forall|j1: int, k1: int, j2: int, k2: int|
                    0 <= j1 < jobs@.len() && 0 <= j2 < jobs@.len() && done@[j1] is Some && done@[j2] is Some && 0 <= k1 < gp[j1].len()
                        && 0 <= k2 < gp[j2].len() && (j1 != j2 || k1 != k2) ==> v.node(#[trigger] gp[j1][k1]) != v.node(
                        #[trigger] gp[j2][k2],
                    ),
                forall|x: Seq<char>| used@.contains_key(x) <==> assigned(v, done@, gp, x),
                forall|j: int| 0 <= j < jobs@.len() && #[trigger] done@[j] is None ==> gp[j].len() == 0,
            decreases order.len() - t,
        {
            let j = order[t];
            let req = &jobs[j].1;
            assert(job_valid(jobs@[j as int].1));
            match self.place_one_with_strategy(req, &used, strategy) {
                Some((picks, ach)) => {
                    let mut names: Vec<String> = Vec::new();
                    let ghost used0 = used@;
                    let mut k: usize = 0;
                    while k < picks.len()
                        invariant
                            v == self.view,
                            v.wf(),
                            k <= picks@.len(),
                            fresh(v, used0, picks@),
                            names@.len() == k,
                            forall|q: int| 0 <= q < k ==> v.valid(#[trigger] picks@[q]) && names@[q]@ == v.node(picks@[q]),
                            forall|x: Seq<char>|
                                used@.contains_key(x) <==> used0.contains_key(x) || exists|q: int| 0 <= q < k && v.node(#[trigger] picks@[q]) == x,
                        decreases picks.len() - k,
                    {
                        let r = picks[k];
                        assert(fresh_ref(v, used0, picks@[k as int]));
                        let name = self.view.pools[r.0].nodes[r.1].0.clone();
                        used.insert(name.clone(), ());
                        names.push(name);
                        k = k + 1;
                    }
                    let jp = JobPlacement {
                        nodes: names,
                        placement_class: class_text(req.placement_class),
                        achieved_class: achieved_text(req.placement_class, ach),
                    };
                    let ghost old_done = done@;
                    let ghost old_gp = gp;
                    proof {
                        assert(names_of(v, picks@, jp.nodes@));
                        assert(placement_ok(v, jobs@[j as int].1, strategy, jp));
                        assert(old_done[j as int] is None) by {
                            if old_done[j as int] is Some {
                                let s = choose|s: int| 0 <= s < t && order@[s] == j;
                                assert(order@[s] != order@[t as int]);
                            }
                        }
                        gp = gp.update(j as int, picks@);
                    }
                    done.set(j, Some(jp));
                    proof {
                        assert forall|q: int| 0 <= q < jobs@.len() implies (#[trigger] done@[q] is Some <==> exists|s: int| 0 <= s < t + 1 && order@[s] == q) by {
                            if q == j {
                                assert(order@[t as int] == q);
                            } else {
                                assert(done@[q] == old_done[q]);
                                if exists|s: int| 0 <= s < t + 1 && order@[s] == q {
                                    let s = choose|s: int| 0 <= s < t + 1 && order@[s] == q;
                                    assert(s != t);
                                }
                            }
                        }
                        assert forall|q: int|
                            0 <= q < jobs@.len() && #[trigger] done@[q] is Some implies placement_ok(v, jobs@[q].1, strategy, done@[q]->Some_0)
                                && names_of(v, gp[q], done@[q]->Some_0.nodes@) by {
                            if q != j {
                                assert(done@[q] == old_done[q]);
                                assert(gp[q] == old_gp[q]);
                            }
                        }
                        assert forall|j1: int, k1: int, j2: int, k2: int|
                            0 <= j1 < jobs@.len() && 0 <= j2 < jobs@.len() && done@[j1] is Some && done@[j2] is Some && 0 <= k1 < gp[j1].len()
                                && 0 <= k2 < gp[j2].len() && (j1 != j2 || k1 != k2) implies v.node(#[trigger] gp[j1][k1]) != v.node(
                                #[trigger] gp[j2][k2],
                            ) by {
                            if j1 == j && j2 == j {
                                assert(gp[j1] == picks@);
                                assert(picks@[k1] != picks@[k2]);
                                assert(v.valid(picks@[k1]) && v.valid(picks@[k2]));
                            } else if j1 == j {
                                assert(done@[j2] == old_done[j2] && gp[j2] == old_gp[j2]);
                                assert(used0.contains_key(v.node(gp[j2][k2])));
                                assert(fresh_ref(v, used0, picks@[k1]));
                            } else if j2 == j {
                                assert(done@[j1] == old_done[j1] && gp[j1] == old_gp[j1]);
                                assert(used0.contains_key(v.node(gp[j1][k1])));
                                assert(fresh_ref(v, used0, picks@[k2]));
                            } else {
                                assert(done@[j1] == old_done[j1] && gp[j1] == old_gp[j1]);
                                assert(done@[j2] == old_done[j2] && gp[j2] == old_gp[j2]);
                            }
                        }
                        assert forall|x: Seq<char>| used@.contains_key(x) <==> assigned(v, done@, gp, x) by {
                            if used0.contains_key(x) {
                                assert(assigned(v, old_done, old_gp, x));
                                let (jj, kk) = choose|jj: int, kk: int|
                                    0 <= jj < old_done.len() && old_done[jj] is Some && 0 <= kk < old_gp[jj].len() && #[trigger] v.node(old_gp[jj][kk]) == x;
                                assert(jj != j);
                                assert(done@[jj] == old_done[jj] && gp[jj] == old_gp[jj]);
                                assert(v.node(gp[jj][kk]) == x);
                            }
                            if exists|q: int| 0 <= q < picks@.len() && v.node(#[trigger] picks@[q]) == x {
                                let q = choose|q: int| 0 <= q < picks@.len() && v.node(#[trigger] picks@[q]) == x;
                                assert(gp[j as int][q] == picks@[q]);
                                assert(v.node(gp[j as int][q]) == x);
                            }
                            if assigned(v, done@, gp, x) {
                                let (jj, kk) = choose|jj: int, kk: int|
                                    0 <= jj < done@.len() && done@[jj] is Some && 0 <= kk < gp[jj].len() && #[trigger] v.node(gp[jj][kk]) == x;
                                if jj != j {
                                    assert(done@[jj] == old_done[jj] && gp[jj] == old_gp[jj]);
                                    assert(old_done[jj] is Some);
                                } else {
                                    assert(v.node(picks@[kk]) == x);
                                }
                            }
                        }
                    }
                },
                None => {
                    let report = self.failure_debug(req, &used);
                    let mut reason: Vec<char> = Vec::new();
                    push_lit(&mut reason, "cannot place job '");
                    let jn = chars_of(jobs[j].0.as_str());
                    extend_chars(&mut reason, jn.as_slice());
                    push_lit(&mut reason, "': need ");
                    push_num(&mut reason, req.nodes);
                    push_lit(&mut reason, " nodes with class ");
                    push_class(&mut reason, req.placement_class);
                    push_lit(&mut reason, " (strategy=");
                    let st = strategy_text(strategy);
                    let stc = chars_of(st.as_str());
                    extend_chars(&mut reason, stc.as_slice());
                    push_lit(&mut reason, "). ");
                    let rc = chars_of(report.as_str());
                    extend_chars(&mut reason, rc.as_slice());
                    assert(reason@ =~= infeasible_reason(jobs@[j as int].0@, jobs@[j as int].1, strategy, report@));
                    proof {
                        assert(done@[j as int] is None) by {
                            if done@[j as int] is Some {
                                let s = choose|s: int| 0 <= s < t && order@[s] == j;
                                assert(order@[s] != order@[t as int]);
                            }
                        }
                        assert forall|q: int| 0 <= q < jobs@.len() && gp[q].len() > 0 implies exists|jp: JobPlacement|
                            #[trigger] placement_ok(v, jobs@[q].1, strategy, jp) && names_of(v, gp[q], jp.nodes@) by {
                            assert(done@[q] is Some);
                            let jp = done@[q]->Some_0;
                            assert(placement_ok(v, jobs@[q].1, strategy, jp));
                        }
                        assert forall|j1: int, k1: int, j2: int, k2: int|
                            0 <= j1 < gp.len() && 0 <= j2 < gp.len() && 0 <= k1 < gp[j1].len() && 0 <= k2 < gp[j2].len() && (j1 != j2
                                || k1 != k2) implies v.node(#[trigger] gp[j1][k1]) != v.node(#[trigger] gp[j2][k2]) by {
                            assert(done@[j1] is Some && done@[j2] is Some);
                        }
                        assert(earlier_ok(v, jobs@, strategy, j as int, gp));
                        assert forall|x: Seq<char>| #[trigger] used@.contains_key(x) == used_by(v, gp).contains_key(x) by {
                            if used_by(v, gp).contains_key(x) {
                                let (q, k) = choose|q: int, k: int| 0 <= q < gp.len() && 0 <= k < gp[q].len() && #[trigger] v.node(gp[q][k]) == x;
                                assert(done@[q] is Some);
                                assert(assigned(v, done@, gp, x));
                            }
                            if used@.contains_key(x) {
                                assert(assigned(v, done@, gp, x));
                                let (q, k) = choose|q: int, k: int|
                                    0 <= q < done@.len() && done@[q] is Some && 0 <= k < gp[q].len() && #[trigger] v.node(gp[q][k]) == x;
                                assert(v.node(gp[q][k]) == x);
                            }
                        }
                        assert(used@ =~= used_by(v, gp));
                        assert(!placeable(v, used_by(v, gp), jobs@[j as int].1, strategy));
                    }
                    let res = PlacementResult::Infeasible { reason: string_of(reason.as_slice()) };
                    assert(result_ok(res, jobs@, strategy, v));
                    return res;
                },
            }
            t = t + 1;
        }
        // Every job has been placed; collect them in order of name.
        proof {
            assert forall|j: int| 0 <= j < jobs@.len() implies #[trigger] done@[j] is Some by {
                assert(order@.contains(j as usize));
                let s = choose|s: int| 0 <= s < order@.len() && order@[s] == j as usize;
                assert(order@[s] == j);
            }
            assert forall|j1: int, k1: int, j2: int, k2: int|
                0 <= j1 < jobs@.len() && 0 <= j2 < jobs@.len() && 0 <= k1 < gp[j1].len()
                    && 0 <= k2 < gp[j2].len() && (j1 != j2 || k1 != k2) implies v.node(#[trigger] gp[j1][k1]) != v.node(
                    #[trigger] gp[j2][k2],
                ) by {
                assert(done@[j1] is Some && done@[j2] is Some);
            }
        }
        let mut placements: Vec<(String, JobPlacement)> = Vec::new();
        let mut i: usize = 0;
        while i < jobs.len()
            invariant
                i <= jobs@.len(),
                done@.len() == jobs@.len(),
                placements@.len() == i,
                gp.len() == jobs@.len(),
                forall|j: int|
                    i <= j < jobs@.len() ==> #[trigger] done@[j] is Some && placement_ok(v, jobs@[j].1, strategy, done@[j]->Some_0)
                        && names_of(v, gp[j], done@[j]->Some_0.nodes@),
                forall|j: int|
                    0 <= j < i ==> #[trigger] placements@[j].0@ == jobs@[j].0@ && placement_ok(v, jobs@[j].1, strategy, placements@[j].1)
                        && names_of(v, gp[j], placements@[j].1.nodes@),
                forall|j1: int, k1: int, j2: int, k2: int|
                    0 <= j1 < jobs@.len() && 0 <= j2 < jobs@.len() && 0 <= k1 < gp[j1].len()
                        && 0 <= k2 < gp[j2].len() && (j1 != j2 || k1 != k2) ==> v.node(#[trigger] gp[j1][k1]) != v.node(
                        #[trigger] gp[j2][k2],
                    ),
            decreases jobs.len() - i,
        {
            let ghost before = done@;
            let taken = done.remove(i);
            done.insert(i, None);
            assert(taken == before[i as int]);
            assert(before[i as int] is Some);
            let ghost pl0 = placements@;
            match taken {
                Some(jp) => {
                    let nm = jobs[i].0.clone();
                    assert(nm@ == jobs@[i as int].0@);
                    placements.push((nm, jp));
                    assert(placements@[i as int].1 == before[i as int]->Some_0);
                },
                None => {},
            }
            proof {
                assert forall|j: int| i + 1 <= j < jobs@.len() implies #[trigger] done@[j] == before[j] by {}
                assert forall|j: int| 0 <= j < i + 1 implies #[trigger] placements@[j].0@ == jobs@[j].0@ && placement_ok(v, jobs@[j].1, strategy, placements@[j].1)
                    && names_of(v, gp[j], placements@[j].1.nodes@) by {
                    if j < i {
                        assert(placements@[j] == pl0[j]);
                    }
                }
            }
            i = i + 1;
        }
        proof {
            assert forall|j: int| 0 <= j < jobs@.len() implies #[trigger] placements@[j].0@ == jobs@[j].0@ && placement_ok(
                v,
                jobs@[j].1,
                strategy,
                placements@[j].1,
            ) by {}
            assert forall|a: int, x: int, b: int, y: int|
                0 <= a < placements@.len() && 0 <= x < placements@[a].1.nodes@.len() && 0 <= b < placements@.len() && 0 <= y
                    < placements@[b].1.nodes@.len() && (a != b || x != y) implies #[trigger] placements@[a].1.nodes@[x]@
                    != #[trigger] placements@[b].1.nodes@[y]@ by {
                assert(placements@[a].0@ == jobs@[a].0@);
                assert(placements@[b].0@ == jobs@[b].0@);
                assert(names_of(v, gp[a], placements@[a].1.nodes@));
                assert(names_of(v, gp[b], placements@[b].1.nodes@));
                assert(placements@[a].1.nodes@[x]@ == v.node(gp[a][x]));
                assert(placements@[b].1.nodes@[y]@ == v.node(gp[b][y]));
            }
        }
        let res = PlacementResult::Placed { placements };
        assert(result_ok(res, jobs@, strategy, v));
        res
    }
}


impl Placer {
    /// A placer for `ir`: the topology is normalized (every node under one
    /// switch), arranged into pools, and the generator seeded with `seed`.
    pub fn new(ir: &TopologyIR, seed: u64) -> (p: Self)
        ensures
            p.inv(),
            p.seed() == seed,
            forall|x: Seq<char>| #[trigger] crate::normalize::occ(p.topology().contains, x) == if crate::normalize::occ(
                ir@.contains,
                x,
            ) > 0 {
                1nat
            } else {
                0nat
            },
            p.topology().links == ir@.links,
            crate::normalize::keeps_single_parents(ir@.contains, p.topology().contains),
            forall|j: int|
                0 <= j < p.topology().entities.len() ==> crate::normalize::from_or_synthetic(
                    ir@.entities,
                    #[trigger] p.topology().entities[j],
                ),
            crate::normalize::under_synthetic(ir@.contains, p.topology().contains),
            crate::normalize::entities_normalized(ir@.contains, ir@.entities, p.topology().entities),
            view_sound(p.topo(), p.topology()),
            crate::view::view_complete(p.topo(), p.topology()),
    {
        let normalized = crate::normalize::normalize_multiparent_topology(ir);
        let view = TopoView::build(&normalized);
        Placer { ir: normalized, view, rng: seeded_rng(seed), seed: Ghost(seed) }
    }

    /// Reseed the generator.
    pub fn change_seed(&mut self, new_seed: u64)
        requires
            old(self).inv(),
        ensures
            final(self).inv(),
            final(self).topo() == old(self).topo(),
            final(self).topology() == old(self).topology(),
            final(self).seed() == new_seed,
    {
        self.rng = seeded_rng(new_seed);
        self.seed = Ghost(new_seed);
    }

    /// Place all jobs under the strict strategy.
    pub fn place(&mut self, jobs: &Vec<(String, JobRequest)>) -> (r: PlacementResult)
        requires
            old(self).inv(),
            forall|i: int| 0 <= i < jobs@.len() ==> job_valid(#[trigger] jobs@[i].1),
        ensures
            final(self).inv(),
            final(self).topo() == old(self).topo(),
            final(self).topology() == old(self).topology(),
            result_ok(r, jobs@, PlacementStrategy::Strict, old(self).topo()),
    {
        self.place_with_strategy(jobs, PlacementStrategy::Strict)
    }
}

/// Node `x` is allocated to some job.
pub open spec fn allocated(allocs: Seq<(String, Vec<String>)>, x: Seq<char>) -> bool {
    exists|j: int, k: int| 0 <= j < allocs.len() && 0 <= k < allocs[j].1@.len() && #[trigger] allocs[j].1@[k]@ == x
}

/// What survives when a topology is cut down to its allocations: the
/// allocated nodes, the L1 switches above them and all L2 switches.
pub open spec fn allocation_keep(ir: crate::ir::IRView, allocs: Seq<(String, Vec<String>)>, x: Seq<char>) -> bool {
    ||| allocated(allocs, x)
    ||| (l1_switch(ir, x) && exists|k: int| 0 <= k < ir.children(x).len() && allocated(allocs, #[trigger] ir.children(x)[k]))
    ||| (ir.entity(x) matches Some(e) && e.1 == EntityKind::Switch { level: Some(1) })
}

/// Whether node `x` is allocated.
fn is_allocated(allocs: &Vec<(String, Vec<String>)>, x: &Id) -> (b: bool)
    ensures
        b == allocated(allocs@, x@),
{
    let mut j: usize = 0;
    while j < allocs.len()
        invariant
            j <= allocs@.len(),
            forall|a: int, k: int| 0 <= a < j && 0 <= k < allocs@[a].1@.len() ==> #[trigger] allocs@[a].1@[k]@ != x@,
        decreases allocs.len() - j,
    {
        let mut k: usize = 0;
        while k < allocs[j].1.len()
            invariant
                j < allocs@.len(),
                k <= allocs@[j as int].1@.len(),
                forall|q: int| 0 <= q < k ==> #[trigger] allocs@[j as int].1@[q]@ != x@,
            decreases allocs@[j as int].1@.len() - k,
        {
            if allocs[j].1[k] == x.0 {
                return true;
            }
            k = k + 1;
        }
        j = j + 1;
    }
    false
}

/// The topology cut down to the allocated nodes, the L1 switches above them
/// and all L2 switches.
pub fn filter_ir_by_allocations(ir: &TopologyIR, allocations: &Vec<(String, Vec<String>)>) -> (r: TopologyIR)
    ensures
        r@ == ir@.restrict(|x: Seq<char>| allocation_keep(ir@, allocations@, x)),
{
    let ghost iv = ir@;
    let mut keep: Vec<Id> = Vec::new();
    let mut i: usize = 0;
    while i < ir.entities.len()
        invariant
            iv == ir@,
            i <= iv.entities.len(),
            forall|x: Seq<char>| crate::ir::among(keep@, x) ==> allocation_keep(iv, allocations@, x),
            forall|j: int| 0 <= j < i && allocation_keep(iv, allocations@, #[trigger] iv.entities[j].0) ==> crate::ir::among(keep@, iv.entities[j].0),
        decreases ir.entities.len() - i,
    {
        let id = &ir.entities[i].id;
        assert(iv.entities[i as int].0 == id@);
        let mut k = is_allocated(allocations, id);
        if !k {
            match ir.get_entity(id) {
                Some(e) => {
                    if e.kind == (EntityKind::Switch { level: Some(1) }) {
                        k = true;
                    } else if e.kind == (EntityKind::Switch { level: Some(0) }) {
                        match ir.children_of(id) {
                            Some(children) => {
                                let mut c: usize = 0;
                                while c < children.len() && !k
                                    invariant
                                        c <= children@.len(),
                                        id_views(children@) == iv.children(id@),
                                        k ==> exists|q: int| 0 <= q < iv.children(id@).len() && allocated(allocations@, #[trigger] iv.children(id@)[q]),
                                        !k ==> forall|q: int| 0 <= q < c ==> !allocated(allocations@, #[trigger] iv.children(id@)[q]),
                                    decreases children.len() - c,
                                {
                                    assert(iv.children(id@)[c as int] == children@[c as int]@);
                                    if is_allocated(allocations, &children[c]) {
                                        k = true;
                                    }
                                    c = c + 1;
                                }
                            },
                            None => {},
                        }
                    }
                },
                None => {},
            }
        }
        proof {
            crate::ir::lemma_pos_props(iv.entities, id@);
            assert(iv.has(id@));
        }
        let ghost prev = keep@;
        if k {
            keep.push(id.copy());
        }
        proof {
            assert(k == allocation_keep(iv, allocations@, id@));
            assert forall|x: Seq<char>| crate::ir::among(keep@, x) implies allocation_keep(iv, allocations@, x) by {
                let q = choose|q: int| 0 <= q < keep@.len() && keep@[q]@ == x;
                if q < prev.len() {
                    assert(keep@[q] == prev[q]);
                    assert(crate::ir::among(prev, x));
                }
            }
            assert forall|j: int| 0 <= j < i + 1 && allocation_keep(iv, allocations@, #[trigger] iv.entities[j].0) implies crate::ir::among(keep@, iv.entities[j].0) by {
                if j < i {
                    assert(crate::ir::among(prev, iv.entities[j].0));
                    let q = choose|q: int| 0 <= q < prev.len() && prev[q]@ == iv.entities[j].0;
                    assert(keep@[q] == prev[q]);
                } else {
                    assert(keep@[keep@.len() - 1]@ == id@);
                }
            }
        }
        i = i + 1;
    }
    let r = ir.filter_by_ids(keep.as_slice());
    proof {
        let f = |x: Seq<char>| crate::ir::among(keep@, x);
        let g = |x: Seq<char>| allocation_keep(iv, allocations@, x);
        assert forall|x: Seq<char>| #[trigger] iv.kept(f)(x) == iv.kept(g)(x) by {
            crate::ir::lemma_pos_props(iv.entities, x);
            if iv.has(x) {
                let k = crate::ir::entity_pos(iv.entities, x)->Some_0;
                assert(iv.entities[k as int].0 == x);
            }
        }
        assert(iv.kept(f) =~= iv.kept(g));
    }
    r
}

/// An entry of list `l` is free and in cell `c`.
pub open spec fn lists_contains_fresh(
    v: TopoView,
    used: Map<Seq<char>, ()>,
    lists: Seq<Vec<NodeRef>>,
    l: int,
    x: NodeRef,
    c: Seq<char>,
) -> bool {
    0 <= l < lists.len() && lists[l]@.contains(x) ==> fresh_ref(v, used, x) && v.cell(x.0 as int) == c
}

proof fn lemma_dec_key_equal(a: usize, b: usize)
    requires
        dec_key(a) == dec_key(b),
    ensures
        a == b,
{
    if a != b {
        lemma_dec_key_injective(a, b);
    }
}

/// A key naming pool `p` (used to tell the lists of different pools apart).
pub open spec fn dec_key(p: usize) -> Seq<char> {
    Seq::new(p as nat, |i: int| 'x')
}

proof fn lemma_dec_key_injective(a: usize, b: usize)
    requires
        a != b,
    ensures
        dec_key(a) != dec_key(b),
{
    assert(dec_key(a).len() != dec_key(b).len());
}
} // verus!
