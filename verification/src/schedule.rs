//! Placing a set of jobs with retries: the strict strategy first, then the
//! relaxed one, then best effort, each with several seeds, stopping at the
//! first attempt that places every job.
use vstd::prelude::*;
use crate::placement::{job_valid, result_ok, JobPlacement, JobRequest, PlacementResult, PlacementStrategy, Placer};
use crate::text::views;

verus! {

/// Seeds tried with each strategy.
pub const ATTEMPTS_PER_TIER: usize = 7;

/// Number of strategies tried.
pub const TIERS: usize = 3;

/// The `t`-th strategy and the offset of its seeds from the base seed.
pub open spec fn tier(t: int) -> (PlacementStrategy, u64) {
    if t == 0 {
        (PlacementStrategy::Strict, 0)
    } else if t == 1 {
        (PlacementStrategy::Relaxed, 7)
    } else {
        (PlacementStrategy::BestEffort, 14)
    }
}

/// The strategy and seed of attempt `k` (counted from zero).
pub open spec fn attempt_plan(base: u64, k: int) -> (PlacementStrategy, u64) {
    (tier(k / 7).0, vstd::wrapping::u64_specs::wrapping_add(base, (tier(k / 7).1 + k % 7) as u64))
}

/// The strategy and seed offset of tier `t`.
fn tier_at(t: usize) -> (r: (PlacementStrategy, u64))
    requires
        t < TIERS,
    ensures
        r == tier(t as int),
{
    if t == 0 {
        (PlacementStrategy::Strict, 0)
    } else if t == 1 {
        (PlacementStrategy::Relaxed, 7)
    } else {
        (PlacementStrategy::BestEffort, 14)
    }
}

/// How a retried placement ended.
pub struct RetryOutcome {
    /// The result of the last attempt made.
    pub result: PlacementResult,
    /// The number of attempts made (from one).
    pub attempts: usize,
    /// The strategy of the last attempt.
    pub strategy: PlacementStrategy,
    /// The seed of the last attempt.
    pub seed: u64,
}

/// Place `jobs`, trying each strategy in turn (strict, relaxed, best
/// effort) with seven seeds each (`base_seed` plus the tier's offset plus
/// the attempt, wrapping), and stop at the first attempt that places every
/// job; if none does, the result is that of the last attempt.
pub fn place_with_retries(placer: &mut Placer, jobs: &Vec<(String, JobRequest)>, base_seed: u64) -> (r: RetryOutcome)
    requires
        old(placer).inv(),
        forall|i: int| 0 <= i < jobs@.len() ==> job_valid(#[trigger] jobs@[i].1),
    ensures
        final(placer).inv(),
        final(placer).topo() == old(placer).topo(),
        final(placer).topology() == old(placer).topology(),
        1 <= r.attempts <= 21,
        (r.strategy, r.seed) == attempt_plan(base_seed, r.attempts - 1),
        result_ok(r.result, jobs@, r.strategy, old(placer).topo()),
        r.attempts < 21 ==> r.result is Placed,
        r.result is Infeasible ==> r.attempts == 21,
{
    let ghost v = placer.topo();
    let mut attempts: usize = 0;
    let mut t: usize = 0;
    let mut last: Option<RetryOutcome> = None;
    while t < TIERS
        invariant
            placer.inv(),
            placer.topo() == v,
            placer.topo() == old(placer).topo(),
            placer.topology() == old(placer).topology(),
            forall|i: int| 0 <= i < jobs@.len() ==> job_valid(#[trigger] jobs@[i].1),
            t <= TIERS,
            attempts == t * 7,
            t == 0 <==> last is None,
            last matches Some(o) ==> o.attempts == attempts && (o.strategy, o.seed) == attempt_plan(base_seed, o.attempts - 1)
                && result_ok(o.result, jobs@, o.strategy, v) && o.result is Infeasible,
        decreases TIERS - t,
    {
        let (strategy, offset) = tier_at(t);
        let mut i: usize = 0;
        while i < ATTEMPTS_PER_TIER
            invariant
                placer.inv(),
                placer.topo() == v,
                placer.topo() == old(placer).topo(),
                placer.topology() == old(placer).topology(),
                forall|i: int| 0 <= i < jobs@.len() ==> job_valid(#[trigger] jobs@[i].1),
                t < TIERS,
                (strategy, offset) == tier(t as int),
                i <= 7,
                attempts == t * 7 + i,
                (t == 0 && i == 0) <==> last is None,
                last matches Some(o) ==> o.attempts == attempts && (o.strategy, o.seed) == attempt_plan(base_seed, o.attempts - 1)
                    && result_ok(o.result, jobs@, o.strategy, v) && o.result is Infeasible,
            decreases 7 - i,
        {
            attempts = attempts + 1;
            let seed = base_seed.wrapping_add(offset + i as u64);
            proof {
                assert((attempts - 1) / 7 == t as int) by (nonlinear_arith)
                    requires attempts - 1 == t * 7 + i, i < 7;
                assert((attempts - 1) % 7 == i as int) by (nonlinear_arith)
                    requires attempts - 1 == t * 7 + i, i < 7;
            }
            placer.change_seed(seed);
            let result = placer.place_with_strategy(jobs, strategy);
            match result {
                PlacementResult::Placed { .. } => {
                    return RetryOutcome { result, attempts, strategy, seed };
                },
                PlacementResult::Infeasible { .. } => {
                    last = Some(RetryOutcome { result, attempts, strategy, seed });
                },
            }
            i = i + 1;
        }
        t = t + 1;
    }
    match last {
        Some(o) => o,
        None => {
            proof {
                assert(false);
            }
            RetryOutcome { result: PlacementResult::Infeasible { reason: String::new() }, attempts, strategy: PlacementStrategy::Strict, seed: base_seed }
        },
    }
}

/// The jobs placed under a class other than the one asked for: name, class
/// asked for and class achieved.
pub open spec fn relaxed_spec(ps: Seq<(String, JobPlacement)>) -> Seq<(Seq<char>, Seq<char>, Seq<char>)> {
    ps.filter(|p: (String, JobPlacement)| p.1.placement_class@ != p.1.achieved_class@).map_values(
        |p: (String, JobPlacement)| (p.0@, p.1.placement_class@, p.1.achieved_class@),
    )
}

/// The jobs placed under a class other than the one asked for, in order:
/// name, class asked for and class achieved.
pub fn relaxed_jobs(placements: &Vec<(String, JobPlacement)>) -> (r: Vec<(String, String, String)>)
    ensures
        r@.map_values(|x: (String, String, String)| (x.0@, x.1@, x.2@)) == relaxed_spec(placements@),
{
    let ghost ps = placements@;
    let ghost pred = |p: (String, JobPlacement)| p.1.placement_class@ != p.1.achieved_class@;
    let ghost f = |p: (String, JobPlacement)| (p.0@, p.1.placement_class@, p.1.achieved_class@);
    let ghost g = |x: (String, String, String)| (x.0@, x.1@, x.2@);
    let mut r: Vec<(String, String, String)> = Vec::new();
    let mut i: usize = 0;
    assert(ps.take(0).filter(pred) =~= Seq::<(String, JobPlacement)>::empty()) by {
        reveal(Seq::filter);
    }
    while i < placements.len()
        invariant
            ps == placements@,
            pred == (|p: (String, JobPlacement)| p.1.placement_class@ != p.1.achieved_class@),
            f == (|p: (String, JobPlacement)| (p.0@, p.1.placement_class@, p.1.achieved_class@)),
            g == (|x: (String, String, String)| (x.0@, x.1@, x.2@)),
            i <= ps.len(),
            r@.map_values(g) == ps.take(i as int).filter(pred).map_values(f),
        decreases placements.len() - i,
    {
        proof {
            assert(ps.take(i + 1) == ps.take(i as int).push(ps[i as int]));
            ps.take(i as int).lemma_filter_push(ps[i as int], pred);
        }
        let p = &placements[i];
        let ghost before = r@;
        if p.1.placement_class != p.1.achieved_class {
            r.push((p.0.clone(), p.1.placement_class.clone(), p.1.achieved_class.clone()));
            assert(r@.map_values(g) =~= before.map_values(g).push(f(ps[i as int])));
            assert(ps.take(i + 1).filter(pred).map_values(f) =~= ps.take(i as int).filter(pred).map_values(f).push(f(ps[i as int])));
        } else {
            assert(ps.take(i + 1).filter(pred) == ps.take(i as int).filter(pred));
        }
        i = i + 1;
    }
    assert(ps.take(i as int) == ps);
    r
}

/// The allocations of a placement: each job and its nodes, when every job
/// was placed.
pub fn placement_to_allocations(result: &PlacementResult) -> (r: Option<Vec<(String, Vec<String>)>>)
    ensures
        match result {
            PlacementResult::Placed { placements } => r matches Some(a) && a@.len() == placements@.len() && forall|i: int|
                0 <= i < a@.len() ==> #[trigger] a@[i].0@ == placements@[i].0@ && views(a@[i].1@) == views(
                    placements@[i].1.nodes@,
                ),
            PlacementResult::Infeasible { .. } => r is None,
        },
{
    match result {
        PlacementResult::Placed { placements } => {
            let mut a: Vec<(String, Vec<String>)> = Vec::new();
            let mut i: usize = 0;
            while i < placements.len()
                invariant
                    i <= placements@.len(),
                    a@.len() == i,
                    forall|j: int| 0 <= j < i ==> #[trigger] a@[j].0@ == placements@[j].0@ && views(a@[j].1@) == views(
                        placements@[j].1.nodes@,
                    ),
                decreases placements.len() - i,
            {
                let p = &placements[i];
                let mut nodes: Vec<String> = Vec::new();
                let mut k: usize = 0;
                while k < p.1.nodes.len()
                    invariant
                        k <= p.1.nodes@.len(),
                        views(nodes@) == views(p.1.nodes@).take(k as int),
                    decreases p.1.nodes.len() - k,
                {
                    let ghost before = nodes@;
                    nodes.push(p.1.nodes[k].clone());
                    assert(views(nodes@) =~= views(before).push(p.1.nodes@[k as int]@));
                    assert(views(p.1.nodes@).take(k + 1) =~= views(p.1.nodes@).take(k as int).push(p.1.nodes@[k as int]@));
                    k = k + 1;
                }
                assert(views(p.1.nodes@).take(k as int) =~= views(p.1.nodes@));
                a.push((p.0.clone(), nodes));
                i = i + 1;
            }
            Some(a)
        },
        PlacementResult::Infeasible { .. } => None,
    }
}

} // verus!
