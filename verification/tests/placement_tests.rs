use job_placer::ir::{Entity, EntityKind, Id, TopologyIR};
use job_placer::kv::StrMap;
use job_placer::classes::{class_from_name, class_name, ClassNameError, IntParseError};
use job_placer::schedule::{place_with_retries, placement_to_allocations, relaxed_jobs};
use job_placer::placement::{
    class_text, filter_ir_by_allocations, strategy_text, JobRequest, PlacementClass, PlacementResult, PlacementStrategy,
    Placer,
};

fn switch(ir: &mut TopologyIR, id: &str, cell: &str, rack: &str) {
    let mut m = StrMap::new();
    m.insert("cell".to_string(), cell.to_string());
    m.insert("rack".to_string(), rack.to_string());
    ir.add_entity(Entity { id: Id::from(id), kind: EntityKind::Switch { level: Some(0) }, meta: m });
}

fn nodes(ir: &mut TopologyIR, sw: &str, names: &[&str]) {
    for n in names {
        ir.add_entity(Entity { id: Id::from(n), kind: EntityKind::Compute, meta: StrMap::new() });
        ir.add_contains(Id::from(sw), Id::from(n));
        ir.add_link(Id::from(sw), Id::from(n), 1000);
    }
}

/// Cell A: s1 (n1-n4) and s2 (n5-n8); cell B: s3 (n9-n12).
fn cluster() -> TopologyIR {
    let mut ir = TopologyIR::new();
    switch(&mut ir, "s1", "A", "1");
    switch(&mut ir, "s2", "A", "1");
    switch(&mut ir, "s3", "B", "2");
    nodes(&mut ir, "s1", &["n1", "n2", "n3", "n4"]);
    nodes(&mut ir, "s2", &["n5", "n6", "n7", "n8"]);
    nodes(&mut ir, "s3", &["n9", "n10", "n11", "n12"]);
    ir
}

fn switch_of(n: &str) -> &'static str {
    let k: usize = n[1..].parse().unwrap();
    if k <= 4 {
        "s1"
    } else if k <= 8 {
        "s2"
    } else {
        "s3"
    }
}

fn cell_of(n: &str) -> &'static str {
    if switch_of(n) == "s3" {
        "B"
    } else {
        "A"
    }
}

fn job(n: usize, c: PlacementClass) -> JobRequest {
    JobRequest { nodes: n, placement_class: c }
}

fn placed(r: PlacementResult) -> Vec<(String, Vec<String>, String, String)> {
    match r {
        PlacementResult::Placed { placements } => placements
            .into_iter()
            .map(|(name, p)| (name, p.nodes, p.placement_class, p.achieved_class))
            .collect(),
        PlacementResult::Infeasible { reason } => panic!("infeasible: {reason}"),
    }
}

#[test]
fn class_and_strategy_names() {
    assert_eq!(class_text(PlacementClass::IntraL1), "IntraL1");
    assert_eq!(class_text(PlacementClass::IntraGroupSameL1(4)), "IntraGroupSameL1(4)");
    assert_eq!(class_text(PlacementClass::InterGroupSameL1(12)), "InterGroupSameL1(12)");
    assert_eq!(strategy_text(PlacementStrategy::BestEffort), "BestEffort");
}

#[test]
fn intra_l1_jobs_stay_under_one_switch() {
    let mut p = Placer::new(&cluster(), 7);
    let jobs = vec![("a".to_string(), job(4, PlacementClass::IntraL1)), ("b".to_string(), job(3, PlacementClass::IntraL1))];
    let r = placed(p.place(&jobs));
    assert_eq!(r.len(), 2);
    assert_eq!(r[0].0, "a");
    assert_eq!(r[0].1.len(), 4);
    assert_eq!(r[1].1.len(), 3);
    for (_, ns, class, achieved) in &r {
        assert!(ns.iter().all(|n| switch_of(n) == switch_of(&ns[0])));
        assert_eq!(class, "IntraL1");
        assert_eq!(achieved, "IntraL1");
    }
    let mut all: Vec<&String> = r.iter().flat_map(|j| j.1.iter()).collect();
    all.sort();
    all.dedup();
    assert_eq!(all.len(), 7);
}

#[test]
fn intra_group_spans_switches_of_one_cell() {
    let mut p = Placer::new(&cluster(), 1);
    let r = placed(p.place(&vec![("g".to_string(), job(6, PlacementClass::IntraGroup))]));
    let ns = &r[0].1;
    assert_eq!(ns.len(), 6);
    assert!(ns.iter().all(|n| cell_of(n) == "A"));
}

#[test]
fn inter_group_spans_cells() {
    let mut p = Placer::new(&cluster(), 3);
    let r = placed(p.place(&vec![("x".to_string(), job(4, PlacementClass::InterGroup))]));
    let ns = &r[0].1;
    assert_eq!(ns.len(), 4);
    assert!(ns.iter().any(|n| cell_of(n) == "A"));
    assert!(ns.iter().any(|n| cell_of(n) == "B"));
}

#[test]
fn too_big_intra_l1_is_infeasible_when_strict() {
    let mut p = Placer::new(&cluster(), 5);
    match p.place(&vec![("big".to_string(), job(5, PlacementClass::IntraL1))]) {
        PlacementResult::Infeasible { reason } => {
            assert!(reason.starts_with("cannot place job 'big': need 5 nodes with class IntraL1 (strategy=Strict)."));
            assert!(reason.contains("Cluster-wide free nodes: 12."));
        },
        PlacementResult::Placed { .. } => panic!("should not fit"),
    }
}

#[test]
fn best_effort_relaxes_intra_l1() {
    let mut p = Placer::new(&cluster(), 5);
    let r = placed(p.place_with_strategy(&vec![("big".to_string(), job(5, PlacementClass::IntraL1))], PlacementStrategy::BestEffort));
    assert_eq!(r[0].1.len(), 5);
    assert_eq!(r[0].2, "IntraL1");
    assert_eq!(r[0].3, "IntraGroup(best-effort-from-IntraL1)");
}

#[test]
fn allocations_filter_keeps_allocated_nodes_and_their_switches() {
    let ir = cluster();
    let r = filter_ir_by_allocations(&ir, &vec![("j".to_string(), vec!["n2".to_string(), "n9".to_string()])]);
    let ids: Vec<String> = r.entities.iter().map(|e| e.id.0.clone()).collect();
    assert!(ids.contains(&"n2".to_string()));
    assert!(ids.contains(&"n9".to_string()));
    assert!(!ids.contains(&"n1".to_string()));
}

#[test]
fn retries_stop_at_the_first_success() {
    let mut p = Placer::new(&cluster(), 0);
    let jobs = vec![("a".to_string(), job(2, PlacementClass::IntraL1))];
    let o = place_with_retries(&mut p, &jobs, 42);
    assert_eq!(o.attempts, 1);
    assert_eq!(o.strategy, PlacementStrategy::Strict);
    assert_eq!(o.seed, 42);
    assert!(matches!(o.result, PlacementResult::Placed { .. }));
}

#[test]
fn retries_escalate_to_best_effort() {
    let mut p = Placer::new(&cluster(), 0);
    let jobs = vec![("big".to_string(), job(5, PlacementClass::IntraL1))];
    let o = place_with_retries(&mut p, &jobs, u64::MAX);
    assert_eq!(o.attempts, 15);
    assert_eq!(o.strategy, PlacementStrategy::BestEffort);
    assert_eq!(o.seed, 13);
    let r = placed(o.result);
    assert_eq!(r[0].3, "IntraGroup(best-effort-from-IntraL1)");
}

#[test]
fn retries_report_the_last_failure() {
    let mut p = Placer::new(&cluster(), 0);
    let jobs = vec![("huge".to_string(), job(100, PlacementClass::InterGroup))];
    let o = place_with_retries(&mut p, &jobs, 5);
    assert_eq!(o.attempts, 21);
    assert_eq!(o.strategy, PlacementStrategy::BestEffort);
    assert_eq!(o.seed, 25);
    match o.result {
        PlacementResult::Infeasible { reason } => assert!(reason.starts_with("cannot place job 'huge': need 100 nodes with class InterGroup (strategy=BestEffort).")),
        PlacementResult::Placed { .. } => panic!("should not fit"),
    }
}

#[test]
fn relaxed_jobs_and_allocations_of_a_placement() {
    let mut p = Placer::new(&cluster(), 5);
    let jobs = vec![("a".to_string(), job(2, PlacementClass::IntraL1)), ("big".to_string(), job(5, PlacementClass::IntraL1))];
    let r = p.place_with_strategy(&jobs, PlacementStrategy::BestEffort);
    match &r {
        PlacementResult::Placed { placements } => {
            let rel = relaxed_jobs(placements);
            assert_eq!(rel.len(), 1);
            assert_eq!(rel[0].0, "big");
            assert_eq!(rel[0].1, "IntraL1");
        },
        PlacementResult::Infeasible { reason } => panic!("infeasible: {reason}"),
    }
    let a = placement_to_allocations(&r).unwrap();
    assert_eq!(a.len(), 2);
    assert_eq!(a[0].0, "a");
    assert_eq!(a[0].1.len(), 2);
    assert_eq!(a[1].1.len(), 5);
    let none = placement_to_allocations(&PlacementResult::Infeasible { reason: "x".to_string() });
    assert!(none.is_none());
}

#[test]
fn class_names_read_and_write() {
    assert_eq!(class_from_name("intra-l1"), Ok(PlacementClass::IntraL1));
    assert_eq!(class_from_name("intra-group"), Ok(PlacementClass::IntraGroup));
    assert_eq!(class_from_name("inter-group"), Ok(PlacementClass::InterGroup));
    assert_eq!(class_from_name("intra-group-same-l1-4"), Ok(PlacementClass::IntraGroupSameL1(4)));
    assert_eq!(class_from_name("inter-group-same-l1-+12"), Ok(PlacementClass::InterGroupSameL1(12)));
    assert_eq!(class_from_name("intra-group-same-l1-"), Err(ClassNameError::Number(IntParseError::Empty)));
    assert_eq!(class_from_name("intra-group-same-l1-x"), Err(ClassNameError::Number(IntParseError::InvalidDigit)));
    assert_eq!(class_from_name("inter-group-same-l1-+"), Err(ClassNameError::Number(IntParseError::InvalidDigit)));
    assert_eq!(
        class_from_name("intra-group-same-l1-99999999999999999999x"),
        Err(ClassNameError::Number(IntParseError::PosOverflow))
    );
    assert_eq!(class_from_name("IntraL1"), Err(ClassNameError::UnknownVariant));
    assert_eq!(class_name(PlacementClass::IntraGroupSameL1(4)), "intra-group-same-l1-4");
    assert_eq!(class_name(PlacementClass::InterGroup), "inter-group");
    assert_eq!(IntParseError::InvalidDigit.to_message(), "invalid digit found in string");
    for c in [PlacementClass::IntraL1, PlacementClass::InterGroupSameL1(16), PlacementClass::IntraGroupSameL1(0)] {
        assert_eq!(class_from_name(&class_name(c)), Ok(c));
    }
}
