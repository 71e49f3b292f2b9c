use job_placer::ir::{validate, Entity, EntityKind, Id, TopologyIR};
use job_placer::kv::StrMap;
use job_placer::normalize::normalize_multiparent_topology;
use job_placer::sinfo::{NodeInfo, NodeState};
use job_placer::topology::{
    apply_node_filter, enrich_node_info, enrich_with_sinfo, filter_by_blacklist, filter_by_partition,
    NodeFilterOptions,
};

fn ent(id: &str, kind: EntityKind) -> Entity {
    Entity { id: Id::from(id), kind, meta: StrMap::new() }
}

fn ids(ir: &TopologyIR) -> Vec<String> {
    ir.entities.iter().map(|e| e.id.0.clone()).collect()
}

fn links(ir: &TopologyIR) -> Vec<(String, String, u64)> {
    ir.links.iter().map(|l| (l.from.0.clone(), l.to.0.clone(), l.weight)).collect()
}

/// One L1 switch `s1` over n1, n2 and another `s2` over n3.
fn small() -> TopologyIR {
    let mut ir = TopologyIR::new();
    ir.add_entity(ent("s1", EntityKind::Switch { level: Some(0) }));
    ir.add_entity(ent("s2", EntityKind::Switch { level: Some(0) }));
    for (s, n) in [("s1", "n1"), ("s1", "n2"), ("s2", "n3")] {
        ir.add_entity(ent(n, EntityKind::Compute));
        ir.add_contains(Id::from(s), Id::from(n));
        ir.add_link(Id::from(s), Id::from(n), 1000);
    }
    ir
}

fn info(h: &str, p: &str, s: NodeState) -> NodeInfo {
    NodeInfo { hostname: h.to_string(), partition: p.to_string(), state: s }
}

#[test]
fn add_entity_replaces_same_id() {
    let mut ir = small();
    ir.add_entity(ent("n1", EntityKind::Group));
    assert_eq!(ids(&ir), vec!["s1", "s2", "n1", "n2", "n3"]);
    assert_eq!(ir.entities[2].kind, EntityKind::Group);
}

#[test]
fn containment_lists_grow_in_order() {
    let ir = small();
    let ch = ir.children_of(&Id::from("s1")).unwrap();
    assert_eq!(ch.iter().map(|i| i.0.as_str()).collect::<Vec<_>>(), vec!["n1", "n2"]);
    assert!(ir.children_of(&Id::from("n1")).is_none());
}

#[test]
fn sinfo_enrichment_sets_partition_and_worst_state() {
    let mut ir = small();
    enrich_with_sinfo(
        &mut ir,
        vec![
            info("n1", "debug", NodeState::Mixed),
            info("n1", "batch", NodeState::Drained),
            info("n1", "debug", NodeState::Idle),
            info("s1", "debug", NodeState::Down),
        ],
    );
    let n1 = &ir.entities[2];
    assert_eq!(n1.meta.get("partition").unwrap(), "debug,batch");
    assert_eq!(n1.meta.get("state").unwrap(), "drained");
    assert!(ir.entities[0].meta.get("state").is_none());
    assert!(ir.entities[3].meta.get("state").is_none());
}

#[test]
fn node_filter_drops_unavailable_nodes() {
    let mut ir = small();
    enrich_with_sinfo(&mut ir, vec![info("n2", "debug", NodeState::Down), info("n1", "debug", NodeState::Idle)]);
    let kept = apply_node_filter(ir, &NodeFilterOptions::default());
    assert_eq!(ids(&kept), vec!["s1", "s2", "n1", "n3"]);
    assert_eq!(links(&kept), vec![("s1".to_string(), "n1".to_string(), 1000), ("s2".to_string(), "n3".to_string(), 1000)]);
}

#[test]
fn node_filter_can_be_switched_off() {
    let mut ir = small();
    enrich_with_sinfo(&mut ir, vec![info("n2", "debug", NodeState::Down)]);
    let opts = NodeFilterOptions { remove_unavailable: false, nodes_blacklist: None };
    assert_eq!(ids(&apply_node_filter(ir, &opts)).len(), 5);
}

#[test]
fn partition_filter_keeps_path_of_partition_nodes() {
    let mut ir = small();
    enrich_with_sinfo(&mut ir, vec![info("n1", "debug", NodeState::Idle), info("n3", "batch", NodeState::Idle)]);
    let r = filter_by_partition(ir, "debug");
    assert_eq!(ids(&r), vec!["s1", "n1"]);
}

#[test]
fn partition_filter_drops_switch_without_partition_node() {
    let mut ir = TopologyIR::new();
    ir.add_entity(ent("s1", EntityKind::Switch { level: Some(0) }));
    let mut m = StrMap::new();
    m.insert("partition".to_string(), "x".to_string());
    ir.add_entity(Entity { id: Id::from("n1"), kind: EntityKind::Compute, meta: m });
    ir.add_contains(Id::from("s1"), Id::from("n1"));
    let r = filter_by_partition(ir, "p");
    assert!(r.entities.is_empty());
    assert!(r.contains.is_empty());
    assert!(r.links.is_empty());
}

#[test]
fn node_filter_keeps_switch_that_never_held_nodes() {
    let mut ir = TopologyIR::new();
    ir.add_entity(ent("s1", EntityKind::Switch { level: Some(0) }));
    ir.add_entity(ent("l2", EntityKind::Switch { level: Some(1) }));
    let mut m = StrMap::new();
    m.insert("state".to_string(), "down".to_string());
    ir.add_entity(Entity { id: Id::from("n1"), kind: EntityKind::Compute, meta: m });
    ir.add_contains(Id::from("s1"), Id::from("n1"));
    ir.add_link(Id::from("s1"), Id::from("n1"), 1000);
    ir.add_link(Id::from("s1"), Id::from("l2"), 2000);
    let r = apply_node_filter(ir, &NodeFilterOptions::default());
    assert_eq!(ids(&r), vec!["l2"]);
    assert!(r.links.is_empty());
}

#[test]
fn node_filter_prunes_emptied_switch() {
    let mut ir = TopologyIR::new();
    ir.add_entity(ent("s1", EntityKind::Switch { level: Some(0) }));
    let mut m = StrMap::new();
    m.insert("state".to_string(), "down".to_string());
    ir.add_entity(Entity { id: Id::from("n1"), kind: EntityKind::Compute, meta: m });
    ir.add_contains(Id::from("s1"), Id::from("n1"));
    ir.add_link(Id::from("s1"), Id::from("n1"), 1000);
    let r = apply_node_filter(ir, &NodeFilterOptions::default());
    assert!(r.entities.is_empty());
    assert!(r.links.is_empty());
    assert!(r.contains.is_empty());
}

#[test]
fn node_filter_keeps_switch_with_remaining_node() {
    let mut ir = small();
    enrich_with_sinfo(&mut ir, vec![info("n3", "debug", NodeState::Down)]);
    let kept = apply_node_filter(ir, &NodeFilterOptions::default());
    assert_eq!(ids(&kept), vec!["s1", "n1", "n2"]);
}

#[test]
fn blacklist_removes_hosts() {
    let r = filter_by_blacklist(small(), &vec!["n2".to_string(), "zz".to_string()]);
    assert_eq!(ids(&r), vec!["s1", "s2", "n1", "n3"]);
}

#[test]
fn node_info_lists_sorted_partitions() {
    let mut ir = small();
    enrich_node_info(&mut ir, &vec![info("n3", "zeta", NodeState::Idle), info("n3", "alpha", NodeState::Idle), info("n3", "zeta", NodeState::Idle)]);
    assert_eq!(ir.entities[4].meta.get("partitions").unwrap(), "alpha,zeta");
}

#[test]
fn remove_ids_drops_links_and_containment() {
    let r = small().filter_remove_ids(&[Id::from("s1")]);
    assert_eq!(ids(&r), vec!["s2", "n1", "n2", "n3"]);
    assert_eq!(links(&r), vec![("s2".to_string(), "n3".to_string(), 1000)]);
    assert!(r.children_of(&Id::from("s1")).is_none());
}

#[test]
fn keep_ids_restricts() {
    let r = small().filter_by_ids(&[Id::from("s1"), Id::from("n2")]);
    assert_eq!(ids(&r), vec!["s1", "n2"]);
    assert_eq!(links(&r), vec![("s1".to_string(), "n2".to_string(), 1000)]);
}

#[test]
fn filter_chain_applies_predicate_and_id_filters() {
    let ir = small();
    let r = ir
        .filter_chain()
        .filter(|e: &Entity| e.id.0 != "n1")
        .remove_ids(vec![Id::from("s2")])
        .build();
    assert_eq!(ids(&r), vec!["s1", "n2", "n3"]);
    assert_eq!(links(&r), vec![("s1".to_string(), "n2".to_string(), 1000)]);
}

#[test]
fn filter_with_topology_keeps_ancestors() {
    let r = small().filter_with_topology(&[Id::from("n3")]);
    assert_eq!(ids(&r), vec!["s2", "n3"]);
}

#[test]
fn set_meta_updates_existing_only() {
    let mut ir = small();
    ir.set_meta(&Id::from("s1"), "cell", "A".to_string());
    ir.set_meta(&Id::from("nope"), "cell", "B".to_string());
    assert_eq!(ir.entities[0].meta.get("cell").unwrap(), "A");
    assert_eq!(ir.entities.len(), 5);
}

#[test]
fn normalization_leaves_one_parent_per_node() {
    let mut ir = small();
    ir.add_contains(Id::from("s2"), Id::from("n1"));
    let r = normalize_multiparent_topology(&ir);
    let count = |x: &str| {
        r.contains.iter().map(|(_, ch)| ch.iter().filter(|c| c.0 == x).count()).sum::<usize>()
    };
    assert_eq!(count("n1"), 1);
    assert_eq!(count("n2"), 1);
    assert_eq!(count("n3"), 1);
    assert_eq!(r.links.len(), ir.links.len());
}

#[test]
fn shared_node_moves_under_synthetic_switch() {
    let mut ir = TopologyIR::new();
    let mut m = StrMap::new();
    m.insert("cell".to_string(), "g1".to_string());
    ir.add_entity(Entity { id: Id::from("sb"), kind: EntityKind::Switch { level: Some(0) }, meta: StrMap::new() });
    ir.add_entity(Entity { id: Id::from("sa"), kind: EntityKind::Switch { level: Some(0) }, meta: m });
    ir.add_entity(ent("n1", EntityKind::Compute));
    ir.add_entity(ent("n2", EntityKind::Compute));
    ir.add_contains(Id::from("sb"), Id::from("n1"));
    ir.add_contains(Id::from("sb"), Id::from("n2"));
    ir.add_contains(Id::from("sa"), Id::from("n1"));
    let r = normalize_multiparent_topology(&ir);
    let lists: Vec<(String, Vec<String>)> =
        r.contains.iter().map(|(p, ch)| (p.0.clone(), ch.iter().map(|c| c.0.clone()).collect())).collect();
    assert_eq!(
        lists,
        vec![
            ("sb".to_string(), vec!["n2".to_string()]),
            ("__synthetic_l1_sa_sb".to_string(), vec!["n1".to_string()]),
        ]
    );
    let syn = r.entities.iter().find(|e| e.id.0 == "__synthetic_l1_sa_sb").unwrap();
    assert_eq!(syn.meta.get("__synthetic").cloned(), Some("true".to_string()));
    assert_eq!(syn.meta.get("cell").cloned(), Some("g1".to_string()));
    assert_eq!(ids(&r), vec!["sb", "sa", "n1", "n2", "__synthetic_l1_sa_sb"]);
}

#[test]
fn validate_names_the_first_missing_endpoint() {

    let mut ir = small();
    assert_eq!(validate(&ir), Ok(()));
    ir.add_link(Id::from("s1"), Id::from("gh\"ost"), 1000);
    ir.add_link(Id::from("nobody"), Id::from("n1"), 1000);
    assert_eq!(validate(&ir), Err("Missing entity Id(\"gh\\\"ost\")".to_string()));
}
