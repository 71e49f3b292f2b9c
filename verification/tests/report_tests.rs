use job_placer::ir::{Entity, EntityKind, Id, TopologyIR};
use job_placer::kv::StrMap;
use job_placer::display::{alloc_style, emit_compute_node, emit_l1_switch, render_dot, DisplayOptions, JobColors};
use job_placer::query::{matches_predicate, NodePredicate, QueryError};
use job_placer::stats::{compute_job_stats, PlacementStats};
use job_placer::summary::{collect_partitions, compress_ids, fmt_range, fmt_subtree, format_summary_head, format_summary_tail};

fn ent(id: &str, kind: EntityKind, meta: &[(&str, &str)]) -> Entity {
    let mut m = StrMap::new();
    for (k, v) in meta {
        m.insert(k.to_string(), v.to_string());
    }
    Entity { id: Id::from(id), kind, meta: m }
}

fn strs(v: &[&str]) -> Vec<String> {
    v.iter().map(|s| s.to_string()).collect()
}

/// Two L1 switches in two cells, three attached nodes and one loose node.
fn cells_ir() -> TopologyIR {
    let mut ir = TopologyIR::new();
    ir.add_entity(ent("s1", EntityKind::Switch { level: Some(0) }, &[("cell", "c0"), ("rack", "r1")]));
    ir.add_entity(ent("s2", EntityKind::Switch { level: Some(0) }, &[("cell", "c1"), ("rack", "r2")]));
    ir.add_entity(ent("n1", EntityKind::Compute, &[("partitions", "batch,debug")]));
    ir.add_entity(ent("n2", EntityKind::Compute, &[("partitions", "batch")]));
    ir.add_entity(ent("n3", EntityKind::Compute, &[]));
    ir.add_entity(ent("n4", EntityKind::Compute, &[]));
    for (s, n) in [("s1", "n1"), ("s1", "n2"), ("s2", "n3")] {
        ir.add_contains(Id::from(s), Id::from(n));
        ir.add_link(Id::from(s), Id::from(n), 1000);
    }
    ir
}

#[test]
fn compress_ids_builds_bracket_ranges() {
    let r = compress_ids(&strs(&["lrdn0001", "lrdn0002", "lrdn0003", "lrdn0005"]));
    assert_eq!(r, "lrdn[0001-0003,0005]");
}

#[test]
fn compress_ids_single_and_unsorted() {
    assert_eq!(compress_ids(&strs(&["n1"])), "n1");
    assert_eq!(compress_ids(&strs(&["n3", "n1", "n2"])), "n[1-3]");
    assert_eq!(compress_ids(&strs(&["x09", "x10"])), "x[09-10]");
    assert_eq!(compress_ids(&strs(&["n1", "n3"])), "n[1,3]");
}

#[test]
fn compress_ids_falls_back_to_a_list() {
    assert_eq!(compress_ids(&strs(&["a1", "b2"])), "a1, b2");
    assert_eq!(compress_ids(&strs(&["a1", "a"])), "a1, a");
    assert_eq!(compress_ids(&Vec::new()), "");
}

#[test]
fn fmt_range_pads_to_width() {
    assert_eq!(fmt_range(3, 7, 3), "003-007");
    assert_eq!(fmt_range(5, 5, 0), "5");
    assert_eq!(fmt_range(12, 12, 1), "12");
}

#[test]
fn partitions_are_collected_sorted_and_unique() {
    let ir = cells_ir();
    let ids = vec![Id::from("n2"), Id::from("n1"), Id::from("n3"), Id::from("zz")];
    assert_eq!(collect_partitions(&ids, &ir), strs(&["batch", "debug"]));
}

#[test]
fn summary_head_counts_entities() {
    let ir = cells_ir();
    let head = format_summary_head(&ir);
    assert_eq!(
        head,
        "TopologyIR { entities: 6, links: 3, containment_edges: 3 }\n  Entities:\n    Compute       : 4\n    L1 switches   : 2\n    L2 switches   : 0\n"
    );
}

#[test]
fn summary_tail_lists_cells_and_tree() {
    let ir = cells_ir();
    let tail = format_summary_tail(&ir);
    let expected = String::new()
        + "  Cells: 2\n"
        + "    c0            racks: 1  L1: 1  L2: 0  compute: 2  partitions: [batch, debug]\n"
        + "    c1            racks: 1  L1: 1  L2: 0  compute: 1  partitions: [—]\n"
        + "  Containment tree:\n"
        + "    [L1 cell=c0 rack=r1] s1\n"
        + "      [compute ×2] n[1-2]  partitions=[batch, debug]\n"
        + "    [L1 cell=c1 rack=r2] s2\n"
        + "      [compute ×1] n3\n";
    assert_eq!(tail, expected);
}

#[test]
fn subtree_stops_at_depth_limit() {
    let ir = cells_ir();
    let mut out: Vec<char> = Vec::new();
    fmt_subtree(&mut out, &ir, &Id::from("s1"), 3, 3);
    let s: String = out.into_iter().collect();
    assert_eq!(s, "      [L1 cell=c0 rack=r1] s1\n        … (2 children, depth limit)\n");
}

#[test]
fn job_stats_group_by_cell_and_switch() {
    let ir = cells_ir();
    let js = compute_job_stats(&strs(&["n1", "n3", "n2", "zz", "n4"]), &ir);
    assert_eq!(js.total_nodes, 5);
    assert_eq!(js.group_count, 2);
    assert_eq!(js.total_switch_count, 2);
    assert_eq!(js.unresolved_nodes, strs(&["zz", "n4"]));
    assert_eq!(js.groups[0].cell, "c0");
    assert_eq!(js.groups[0].node_count, 2);
    assert_eq!(js.groups[0].switches[0].switch_id, "s1");
    assert_eq!(js.groups[0].switches[0].rack, "r1");
    assert_eq!(js.groups[0].switches[0].nodes, strs(&["n1", "n2"]));
    assert_eq!(js.groups[1].cell, "c1");
    assert_eq!(js.groups[1].switches[0].nodes, strs(&["n3"]));
}

#[test]
fn placement_stats_sum_over_jobs() {
    let ir = cells_ir();
    let alloc = vec![
        ("a".to_string(), strs(&["n1"])),
        ("b".to_string(), strs(&["n2", "n3", "zz"])),
    ];
    let ps = PlacementStats::compute(&ir, &alloc);
    assert_eq!(ps.job_count, 2);
    assert_eq!(ps.total_nodes, 4);
    assert_eq!(ps.distinct_groups, strs(&["c0", "c1"]));
    assert_eq!(ps.distinct_switches, strs(&["s1", "s2"]));
    assert_eq!(ps.jobs[1].0, "b");
    assert_eq!(ps.jobs[1].1.group_count, 2);
}

#[test]
fn query_errors_read_as_text() {
    let e = QueryError::InsufficientNodes { required: 4, available: 1 };
    assert_eq!(e.to_message(), "Insufficient nodes: required 4, only 1 available");
    assert_eq!(QueryError::NoValidReference.to_message(), "No valid reference node found");
    assert_eq!(QueryError::InvalidAnchor(Id::from("n7")).to_message(), "Invalid anchor node: n7");
    assert_eq!(QueryError::ConstraintConflict("x".to_string()).to_message(), "Constraint conflict: x");
    let d = QueryError::DistanceCalculationFailed { from: Id::from("a"), to: Id::from("b") };
    assert_eq!(d.to_message(), "Failed to calculate distance from a to b");
}

/// One cell `c0`, rack `r1`, L1 switch `s1` over n1 and n2.
fn one_rack() -> TopologyIR {
    let mut ir = TopologyIR::new();
    ir.add_entity(ent("s1", EntityKind::Switch { level: Some(0) }, &[("cell", "c0"), ("rack", "r1")]));
    ir.add_entity(ent("n2", EntityKind::Compute, &[]));
    ir.add_entity(ent("n1", EntityKind::Compute, &[]));
    ir.add_contains(Id::from("s1"), Id::from("n2"));
    ir.add_contains(Id::from("s1"), Id::from("n1"));
    ir
}

#[test]
fn alloc_style_cycles_colours_then_patterns() {
    assert_eq!(alloc_style(0), ("#E63946", "filled"));
    assert_eq!(alloc_style(9), ("#E91E63", "filled"));
    assert_eq!(alloc_style(11), ("#2196F3", "filled,dashed"));
    assert_eq!(alloc_style(52), ("#4CAF50", "filled"));
}

#[test]
fn node_statements_take_the_job_colour() {
    let alloc = vec![("a".to_string(), strs(&["n1"]))];
    let colors = JobColors::new(&alloc);
    let mut out: Vec<char> = Vec::new();
    emit_compute_node(&mut out, &Id::from("n1"), &colors);
    emit_l1_switch(&mut out, &Id::from("s1"), &colors);
    let s: String = out.into_iter().collect();
    assert_eq!(
        s,
        "    \"n1\" [shape=box style=\"filled\" fillcolor=\"#E63946\" tooltip=\"a\" label=\"n1\" fontsize=6 width=0.72 height=0.22 fixedsize=true];\n    \"s1\" [shape=ellipse style=\"filled\" fillcolor=\"#A9DFBF\" label=\"s1\" fontsize=7 width=0.72 height=0.25 fixedsize=true];\n"
    );
}

#[test]
fn dot_source_of_one_rack() {
    let ir = one_rack();
    let alloc = vec![("a".to_string(), strs(&["n1"]))];
    let dot = render_dot(&ir, &alloc, &DisplayOptions::default());
    let expected = String::new()
        + "digraph G {\n  layout=dot;\n  rankdir=TB;\n  newrank=true;\n  compound=true;\n  clusterrank=local;\n  ranksep=0.25;\n  nodesep=0.35;\n  splines=false;\n"
        + "  node [fontname=\"Helvetica\"];\n  edge [dir=none penwidth=0.6 color=\"#888888\"];\n  graph [fontname=\"Helvetica\" labeljust=l];\n\n"
        + "  subgraph cluster_cell_0 {\n    label=\"c0\";\n    style=\"filled,rounded\";\n    fillcolor=\"#EBF5FB\";\n    color=\"#1A5276\";\n    penwidth=2.5;\n    fontsize=11;\n"
        + "    \"__cell_anchor_0\" [shape=point width=0 height=0 label=\"\" style=invis];\n\n"
        + "    subgraph cluster_rack_0_0 {\n      label=\"rack r1\";\n      style=\"filled,rounded\";\n      fillcolor=\"#F2F3F4\";\n      color=\"#2C3E50\";\n      penwidth=1.5;\n      fontsize=9;\n\n"
        + "      subgraph cluster_l1_0_0_0 {\n        label=\"\";\n        style=\"filled,rounded\";\n        fillcolor=\"#FDFEFE\";\n        color=\"#AAB7B8\";\n        penwidth=0.8;\n\n"
        + "    \"s1\" [shape=ellipse style=\"filled\" fillcolor=\"#A9DFBF\" label=\"s1\" fontsize=7 width=0.72 height=0.25 fixedsize=true];\n"
        + "    \"n1\" [shape=box style=\"filled\" fillcolor=\"#E63946\" tooltip=\"a\" label=\"n1\" fontsize=6 width=0.72 height=0.22 fixedsize=true];\n"
        + "    \"n2\" [shape=box style=\"filled,rounded\" fillcolor=\"#AED6F1\" label=\"n2\" fontsize=6 width=0.72 height=0.22 fixedsize=true];\n"
        + "        \"s1\" -> \"n1\" [style=invis weight=2 minlen=1];\n"
        + "        \"n1\" -> \"n2\" [style=invis weight=2 minlen=1];\n"
        + "      }\n    }\n\n  }\n\n"
        + "\n  subgraph cluster_legend {\n    label=\"Legend\"; style=filled; fillcolor=white; fontsize=10;\n"
        + "    \"__legend_0\" [shape=box style=\"filled\" fillcolor=\"#E63946\" label=\"a\" fontsize=8 width=2.4 height=0.28 fixedsize=true];\n"
        + "  }\n}\n";
    assert_eq!(dot, expected);
}

#[test]
fn dot_source_anchors_cells_and_draws_each_edge_once() {
    let ir = cells_ir();
    let opts = DisplayOptions { show_l2_switches: false, show_edges: true, show_inter_cell_links_count: false };
    let dot = render_dot(&ir, &Vec::new(), &opts);
    assert!(dot.contains("  subgraph cluster_cell_1 {\n    label=\"c1\";\n"));
    assert!(dot.contains("\n  { rank=same;\n    \"__cell_anchor_0\";\n    \"__cell_anchor_1\";\n  }\n  \"__cell_anchor_0\" -> \"__cell_anchor_1\" [style=invis];\n"));
    assert!(dot.ends_with("  \"s1\" -> \"n1\";\n  \"s1\" -> \"n2\";\n  \"s2\" -> \"n3\";\n}\n"));
    assert!(!dot.contains("cluster_legend"));
}

#[test]
fn inter_cell_links_are_counted_on_the_label() {
    let mut ir = cells_ir();
    ir.add_link(Id::from("s1"), Id::from("s2"), 2000);
    ir.add_link(Id::from("s1"), Id::from("s2"), 1500);
    let opts = DisplayOptions { show_l2_switches: false, show_edges: false, show_inter_cell_links_count: true };
    let dot = render_dot(&ir, &Vec::new(), &opts);
    assert!(dot.contains("    label=\"c0 (↔ 1 inter-cell links)\";\n"));
    assert!(dot.contains("    label=\"c1 (↔ 1 inter-cell links)\";\n"));
}

#[test]
fn l2_switches_pair_with_l1_by_pair_index() {
    let mut ir = TopologyIR::new();
    ir.add_entity(ent("s1", EntityKind::Switch { level: Some(0) }, &[("cell", "c0"), ("rack", "r1"), ("pair_index", "3")]));
    ir.add_entity(ent("t1", EntityKind::Switch { level: Some(1) }, &[("cell", "c0"), ("rack", "r1"), ("pair_index", "3")]));
    ir.add_entity(ent("t2", EntityKind::Switch { level: Some(1) }, &[("cell", "c0"), ("rack", "r1"), ("pair_index", "4")]));
    let opts = DisplayOptions { show_l2_switches: true, show_edges: true, show_inter_cell_links_count: false };
    let dot = render_dot(&ir, &Vec::new(), &opts);
    assert!(dot.contains("    \"t1\" [shape=hexagon style=\"filled\" fillcolor=\"#F0B27A\" label=\"t1\" fontsize=7 width=0.55 height=0.38 fixedsize=true];\n    \"t2\" [shape=hexagon"));
    assert!(dot.ends_with("  }\n\n  \"s1\" -> \"t1\";\n}\n"));
}

#[test]
fn predicates_match_kind_property_and_id() {
    let e = ent("lrdn0001", EntityKind::Compute, &[("state", "idle")]);
    assert!(matches_predicate(&e, &NodePredicate::NodeKind("compute".to_string())));
    assert!(matches_predicate(&e, &NodePredicate::NodeKind("Compute".to_string())));
    assert!(!matches_predicate(&e, &NodePredicate::NodeKind("switch".to_string())));
    assert!(matches_predicate(&e, &NodePredicate::HasProperty("state".to_string(), "idle".to_string())));
    assert!(!matches_predicate(&e, &NodePredicate::HasProperty("state".to_string(), "down".to_string())));
    assert!(matches_predicate(&e, &NodePredicate::IdPattern("dn00".to_string())));
    assert!(matches_predicate(&e, &NodePredicate::IdPattern(String::new())));
    assert!(!matches_predicate(&e, &NodePredicate::IdPattern("x".to_string())));
    assert!(!matches_predicate(&e, &NodePredicate::Custom("any".to_string())));
}

#[test]
fn job_counts_add_up() {
    let ir = cells_ir();
    let js = compute_job_stats(&strs(&["n1", "n3", "n2", "zz", "n4", "n1"]), &ir);
    let in_groups: usize = js.groups.iter().map(|g| g.node_count).sum();
    assert_eq!(js.total_nodes, in_groups + js.unresolved_nodes.len());
    for g in &js.groups {
        assert_eq!(g.node_count, g.switches.iter().map(|s| s.node_count).sum::<usize>());
    }
    assert_eq!(js.groups[0].node_count, 3);
}

#[test]
fn job_stats_switch_without_cell_reads_question_mark() {
    let mut ir = TopologyIR::new();
    ir.add_entity(ent("s1", EntityKind::Switch { level: Some(0) }, &[("rack", "r")]));
    ir.add_entity(ent("n1", EntityKind::Compute, &[]));
    ir.add_contains(Id::from("s1"), Id::from("n1"));
    let js = compute_job_stats(&strs(&["n1"]), &ir);
    assert_eq!(js.groups.len(), 1);
    assert_eq!(js.groups[0].cell, "?");
    assert_eq!(js.groups[0].switches[0].cell, "?");
    assert_eq!(js.groups[0].switches[0].rack, "r");
}
