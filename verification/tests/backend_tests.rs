use job_placer::alps::{get_groups_from_topo, parse_groups};
use job_placer::ir::{Entity, EntityKind, Id, TopologyIR};
use job_placer::jupiter::{is_head_switch, is_l1_switch, is_l2_switch, parse_switch_name, rack_from_node_name, JupiterParser, SwitchInfo};
use job_placer::kv::StrMap;
use job_placer::leonardo::{
    cell_id_from_group_name, is_cell_group, is_virtual_switch, rack_from_name, ss_from_name, switch_level_from_name,
    LeonardoParser,
};
use job_placer::scontrol::merge_continuation_lines;
use job_placer::sinfo::{NodeInfo, NodeState};
use job_placer::toml_backend::{TomlLink, TomlMeta, TomlNode, TomlSwitch, TomlTopology, TomlTopologyParser};
use job_placer::topology::NodeFilterOptions;

fn cs(s: &str) -> Vec<char> {
    s.chars().collect()
}

fn ids(ir: &TopologyIR) -> Vec<String> {
    ir.entities.iter().map(|e| e.id.0.clone()).collect()
}

fn links(ir: &TopologyIR) -> Vec<(String, String, u64)> {
    ir.links.iter().map(|l| (l.from.0.clone(), l.to.0.clone(), l.weight)).collect()
}

fn l(a: &str, b: &str, w: u64) -> (String, String, u64) {
    (a.to_string(), b.to_string(), w)
}

fn meta(ir: &TopologyIR, id: &str, key: &str) -> Option<String> {
    ir.entities.iter().find(|e| e.id.0 == id).and_then(|e| e.meta.get(key).cloned())
}

fn kind(ir: &TopologyIR, id: &str) -> EntityKind {
    ir.entities.iter().find(|e| e.id.0 == id).unwrap().kind
}

const LEONARDO: &str = "\
SwitchName=isw010100 Level=0 LinkSpeed=1 Nodes=lrdn[0001-0002],login01
SwitchName=isw010101 Level=1 LinkSpeed=1 Switches=isw010100
SwitchName=isw-L2-CELLG1 Level=2 LinkSpeed=1
   Switches=isw[010100-010101]
SwitchName=isw020100 Level=0 LinkSpeed=1 Nodes=lrdn[0003-0004]
SwitchName=isw020101 Level=1 LinkSpeed=1 Switches=isw020100
SwitchName=isw-L2-CELLG2 Level=2 LinkSpeed=1 Switches=isw[020100-020101]
SwitchName=HeadSwitch Level=3 Switches=isw-L2-CELLG[1-2]
";

#[test]
fn continuation_lines_are_merged() {
    let r = merge_continuation_lines("  SwitchName=a X=1\n\n  Y=2\nSwitchName=b\n");
    assert_eq!(r, vec!["SwitchName=a X=1 Y=2".to_string(), "SwitchName=b".to_string()]);
}

#[test]
fn leonardo_name_helpers() {
    assert!(is_virtual_switch(&cs("HeadSwitch")));
    assert!(is_virtual_switch(&cs("isw-L2-CELLG1")));
    assert!(is_virtual_switch(&cs("isws01")));
    assert!(!is_virtual_switch(&cs("isw010100")));
    assert!(is_cell_group(&cs("isw-L2-CELLG21")));
    assert!(!is_cell_group(&cs("HeadSwitch")));
    assert_eq!(switch_level_from_name(&cs("isw010100")), Some(0));
    assert_eq!(switch_level_from_name(&cs("isw010103")), Some(1));
    assert_eq!(switch_level_from_name(&cs("isw0")), None);
    assert_eq!(rack_from_name(&cs("isw010102")), Some(cs("0101")));
    assert_eq!(rack_from_name(&cs("isw01")), None);
    assert_eq!(ss_from_name(&cs("isw010104")), Some(4));
    assert_eq!(cell_id_from_group_name(&cs("isw-L2-CELLG21")), cs("CELLG21"));
}

#[test]
fn leonardo_parse_builds_switches_nodes_and_pairs() {
    let ir = LeonardoParser::default().parse_topology_raw(LEONARDO).unwrap();
    assert_eq!(
        ids(&ir),
        vec!["isw010100", "isw010101", "isw020100", "isw020101", "lrdn0001", "lrdn0002", "lrdn0003", "lrdn0004"]
    );
    assert_eq!(kind(&ir, "isw010100"), EntityKind::Switch { level: Some(0) });
    assert_eq!(kind(&ir, "isw020101"), EntityKind::Switch { level: Some(1) });
    assert_eq!(kind(&ir, "lrdn0003"), EntityKind::Compute);
    assert_eq!(meta(&ir, "isw010101", "cell").unwrap(), "CELLG1");
    assert_eq!(meta(&ir, "isw020100", "rack").unwrap(), "0201");
    assert_eq!(meta(&ir, "isw010100", "pair_index").unwrap(), "0");
    assert_eq!(meta(&ir, "isw010101", "pair_index").unwrap(), "0");
    assert_eq!(
        links(&ir),
        vec![
            l("isw010100", "lrdn0001", 1000),
            l("isw010100", "lrdn0002", 1000),
            l("isw010100", "isw010101", 1000),
            l("isw020100", "lrdn0003", 1000),
            l("isw020100", "lrdn0004", 1000),
            l("isw020100", "isw020101", 1000),
        ]
    );
}

#[test]
fn leonardo_pair_index_is_switch_pair() {
    let raw = "SwitchName=isw010100 Level=0 Nodes=lrdn0001\nSwitchName=isw010101 Level=0\nSwitchName=isw010104 Level=0\nSwitchName=isw010105 Level=1\nSwitchName=isw-L2-CELLG1 Level=1 Switches=isw[010100-010101],isw[010104-010105]\n";
    let ir = LeonardoParser::default().parse_topology_raw(raw).unwrap();
    assert_eq!(meta(&ir, "isw010100", "pair_index").unwrap(), "0");
    assert_eq!(meta(&ir, "isw010101", "pair_index").unwrap(), "0");
    assert_eq!(meta(&ir, "isw010104", "pair_index").unwrap(), "2");
    assert_eq!(meta(&ir, "isw010105", "pair_index").unwrap(), "2");
    assert_eq!(meta(&ir, "isw010105", "rack").unwrap(), "0101");
}

#[test]
fn leonardo_inter_cell_links() {
    let p = LeonardoParser::default();
    let mut ir = p.parse_topology_raw(LEONARDO).unwrap();
    let before = ir.links.len();
    p.enrich_inter_cell_links(&mut ir);
    assert_eq!(ir.links.len(), before + 1);
    assert_eq!(links(&ir)[before], l("isw010101", "isw020101", 2000));
}

#[test]
fn leonardo_without_pair_links() {
    let mut p = LeonardoParser::default();
    p.options.intra_pair_links = false;
    let ir = p.parse_topology_raw(LEONARDO).unwrap();
    assert_eq!(ir.links.len(), 4);
}

#[test]
fn leonardo_bad_node_list_is_an_error() {
    let e = LeonardoParser::default().parse_topology_raw("SwitchName=isw010100 Nodes=lrdn[1-\n").unwrap_err();
    assert_eq!(e.msg, "missing closing ']'");
}

#[test]
fn leonardo_build_filters_drained_nodes() {
    let infos = vec![
        NodeInfo { hostname: "lrdn0002".to_string(), partition: "boost".to_string(), state: NodeState::Drained },
        NodeInfo { hostname: "lrdn0001".to_string(), partition: "boost".to_string(), state: NodeState::Idle },
    ];
    let ir = LeonardoParser::default().build(LEONARDO, Some(infos), &NodeFilterOptions::default()).unwrap();
    assert!(!ids(&ir).contains(&"lrdn0002".to_string()));
    assert_eq!(meta(&ir, "lrdn0001", "partition").unwrap(), "boost");
    assert_eq!(meta(&ir, "lrdn0001", "state").unwrap(), "idle");
    // The L2 switches never had a compute node below them: they stay.
    assert!(ids(&ir).contains(&"isw010101".to_string()));
    assert!(ids(&ir).contains(&"isw010100".to_string()));
    assert_eq!(ir.links.len(), 6);
}

#[test]
fn leonardo_pair_shares_metadata_and_link() {
    let raw = "SwitchName=isw010100 Level=0 Nodes=lrdn[0001-0002]
SwitchName=isw010101 Level=0
SwitchName=isw-L2-CELLG1 Level=1 Switches=isw[010100-010101]
";
    let ir = LeonardoParser::default().parse_topology_raw(raw).unwrap();
    assert_eq!(ids(&ir), vec!["isw010100", "isw010101", "lrdn0001", "lrdn0002"]);
    assert_eq!(kind(&ir, "isw010101"), EntityKind::Switch { level: Some(1) });
    for sw in ["isw010100", "isw010101"] {
        assert_eq!(meta(&ir, sw, "cell").unwrap(), "CELLG1");
        assert_eq!(meta(&ir, sw, "rack").unwrap(), "0101");
        assert_eq!(meta(&ir, sw, "pair_index").unwrap(), "0");
    }
    assert_eq!(
        links(&ir),
        vec![
            l("isw010100", "lrdn0001", 1000),
            l("isw010100", "lrdn0002", 1000),
            l("isw010100", "isw010101", 1000),
        ]
    );
}

const JUPITER: &str = "\
SwitchName=jpbi-001-l1-01 Level=0 Nodes=jpbo-001-[01-02]
SwitchName=jpbi-002-l1-01 Level=0 Nodes=jpbo-002-01,jpsv-x
SwitchName=jpbi-001-l2-01 Level=1 Switches=jpbi-[001-002]-l1-01
SwitchName=HeadSwitch Level=2 Switches=jpbi-001-l2-01
";

#[test]
fn jupiter_name_helpers() {
    match parse_switch_name(&cs("jpbi-003-l1-02")) {
        Some(SwitchInfo::L1 { rack, index }) => {
            assert_eq!(rack, "003");
            assert_eq!(index, "02");
        },
        _ => panic!("not an L1 switch"),
    }
    match parse_switch_name(&cs("jpbi-004-l2-01-x")) {
        Some(SwitchInfo::L2 { anchor_rack, index }) => {
            assert_eq!(anchor_rack, "004");
            assert_eq!(index, "01-x");
        },
        _ => panic!("not an L2 switch"),
    }
    assert!(parse_switch_name(&cs("jpbi-004-l3-01")).is_none());
    assert!(parse_switch_name(&cs("jpbi-004")).is_none());
    assert!(is_head_switch(&cs("HeadSwitch")));
    assert!(is_l1_switch(&cs("jpbi-001-l1-01")));
    assert!(is_l2_switch(&cs("jpbi-001-l2-01")));
    assert!(!is_l2_switch(&cs("jpbi-001-l1-01")));
    assert_eq!(rack_from_node_name(&cs("jpbo-017-05")), Some("017".to_string()));
    assert_eq!(rack_from_node_name(&cs("jpbo-017")), Some("017".to_string()));
    assert_eq!(rack_from_node_name(&cs("node-1")), None);
}

#[test]
fn jupiter_parse_builds_groups() {
    let ir = JupiterParser::default().parse_topology_raw(JUPITER).unwrap();
    assert_eq!(
        ids(&ir),
        vec!["jpbi-001-l1-01", "jpbi-002-l1-01", "jpbi-001-l2-01", "jpbo-001-01", "jpbo-001-02", "jpbo-002-01"]
    );
    assert_eq!(kind(&ir, "jpbi-001-l2-01"), EntityKind::Switch { level: Some(1) });
    assert_eq!(meta(&ir, "jpbi-001-l2-01", "cell").unwrap(), "group-001");
    assert!(meta(&ir, "jpbi-001-l2-01", "anchor_rack").is_none());
    assert_eq!(meta(&ir, "jpbi-002-l1-01", "cell").unwrap(), "group-001");
    assert_eq!(meta(&ir, "jpbi-002-l1-01", "l1_index").unwrap(), "01");
    assert_eq!(meta(&ir, "jpbo-002-01", "rack").unwrap(), "002");
    assert_eq!(
        links(&ir),
        vec![
            l("jpbi-001-l1-01", "jpbo-001-01", 1000),
            l("jpbi-001-l1-01", "jpbo-001-02", 1000),
            l("jpbi-001-l1-01", "jpbi-001-l2-01", 2000),
            l("jpbi-002-l1-01", "jpbo-002-01", 1000),
            l("jpbi-002-l1-01", "jpbi-001-l2-01", 2000),
        ]
    );
}

#[test]
fn jupiter_group_takes_least_rack() {
    let raw = "SwitchName=jpbi-003-l1-01 Level=0 Nodes=jpbo-003-01
SwitchName=jpbi-002-l1-01 Level=0 Nodes=jpbo-002-01
SwitchName=jpbi-003-l2-01 Level=1 Switches=jpbi-003-l1-01,jpbi-002-l1-01
";
    let ir = JupiterParser::default().parse_topology_raw(raw).unwrap();
    assert_eq!(meta(&ir, "jpbi-003-l2-01", "cell").unwrap(), "group-002");
    assert_eq!(meta(&ir, "jpbi-003-l1-01", "cell").unwrap(), "group-002");
    assert_eq!(meta(&ir, "jpbi-003-l1-01", "rack").unwrap(), "003");
    assert_eq!(meta(&ir, "jpbi-003-l2-01", "l2_index").unwrap(), "01");
    assert!(links(&ir).contains(&l("jpbi-002-l1-01", "jpbi-003-l2-01", 2000)));
}

#[test]
fn jupiter_single_group_has_no_inter_group_links() {
    let p = JupiterParser::default();
    let mut ir = p.parse_topology_raw(JUPITER).unwrap();
    let n = ir.links.len();
    p.enrich_inter_cell_links(&mut ir);
    assert_eq!(ir.links.len(), n);
}

fn sw(id: &str, group: Option<&str>) -> TomlSwitch {
    TomlSwitch { id: id.to_string(), group: group.map(|g| g.to_string()), level: None, extra: vec![] }
}

fn node(id: &str, switch: &str) -> TomlNode {
    TomlNode { id: id.to_string(), switch: switch.to_string(), xname: Some(format!("x-{id}")), extra: vec![] }
}

fn doc() -> TomlTopology {
    TomlTopology {
        meta: TomlMeta { w_node_switch: None, w_switch_switch: None },
        switch: vec![sw("s1", Some("g1")), sw("s2", Some("g1")), sw("s3", Some("g2")), sw("s4", Some("g2"))],
        node: vec![node("n1", "s1"), node("n2", "s2"), node("n3", "s3")],
        link: vec![TomlLink { a: "s1".to_string(), b: "s3".to_string(), weight: 2500 }],
    }
}

#[test]
fn toml_document_becomes_topology() {
    let p = TomlTopologyParser::default();
    let ir = p.parse_document(&doc());
    assert_eq!(ids(&ir), vec!["s1", "s2", "s3", "n1", "n2", "n3"]);
    assert_eq!(meta(&ir, "s2", "cell").unwrap(), "g1");
    assert_eq!(meta(&ir, "n3", "xname").unwrap(), "x-n3");
    assert_eq!(kind(&ir, "s3"), EntityKind::Switch { level: Some(0) });
    assert_eq!(
        links(&ir),
        vec![l("s1", "n1", 1000), l("s2", "n2", 1000), l("s3", "n3", 1000), l("s1", "s3", 2500), l("s1", "s2", 1000)]
    );
}

#[test]
fn toml_inter_group_links_pair_by_position() {
    let p = TomlTopologyParser::default();
    let mut ir = p.parse_document(&doc());
    p.enrich_inter_cell_links(&mut ir, &doc());
    assert_eq!(links(&ir).last().unwrap(), &l("s1", "s3", 1000));
    assert_eq!(ir.links.len(), 6);
}

#[test]
fn toml_inter_group_links_take_switch_weight() {
    let mut d = doc();
    d.meta.w_switch_switch = Some(3000);
    let p = TomlTopologyParser::default();
    let mut ir = p.parse_document(&d);
    p.enrich_inter_cell_links(&mut ir, &d);
    assert_eq!(links(&ir).last().unwrap(), &l("s1", "s3", 3000));
}

#[test]
fn toml_custom_weights() {
    let mut d = doc();
    d.meta.w_node_switch = Some(500);
    d.meta.w_switch_switch = Some(3000);
    let ir = TomlTopologyParser::default().parse_document(&d);
    assert_eq!(links(&ir)[0], l("s1", "n1", 500));
    assert_eq!(links(&ir)[4], l("s1", "s2", 3000));
}

fn alps_ir() -> TopologyIR {
    let mut ir = TopologyIR::new();
    let mut add = |id: &str, kind: EntityKind, cell: Option<&str>| {
        let mut m = StrMap::new();
        if let Some(c) = cell {
            m.insert("cell".to_string(), c.to_string());
        }
        ir.add_entity(Entity { id: Id::from(id), kind, meta: m });
    };
    add("c1", EntityKind::Switch { level: None }, None);
    add("c2", EntityKind::Switch { level: None }, None);
    add("r1", EntityKind::Switch { level: Some(0) }, Some("c1"));
    add("r2", EntityKind::Switch { level: Some(0) }, Some("c1"));
    add("r3", EntityKind::Switch { level: Some(0) }, Some("c2"));
    add("r4", EntityKind::Switch { level: Some(0) }, None);
    for n in ["n1", "n2", "n3", "n4", "n5"] {
        add(n, EntityKind::Compute, None);
    }
    for (p, c) in [("c1", "r1"), ("c1", "r2"), ("c2", "r3"), ("r1", "n1"), ("r1", "n2"), ("r2", "n3"), ("r3", "n4"), ("r4", "n5")] {
        ir.add_contains(Id::from(p), Id::from(c));
        ir.add_link(Id::from(p), Id::from(c), 1000);
    }
    ir
}

const ALPS: &str = "\
SwitchName=group1 Level=0 LinkSpeed=1 Nodes=n[1-3]
SwitchName=group2 Level=0 LinkSpeed=1 Nodes=n4
SwitchName=global Level=1 Switches=group[1-2]
SwitchName=bare Level=0
";

#[test]
fn alps_groups_are_parsed() {
    let gs = parse_groups(ALPS).unwrap();
    assert_eq!(gs.len(), 2);
    assert_eq!(gs[0].name, "group1");
    assert_eq!(gs[0].nodes, vec!["n1", "n2", "n3"]);
    assert_eq!(gs[1].nodes, vec!["n4"]);
}

#[test]
fn alps_cabinets_become_groups() {
    let r = get_groups_from_topo(alps_ir(), ALPS).unwrap();
    assert_eq!(ids(&r), vec!["r1", "r2", "r3", "n1", "n2", "n3", "n4", "n5", "group1", "group2"]);
    assert_eq!(kind(&r, "group1"), EntityKind::Group);
    assert_eq!(meta(&r, "group1", "cabinet_xname").unwrap(), "c1");
    assert_eq!(meta(&r, "r1", "cell").unwrap(), "group1");
    assert_eq!(meta(&r, "r1", "cabinet").unwrap(), "c1");
    assert_eq!(meta(&r, "r3", "cell").unwrap(), "group2");
    let contains: Vec<(String, Vec<String>)> =
        r.contains.iter().map(|(p, ch)| (p.0.clone(), ch.iter().map(|c| c.0.clone()).collect())).collect();
    assert_eq!(
        contains,
        vec![
            ("group1".to_string(), vec!["r1".to_string(), "r2".to_string()]),
            ("group2".to_string(), vec!["r3".to_string()]),
            ("r1".to_string(), vec!["n1".to_string(), "n2".to_string()]),
            ("r2".to_string(), vec!["n3".to_string()]),
            ("r3".to_string(), vec!["n4".to_string()]),
        ]
    );
    assert_eq!(links(&r)[0], l("group1", "r1", 1000));
    assert_eq!(r.links.len(), 7);
}

#[test]
fn alps_bad_node_list_is_an_error() {
    assert!(get_groups_from_topo(alps_ir(), "SwitchName=g Level=0 Nodes=n[1-\n").is_err());
}
