use job_placer::nodelist::NodeListParseError;
use job_placer::sinfo::{index_by_hostname, parse_header_format, parse_sinfo_output, NodeInfo, NodeState};

fn rec(h: &str, p: &str, s: NodeState) -> (String, String, NodeState) {
    (h.to_string(), p.to_string(), s)
}

fn flat(v: Vec<NodeInfo>) -> Vec<(String, String, NodeState)> {
    v.into_iter().map(|i| (i.hostname, i.partition, i.state)).collect()
}

#[test]
fn state_names_are_recognised() {
    assert_eq!(NodeState::from_str("alloc"), NodeState::Allocated);
    assert_eq!(NodeState::from_str("allocated*"), NodeState::Allocated);
    assert_eq!(NodeState::from_str("mix~"), NodeState::Mixed);
    assert_eq!(NodeState::from_str("idle#"), NodeState::Idle);
    assert_eq!(NodeState::from_str("drng"), NodeState::Draining);
    assert_eq!(NodeState::from_str("drain!"), NodeState::Drained);
    assert_eq!(NodeState::from_str("down*~"), NodeState::Down);
    assert_eq!(NodeState::from_str("plnd*"), NodeState::Other("plnd".to_string()));
}

#[test]
fn unavailable_states() {
    assert!(NodeState::Draining.is_unavailable());
    assert!(NodeState::Drained.is_unavailable());
    assert!(NodeState::Down.is_unavailable());
    assert!(!NodeState::Idle.is_unavailable());
    assert!(!NodeState::Mixed.is_unavailable());
    assert!(!NodeState::Other("x".to_string()).is_unavailable());
}

#[test]
fn parses_fixed_format() {
    let raw = "nid005758 normal* plnd\nnid005759 low     alloc\n\n";
    let r = flat(parse_sinfo_output(raw).unwrap());
    assert_eq!(
        r,
        vec![
            rec("nid005758", "normal", NodeState::Other("plnd".to_string())),
            rec("nid005759", "low", NodeState::Allocated),
        ]
    );
}

#[test]
fn fixed_format_expands_and_skips() {
    let raw = "n[1-2] debug idle\nN/A debug idle\nshort line\n";
    let r = flat(parse_sinfo_output(raw).unwrap());
    assert_eq!(r, vec![rec("n1", "debug", NodeState::Idle), rec("n2", "debug", NodeState::Idle)]);
}

#[test]
fn parses_header_format() {
    let raw = "\
PARTITION AVAIL STATE NODELIST
debug     up    alloc nid[006544-006545]
batch*    up    drain nid006546
";
    let r = flat(parse_sinfo_output(raw).unwrap());
    assert_eq!(
        r,
        vec![
            rec("nid006544", "debug", NodeState::Allocated),
            rec("nid006545", "debug", NodeState::Allocated),
            rec("nid006546", "batch", NodeState::Drained),
        ]
    );
}

#[test]
fn header_without_state_column_fails() {
    let lines: Vec<Vec<char>> = vec!["PARTITION AVAIL NODELIST".chars().collect(), "debug up n1".chars().collect()];
    let e: NodeListParseError = parse_header_format(&lines).unwrap_err();
    assert_eq!(e.msg, "sinfo table header missing STATE column");
}

#[test]
fn header_columns_may_come_in_any_order() {
    let raw = "STATE PARTITION NODELIST\nidle  debug     n1\n";
    let r = flat(parse_sinfo_output(raw).unwrap());
    assert_eq!(r, vec![rec("n1", "debug", NodeState::Idle)]);
}

#[test]
fn lower_case_header_is_recognised() {
    let raw = "partition state nodelist\ndebug     alloc n[1-2]\n";
    let r = flat(parse_sinfo_output(raw).unwrap());
    assert_eq!(r, vec![rec("n1", "debug", NodeState::Allocated), rec("n2", "debug", NodeState::Allocated)]);
}

#[test]
fn bad_node_list_fails() {
    let e = parse_sinfo_output("n[1-2 debug idle\n").unwrap_err();
    assert_eq!(e.msg, "missing closing ']'");
}

#[test]
fn empty_input_gives_no_records() {
    assert!(parse_sinfo_output("").unwrap().is_empty());
    assert!(parse_sinfo_output("\n   \n").unwrap().is_empty());
}

#[test]
fn index_groups_records_by_host() {
    let infos = vec![
        NodeInfo { hostname: "a".to_string(), partition: "p1".to_string(), state: NodeState::Idle },
        NodeInfo { hostname: "b".to_string(), partition: "p1".to_string(), state: NodeState::Idle },
        NodeInfo { hostname: "a".to_string(), partition: "p2".to_string(), state: NodeState::Down },
    ];
    let idx = index_by_hostname(infos);
    assert_eq!(idx.len(), 2);
    assert_eq!(idx[0].0, "a");
    assert_eq!(idx[0].1.len(), 2);
    assert_eq!(idx[0].1[1].partition, "p2");
    assert_eq!(idx[1].0, "b");
    assert_eq!(idx[1].1.len(), 1);
}
