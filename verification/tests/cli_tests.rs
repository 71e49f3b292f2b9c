use job_placer::cli::{
    apply_cli_filters, default_svg_name, hostnames_from_output, parse_blacklist, plan_load, resolve_sinfo_source, resolve_topo_source, Cli, LoadPlan, TopoArgs, TopoSource,
};
use job_placer::ir::{Entity, EntityKind, Id, TopologyIR};
use job_placer::kv::StrMap;
use job_placer::topology::SinfoSource;

fn cli(system: &str, file: Option<&str>, toml: Option<&str>) -> Cli {
    Cli {
        query: None,
        nodelist: None,
        nodes_blacklist: None,
        all_nodes: false,
        verbose: false,
        system: system.to_string(),
        topo_source: TopoArgs { topology_file: file.map(|s| s.to_string()), topology_toml_file: toml.map(|s| s.to_string()) },
        sinfo_file: None,
        partition: None,
        include_unavailable: false,
        seed: None,
        visualize: false,
        out_svg: None,
    }
}

fn plan(system: &str, file: Option<&str>, toml: Option<&str>) -> LoadPlan {
    let c = cli(system, file, toml);
    let src = resolve_topo_source(&c.topo_source);
    plan_load(&c, &src)
}

fn exit_of(p: LoadPlan) -> (String, i32) {
    match p {
        LoadPlan::Exit { message, code } => (message, code),
        _ => panic!("expected an exit"),
    }
}

#[test]
fn topo_source_from_files() {
    let c = cli("leonardo", None, None);
    assert!(matches!(resolve_topo_source(&c.topo_source), TopoSource::Command));
    let c = cli("leonardo", Some("t.txt"), Some("t.toml"));
    match resolve_topo_source(&c.topo_source) {
        TopoSource::Files(f, t) => {
            assert_eq!(f.as_deref(), Some("t.txt"));
            assert_eq!(t.as_deref(), Some("t.toml"));
        },
        TopoSource::Command => panic!("expected files"),
    }
}

#[test]
fn sinfo_source_from_file_or_command() {
    let mut c = cli("leonardo", None, None);
    assert!(matches!(resolve_sinfo_source(&c), SinfoSource::Command));
    c.sinfo_file = Some("s.txt".to_string());
    assert!(matches!(resolve_sinfo_source(&c), SinfoSource::File(p) if p == "s.txt"));
}

#[test]
fn plans_for_each_system() {
    assert!(matches!(plan("leonardo", None, None), LoadPlan::LeonardoScontrol));
    assert!(matches!(plan("jupiter", None, None), LoadPlan::JupiterScontrol));
    assert!(matches!(plan("jupiter", Some("j.txt"), None), LoadPlan::JupiterFile(p) if p == "j.txt"));
    assert!(matches!(plan("LEONARDO", Some("l.txt"), Some("x.toml")), LoadPlan::LeonardoFile(p) if p == "l.txt"));
    assert!(matches!(plan("leonardo", None, Some("x.toml")), LoadPlan::Toml(p) if p == "x.toml"));
    match plan("alps", Some("groups.txt"), Some("alps.toml")) {
        LoadPlan::Alps { toml, groups_file } => {
            assert_eq!(toml, "alps.toml");
            assert_eq!(groups_file.as_deref(), Some("groups.txt"));
        },
        _ => panic!("expected the ALPS plan"),
    }
}

#[test]
fn plans_that_stop() {
    let (m, c) = exit_of(plan("alps", None, None));
    assert_eq!(m, "error: System ALPS requires a TOML file (you can find it in systems/).");
    assert_eq!(c, 1);
    let (_, c) = exit_of(plan("alps", Some("groups.txt"), None));
    assert_eq!(c, 1);
    let (m, c) = exit_of(plan("ALPS", None, None));
    assert_eq!(m, "error: Unknown system 'alps'. Supported: leonardo, jupiter, alps.");
    assert_eq!(c, 3);
    let (m, _) = exit_of(plan("summit", Some("s.txt"), None));
    assert_eq!(m, "error: Unknown system 'summit'. Supported: leonardo, jupiter, alps.");
}

#[test]
fn blacklist_errors_name_the_argument() {
    assert_eq!(parse_blacklist("n[1-2]").unwrap(), vec!["n1", "n2"]);
    let e = parse_blacklist("n[1-2").unwrap_err();
    assert_eq!(e.msg, "failed to parse nodes blacklist arg: n[1-2. error: Invalid SLURM nodelist: missing closing ']'");
}

#[test]
fn cli_filters_drop_other_partitions_then_blacklisted_nodes() {
    let mut ir = TopologyIR::new();
    ir.add_entity(Entity { id: Id::from("s1"), kind: EntityKind::Switch { level: Some(0) }, meta: StrMap::new() });
    for (n, p) in [("n1", "batch"), ("n2", "debug"), ("n3", "batch,debug")] {
        let mut m = StrMap::new();
        m.insert("partition".to_string(), p.to_string());
        ir.add_entity(Entity { id: Id::from(n), kind: EntityKind::Compute, meta: m });
        ir.add_contains(Id::from("s1"), Id::from(n));
    }
    let r = apply_cli_filters(ir, &Some("batch".to_string()), &Some(vec!["n3".to_string()]));
    let ids: Vec<String> = r.entities.iter().map(|e| e.id.0.clone()).collect();
    assert_eq!(ids, vec!["s1", "n1"]);
}

#[test]
fn hostnames_are_trimmed_lines() {
    assert_eq!(hostnames_from_output("n1\n  n2 \r\n\n n3"), vec!["n1", "n2", "n3"]);
    assert_eq!(hostnames_from_output(""), Vec::<String>::new());
    assert_eq!(default_svg_name("leonardo"), "topo_leonardo.svg");
}
