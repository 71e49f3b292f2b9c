//! The command line of the tools: its options, and the decisions taken
//! from them: where the topology comes from, which backend loads it, and
//! which nodes are filtered out afterwards.
use vstd::prelude::*;
use crate::alps::opt_view;
use crate::ir::TopologyIR;
use crate::order::chars_eq_str;
use crate::nodelist::{expand_nodelist, expand_nodelist_spec, NodeListParseError};
use crate::topology::{blacklist_kept, filter_by_blacklist, filter_by_partition, partition_kept, SinfoSource};
use crate::text::{chars_of, lines, lines_of, string_of, trim, trim_chars, views};

verus! {

/// System-specific topology files.
pub struct TopoArgs {
    /// Path to the system-specific topology file.
    pub topology_file: Option<String>,
    /// Path to a TOML topology description.
    pub topology_toml_file: Option<String>,
}

/// The options of the tools.
pub struct Cli {
    /// Path to the query file; standard input when absent.
    pub query: Option<String>,
    /// Explicit node list (SLURM node-list syntax).
    pub nodelist: Option<String>,
    /// Nodes to leave out (SLURM node-list syntax).
    pub nodes_blacklist: Option<String>,
    /// Consider all available nodes.
    pub all_nodes: bool,
    /// Informational output.
    pub verbose: bool,
    /// System name: `leonardo`, `jupiter` or `alps`.
    pub system: String,
    /// System-specific topology source.
    pub topo_source: TopoArgs,
    /// Read `sinfo` output from this file instead of running the command.
    pub sinfo_file: Option<String>,
    /// Keep only nodes of this partition.
    pub partition: Option<String>,
    /// Keep draining, drained and down nodes.
    pub include_unavailable: bool,
    /// Seed of the placement generator.
    pub seed: Option<u64>,
    /// Draw the topology.
    pub visualize: bool,
    /// File to write the drawing to.
    pub out_svg: Option<String>,
}

/// Where the topology comes from: `scontrol show topology`, or files (the
/// system-specific one and the TOML one, either may be absent).
pub enum TopoSource {
    Command,
    Files(Option<String>, Option<String>),
}

/// The files named, as a source: none means the command.
pub fn resolve_topo_source(args: &TopoArgs) -> (r: TopoSource)
    ensures
        (args.topology_file is None && args.topology_toml_file is None) ==> r is Command,
        !(args.topology_file is None && args.topology_toml_file is None) ==> (r matches TopoSource::Files(f, t) && opt_view(f)
            == opt_view(args.topology_file) && opt_view(t) == opt_view(args.topology_toml_file)),
{
    match (&args.topology_file, &args.topology_toml_file) {
        (None, None) => TopoSource::Command,
        (f, t) => TopoSource::Files(copy_opt(f), copy_opt(t)),
    }
}

fn copy_opt(o: &Option<String>) -> (r: Option<String>)
    ensures
        opt_view(r) == opt_view(*o),
{
    match o {
        Some(s) => Some(s.clone()),
        None => None,
    }
}

/// `sinfo` records come from the file given, else from the command.
pub fn resolve_sinfo_source(args: &Cli) -> (r: SinfoSource)
    ensures
        match args.sinfo_file {
            Some(f) => r matches SinfoSource::File(p) && p@ == f@,
            None => r is Command,
        },
{
    match &args.sinfo_file {
        Some(f) => SinfoSource::File(f.clone()),
        None => SinfoSource::Command,
    }
}

/// How to load the topology.
pub enum LoadPlan {
    /// ALPS: build from the TOML file, then group the switches by the
    /// groups listed in the system-specific file.
    Alps { toml: String, groups_file: Option<String> },
    /// Leonardo from `scontrol show topology`.
    LeonardoScontrol,
    /// Jupiter from `scontrol show topology`.
    JupiterScontrol,
    /// Leonardo from a saved `scontrol show topology` output.
    LeonardoFile(String),
    /// Jupiter from a saved `scontrol show topology` output.
    JupiterFile(String),
    /// Any system from its TOML description alone.
    Toml(String),
    /// Stop with this message and exit code.
    Exit { message: String, code: i32 },
    /// Fail with this error.
    Fail(String),
}

/// The message for an ALPS run without a TOML file.
pub open spec fn alps_needs_toml() -> Seq<char> {
    "error: System ALPS requires a TOML file (you can find it in systems/)."@
}

/// The message for a system without a backend.
pub open spec fn unknown_system_text(name: Seq<char>) -> Seq<char> {
    "error: Unknown system '"@ + name + "'. Supported: leonardo, jupiter, alps."@
}

/// The plan for system `system` (whose lower-case form is `lower`) with
/// the topology from `source`; `file` is the system-specific file named.
pub open spec fn plan_ok(r: LoadPlan, system: Seq<char>, lower: Seq<char>, source: TopoSource, file: Option<Seq<char>>) -> bool {
    if system == "alps"@ {
        match source {
            TopoSource::Files(f, Some(t)) => r matches LoadPlan::Alps { toml, groups_file } && toml@ == t@ && opt_view(groups_file)
                == opt_view(f),
            _ => r matches LoadPlan::Exit { message, code } && message@ == alps_needs_toml() && code == 1,
        }
    } else {
        match source {
            TopoSource::Command => if lower == "leonardo"@ {
                r is LeonardoScontrol
            } else if lower == "jupiter"@ {
                r is JupiterScontrol
            } else {
                r matches LoadPlan::Exit { message, code } && message@ == unknown_system_text(lower) && code == 3
            },
            TopoSource::Files(_, t) => match file {
                Some(x) => if lower == "leonardo"@ {
                    r matches LoadPlan::LeonardoFile(p) && p@ == x
                } else if lower == "jupiter"@ {
                    r matches LoadPlan::JupiterFile(p) && p@ == x
                } else {
                    r matches LoadPlan::Exit { message, code } && message@ == unknown_system_text(lower) && code == 3
                },
                None => match t {
                    Some(toml) => r matches LoadPlan::Toml(p) && p@ == toml@,
                    None => r matches LoadPlan::Fail(m) && m@ == "error: should not happen."@,
                },
            },
        }
    }
}

fn unknown_system(name: &String) -> (r: LoadPlan)
    ensures
        r matches LoadPlan::Exit { message, code } && message@ == unknown_system_text(name@) && code == 3,
{
    let mut m = String::from_str("error: Unknown system '");
    m.append(name.as_str());
    m.append("'. Supported: leonardo, jupiter, alps.");
    LoadPlan::Exit { message: m, code: 3 }
}

/// The plan for system `system`, whose lower-case form is `lower`.
pub fn plan_load_with(system: &String, lower: &String, source: &TopoSource, file: &Option<String>) -> (r: LoadPlan)
    ensures
        plan_ok(r, system@, lower@, *source, opt_view(*file)),
{
    if chars_eq_str(system.as_str(), "alps") {
        match source {
            TopoSource::Files(f, Some(t)) => LoadPlan::Alps { toml: t.clone(), groups_file: copy_opt(f) },
            _ => LoadPlan::Exit { message: String::from_str("error: System ALPS requires a TOML file (you can find it in systems/)."), code: 1 },
        }
    } else {
        match source {
            TopoSource::Command => {
                if chars_eq_str(lower.as_str(), "leonardo") {
                    LoadPlan::LeonardoScontrol
                } else if chars_eq_str(lower.as_str(), "jupiter") {
                    LoadPlan::JupiterScontrol
                } else {
                    unknown_system(lower)
                }
            },
            TopoSource::Files(_, t) => match file {
                Some(x) => {
                    if chars_eq_str(lower.as_str(), "leonardo") {
                        LoadPlan::LeonardoFile(x.clone())
                    } else if chars_eq_str(lower.as_str(), "jupiter") {
                        LoadPlan::JupiterFile(x.clone())
                    } else {
                        unknown_system(lower)
                    }
                },
                None => match t {
                    Some(toml) => LoadPlan::Toml(toml.clone()),
                    None => LoadPlan::Fail(String::from_str("error: should not happen.")),
                },
            },
        }
    }
}

/// The lower-case form of a string (Unicode rules).
pub uninterp spec fn lowercase(s: Seq<char>) -> Seq<char>;

/// The lower-case version of a text: on ASCII text the capitals A to Z made
/// small, otherwise `lowercase`.
pub open spec fn downcase(s: Seq<char>) -> Seq<char> {
    if crate::text::ascii_text(s) {
        crate::text::ascii_lower(s)
    } else {
        lowercase(s)
    }
}

/// `str::to_lowercase`: its result is named `lowercase`; on ASCII text it
/// makes the capitals A to Z small and keeps every other character.
#[verifier::external_body]
fn to_lower(s: &str) -> (r: String)
    ensures
        r@ == lowercase(s@),
        crate::text::ascii_text(s@) ==> r@ == crate::text::ascii_lower(s@),
{
    s.to_lowercase()
}

/// How to load the topology the options ask for, from `source`.
pub fn plan_load(cli: &Cli, source: &TopoSource) -> (r: LoadPlan)
    ensures
        plan_ok(r, cli.system@, downcase(cli.system@), *source, opt_view(cli.topo_source.topology_file)),
{
    let lower = to_lower(cli.system.as_str());
    assert(lower@ == downcase(cli.system@));
    plan_load_with(&cli.system, &lower, source, &cli.topo_source.topology_file)
}

/// Expand the blacklist option, or say why it cannot be read.
pub fn parse_blacklist(raw: &str) -> (r: Result<Vec<String>, NodeListParseError>)
    ensures
        match expand_nodelist_spec(raw@) {
            Ok(names) => r matches Ok(v) && views(v@) == names,
            Err(m) => r matches Err(e) && e.msg@ == "failed to parse nodes blacklist arg: "@ + raw@ + ". error: "@
                + "Invalid SLURM nodelist: "@ + m,
        },
{
    match expand_nodelist(raw) {
        Ok(v) => Ok(v),
        Err(e) => {
            let mut m = String::from_str("failed to parse nodes blacklist arg: ");
            m.append(raw);
            m.append(". error: ");
            let inner = e.to_message();
            m.append(inner.as_str());
            Err(NodeListParseError::new(m))
        },
    }
}

/// The filters the options ask for after loading: first the partition,
/// then the blacklist.
pub fn apply_cli_filters(ir: TopologyIR, partition: &Option<String>, blacklist: &Option<Vec<String>>) -> (r: TopologyIR)
    ensures
        r@ == (match blacklist {
            Some(b) => blacklist_kept(
                match partition {
                    Some(p) => partition_kept(ir@, p@),
                    None => ir@,
                },
                views(b@),
            ),
            None => match partition {
                Some(p) => partition_kept(ir@, p@),
                None => ir@,
            },
        }),
{
    let ir = match partition {
        Some(p) => filter_by_partition(ir, p.as_str()),
        None => ir,
    };
    match blacklist {
        Some(b) => filter_by_blacklist(ir, b),
        None => ir,
    }
}

/// The host names in the output of `scontrol show hostnames`: its lines,
/// trimmed, without the empty ones.
pub open spec fn hostnames_spec(out: Seq<char>) -> Seq<Seq<char>> {
    lines_of(out).map_values(|l: Seq<char>| trim(l)).filter(|l: Seq<char>| l.len() > 0)
}

/// The host names in the output of `scontrol show hostnames`.
pub fn hostnames_from_output(out: &str) -> (r: Vec<String>)
    ensures
        views(r@) == hostnames_spec(out@),
{
    let cs = chars_of(out);
    let ls = lines(cs.as_slice());
    let ghost lv = ls@.map_values(|x: Vec<char>| x@);
    let ghost tv = lv.map_values(|l: Seq<char>| trim(l));
    let ghost pred = |l: Seq<char>| l.len() > 0;
    let mut r: Vec<String> = Vec::new();
    let mut i: usize = 0;
    assert(tv.take(0).filter(pred) =~= Seq::<Seq<char>>::empty()) by {
        reveal(Seq::filter);
    }
    while i < ls.len()
        invariant
            lv == ls@.map_values(|x: Vec<char>| x@),
            tv == lv.map_values(|l: Seq<char>| trim(l)),
            pred == (|l: Seq<char>| l.len() > 0),
            i <= lv.len(),
            views(r@) == tv.take(i as int).filter(pred),
        decreases ls.len() - i,
    {
        proof {
            assert(tv.take(i + 1) == tv.take(i as int).push(tv[i as int]));
            tv.take(i as int).lemma_filter_push(tv[i as int], pred);
        }
        let t = trim_chars(ls[i].as_slice());
        assert(t@ == tv[i as int]);
        if t.len() > 0 {
            let ghost before = views(r@);
            r.push(string_of(t.as_slice()));
            assert(views(r@) =~= before.push(t@));
        }
        i = i + 1;
    }
    assert(tv.take(i as int) == tv);
    r
}

/// The default file of a drawing of system `system`.
pub fn default_svg_name(system: &str) -> (r: String)
    ensures
        r@ == "topo_"@ + system@ + ".svg"@,
{
    let mut s = String::from_str("topo_");
    s.append(system);
    s.append(".svg");
    s
}

} // verus!
