//! Graphviz (DOT) drawing of a topology: one cluster per cell, inside it one
//! per rack, inside that one per L1 switch with its compute nodes.  Nodes
//! of an allocation are coloured by job, with a legend.
use vstd::prelude::*;
use vstd::string::*;
use crate::alps::opt_view;
use crate::ir::{Entity, EntityKind, EntityView, Id, IRView, TopologyIR};
use crate::order::{sorted_list, sorted_set_of, sorted_version, sort_strings};
use crate::stats::alloc_view;
use crate::text::{chars_of, dec_digits, extend_chars, format_padded, string_of, views};

verus! {

broadcast use vstd::seq_lib::group_seq_properties;

/// What the drawing shows besides switches and nodes.
pub struct DisplayOptions {
    /// Draw the L2 switches inside each rack.
    pub show_l2_switches: bool,
    /// Draw the L1-to-node edges (and L1-to-L2 edges when L2 switches are drawn).
    pub show_edges: bool,
    /// Add the number of inter-cell links to each cell's label.
    pub show_inter_cell_links_count: bool,
}

impl Default for DisplayOptions {
    fn default() -> (r: Self)
        ensures
            !r.show_l2_switches,
            !r.show_edges,
            !r.show_inter_cell_links_count,
    {
        DisplayOptions { show_l2_switches: false, show_edges: false, show_inter_cell_links_count: false }
    }
}

/// The fill colours jobs take in turn.
pub open spec fn base_color(i: nat) -> Seq<char> {
    if i == 0 {
        "#E63946"@
    } else if i == 1 {
        "#2196F3"@
    } else if i == 2 {
        "#4CAF50"@
    } else if i == 3 {
        "#FF9800"@
    } else if i == 4 {
        "#9C27B0"@
    } else if i == 5 {
        "#00BCD4"@
    } else if i == 6 {
        "#FFEB3B"@
    } else if i == 7 {
        "#795548"@
    } else if i == 8 {
        "#607D8B"@
    } else {
        "#E91E63"@
    }
}

/// The fill patterns, one per round of colours.
pub open spec fn fill_pattern(i: nat) -> Seq<char> {
    if i == 0 {
        "filled"@
    } else if i == 1 {
        "filled,dashed"@
    } else if i == 2 {
        "filled,dotted"@
    } else if i == 3 {
        "filled,bold"@
    } else {
        "diagonals,filled"@
    }
}

/// Colour and pattern of the `i`-th job: ten colours, and after each ten
/// the next of five patterns.
pub open spec fn style_of(i: nat) -> (Seq<char>, Seq<char>) {
    (base_color(i % 10), fill_pattern((i / 10) % 5))
}

/// The colour and pattern of the `i`-th job.
pub fn alloc_style(i: usize) -> (r: (&'static str, &'static str))
    ensures
        (r.0@, r.1@) == style_of(i as nat),
{
    let c = i % 10;
    let p = (i / 10) % 5;
    let color = if c == 0 {
        "#E63946"
    } else if c == 1 {
        "#2196F3"
    } else if c == 2 {
        "#4CAF50"
    } else if c == 3 {
        "#FF9800"
    } else if c == 4 {
        "#9C27B0"
    } else if c == 5 {
        "#00BCD4"
    } else if c == 6 {
        "#FFEB3B"
    } else if c == 7 {
        "#795548"
    } else if c == 8 {
        "#607D8B"
    } else {
        "#E91E63"
    };
    let pattern = if p == 0 {
        "filled"
    } else if p == 1 {
        "filled,dashed"
    } else if p == 2 {
        "filled,dotted"
    } else if p == 3 {
        "filled,bold"
    } else {
        "diagonals,filled"
    };
    (color, pattern)
}

/// An allocation as text: job names and their nodes.
pub type AllocView = Seq<(Seq<char>, Seq<Seq<char>>)>;

/// Whether job `job` holds node `x`.
pub open spec fn in_job(a: AllocView, job: Seq<char>, x: Seq<char>) -> bool {
    exists|k: int| 0 <= k < a.len() && a[k].0 == job && #[trigger] a[k].1.contains(x)
}

/// The job names in string order, each once.
pub open spec fn job_names(a: AllocView) -> Seq<Seq<char>> {
    sorted_list(a.map_values(|j: (Seq<char>, Seq<Seq<char>>)| j.0).to_set())
}

/// The index, among `js`, of the last job that holds `x`.
pub open spec fn last_job(a: AllocView, js: Seq<Seq<char>>, x: Seq<char>) -> Option<nat>
    decreases js.len(),
{
    if js.len() == 0 {
        None
    } else if in_job(a, js.last(), x) {
        Some((js.len() - 1) as nat)
    } else {
        last_job(a, js.drop_last(), x)
    }
}

/// The job a node is drawn for: the last, in name order, that holds it.
pub open spec fn alloc_of(a: AllocView, x: Seq<char>) -> Option<nat> {
    last_job(a, job_names(a), x)
}

proof fn lemma_last_job_bound(a: AllocView, js: Seq<Seq<char>>, x: Seq<char>)
    ensures
        last_job(a, js, x) matches Some(i) ==> i < js.len(),
    decreases js.len(),
{
    if js.len() > 0 && !in_job(a, js.last(), x) {
        lemma_last_job_bound(a, js.drop_last(), x);
    }
}

/// An allocation with its job names in order, for colouring.
pub struct JobColors<'a> {
    pub allocations: &'a Vec<(String, Vec<String>)>,
    pub jobs: Vec<String>,
}

impl<'a> JobColors<'a> {
    pub open spec fn view_alloc(&self) -> AllocView {
        alloc_view(self.allocations@)
    }

    pub open spec fn wf(&self) -> bool {
        views(self.jobs@) == job_names(self.view_alloc())
    }

    /// Index the jobs of `allocations` (job name and its nodes).
    pub fn new(allocations: &'a Vec<(String, Vec<String>)>) -> (r: JobColors<'a>)
        ensures
            r.wf(),
            r.view_alloc() == alloc_view(allocations@),
    {
        let mut names: Vec<String> = Vec::new();
        let mut i: usize = 0;
        let ghost a = alloc_view(allocations@);
        while i < allocations.len()
            invariant
                a == alloc_view(allocations@),
                i <= allocations.len(),
                views(names@) == a.take(i as int).map_values(|j: (Seq<char>, Seq<Seq<char>>)| j.0),
            decreases allocations.len() - i,
        {
            let ghost before = names@;
            let n = allocations[i].0.clone();
            assert(n@ == a[i as int].0);
            names.push(n);
            proof {
                assert(a.take(i + 1) == a.take(i as int).push(a[i as int]));
                assert(views(names@) =~= views(before).push(n@));
            }
            i = i + 1;
        }
        assert(a.take(i as int) == a);
        let jobs = sorted_set_of(&names);
        JobColors { allocations, jobs }
    }

    /// Whether job `job` holds node `x`.
    fn holds(&self, job: &String, x: &Id) -> (b: bool)
        ensures
            b == in_job(self.view_alloc(), job@, x@),
    {
        let ghost a = self.view_alloc();
        let mut k: usize = 0;
        while k < self.allocations.len()
            invariant
                a == self.view_alloc(),
                k <= a.len(),
                forall|q: int| 0 <= q < k ==> !(a[q].0 == job@ && #[trigger] a[q].1.contains(x@)),
            decreases self.allocations.len() - k,
        {
            let entry = &self.allocations[k];
            assert(a[k as int] == (entry.0@, views(entry.1@)));
            if entry.0 == *job {
                let mut q: usize = 0;
                while q < entry.1.len()
                    invariant
                        a == self.view_alloc(),
                        k < a.len(),
                        a[k as int] == (entry.0@, views(entry.1@)),
                        entry.0@ == job@,
                        q <= entry.1@.len(),
                        forall|t: int| 0 <= t < q ==> entry.1@[t]@ != x@,
                    decreases entry.1.len() - q,
                {
                    if entry.1[q] == x.0 {
                        assert(views(entry.1@)[q as int] == x@);
                        assert(a[k as int].1.contains(x@));
                        assert(a[k as int].0 == job@);
                        return true;
                    }
                    q = q + 1;
                }
                assert(!views(entry.1@).contains(x@));
            }
            k = k + 1;
        }
        false
    }

    /// The job (by index in name order) node `x` is drawn for.
    pub fn job_of(&self, x: &Id) -> (r: Option<usize>)
        requires
            self.wf(),
        ensures
            r == (match alloc_of(self.view_alloc(), x@) {
                Some(i) => Some(i as usize),
                None => None::<usize>,
            }),
            r matches Some(i) ==> i < self.jobs@.len(),
    {
        let ghost a = self.view_alloc();
        let ghost js = views(self.jobs@);
        let mut i: usize = self.jobs.len();
        while i > 0
            invariant
                self.wf(),
                a == self.view_alloc(),
                js == views(self.jobs@),
                i <= js.len(),
                last_job(a, js, x@) == last_job(a, js.take(i as int), x@),
            decreases i,
        {
            let hit = self.holds(&self.jobs[i - 1], x);
            let ghost t = js.take(i as int);
            assert(t.last() == js[i - 1]);
            assert(t.drop_last() == js.take(i - 1));
            if hit {
                return Some(i - 1);
            }
            i = i - 1;
        }
        None
    }
}

/// One node statement: id, shape, colours (the job's, else the defaults)
/// and size.
pub open spec fn node_line(a: AllocView, x: Seq<char>, shape: Seq<char>, fill: Seq<char>, style: Seq<char>, size: Seq<char>) -> Seq<char> {
    let (f, s, t) = match alloc_of(a, x) {
        Some(i) => (style_of(i).0, style_of(i).1, " tooltip=\""@ + job_names(a)[i as int] + "\""@),
        None => (fill, style, Seq::empty()),
    };
    "    \""@ + x + "\" [shape="@ + shape + " style=\""@ + s + "\" fillcolor=\""@ + f + "\""@ + t + " label=\""@ + x + "\" "@
        + size + "];\n"@
}

pub open spec fn l1_line(a: AllocView, x: Seq<char>) -> Seq<char> {
    node_line(a, x, "ellipse"@, "#A9DFBF"@, "filled"@, "fontsize=7 width=0.72 height=0.25 fixedsize=true"@)
}

pub open spec fn l2_line(a: AllocView, x: Seq<char>) -> Seq<char> {
    node_line(a, x, "hexagon"@, "#F0B27A"@, "filled"@, "fontsize=7 width=0.55 height=0.38 fixedsize=true"@)
}

pub open spec fn compute_line(a: AllocView, x: Seq<char>) -> Seq<char> {
    node_line(a, x, "box"@, "#AED6F1"@, "filled,rounded"@, "fontsize=6 width=0.72 height=0.22 fixedsize=true"@)
}

/// Append a string slice.
fn push_str(out: &mut Vec<char>, s: &str)
    ensures
        final(out)@ == old(out)@ + s@,
{
    let c = chars_of(s);
    extend_chars(out, c.as_slice());
}

/// Append a count in decimal.
fn push_num(out: &mut Vec<char>, n: usize)
    ensures
        final(out)@ == old(out)@ + dec_digits(n as nat),
{
    let d = format_padded(n, 0);
    extend_chars(out, d.as_slice());
}

/// The colour attributes of a node statement.
pub open spec fn colour_attrs(a: AllocView, x: Seq<char>, fill: Seq<char>, style: Seq<char>) -> Seq<char> {
    match alloc_of(a, x) {
        Some(i) => style_of(i).1 + "\" fillcolor=\""@ + style_of(i).0 + "\""@ + " tooltip=\""@ + job_names(a)[i as int] + "\""@,
        None => style + "\" fillcolor=\""@ + fill + "\""@,
    }
}

proof fn lemma_node_line(a: AllocView, x: Seq<char>, shape: Seq<char>, fill: Seq<char>, style: Seq<char>, size: Seq<char>)
    ensures
        node_line(a, x, shape, fill, style, size) == "    \""@ + x + "\" [shape="@ + shape + " style=\""@ + colour_attrs(a, x, fill, style)
            + " label=\""@ + x + "\" "@ + size + "];\n"@,
{
    match alloc_of(a, x) {
        Some(i) => {
            assert(node_line(a, x, shape, fill, style, size) =~= "    \""@ + x + "\" [shape="@ + shape + " style=\""@ + colour_attrs(a, x, fill, style)
                + " label=\""@ + x + "\" "@ + size + "];\n"@);
        },
        None => {
            assert(node_line(a, x, shape, fill, style, size) =~= "    \""@ + x + "\" [shape="@ + shape + " style=\""@ + colour_attrs(a, x, fill, style)
                + " label=\""@ + x + "\" "@ + size + "];\n"@);
        },
    }
}

fn push_colours(out: &mut Vec<char>, id: &Id, colors: &JobColors, fill: &str, style: &str)
    requires
        colors.wf(),
    ensures
        final(out)@ == old(out)@ + colour_attrs(colors.view_alloc(), id@, fill@, style@),
{
    let ghost a = colors.view_alloc();
    let ghost start = out@;
    let job = colors.job_of(id);
    proof {
        lemma_last_job_bound(a, job_names(a), id@);
    }
    match job {
        Some(i) => {
            proof {
                let k = alloc_of(a, id@)->0;
                assert(k < job_names(a).len());
                assert(views(colors.jobs@).len() == colors.jobs@.len());
                assert(k < colors.jobs.len());
                assert(k as usize as nat == k);
            }
            let (c, p) = alloc_style(i);
            push_str(out, p);
            push_str(out, "\" fillcolor=\"");
            push_str(out, c);
            push_str(out, "\"");
            push_str(out, " tooltip=\"");
            push_str(out, colors.jobs[i].as_str());
            push_str(out, "\"");
            assert(colors.jobs@[i as int]@ == job_names(a)[i as int]);
            assert(out@ =~= start + colour_attrs(a, id@, fill@, style@));
        },
        None => {
            push_str(out, style);
            push_str(out, "\" fillcolor=\"");
            push_str(out, fill);
            push_str(out, "\"");
            assert(out@ =~= start + colour_attrs(a, id@, fill@, style@));
        },
    }
}

#[verifier::spinoff_prover]
#[verifier::rlimit(40)]
fn emit_node(out: &mut Vec<char>, id: &Id, colors: &JobColors, shape: &str, fill: &str, style: &str, size: &str)
    requires
        colors.wf(),
    ensures
        final(out)@ == old(out)@ + node_line(colors.view_alloc(), id@, shape@, fill@, style@, size@),
{
    let ghost a = colors.view_alloc();
    let ghost start = out@;
    push_str(out, "    \"");
    push_str(out, id.0.as_str());
    push_str(out, "\" [shape=");
    push_str(out, shape);
    push_str(out, " style=\"");
    push_colours(out, id, colors, fill, style);
    push_str(out, " label=\"");
    push_str(out, id.0.as_str());
    push_str(out, "\" ");
    push_str(out, size);
    push_str(out, "];\n");
    proof {
        lemma_node_line(a, id@, shape@, fill@, style@, size@);
    }
    assert(out@ =~= start + node_line(a, id@, shape@, fill@, style@, size@));
}

/// Append the statement of an L1 switch.
#[verifier::spinoff_prover]
#[verifier::rlimit(40)]
pub fn emit_l1_switch(out: &mut Vec<char>, id: &Id, colors: &JobColors)
    requires
        colors.wf(),
    ensures
        final(out)@ == old(out)@ + l1_line(colors.view_alloc(), id@),
{
    emit_node(out, id, colors, "ellipse", "#A9DFBF", "filled", "fontsize=7 width=0.72 height=0.25 fixedsize=true");
}

/// Append the statement of an L2 switch.
#[verifier::spinoff_prover]
#[verifier::rlimit(40)]
pub fn emit_l2_switch(out: &mut Vec<char>, id: &Id, colors: &JobColors)
    requires
        colors.wf(),
    ensures
        final(out)@ == old(out)@ + l2_line(colors.view_alloc(), id@),
{
    emit_node(out, id, colors, "hexagon", "#F0B27A", "filled", "fontsize=7 width=0.55 height=0.38 fixedsize=true");
}

/// Append the statement of a compute node.
#[verifier::spinoff_prover]
#[verifier::rlimit(40)]
pub fn emit_compute_node(out: &mut Vec<char>, id: &Id, colors: &JobColors)
    requires
        colors.wf(),
    ensures
        final(out)@ == old(out)@ + compute_line(colors.view_alloc(), id@),
{
    emit_node(out, id, colors, "box", "#AED6F1", "filled,rounded", "fontsize=6 width=0.72 height=0.22 fixedsize=true");
}


/// The value of key `k` in an entity's metadata.
pub open spec fn meta_get(e: EntityView, k: Seq<char>) -> Option<Seq<char>> {
    if e.2.contains_key(k) {
        Some(e.2[k])
    } else {
        None
    }
}

pub open spec fn is_l1(e: EntityView) -> bool {
    e.1 == (EntityKind::Switch { level: Some(0u32) })
}

pub open spec fn is_l2(e: EntityView) -> bool {
    e.1 == (EntityKind::Switch { level: Some(1u32) })
}

/// The cell an L1 switch is drawn in: its `cell`, else `ungrouped`.
pub open spec fn draw_cell(e: EntityView) -> Seq<char> {
    match meta_get(e, "cell"@) {
        Some(c) => c,
        None => "ungrouped"@,
    }
}

/// The rack an L1 switch is drawn in: its `rack`, else its `cabinet`,
/// else `?`.
pub open spec fn draw_rack(e: EntityView) -> Seq<char> {
    match meta_get(e, "rack"@) {
        Some(r) => r,
        None => match meta_get(e, "cabinet"@) {
            Some(r) => r,
            None => "?"@,
        },
    }
}

/// The values `f` gives to the entities `es`.
pub open spec fn values_of(es: Seq<EntityView>, f: spec_fn(EntityView) -> Option<Seq<char>>) -> Set<Seq<char>> {
    Set::new(|y: Seq<char>| exists|j: int| 0 <= j < es.len() && #[trigger] f(es[j]) == Some(y))
}

pub open spec fn cell_sel(e: EntityView) -> Option<Seq<char>> {
    if is_l1(e) {
        Some(draw_cell(e))
    } else {
        None
    }
}

pub open spec fn rack_sel(e: EntityView, c: Seq<char>) -> Option<Seq<char>> {
    if is_l1(e) && draw_cell(e) == c {
        Some(draw_rack(e))
    } else {
        None
    }
}

pub open spec fn l1_sel(e: EntityView, c: Seq<char>, r: Seq<char>) -> Option<Seq<char>> {
    if is_l1(e) && draw_cell(e) == c && draw_rack(e) == r {
        Some(e.0)
    } else {
        None
    }
}

pub open spec fn l2_sel(e: EntityView, c: Seq<char>, r: Seq<char>) -> Option<Seq<char>> {
    if is_l2(e) && meta_get(e, "cell"@) == Some(c) && meta_get(e, "rack"@) == Some(r) {
        Some(e.0)
    } else {
        None
    }
}

/// The cells drawn, in order: those of the L1 switches.
pub open spec fn drawn_cells(v: IRView) -> Seq<Seq<char>> {
    sorted_list(values_of(v.entities, |e: EntityView| cell_sel(e)))
}

/// The racks drawn in cell `c`, in order.
pub open spec fn drawn_racks(v: IRView, c: Seq<char>) -> Seq<Seq<char>> {
    sorted_list(values_of(v.entities, |e: EntityView| rack_sel(e, c)))
}

/// The L1 switches of rack `r` of cell `c`, by id.
pub open spec fn rack_l1s(v: IRView, c: Seq<char>, r: Seq<char>) -> Seq<Seq<char>> {
    sorted_list(values_of(v.entities, |e: EntityView| l1_sel(e, c, r)))
}

/// The L2 switches whose `cell` is `c` and `rack` is `r`, by id.
pub open spec fn rack_l2s(v: IRView, c: Seq<char>, r: Seq<char>) -> Seq<Seq<char>> {
    sorted_list(values_of(v.entities, |e: EntityView| l2_sel(e, c, r)))
}

/// Whether `x` is the id of a compute node.
pub open spec fn is_compute_id(v: IRView, x: Seq<char>) -> bool {
    v.entity(x) matches Some(e) && e.1 is Compute
}

/// The compute nodes `x` contains, by id.
pub open spec fn compute_kids(v: IRView, x: Seq<char>) -> Seq<Seq<char>> {
    sorted_version(v.children(x).filter(|c: Seq<char>| is_compute_id(v, c)))
}

/// The `pair_index` of entity `x`.
pub open spec fn pair_of(v: IRView, x: Seq<char>) -> Option<Seq<char>> {
    match v.entity(x) {
        Some(e) => meta_get(e, "pair_index"@),
        None => None,
    }
}

/// Whether `x` is a switch of cell `c`.
pub open spec fn cell_switch(v: IRView, x: Seq<char>, c: Seq<char>) -> bool {
    exists|j: int| 0 <= j < v.entities.len() && v.entities[j].1 is Switch && meta_get(v.entities[j], "cell"@) == Some(c) && #[trigger] v.entities[j].0 == x
}

/// The number of heavy (weight two or more) links touching a switch of
/// cell `c`.
pub open spec fn inter_cell_count(v: IRView, c: Seq<char>) -> nat {
    v.links.filter(|l: crate::ir::LinkView| l.2 >= 2000 && (cell_switch(v, l.0, c) || cell_switch(v, l.1, c))).len()
}

/// A metadata value of an entity.
fn meta_str(e: &Entity, k: &str) -> (r: Option<String>)
    ensures
        opt_view(r) == meta_get(e@, k@),
{
    match e.meta.get(k) {
        Some(x) => Some(x.clone()),
        None => None,
    }
}

fn is_l1_kind(e: &Entity) -> (b: bool)
    ensures
        b == is_l1(e@),
{
    match e.kind {
        EntityKind::Switch { level: Some(l) } => l == 0,
        _ => false,
    }
}

fn is_l2_kind(e: &Entity) -> (b: bool)
    ensures
        b == is_l2(e@),
{
    match e.kind {
        EntityKind::Switch { level: Some(l) } => l == 1,
        _ => false,
    }
}

fn draw_cell_of(e: &Entity) -> (r: String)
    ensures
        r@ == draw_cell(e@),
{
    match meta_str(e, "cell") {
        Some(c) => c,
        None => String::from_str("ungrouped"),
    }
}

fn draw_rack_of(e: &Entity) -> (r: String)
    ensures
        r@ == draw_rack(e@),
{
    match meta_str(e, "rack") {
        Some(c) => c,
        None => match meta_str(e, "cabinet") {
            Some(c) => c,
            None => String::from_str("?"),
        },
    }
}

/// The distinct values in `vals` (one per entity of `es`), in order.
fn sorted_values(vals: &Vec<Option<String>>, es: Ghost<Seq<EntityView>>, f: Ghost<spec_fn(EntityView) -> Option<Seq<char>>>) -> (r: Vec<String>)
    requires
        vals@.len() == es@.len(),
        forall|j: int| 0 <= j < vals@.len() ==> opt_view(#[trigger] vals@[j]) == f@(es@[j]),
    ensures
        views(r@) == sorted_list(values_of(es@, f@)),
{
    let mut names: Vec<String> = Vec::new();
    let mut j: usize = 0;
    while j < vals.len()
        invariant
            vals@.len() == es@.len(),
            forall|q: int| 0 <= q < vals@.len() ==> opt_view(#[trigger] vals@[q]) == f@(es@[q]),
            j <= vals@.len(),
            forall|y: Seq<char>| views(names@).contains(y) <==> exists|q: int| 0 <= q < j && #[trigger] f@(es@[q]) == Some(y),
        decreases vals.len() - j,
    {
        assert(opt_view(vals@[j as int]) == f@(es@[j as int]));
        let ghost before = views(names@);
        match &vals[j] {
            Some(x) => {
                names.push(x.clone());
                assert(views(names@) =~= before.push(x@));
            },
            None => {},
        }
        proof {
            assert forall|y: Seq<char>| views(names@).contains(y) <==> exists|q: int| 0 <= q < j + 1 && #[trigger] f@(es@[q]) == Some(y) by {
                if f@(es@[j as int]) == Some(y) {
                    assert(views(names@).contains(y) ==> true);
                    if vals@[j as int] is Some {
                        assert(views(names@).last() == y);
                    }
                }
                if views(names@).contains(y) && !before.contains(y) {
                    assert(f@(es@[j as int]) == Some(y));
                }
            }
        }
        j = j + 1;
    }
    let r = sorted_set_of(&names);
    assert(views(names@).to_set() =~= values_of(es@, f@));
    r
}

/// The cells drawn, in order.
fn drawn_cells_of(ir: &TopologyIR) -> (r: Vec<String>)
    ensures
        views(r@) == drawn_cells(ir@),
{
    let ghost es = ir@.entities;
    let mut vals: Vec<Option<String>> = Vec::new();
    let mut j: usize = 0;
    while j < ir.entities.len()
        invariant
            es == ir@.entities,
            j <= es.len(),
            vals@.len() == j,
            forall|q: int| 0 <= q < j ==> opt_view(#[trigger] vals@[q]) == cell_sel(es[q]),
        decreases ir.entities.len() - j,
    {
        let e = &ir.entities[j];
        assert(es[j as int] == e@);
        if is_l1_kind(e) {
            vals.push(Some(draw_cell_of(e)));
        } else {
            vals.push(None);
        }
        j = j + 1;
    }
    sorted_values(&vals, Ghost(es), Ghost(|e: EntityView| cell_sel(e)))
}

/// The racks drawn in cell `c`, in order.
fn drawn_racks_of(ir: &TopologyIR, c: &String) -> (r: Vec<String>)
    ensures
        views(r@) == drawn_racks(ir@, c@),
{
    let ghost es = ir@.entities;
    let mut vals: Vec<Option<String>> = Vec::new();
    let mut j: usize = 0;
    while j < ir.entities.len()
        invariant
            es == ir@.entities,
            j <= es.len(),
            vals@.len() == j,
            forall|q: int| 0 <= q < j ==> opt_view(#[trigger] vals@[q]) == rack_sel(es[q], c@),
        decreases ir.entities.len() - j,
    {
        let e = &ir.entities[j];
        assert(es[j as int] == e@);
        if is_l1_kind(e) && draw_cell_of(e) == *c {
            vals.push(Some(draw_rack_of(e)));
        } else {
            vals.push(None);
        }
        j = j + 1;
    }
    sorted_values(&vals, Ghost(es), Ghost(|e: EntityView| rack_sel(e, c@)))
}

/// The L1 switches of rack `r` of cell `c`, by id.
fn rack_l1s_of(ir: &TopologyIR, c: &String, r: &String) -> (l: Vec<String>)
    ensures
        views(l@) == rack_l1s(ir@, c@, r@),
{
    let ghost es = ir@.entities;
    let mut vals: Vec<Option<String>> = Vec::new();
    let mut j: usize = 0;
    while j < ir.entities.len()
        invariant
            es == ir@.entities,
            j <= es.len(),
            vals@.len() == j,
            forall|q: int| 0 <= q < j ==> opt_view(#[trigger] vals@[q]) == l1_sel(es[q], c@, r@),
        decreases ir.entities.len() - j,
    {
        let e = &ir.entities[j];
        assert(es[j as int] == e@);
        if is_l1_kind(e) && draw_cell_of(e) == *c && draw_rack_of(e) == *r {
            vals.push(Some(e.id.0.clone()));
        } else {
            vals.push(None);
        }
        j = j + 1;
    }
    sorted_values(&vals, Ghost(es), Ghost(|e: EntityView| l1_sel(e, c@, r@)))
}

/// The L2 switches of rack `r` of cell `c`, by id.
fn rack_l2s_of(ir: &TopologyIR, c: &String, r: &String) -> (l: Vec<String>)
    ensures
        views(l@) == rack_l2s(ir@, c@, r@),
{
    let ghost es = ir@.entities;
    let mut vals: Vec<Option<String>> = Vec::new();
    let mut j: usize = 0;
    while j < ir.entities.len()
        invariant
            es == ir@.entities,
            j <= es.len(),
            vals@.len() == j,
            forall|q: int| 0 <= q < j ==> opt_view(#[trigger] vals@[q]) == l2_sel(es[q], c@, r@),
        decreases ir.entities.len() - j,
    {
        let e = &ir.entities[j];
        assert(es[j as int] == e@);
        let hit = is_l2_kind(e) && match (meta_str(e, "cell"), meta_str(e, "rack")) {
            (Some(ec), Some(er)) => ec == *c && er == *r,
            _ => false,
        };
        if hit {
            vals.push(Some(e.id.0.clone()));
        } else {
            vals.push(None);
        }
        j = j + 1;
    }
    sorted_values(&vals, Ghost(es), Ghost(|e: EntityView| l2_sel(e, c@, r@)))
}

/// The compute nodes `x` contains, by id.
fn compute_kids_of(ir: &TopologyIR, x: &Id) -> (r: Vec<String>)
    ensures
        views(r@) == compute_kids(ir@, x@),
{
    let ghost v = ir@;
    let ghost pred = |c: Seq<char>| is_compute_id(v, c);
    let mut kids: Vec<String> = Vec::new();
    match ir.children_of(x) {
        Some(ch) => {
            let ghost cs = crate::ir::id_views(ch@);
            let mut q: usize = 0;
            assert(cs.take(0).filter(pred) =~= Seq::<Seq<char>>::empty()) by {
                reveal(Seq::filter);
            }
            while q < ch.len()
                invariant
                    v == ir@,
                    pred == (|c: Seq<char>| is_compute_id(v, c)),
                    cs == crate::ir::id_views(ch@),
                    q <= cs.len(),
                    views(kids@) == cs.take(q as int).filter(pred),
                decreases ch.len() - q,
            {
                proof {
                    assert(cs.take(q + 1) == cs.take(q as int).push(cs[q as int]));
                    cs.take(q as int).lemma_filter_push(cs[q as int], pred);
                }
                let ghost before = views(kids@);
                let keep = match ir.get_entity(&ch[q]) {
                    Some(e) => match e.kind {
                        EntityKind::Compute => true,
                        _ => false,
                    },
                    None => false,
                };
                if keep {
                    kids.push(ch[q].0.clone());
                    assert(views(kids@) =~= before.push(cs[q as int]));
                }
                q = q + 1;
            }
            assert(cs.take(q as int) == cs);
            assert(views(kids@) == v.children(x@).filter(pred));
        },
        None => {
            assert(v.children(x@) =~= Seq::<Seq<char>>::empty());
            assert(v.children(x@).filter(pred) =~= Seq::<Seq<char>>::empty()) by {
                reveal(Seq::filter);
            }
            assert(views(kids@) =~= v.children(x@).filter(pred));
        },
    }
    assert(compute_kids(v, x@) == sorted_version(v.children(x@).filter(pred)));
    sort_strings(&kids)
}

/// The `pair_index` of entity `x`.
fn pair_index_of(ir: &TopologyIR, x: &String) -> (r: Option<String>)
    ensures
        opt_view(r) == pair_of(ir@, x@),
{
    let id = Id(x.clone());
    match ir.get_entity(&id) {
        Some(e) => meta_str(e, "pair_index"),
        None => None,
    }
}

/// The number of heavy links touching a switch of cell `c`.
fn inter_cell_link_count(ir: &TopologyIR, c: &String) -> (n: usize)
    ensures
        n == inter_cell_count(ir@, c@),
{
    let ghost v = ir@;
    let ghost es = v.entities;
    let mut ids: Vec<String> = Vec::new();
    let mut j: usize = 0;
    while j < ir.entities.len()
        invariant
            v == ir@,
            es == v.entities,
            j <= es.len(),
            forall|y: Seq<char>| views(ids@).contains(y) <==> exists|q: int| 0 <= q < j && es[q].1 is Switch && meta_get(es[q], "cell"@) == Some(c@) && #[trigger] es[q].0 == y,
        decreases ir.entities.len() - j,
    {
        let e = &ir.entities[j];
        assert(es[j as int] == e@);
        let ghost before = views(ids@);
        let sw = match e.kind {
            EntityKind::Switch { .. } => true,
            _ => false,
        };
        let hit = sw && match meta_str(e, "cell") {
            Some(ec) => ec == *c,
            None => false,
        };
        if hit {
            ids.push(e.id.0.clone());
            assert(views(ids@) =~= before.push(e@.0));
        }
        proof {
            assert forall|y: Seq<char>| views(ids@).contains(y) <==> exists|q: int| 0 <= q < j + 1 && es[q].1 is Switch && meta_get(es[q], "cell"@) == Some(c@) && #[trigger] es[q].0 == y by {
                if views(ids@).contains(y) && !before.contains(y) {
                    assert(es[j as int].0 == y);
                }
            }
        }
        j = j + 1;
    }
    let ghost pred = |l: crate::ir::LinkView| l.2 >= 2000 && (cell_switch(v, l.0, c@) || cell_switch(v, l.1, c@));
    let ghost ls = v.links;
    let mut n: usize = 0;
    let mut k: usize = 0;
    assert(ls.take(0).filter(pred) =~= Seq::<crate::ir::LinkView>::empty()) by {
        reveal(Seq::filter);
    }
    while k < ir.links.len()
        invariant
            v == ir@,
            es == v.entities,
            ls == v.links,
            pred == (|l: crate::ir::LinkView| l.2 >= 2000 && (cell_switch(v, l.0, c@) || cell_switch(v, l.1, c@))),
            forall|y: Seq<char>| views(ids@).contains(y) <==> cell_switch(v, y, c@),
            k <= ls.len(),
            n == ls.take(k as int).filter(pred).len(),
            n <= k,
        decreases ir.links.len() - k,
    {
        let l = &ir.links[k];
        assert(ls[k as int] == l@);
        proof {
            assert(ls.take(k + 1) == ls.take(k as int).push(ls[k as int]));
            ls.take(k as int).lemma_filter_push(ls[k as int], pred);
        }
        let mut from_in = false;
        let mut to_in = false;
        let mut q: usize = 0;
        while q < ids.len()
            invariant
                q <= ids@.len(),
                from_in == views(ids@).take(q as int).contains(l.from@),
                to_in == views(ids@).take(q as int).contains(l.to@),
            decreases ids.len() - q,
        {
            assert(views(ids@).take(q + 1) == views(ids@).take(q as int).push(ids@[q as int]@));
            if ids[q] == l.from.0 {
                from_in = true;
            }
            if ids[q] == l.to.0 {
                to_in = true;
            }
            q = q + 1;
        }
        assert(views(ids@).take(q as int) == views(ids@));
        if l.weight >= 2000 && (from_in || to_in) {
            n = n + 1;
        }
        k = k + 1;
    }
    assert(ls.take(k as int) == ls);
    n
}

/// The pieces `f(0)`, ..., `f(n - 1)`, one after another.
pub open spec fn cat<A>(n: nat, f: spec_fn(int) -> Seq<A>) -> Seq<A> {
    Seq::new(n, f).flatten()
}

proof fn lemma_cat_zero<A>(f: spec_fn(int) -> Seq<A>)
    ensures
        cat(0, f) == Seq::<A>::empty(),
{
    assert(Seq::new(0, f) =~= Seq::<Seq<A>>::empty());
}

proof fn lemma_cat_step<A>(n: nat, f: spec_fn(int) -> Seq<A>)
    ensures
        cat(n + 1, f) == cat(n, f) + f(n as int),
{
    assert(Seq::new(n + 1, f) =~= Seq::new(n, f).push(f(n as int)));
    Seq::new(n, f).lemma_flatten_push(f(n as int));
}

/// A count in decimal.
pub open spec fn dec(n: int) -> Seq<char> {
    dec_digits(n as nat)
}

/// Edges as text pairs.
pub open spec fn edge_views(es: Seq<(String, String)>) -> Seq<(Seq<char>, Seq<char>)> {
    es.map_values(|e: (String, String)| (e.0@, e.1@))
}

/// An invisible edge that keeps `b` below `a`.
pub open spec fn invis(a: Seq<char>, b: Seq<char>) -> Seq<char> {
    "        \""@ + a + "\" -> \""@ + b + "\" [style=invis weight=2 minlen=1];\n"@
}

/// Invisible edges from `x` down its nodes `kids`, one to the next.
pub open spec fn chain_text(x: Seq<char>, kids: Seq<Seq<char>>) -> Seq<char> {
    cat(kids.len(), |k: int| invis(if k == 0 { x } else { kids[k - 1] }, kids[k]))
}

pub open spec fn l1_group_head(ci: int, ri: int, li: int) -> Seq<char> {
    "      subgraph cluster_l1_"@ + dec(ci) + "_"@ + dec(ri) + "_"@ + dec(li) + " {\n"@
        + "        label=\"\";\n        style=\"filled,rounded\";\n        fillcolor=\"#FDFEFE\";\n        color=\"#AAB7B8\";\n        penwidth=0.8;\n\n"@
}

/// The cluster of L1 switch `x`: the switch, its compute nodes and the
/// invisible edges that stack them.
pub open spec fn l1_group_text(v: IRView, a: AllocView, ci: int, ri: int, li: int, x: Seq<char>) -> Seq<char> {
    let kids = compute_kids(v, x);
    l1_group_head(ci, ri, li) + l1_line(a, x) + cat(kids.len(), |k: int| compute_line(a, kids[k])) + chain_text(x, kids)
        + "      }\n"@
}

/// The edges from L1 switch `x` to its compute nodes, when edges are shown.
pub open spec fn l1_edges(v: IRView, o: DisplayOptions, x: Seq<char>) -> Seq<(Seq<char>, Seq<char>)> {
    let kids = compute_kids(v, x);
    if o.show_edges {
        cat(kids.len(), |k: int| seq![(x, kids[k])])
    } else {
        Seq::empty()
    }
}

#[verifier::spinoff_prover]
#[verifier::rlimit(40)]
fn emit_l1_group(
    out: &mut Vec<char>,
    edges: &mut Vec<(String, String)>,
    ir: &TopologyIR,
    colors: &JobColors,
    opts: &DisplayOptions,
    ci: usize,
    ri: usize,
    li: usize,
    x: &String,
)
    requires
        colors.wf(),
    ensures
        final(out)@ == old(out)@ + l1_group_text(ir@, colors.view_alloc(), ci as int, ri as int, li as int, x@),
        edge_views(final(edges)@) == edge_views(old(edges)@) + l1_edges(ir@, *opts, x@),
{
    let ghost a = colors.view_alloc();
    let ghost v = ir@;
    let ghost start = out@;
    let ghost e0 = edge_views(edges@);
    push_str(out, "      subgraph cluster_l1_");
    push_num(out, ci);
    push_str(out, "_");
    push_num(out, ri);
    push_str(out, "_");
    push_num(out, li);
    push_str(out, " {\n");
    push_str(out, "        label=\"\";\n        style=\"filled,rounded\";\n        fillcolor=\"#FDFEFE\";\n        color=\"#AAB7B8\";\n        penwidth=0.8;\n\n");
    assert(out@ =~= start + l1_group_head(ci as int, ri as int, li as int));
    let id = Id(x.clone());
    emit_l1_switch(out, &id, colors);
    let kids = compute_kids_of(ir, &id);
    let ghost kv = views(kids@);
    let ghost mid = out@;
    let ghost fl = |k: int| compute_line(a, kv[k]);
    let ghost fe = |k: int| seq![(x@, kv[k])];
    proof {
        lemma_cat_zero(fl);
        lemma_cat_zero(fe);
    }
    let mut k: usize = 0;
    while k < kids.len()
        invariant
            colors.wf(),
            a == colors.view_alloc(),
            kv == views(kids@),
            fl == (|k: int| compute_line(a, kv[k])),
            fe == (|k: int| seq![(x@, kv[k])]),
            k <= kv.len(),
            out@ == mid + cat(k as nat, fl),
            edge_views(edges@) == e0 + (if opts.show_edges { cat(k as nat, fe) } else { Seq::empty() }),
        decreases kids.len() - k,
    {
        let kid = Id(kids[k].clone());
        emit_compute_node(out, &kid, colors);
        let ghost eb = edges@;
        if opts.show_edges {
            edges.push((x.clone(), kids[k].clone()));
            assert(edge_views(edges@) =~= edge_views(eb).push((x@, kv[k as int])));
        }
        proof {
            lemma_cat_step(k as nat, fl);
            lemma_cat_step(k as nat, fe);
            assert(fe(k as int) =~= seq![(x@, kv[k as int])]);
        }
        k = k + 1;
    }
    let ghost mid2 = out@;
    let ghost fc = |k: int| invis(if k == 0 { x@ } else { kv[k - 1] }, kv[k]);
    proof {
        lemma_cat_zero(fc);
    }
    let mut k: usize = 0;
    while k < kids.len()
        invariant
            kv == views(kids@),
            fc == (|k: int| invis(if k == 0 { x@ } else { kv[k - 1] }, kv[k])),
            k <= kv.len(),
            out@ == mid2 + cat(k as nat, fc),
        decreases kids.len() - k,
    {
        let ghost before = out@;
        push_str(out, "        \"");
        if k == 0 {
            push_str(out, x.as_str());
        } else {
            push_str(out, kids[k - 1].as_str());
        }
        push_str(out, "\" -> \"");
        push_str(out, kids[k].as_str());
        push_str(out, "\" [style=invis weight=2 minlen=1];\n");
        proof {
            lemma_cat_step(k as nat, fc);
            assert(out@ =~= before + fc(k as int));
        }
        k = k + 1;
    }
    push_str(out, "      }\n");
    assert(out@ =~= start + l1_group_text(v, a, ci as int, ri as int, li as int, x@));
}

pub open spec fn rack_head(ci: int, ri: int, r: Seq<char>) -> Seq<char> {
    "    subgraph cluster_rack_"@ + dec(ci) + "_"@ + dec(ri) + " {\n"@ + "      label=\"rack "@ + r + "\";\n"@
        + "      style=\"filled,rounded\";\n      fillcolor=\"#F2F3F4\";\n      color=\"#2C3E50\";\n      penwidth=1.5;\n      fontsize=9;\n\n"@
}

/// The L2 switches of a rack, when they are shown.
pub open spec fn l2_part(v: IRView, a: AllocView, o: DisplayOptions, c: Seq<char>, r: Seq<char>) -> Seq<char> {
    let l2s = rack_l2s(v, c, r);
    if o.show_l2_switches {
        cat(l2s.len(), |k: int| l2_line(a, l2s[k])) + "\n"@
    } else {
        Seq::empty()
    }
}

/// Whether L1 switch `x` and L2 switch `y` share a `pair_index`.
pub open spec fn pair_match(v: IRView, x: Seq<char>, y: Seq<char>) -> bool {
    pair_of(v, x) is Some && pair_of(v, x) == pair_of(v, y)
}

/// The edges from the L1 switches `l1s` paired with L2 switch `y`.
pub open spec fn paired_edges(v: IRView, l1s: Seq<Seq<char>>, y: Seq<char>) -> Seq<(Seq<char>, Seq<char>)> {
    cat(l1s.len(), |m: int| if pair_match(v, l1s[m], y) { seq![(l1s[m], y)] } else { Seq::empty() })
}

/// The L1-to-L2 edges of a rack, when both L2 switches and edges are shown.
pub open spec fn l2_edges(v: IRView, o: DisplayOptions, c: Seq<char>, r: Seq<char>) -> Seq<(Seq<char>, Seq<char>)> {
    let l2s = rack_l2s(v, c, r);
    let l1s = rack_l1s(v, c, r);
    if o.show_l2_switches && o.show_edges {
        cat(l2s.len(), |k: int| paired_edges(v, l1s, l2s[k]))
    } else {
        Seq::empty()
    }
}

/// The cluster of rack `r` of cell `c`.
pub open spec fn rack_text(v: IRView, a: AllocView, o: DisplayOptions, c: Seq<char>, ci: int, ri: int, r: Seq<char>) -> Seq<char> {
    let l1s = rack_l1s(v, c, r);
    rack_head(ci, ri, r) + l2_part(v, a, o, c, r) + cat(l1s.len(), |li: int| l1_group_text(v, a, ci, ri, li, l1s[li]))
        + "    }\n\n"@
}

/// The edges of rack `r` of cell `c`, in the order they are found.
pub open spec fn rack_edges(v: IRView, o: DisplayOptions, c: Seq<char>, r: Seq<char>) -> Seq<(Seq<char>, Seq<char>)> {
    let l1s = rack_l1s(v, c, r);
    l2_edges(v, o, c, r) + cat(l1s.len(), |li: int| l1_edges(v, o, l1s[li]))
}

/// Append the edges from the L1 switches `l1s` paired with L2 switch `y`.
fn push_paired(edges: &mut Vec<(String, String)>, ir: &TopologyIR, l1s: &Vec<String>, y: &String)
    ensures
        edge_views(final(edges)@) == edge_views(old(edges)@) + paired_edges(ir@, views(l1s@), y@),
{
    let ghost v = ir@;
    let ghost lv = views(l1s@);
    let ghost e0 = edge_views(edges@);
    let ghost f = |m: int| if pair_match(v, lv[m], y@) { seq![(lv[m], y@)] } else { Seq::empty() };
    proof {
        lemma_cat_zero(f);
    }
    let py = pair_index_of(ir, y);
    let mut m: usize = 0;
    while m < l1s.len()
        invariant
            v == ir@,
            lv == views(l1s@),
            opt_view(py) == pair_of(v, y@),
            f == (|m: int| if pair_match(v, lv[m], y@) { seq![(lv[m], y@)] } else { Seq::empty() }),
            m <= lv.len(),
            edge_views(edges@) == e0 + cat(m as nat, f),
        decreases l1s.len() - m,
    {
        let px = pair_index_of(ir, &l1s[m]);
        let hit = match (&px, &py) {
            (Some(p), Some(q)) => *p == *q,
            (Some(_), None) => false,
            _ => false,
        };
        let ghost eb = edges@;
        if hit {
            edges.push((l1s[m].clone(), y.clone()));
            assert(edge_views(edges@) =~= edge_views(eb).push((lv[m as int], y@)));
        }
        proof {
            lemma_cat_step(m as nat, f);
            if hit {
                assert(f(m as int) =~= seq![(lv[m as int], y@)]);
            } else {
                assert(f(m as int) =~= Seq::<(Seq<char>, Seq<char>)>::empty());
                assert(edge_views(edges@) =~= edge_views(eb) + f(m as int));
            }
        }
        m = m + 1;
    }
}

#[verifier::spinoff_prover]
#[verifier::rlimit(40)]
fn emit_rack(
    out: &mut Vec<char>,
    edges: &mut Vec<(String, String)>,
    ir: &TopologyIR,
    colors: &JobColors,
    opts: &DisplayOptions,
    c: &String,
    ci: usize,
    ri: usize,
    r: &String,
)
    requires
        colors.wf(),
    ensures
        final(out)@ == old(out)@ + rack_text(ir@, colors.view_alloc(), *opts, c@, ci as int, ri as int, r@),
        edge_views(final(edges)@) == edge_views(old(edges)@) + rack_edges(ir@, *opts, c@, r@),
{
    let ghost a = colors.view_alloc();
    let ghost v = ir@;
    let ghost start = out@;
    let ghost e0 = edge_views(edges@);
    push_str(out, "    subgraph cluster_rack_");
    push_num(out, ci);
    push_str(out, "_");
    push_num(out, ri);
    push_str(out, " {\n");
    push_str(out, "      label=\"rack ");
    push_str(out, r.as_str());
    push_str(out, "\";\n");
    push_str(out, "      style=\"filled,rounded\";\n      fillcolor=\"#F2F3F4\";\n      color=\"#2C3E50\";\n      penwidth=1.5;\n      fontsize=9;\n\n");
    assert(out@ =~= start + rack_head(ci as int, ri as int, r@));
    let l1s = rack_l1s_of(ir, c, r);
    let ghost lv = views(l1s@);
    let ghost mid = out@;
    if opts.show_l2_switches {
        let l2s = rack_l2s_of(ir, c, r);
        let ghost yv = views(l2s@);
        let ghost fl = |k: int| l2_line(a, yv[k]);
        let ghost fe = |k: int| paired_edges(v, lv, yv[k]);
        proof {
            lemma_cat_zero(fl);
            lemma_cat_zero(fe);
        }
        let mut k: usize = 0;
        while k < l2s.len()
            invariant
                colors.wf(),
                a == colors.view_alloc(),
                v == ir@,
                lv == views(l1s@),
                yv == views(l2s@),
                fl == (|k: int| l2_line(a, yv[k])),
                fe == (|k: int| paired_edges(v, lv, yv[k])),
                k <= yv.len(),
                out@ == mid + cat(k as nat, fl),
                edge_views(edges@) == e0 + (if opts.show_edges { cat(k as nat, fe) } else { Seq::empty() }),
            decreases l2s.len() - k,
        {
            let y = Id(l2s[k].clone());
            emit_l2_switch(out, &y, colors);
            if opts.show_edges {
                push_paired(edges, ir, &l1s, &l2s[k]);
            }
            proof {
                lemma_cat_step(k as nat, fl);
                lemma_cat_step(k as nat, fe);
            }
            k = k + 1;
        }
        push_str(out, "\n");
    }
    assert(out@ =~= mid + l2_part(v, a, *opts, c@, r@));
    assert(edge_views(edges@) =~= e0 + l2_edges(v, *opts, c@, r@));
    let ghost mid2 = out@;
    let ghost e1 = edge_views(edges@);
    let ghost ft = |li: int| l1_group_text(v, a, ci as int, ri as int, li, lv[li]);
    let ghost fe = |li: int| l1_edges(v, *opts, lv[li]);
    proof {
        lemma_cat_zero(ft);
        lemma_cat_zero(fe);
    }
    let mut li: usize = 0;
    while li < l1s.len()
        invariant
            colors.wf(),
            a == colors.view_alloc(),
            v == ir@,
            lv == views(l1s@),
            ft == (|li: int| l1_group_text(v, a, ci as int, ri as int, li, lv[li])),
            fe == (|li: int| l1_edges(v, *opts, lv[li])),
            li <= lv.len(),
            out@ == mid2 + cat(li as nat, ft),
            edge_views(edges@) == e1 + cat(li as nat, fe),
        decreases l1s.len() - li,
    {
        emit_l1_group(out, edges, ir, colors, opts, ci, ri, li, &l1s[li]);
        proof {
            lemma_cat_step(li as nat, ft);
            lemma_cat_step(li as nat, fe);
        }
        li = li + 1;
    }
    push_str(out, "    }\n\n");
    assert(out@ =~= start + rack_text(v, a, *opts, c@, ci as int, ri as int, r@));
    assert(edge_views(edges@) =~= e0 + rack_edges(v, *opts, c@, r@));
}

/// The note on a cell's label giving its number of inter-cell links, when
/// asked for and not zero.
pub open spec fn ice_note(v: IRView, o: DisplayOptions, c: Seq<char>) -> Seq<char> {
    let n = inter_cell_count(v, c);
    if n > 0 && o.show_inter_cell_links_count {
        " (↔ "@ + dec(n as int) + " inter-cell links)"@
    } else {
        Seq::empty()
    }
}

pub open spec fn cell_head(v: IRView, o: DisplayOptions, ci: int, c: Seq<char>) -> Seq<char> {
    "  subgraph cluster_cell_"@ + dec(ci) + " {\n"@ + "    label=\""@ + c + ice_note(v, o, c) + "\";\n"@
        + "    style=\"filled,rounded\";\n    fillcolor=\"#EBF5FB\";\n    color=\"#1A5276\";\n    penwidth=2.5;\n    fontsize=11;\n"@
        + "    \"__cell_anchor_"@ + dec(ci) + "\" [shape=point width=0 height=0 label=\"\" style=invis];\n\n"@
}

/// The cluster of cell `c`, the `ci`-th.
pub open spec fn cell_text(v: IRView, a: AllocView, o: DisplayOptions, ci: int, c: Seq<char>) -> Seq<char> {
    let rs = drawn_racks(v, c);
    cell_head(v, o, ci, c) + cat(rs.len(), |ri: int| rack_text(v, a, o, c, ci, ri, rs[ri])) + "  }\n\n"@
}

/// The edges of cell `c`, in the order they are found.
pub open spec fn cell_edges(v: IRView, o: DisplayOptions, c: Seq<char>) -> Seq<(Seq<char>, Seq<char>)> {
    let rs = drawn_racks(v, c);
    cat(rs.len(), |ri: int| rack_edges(v, o, c, rs[ri]))
}

#[verifier::spinoff_prover]
#[verifier::rlimit(40)]
fn emit_cell(
    out: &mut Vec<char>,
    edges: &mut Vec<(String, String)>,
    ir: &TopologyIR,
    colors: &JobColors,
    opts: &DisplayOptions,
    ci: usize,
    c: &String,
)
    requires
        colors.wf(),
    ensures
        final(out)@ == old(out)@ + cell_text(ir@, colors.view_alloc(), *opts, ci as int, c@),
        edge_views(final(edges)@) == edge_views(old(edges)@) + cell_edges(ir@, *opts, c@),
{
    let ghost a = colors.view_alloc();
    let ghost v = ir@;
    let ghost start = out@;
    let ghost e0 = edge_views(edges@);
    let ice = inter_cell_link_count(ir, c);
    push_str(out, "  subgraph cluster_cell_");
    push_num(out, ci);
    push_str(out, " {\n");
    push_str(out, "    label=\"");
    push_str(out, c.as_str());
    if ice > 0 && opts.show_inter_cell_links_count {
        push_str(out, " (↔ ");
        push_num(out, ice);
        push_str(out, " inter-cell links)");
    }
    push_str(out, "\";\n");
    push_str(out, "    style=\"filled,rounded\";\n    fillcolor=\"#EBF5FB\";\n    color=\"#1A5276\";\n    penwidth=2.5;\n    fontsize=11;\n");
    push_str(out, "    \"__cell_anchor_");
    push_num(out, ci);
    push_str(out, "\" [shape=point width=0 height=0 label=\"\" style=invis];\n\n");
    assert(out@ =~= start + cell_head(v, *opts, ci as int, c@));
    let racks = drawn_racks_of(ir, c);
    let ghost rv = views(racks@);
    let ghost mid = out@;
    let ghost ft = |ri: int| rack_text(v, a, *opts, c@, ci as int, ri, rv[ri]);
    let ghost fe = |ri: int| rack_edges(v, *opts, c@, rv[ri]);
    proof {
        lemma_cat_zero(ft);
        lemma_cat_zero(fe);
    }
    let mut ri: usize = 0;
    while ri < racks.len()
        invariant
            colors.wf(),
            a == colors.view_alloc(),
            v == ir@,
            rv == views(racks@),
            ft == (|ri: int| rack_text(v, a, *opts, c@, ci as int, ri, rv[ri])),
            fe == (|ri: int| rack_edges(v, *opts, c@, rv[ri])),
            ri <= rv.len(),
            out@ == mid + cat(ri as nat, ft),
            edge_views(edges@) == e0 + cat(ri as nat, fe),
        decreases racks.len() - ri,
    {
        emit_rack(out, edges, ir, colors, opts, c, ci, ri, &racks[ri]);
        proof {
            lemma_cat_step(ri as nat, ft);
            lemma_cat_step(ri as nat, fe);
        }
        ri = ri + 1;
    }
    push_str(out, "  }\n\n");
    assert(out@ =~= start + cell_text(v, a, *opts, ci as int, c@));
}

pub open spec fn dot_header() -> Seq<char> {
    "digraph G {\n  layout=dot;\n  rankdir=TB;\n  newrank=true;\n  compound=true;\n  clusterrank=local;\n  ranksep=0.25;\n  nodesep=0.35;\n  splines=false;\n"@
        + "  node [fontname=\"Helvetica\"];\n  edge [dir=none penwidth=0.6 color=\"#888888\"];\n  graph [fontname=\"Helvetica\" labeljust=l];\n\n"@
}

/// The statements that keep the `n` cell clusters side by side (none for
/// fewer than two cells).
pub open spec fn anchors_text(n: nat) -> Seq<char> {
    if n > 1 {
        "\n  { rank=same;\n"@ + cat(n, |i: int| "    \"__cell_anchor_"@ + dec(i) + "\";\n"@) + "  }\n"@ + cat(
            (n - 1) as nat,
            |i: int| "  \"__cell_anchor_"@ + dec(i) + "\" -> \"__cell_anchor_"@ + dec(i + 1) + "\" [style=invis];\n"@,
        )
    } else {
        Seq::empty()
    }
}

/// Whether two edges join the same two nodes, in either direction.
pub open spec fn same_pair(e: (Seq<char>, Seq<char>), f: (Seq<char>, Seq<char>)) -> bool {
    (e.0 == f.0 && e.1 == f.1) || (e.0 == f.1 && e.1 == f.0)
}

/// Whether edge `i` is the first that joins its two nodes.
pub open spec fn first_of_pair(es: Seq<(Seq<char>, Seq<char>)>, i: int) -> bool {
    forall|j: int| 0 <= j < i ==> !same_pair(#[trigger] es[j], es[i])
}

/// Each pair of nodes joined once, by its first edge.
pub open spec fn edges_text(es: Seq<(Seq<char>, Seq<char>)>) -> Seq<char> {
    cat(es.len(), |i: int| if first_of_pair(es, i) { "  \""@ + es[i].0 + "\" -> \""@ + es[i].1 + "\";\n"@ } else { Seq::empty() })
}

/// The legend entry of the `i`-th job.
pub open spec fn legend_entry(i: int, job: Seq<char>) -> Seq<char> {
    "    \"__legend_"@ + dec(i) + "\" [shape=box style=\""@ + style_of(i as nat).1 + "\" fillcolor=\""@ + style_of(i as nat).0
        + "\" label=\""@ + job + "\" fontsize=8 width=2.4 height=0.28 fixedsize=true];\n"@ + (if i > 0 {
        "    \"__legend_"@ + dec(i - 1) + "\" -> \"__legend_"@ + dec(i) + "\" [style=invis];\n"@
    } else {
        Seq::empty()
    })
}

/// The legend: one entry per job, none without jobs.
pub open spec fn legend_text(a: AllocView) -> Seq<char> {
    let js = job_names(a);
    if js.len() > 0 {
        "\n  subgraph cluster_legend {\n    label=\"Legend\"; style=filled; fillcolor=white; fontsize=10;\n"@ + cat(
            js.len(),
            |i: int| legend_entry(i, js[i]),
        ) + "  }\n"@
    } else {
        Seq::empty()
    }
}

/// All edges, cell after cell.
pub open spec fn all_edges(v: IRView, o: DisplayOptions) -> Seq<(Seq<char>, Seq<char>)> {
    let cs = drawn_cells(v);
    cat(cs.len(), |ci: int| cell_edges(v, o, cs[ci]))
}

/// The DOT source of the drawing of `v` with the jobs of `a`.
pub open spec fn dot_text(v: IRView, a: AllocView, o: DisplayOptions) -> Seq<char> {
    let cs = drawn_cells(v);
    dot_header() + cat(cs.len(), |ci: int| cell_text(v, a, o, ci, cs[ci])) + anchors_text(cs.len()) + (if o.show_edges {
        edges_text(all_edges(v, o))
    } else {
        Seq::empty()
    }) + legend_text(a) + "}\n"@
}

#[verifier::spinoff_prover]
#[verifier::rlimit(40)]
fn emit_anchors(out: &mut Vec<char>, n: usize)
    ensures
        final(out)@ == old(out)@ + anchors_text(n as nat),
{
    if n > 1 {
        let ghost start = out@;
        push_str(out, "\n  { rank=same;\n");
        let ghost mid = out@;
        let ghost f = |i: int| "    \"__cell_anchor_"@ + dec(i) + "\";\n"@;
        proof {
            lemma_cat_zero(f);
        }
        let mut i: usize = 0;
        while i < n
            invariant
                f == (|i: int| "    \"__cell_anchor_"@ + dec(i) + "\";\n"@),
                i <= n,
                out@ == mid + cat(i as nat, f),
            decreases n - i,
        {
            let ghost before = out@;
            push_str(out, "    \"__cell_anchor_");
            push_num(out, i);
            push_str(out, "\";\n");
            proof {
                lemma_cat_step(i as nat, f);
                assert(out@ =~= before + f(i as int));
            }
            i = i + 1;
        }
        push_str(out, "  }\n");
        let ghost mid2 = out@;
        let ghost g = |i: int| "  \"__cell_anchor_"@ + dec(i) + "\" -> \"__cell_anchor_"@ + dec(i + 1) + "\" [style=invis];\n"@;
        proof {
            lemma_cat_zero(g);
        }
        let mut i: usize = 0;
        while i + 1 < n
            invariant
                g == (|i: int| "  \"__cell_anchor_"@ + dec(i) + "\" -> \"__cell_anchor_"@ + dec(i + 1) + "\" [style=invis];\n"@),
                i + 1 <= n,
                out@ == mid2 + cat(i as nat, g),
            decreases n - i,
        {
            let ghost before = out@;
            push_str(out, "  \"__cell_anchor_");
            push_num(out, i);
            push_str(out, "\" -> \"__cell_anchor_");
            push_num(out, i + 1);
            push_str(out, "\" [style=invis];\n");
            proof {
                lemma_cat_step(i as nat, g);
                assert(out@ =~= before + g(i as int));
            }
            i = i + 1;
        }
        assert(out@ =~= start + anchors_text(n as nat));
    }
}

#[verifier::spinoff_prover]
#[verifier::rlimit(40)]
fn emit_edges(out: &mut Vec<char>, edges: &Vec<(String, String)>)
    ensures
        final(out)@ == old(out)@ + edges_text(edge_views(edges@)),
{
    let ghost es = edge_views(edges@);
    let ghost start = out@;
    let ghost f = |i: int| if first_of_pair(es, i) { "  \""@ + es[i].0 + "\" -> \""@ + es[i].1 + "\";\n"@ } else { Seq::empty() };
    proof {
        lemma_cat_zero(f);
    }
    let mut i: usize = 0;
    while i < edges.len()
        invariant
            es == edge_views(edges@),
            f == (|i: int| if first_of_pair(es, i) { "  \""@ + es[i].0 + "\" -> \""@ + es[i].1 + "\";\n"@ } else { Seq::empty() }),
            i <= es.len(),
            out@ == start + cat(i as nat, f),
        decreases edges.len() - i,
    {
        let (a, b) = (&edges[i].0, &edges[i].1);
        assert(es[i as int] == (a@, b@));
        let mut first = true;
        let mut j: usize = 0;
        while j < i
            invariant
                es == edge_views(edges@),
                i < es.len(),
                es[i as int] == (a@, b@),
                j <= i,
                first == forall|t: int| 0 <= t < j ==> !same_pair(#[trigger] es[t], es[i as int]),
            decreases i - j,
        {
            let (c, d) = (&edges[j].0, &edges[j].1);
            assert(es[j as int] == (c@, d@));
            if (*c == *a && *d == *b) || (*c == *b && *d == *a) {
                first = false;
            }
            j = j + 1;
        }
        let ghost before = out@;
        if first {
            push_str(out, "  \"");
            push_str(out, a.as_str());
            push_str(out, "\" -> \"");
            push_str(out, b.as_str());
            push_str(out, "\";\n");
        }
        proof {
            lemma_cat_step(i as nat, f);
            assert(out@ =~= before + f(i as int));
        }
        i = i + 1;
    }
}

#[verifier::spinoff_prover]
#[verifier::rlimit(40)]
fn emit_legend_entry(out: &mut Vec<char>, i: usize, job: &String)
    ensures
        final(out)@ == old(out)@ + legend_entry(i as int, job@),
{
    let ghost start = out@;
    let (color, style) = alloc_style(i);
    push_str(out, "    \"__legend_");
    push_num(out, i);
    push_str(out, "\" [shape=box style=\"");
    push_str(out, style);
    push_str(out, "\" fillcolor=\"");
    push_str(out, color);
    push_str(out, "\" label=\"");
    push_str(out, job.as_str());
    push_str(out, "\" fontsize=8 width=2.4 height=0.28 fixedsize=true];\n");
    let ghost mid = out@;
    if i > 0 {
        push_str(out, "    \"__legend_");
        push_num(out, i - 1);
        push_str(out, "\" -> \"__legend_");
        push_num(out, i);
        push_str(out, "\" [style=invis];\n");
    }
    assert(out@ =~= start + legend_entry(i as int, job@));
}

#[verifier::spinoff_prover]
#[verifier::rlimit(40)]
fn emit_legend(out: &mut Vec<char>, colors: &JobColors)
    requires
        colors.wf(),
    ensures
        final(out)@ == old(out)@ + legend_text(colors.view_alloc()),
{
    let ghost a = colors.view_alloc();
    let ghost js = views(colors.jobs@);
    if colors.jobs.len() > 0 {
        let ghost start = out@;
        push_str(out, "\n  subgraph cluster_legend {\n    label=\"Legend\"; style=filled; fillcolor=white; fontsize=10;\n");
        let ghost mid = out@;
        let ghost f = |i: int| legend_entry(i, js[i]);
        proof {
            lemma_cat_zero(f);
        }
        let mut i: usize = 0;
        while i < colors.jobs.len()
            invariant
                colors.wf(),
                js == views(colors.jobs@),
                f == (|i: int| legend_entry(i, js[i])),
                i <= js.len(),
                out@ == mid + cat(i as nat, f),
            decreases colors.jobs.len() - i,
        {
            let ghost before = out@;
            emit_legend_entry(out, i, &colors.jobs[i]);
            proof {
                lemma_cat_step(i as nat, f);
                assert(out@ =~= before + f(i as int));
            }
            i = i + 1;
        }
        push_str(out, "  }\n");
        assert(out@ =~= start + legend_text(a));
    } else {
        assert(legend_text(a) =~= Seq::<char>::empty());
        assert(out@ =~= old(out)@ + legend_text(a));
    }
}

/// The DOT source of the drawing of `ir`: its cells, racks, L1 switches
/// and compute nodes as nested clusters, the nodes of each job of
/// `allocations` (job name and its nodes) in the job's colour, and a legend.
#[verifier::spinoff_prover]
#[verifier::rlimit(40)]
pub fn render_dot(ir: &TopologyIR, allocations: &Vec<(String, Vec<String>)>, opts: &DisplayOptions) -> (r: String)
    ensures
        r@ == dot_text(ir@, alloc_view(allocations@), *opts),
{
    let colors = JobColors::new(allocations);
    let ghost a = colors.view_alloc();
    let ghost v = ir@;
    let mut out: Vec<char> = Vec::new();
    push_str(&mut out, "digraph G {\n  layout=dot;\n  rankdir=TB;\n  newrank=true;\n  compound=true;\n  clusterrank=local;\n  ranksep=0.25;\n  nodesep=0.35;\n  splines=false;\n");
    push_str(&mut out, "  node [fontname=\"Helvetica\"];\n  edge [dir=none penwidth=0.6 color=\"#888888\"];\n  graph [fontname=\"Helvetica\" labeljust=l];\n\n");
    assert(out@ =~= dot_header());
    let mut edges: Vec<(String, String)> = Vec::new();
    let cells = drawn_cells_of(ir);
    let ghost cv = views(cells@);
    let ghost ft = |ci: int| cell_text(v, a, *opts, ci, cv[ci]);
    let ghost fe = |ci: int| cell_edges(v, *opts, cv[ci]);
    proof {
        lemma_cat_zero(ft);
        lemma_cat_zero(fe);
    }
    assert(edge_views(edges@) =~= Seq::<(Seq<char>, Seq<char>)>::empty());
    let mut ci: usize = 0;
    while ci < cells.len()
        invariant
            colors.wf(),
            a == colors.view_alloc(),
            v == ir@,
            cv == views(cells@),
            ft == (|ci: int| cell_text(v, a, *opts, ci, cv[ci])),
            fe == (|ci: int| cell_edges(v, *opts, cv[ci])),
            ci <= cv.len(),
            out@ == dot_header() + cat(ci as nat, ft),
            edge_views(edges@) == cat(ci as nat, fe),
        decreases cells.len() - ci,
    {
        emit_cell(&mut out, &mut edges, ir, &colors, opts, ci, &cells[ci]);
        proof {
            lemma_cat_step(ci as nat, ft);
            lemma_cat_step(ci as nat, fe);
        }
        ci = ci + 1;
    }
    assert(edge_views(edges@) == all_edges(v, *opts));
    emit_anchors(&mut out, cells.len());
    let ghost before = out@;
    if opts.show_edges {
        emit_edges(&mut out, &edges);
    }
    assert(out@ =~= before + (if opts.show_edges { edges_text(all_edges(v, *opts)) } else { Seq::empty() }));
    emit_legend(&mut out, &colors);
    push_str(&mut out, "}\n");
    assert(out@ =~= dot_text(v, a, *opts));
    string_of(out.as_slice())
}

} // verus!
