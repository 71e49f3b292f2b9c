//! Leonardo: a Dragonfly of cells, each with racks of L1/L2 switch pairs.
//! Switch names are `isw<RR><rr><SS>` (rack digits then a two-digit switch
//! number, even for L1 and odd for L2); cell groups are virtual switches
//! named `isw-L2-CELL<n>`.  Weights are in thousandths of 100 Gbps.
use vstd::prelude::*;
use vstd::string::*;
use crate::ir::{children_in, LinkView, kind_is, lemma_children_after_add, lemma_kind_after_add, lemma_kind_same_shape, same_shape, with_child, with_entity, Entity, EntityKind, EntityView, Id, TopologyIR};
use crate::kv::StrMap;
use crate::sinfo::NodeInfo;
use crate::topology::{finish_build, finished, infos_view, partitions_enriched, NodeFilterOptions};
use crate::cells::{all_pair_links, cell_groups, link_cells};
use crate::nodelist::{expand_nodelist, expand_nodelist_spec, fields_of, parse_line, NodeListParseError};
use crate::scontrol::{cut2, cut_two, has_prefix, is_short1, is_short2, merge_continuation_lines, merged_lines, short1, short2, tail_ok};
use crate::text::{
    chars_eq, chars_of, dec_digits, extend_chars, format_padded, is_digit, parse_unsigned, parse_usize, slice_chars,
    split_on, starts_with, string_of, views, words, zero_pad,
};

verus! {

/// Number of inter-cell links modelled between each pair of cells.
pub const INTER_CELL_LINKS_PER_PAIR: usize = 18;

/// Compute node to L1 switch (100 Gbps).
pub const W_L1_NODE: u64 = 1000;

/// L1 to L2 switch within a pair (100 Gbps).
pub const W_L1_L2: u64 = 1000;

/// L2 to L2 switch between cells (200 Gbps).
pub const W_INTER_CELL: u64 = 2000;

/// Behavioural knobs of the Leonardo parser.
#[derive(Clone, Copy, Debug)]
pub struct LeonardoOptions {
    /// Add a link between each L1 switch and its L2 partner.
    pub intra_pair_links: bool,
}

impl Default for LeonardoOptions {
    fn default() -> (r: Self)
        ensures
            r.intra_pair_links,
    {
        LeonardoOptions { intra_pair_links: true }
    }
}

/// The Leonardo topology parser.
#[derive(Clone, Copy, Debug)]
pub struct LeonardoParser {
    pub options: LeonardoOptions,
}

impl Default for LeonardoParser {
    fn default() -> (r: Self)
        ensures
            r.options.intra_pair_links,
    {
        LeonardoParser { options: LeonardoOptions { intra_pair_links: true } }
    }
}

/// The text after an `isw` prefix.
pub open spec fn isw_rest(n: Seq<char>) -> Option<Seq<char>> {
    if has_prefix(n, "isw"@) {
        Some(n.skip(3))
    } else {
        None
    }
}

/// Real hardware switches are `isw` followed by a digit; everything else
/// (HeadSwitch, `isw-L2-CELL*`, `isws*`) is virtual.
pub open spec fn virtual_switch(n: Seq<char>) -> bool {
    match isw_rest(n) {
        Some(r) => !(r.len() > 0 && is_digit(r[0])),
        None => true,
    }
}

/// `s` contains `p` as a substring.
pub open spec fn contains_text(s: Seq<char>, p: Seq<char>) -> bool {
    exists|i: int| 0 <= i && i + p.len() <= s.len() && #[trigger] s.subrange(i, i + p.len()) == p
}

/// Cell groups are virtual switches whose name contains `CELL`.
pub open spec fn cell_group(n: Seq<char>) -> bool {
    virtual_switch(n) && contains_text(n, "CELL"@)
}

/// The value of the last two bytes of `d` as `str::parse::<u32>` reads them.
pub open spec fn tail_value(d: Seq<char>) -> Option<nat> {
    match cut2(d) {
        Some(k) => parse_unsigned(d.skip(k), u32::MAX as nat),
        None => None,
    }
}

/// Switch level: an even last pair of digits is an L1 switch (0), an odd
/// one an L2 switch (1).
pub open spec fn level_from_name(n: Seq<char>) -> Option<u32> {
    match isw_rest(n) {
        None => None,
        Some(d) => if short1(d) {
            None
        } else {
            match tail_value(d) {
                Some(ss) => Some(if ss % 2 == 0 {
                    0u32
                } else {
                    1u32
                }),
                None => None,
            }
        },
    }
}

/// The switch number within the rack (the last two digits).
pub open spec fn ss_of_name(n: Seq<char>) -> Option<u32> {
    match isw_rest(n) {
        None => None,
        Some(d) => if short1(d) {
            None
        } else {
            match tail_value(d) {
                Some(ss) => Some(ss as u32),
                None => None,
            }
        },
    }
}

/// The rack of a switch: all digits but the last two.
pub open spec fn rack_of_name(n: Seq<char>) -> Option<Seq<char>> {
    match isw_rest(n) {
        None => None,
        Some(d) => if short2(d) {
            None
        } else {
            Some(d.take(cut2(d)->Some_0))
        },
    }
}

/// `isw-L2-CELLG21` → `CELLG21`: the text after the last `-`.
pub open spec fn cell_id_of(n: Seq<char>) -> Seq<char> {
    split_on(n, '-').last()
}

/// The name of the L2 partner of an L1 switch: same rack, number + 1.
pub open spec fn partner_name(n: Seq<char>) -> Option<Seq<char>> {
    match isw_rest(n) {
        None => None,
        Some(d) => if short1(d) {
            None
        } else {
            match tail_value(d) {
                Some(ss) => Some("isw"@ + d.take(cut2(d)->Some_0) + zero_pad(dec_digits(ss + 1), 2)),
                None => None,
            }
        },
    }
}

/// A switch name whose byte-level tail can be cut where the name parsers
/// cut it.
pub open spec fn name_ok(n: Seq<char>) -> bool {
    match isw_rest(n) {
        Some(d) => tail_ok(d),
        None => true,
    }
}

/// The text after an `isw` prefix.
fn isw_rest_of(n: &[char]) -> (r: Option<Vec<char>>)
    ensures
        match isw_rest(n@) {
            Some(d) => r matches Some(v) && v@ == d,
            None => r is None,
        },
{
    let p = chars_of("isw");
    proof {
        reveal_strlit("isw");
    }
    if starts_with(n, p.as_slice()) {
        let v = slice_chars(n, 3, n.len());
        assert(v@ =~= n@.skip(3));
        Some(v)
    } else {
        None
    }
}

pub fn is_virtual_switch(name: &[char]) -> (b: bool)
    ensures
        b == virtual_switch(name@),
{
    match isw_rest_of(name) {
        Some(r) => !(r.len() > 0 && '0' <= r[0] && r[0] <= '9'),
        None => true,
    }
}

/// Whether `s` contains `p`.
pub fn contains_chars(s: &[char], p: &[char]) -> (b: bool)
    requires
        p@.len() >= 1,
    ensures
        b == contains_text(s@, p@),
{
    if p.len() > s.len() {
        return false;
    }
    let mut i: usize = 0;
    let slen = s.len();
    let plen = p.len();
    let last = slen - plen;
    while i <= last
        invariant
            slen == s@.len(),
            plen == p@.len(),
            p@.len() >= 1,
            p@.len() <= s@.len(),
            last == s@.len() - p@.len(),
            i <= last + 1,
            forall|j: int| 0 <= j < i ==> #[trigger] s@.subrange(j, j + p@.len()) != p@,
        decreases last + 1 - i,
    {
        let sub = slice_chars(s, i, i + plen);
        if chars_eq(sub.as_slice(), p) {
            assert(s@.subrange(i as int, i + p@.len()) == p@);
            return true;
        }
        i = i + 1;
    }
    false
}

pub fn is_cell_group(name: &[char]) -> (b: bool)
    ensures
        b == cell_group(name@),
{
    let c = chars_of("CELL");
    proof {
        reveal_strlit("CELL");
    }
    is_virtual_switch(name) && contains_chars(name, c.as_slice())
}

proof fn lemma_small_parse(t: Seq<char>)
    requires
        t.len() <= 2,
    ensures
        parse_unsigned(t, usize::MAX as nat) == parse_unsigned(t, u32::MAX as nat),
        parse_unsigned(t, u32::MAX as nat) matches Some(v) ==> v <= 99,
{
    let d = if t.len() > 0 && t[0] == '+' {
        t.drop_first()
    } else {
        t
    };
    if d.len() > 0 && crate::text::all_digits(d) {
        assert(is_digit(d[0]));
        if d.len() == 1 {
            assert(d.drop_last().len() == 0);
            assert(d.last() == d[0]);
            assert(crate::text::digit_value(d.last()) <= 9);
            assert(crate::text::dec_value(d.drop_last()) == 0);
            assert(crate::text::dec_value(d) <= 9);
        } else {
            assert(is_digit(d[1]));
            let e = d.drop_last();
            assert(e.len() == 1);
            assert(e.drop_last().len() == 0);
            assert(e.last() == d[0]);
            assert(d.last() == d[1]);
            assert(crate::text::digit_value(e.last()) <= 9);
            assert(crate::text::digit_value(d.last()) <= 9);
            assert(crate::text::dec_value(e.drop_last()) == 0);
            assert(crate::text::dec_value(e) <= 9);
            assert(crate::text::dec_value(d) <= 99);
        }
    }
}

/// The value of the last two bytes of `d`, when `d` has at least two bytes.
fn tail_value_of(d: &[char]) -> (r: Option<u32>)
    requires
        tail_ok(d@),
        !short1(d@),
    ensures
        match tail_value(d@) {
            Some(v) => r == Some(v as u32) && v <= 99,
            None => r is None,
        },
{
    let k = cut_two(d).unwrap();
    let t = slice_chars(d, k, d.len());
    assert(t@ =~= d@.skip(k as int));
    proof {
        lemma_small_parse(t@);
    }
    match parse_usize(t.as_slice()) {
        Some(v) => Some(v as u32),
        None => None,
    }
}

pub fn switch_level_from_name(name: &[char]) -> (r: Option<u32>)
    requires
        name_ok(name@),
    ensures
        r == level_from_name(name@),
{
    match isw_rest_of(name) {
        None => None,
        Some(d) => {
            if is_short1(d.as_slice()) {
                return None;
            }
            match tail_value_of(d.as_slice()) {
                Some(ss) => Some(if ss % 2 == 0 {
                    0
                } else {
                    1
                }),
                None => None,
            }
        },
    }
}

pub fn ss_from_name(name: &[char]) -> (r: Option<u32>)
    requires
        name_ok(name@),
    ensures
        r == ss_of_name(name@),
{
    match isw_rest_of(name) {
        None => None,
        Some(d) => {
            if is_short1(d.as_slice()) {
                return None;
            }
            tail_value_of(d.as_slice())
        },
    }
}

pub fn rack_from_name(name: &[char]) -> (r: Option<Vec<char>>)
    requires
        name_ok(name@),
    ensures
        match rack_of_name(name@) {
            Some(x) => r matches Some(v) && v@ == x,
            None => r is None,
        },
{
    match isw_rest_of(name) {
        None => None,
        Some(d) => {
            if is_short2(d.as_slice()) {
                return None;
            }
            let k = cut_two(d.as_slice()).unwrap();
            Some(slice_chars(d.as_slice(), 0, k))
        },
    }
}

pub fn cell_id_from_group_name(name: &[char]) -> (r: Vec<char>)
    ensures
        r@ == cell_id_of(name@),
{
    let parts = crate::text::split_chars(name, '-');
    proof {
        crate::text::lemma_split_on_nonempty(name@, '-');
    }
    let last = parts.len() - 1;
    assert(parts@[last as int]@ == split_on(name@, '-').last());
    crate::nodelist::copy_chars(&parts[last])
}

/// The name of the L2 partner of an L1 switch.
fn partner_name_of(name: &[char]) -> (r: Option<Vec<char>>)
    requires
        name_ok(name@),
    ensures
        match partner_name(name@) {
            Some(x) => r matches Some(v) && v@ == x,
            None => r is None,
        },
{
    match isw_rest_of(name) {
        None => None,
        Some(d) => {
            if is_short1(d.as_slice()) {
                return None;
            }
            match tail_value_of(d.as_slice()) {
                Some(ss) => {
                    let k = cut_two(d.as_slice()).unwrap();
                    let mut v = chars_of("isw");
                    let rack = slice_chars(d.as_slice(), 0, k);
                    extend_chars(&mut v, rack.as_slice());
                    let num = format_padded((ss + 1) as usize, 2);
                    extend_chars(&mut v, num.as_slice());
                    assert(v@ =~= "isw"@ + d@.take(k as int) + zero_pad(dec_digits((ss + 1) as nat), 2));
                    Some(v)
                },
                None => None,
            }
        },
    }
}

/// The L2 partner of an L1 switch, if the topology has it.
pub fn l2_partner_of(l1_name: &[char], ir: &TopologyIR) -> (r: Option<Id>)
    requires
        name_ok(l1_name@),
    ensures
        match partner_name(l1_name@) {
            Some(x) => if ir@.has(x) {
                r matches Some(id) && id@ == x
            } else {
                r is None
            },
            None => r is None,
        },
{
    match partner_name_of(l1_name) {
        Some(v) => {
            let id = Id(string_of(v.as_slice()));
            if ir.contains_entity(&id) {
                Some(id)
            } else {
                None
            }
        },
        None => None,
    }
}


/// The `key=value` fields of a record.
pub open spec fn field_of(l: Seq<char>, key: Seq<char>) -> Option<Seq<char>> {
    let f = fields_of(words(l));
    if f.contains_key(key) {
        Some(f[key])
    } else {
        None
    }
}

/// The switch a record describes.
pub open spec fn switch_name(l: Seq<char>) -> Option<Seq<char>> {
    field_of(l, "SwitchName"@)
}

/// A record of a real (hardware) switch.
pub open spec fn real_switch_line(l: Seq<char>) -> bool {
    switch_name(l) matches Some(n) && !virtual_switch(n)
}

/// A record of an L1 switch.
pub open spec fn l1_line(l: Seq<char>) -> bool {
    switch_name(l) matches Some(n) && !virtual_switch(n) && level_from_name(n) == Some(0u32)
}

/// A record of a cell group.
pub open spec fn group_line(l: Seq<char>) -> bool {
    switch_name(l) matches Some(n) && cell_group(n)
}

/// The member-switch lists of cell groups all expand.
pub open spec fn switches_ok(ls: Seq<Seq<char>>) -> bool {
    forall|i: int|
        0 <= i < ls.len() && group_line(#[trigger] ls[i]) ==> (field_of(ls[i], "Switches"@) matches Some(t)
            ==> expand_nodelist_spec(t) is Ok)
}

/// The node lists of L1 switches all expand.
pub open spec fn nodes_ok(ls: Seq<Seq<char>>) -> bool {
    forall|i: int|
        0 <= i < ls.len() && l1_line(#[trigger] ls[i]) ==> (field_of(ls[i], "Nodes"@) matches Some(t)
            ==> expand_nodelist_spec(t) is Ok)
}

/// Every switch name the parser takes apart can be cut at its last two
/// bytes: those of the records and those listed under cell groups.
pub open spec fn names_ok(ls: Seq<Seq<char>>) -> bool {
    &&& forall|i: int| 0 <= i < ls.len() ==> (switch_name(#[trigger] ls[i]) matches Some(n) ==> name_ok(n))
    &&& forall|i: int|
        0 <= i < ls.len() && group_line(#[trigger] ls[i]) ==> (field_of(ls[i], "Switches"@) matches Some(t)
            ==> (expand_nodelist_spec(t) matches Ok(names) ==> forall|k: int| 0 <= k < names.len() ==> name_ok(#[trigger] names[k])))
}

/// Node `x` hangs under switch `sw`: it is a compute entity, a child of `sw`
/// and linked to it with the node weight.
pub open spec fn placed(ir: crate::ir::IRView, sw: Seq<char>, x: Seq<char>) -> bool {
    &&& kind_is(ir.entities, x, EntityKind::Compute)
    &&& ir.children(sw).contains(x)
    &&& ir.links.contains((sw, x, W_L1_NODE))
}

/// Names of compute nodes on Leonardo start with `lrdn`.
pub open spec fn lrdn(x: Seq<char>) -> bool {
    has_prefix(x, "lrdn"@)
}

/// Every `lrdn` entity is a compute node.
pub open spec fn lrdn_compute(es: Seq<EntityView>) -> bool {
    forall|j: int| 0 <= j < es.len() && lrdn(#[trigger] es[j].0) ==> es[j].1 is Compute
}

proof fn lemma_isw_not_lrdn(n: Seq<char>, x: Seq<char>)
    requires
        isw_rest(n) is Some,
        lrdn(x),
    ensures
        n != x,
{
    reveal_strlit("isw");
    reveal_strlit("lrdn");
    assert("isw"@[0] == 'i');
    assert("lrdn"@[0] == 'l');
    assert(n.take(3)[0] == n[0]);
    assert(x.take(4)[0] == x[0]);
}

/// `names` lists switch `x`, and its name gives a rack.
pub open spec fn pair_listed(names: Seq<String>, x: Seq<char>) -> bool {
    exists|k: int| 0 <= k < names.len() && names[k]@ == x && rack_of_name(x) is Some
}

/// The switch pair a switch belongs to within its rack: its number `SS`
/// halved (the L1 switch `SS` even and its L2 partner `SS + 1` share it).
pub open spec fn pair_index_of(n: Seq<char>) -> Seq<char> {
    let ss: u32 = match ss_of_name(n) {
        Some(v) => v,
        None => 0,
    };
    dec_digits((ss / 2) as nat)
}

/// Entity `e` records cell `cell`, the rack its name gives, and its switch
/// pair within that rack.
pub open spec fn pair_meta(e: EntityView, cell: Seq<char>) -> bool {
    &&& e.2.contains_key("cell"@)
    &&& e.2["cell"@] == cell
    &&& rack_of_name(e.0) is Some
    &&& e.2.contains_key("rack"@)
    &&& e.2["rack"@] == rack_of_name(e.0)->Some_0
    &&& e.2.contains_key("pair_index"@)
    &&& e.2["pair_index"@] == pair_index_of(e.0)
}

/// Entities with the same ids are found at the same positions.
proof fn lemma_pos_same_shape(a: Seq<EntityView>, b: Seq<EntityView>, x: Seq<char>)
    requires
        same_shape(a, b),
    ensures
        crate::ir::entity_pos(a, x) == crate::ir::entity_pos(b, x),
{
    crate::ir::lemma_pos_props(a, x);
    match crate::ir::entity_pos(a, x) {
        Some(k) => {
            assert forall|j: int| 0 <= j < k implies b[j].0 != x by {
                assert(a[j].0 == b[j].0);
            }
            assert(b[k as int].0 == a[k as int].0);
            crate::ir::lemma_pos_is(b, x, k as int);
        },
        None => {
            assert forall|j: int| 0 <= j < b.len() implies b[j].0 != x by {
                assert(a[j].0 == b[j].0);
            }
            crate::ir::lemma_pos_none(b, x);
        },
    }
}

/// Setting one metadata key keeps the group metadata of an entity, as long
/// as `cell` and `rack` are set to what that entity records.
proof fn lemma_meta_kept(
    a: Seq<EntityView>,
    b: Seq<EntityView>,
    id: Seq<char>,
    key: Seq<char>,
    val: Seq<char>,
    cell: Seq<char>,
    j: int,
)
    requires
        b == (match crate::ir::entity_pos(a, id) {
            Some(k) => a.update(k as int, (a[k as int].0, a[k as int].1, a[k as int].2.insert(key, val))),
            None => a,
        }),
        0 <= j < a.len(),
        pair_meta(a[j], cell),
        key == "cell"@ ==> val == cell,
        key == "rack"@ ==> rack_of_name(id) == Some(val),
        key == "pair_index"@ ==> val == pair_index_of(id),
    ensures
        pair_meta(b[j], cell),
{
    crate::ir::lemma_pos_props(a, id);
}

/// Record on each member switch of a cell (those whose name gives a rack)
/// the cell, its rack and its switch pair within the rack.
#[verifier::spinoff_prover]
#[verifier::rlimit(40)]
fn assign_pairs(ir: &mut TopologyIR, cell: &[char], names: &Vec<String>)
    requires
        forall|k: int| 0 <= k < names@.len() ==> name_ok(#[trigger] names@[k]@),
    ensures
        same_shape(old(ir)@.entities, final(ir)@.entities),
        final(ir)@.links == old(ir)@.links,
        final(ir)@.contains == old(ir)@.contains,
        old(ir)@.wf() ==> final(ir)@.wf(),
        forall|j: int|
            0 <= j < old(ir)@.entities.len() && pair_listed(names@, old(ir)@.entities[j].0) && crate::ir::entity_pos(
                old(ir)@.entities,
                old(ir)@.entities[j].0,
            ) == Some(j as nat) ==> pair_meta(#[trigger] final(ir)@.entities[j], cell@),
        forall|j: int|
            0 <= j < old(ir)@.entities.len() && !pair_listed(names@, old(ir)@.entities[j].0)
                ==> #[trigger] final(ir)@.entities[j] == old(ir)@.entities[j],
{
    proof {
        reveal_strlit("cell");
        reveal_strlit("rack");
        reveal_strlit("pair_index");
        assert("cell"@[0] != "rack"@[0]);
        assert("cell"@.len() != "pair_index"@.len());
        assert("rack"@.len() != "pair_index"@.len());
    }
    let ghost start = ir@;
    let mut k: usize = 0;
    while k < names.len()
        invariant
            k <= names@.len(),
            forall|q: int| 0 <= q < names@.len() ==> name_ok(#[trigger] names@[q]@),
            same_shape(start.entities, ir@.entities),
            ir@.links == start.links,
            ir@.contains == start.contains,
            start.wf() ==> ir@.wf(),
            "cell"@ != "rack"@ && "cell"@ != "pair_index"@ && "rack"@ != "pair_index"@,
            forall|j: int|
                0 <= j < start.entities.len() && !pair_listed(names@, start.entities[j].0)
                    ==> #[trigger] ir@.entities[j] == start.entities[j],
            forall|q: int, j: int|
                0 <= q < k && rack_of_name(names@[q]@) is Some && 0 <= j < start.entities.len() && crate::ir::entity_pos(
                    start.entities,
                    (#[trigger] names@[q])@,
                ) == Some(j as nat) ==> pair_meta(#[trigger] ir@.entities[j], cell@),
        decreases names.len() - k,
    {
        let nc = chars_of(names[k].as_str());
        assert(name_ok(names@[k as int]@));
        match rack_from_name(nc.as_slice()) {
            Some(rack) => {
                let ss = match ss_from_name(nc.as_slice()) {
                    Some(v) => v,
                    None => 0,
                };
                let id = Id(names[k].clone());
                let ghost x = id@;
                let ghost e0 = ir@.entities;
                proof {
                    assert(pair_listed(names@, x));
                    lemma_pos_same_shape(start.entities, e0, x);
                }
                ir.set_meta(&id, "cell", string_of(cell));
                let ghost e1 = ir@.entities;
                ir.set_meta(&id, "rack", string_of(rack.as_slice()));
                let ghost e2 = ir@.entities;
                let idx = format_padded((ss / 2) as usize, 0);
                ir.set_meta(&id, "pair_index", string_of(idx.as_slice()));
                proof {
                    assert(idx@ == pair_index_of(x));
                    assert(same_shape(e0, e1));
                    assert(same_shape(e1, e2));
                    lemma_pos_same_shape(e0, e1, x);
                    lemma_pos_same_shape(e1, e2, x);
                    assert forall|j: int| 0 <= j < start.entities.len() implies #[trigger] start.entities[j].0 == ir@.entities[j].0
                        && start.entities[j].1 == ir@.entities[j].1 by {}
                    crate::ir::lemma_pos_props(start.entities, x);
                    assert forall|j: int|
                        0 <= j < start.entities.len() && !pair_listed(names@, start.entities[j].0)
                            implies #[trigger] ir@.entities[j] == start.entities[j] by {
                        assert(e0[j] == start.entities[j]);
                        if crate::ir::entity_pos(e0, x) == Some(j as nat) {
                            assert(start.entities[j].0 == x);
                        }
                    }
                    assert forall|j: int| 0 <= j < e0.len() && pair_meta(e0[j], cell@) implies pair_meta(#[trigger] ir@.entities[j], cell@) by {
                        lemma_meta_kept(e0, e1, x, "cell"@, cell@, cell@, j);
                        lemma_meta_kept(e1, e2, x, "rack"@, rack@, cell@, j);
                        lemma_meta_kept(e2, ir@.entities, x, "pair_index"@, idx@, cell@, j);
                    }
                    match crate::ir::entity_pos(start.entities, x) {
                        Some(p) => {
                            let p = p as int;
                            assert(e1[p].2 == e0[p].2.insert("cell"@, cell@));
                            assert(e2[p].2 == e1[p].2.insert("rack"@, rack@));
                            assert(ir@.entities[p].2 == e2[p].2.insert("pair_index"@, idx@));
                            assert(ir@.entities[p].0 == x);
                            assert(pair_meta(ir@.entities[p], cell@));
                        },
                        None => {},
                    }
                    assert forall|q: int, j: int|
                        0 <= q < k + 1 && rack_of_name(names@[q]@) is Some && 0 <= j < start.entities.len() && crate::ir::entity_pos(
                            start.entities,
                            (#[trigger] names@[q])@,
                        ) == Some(j as nat) implies pair_meta(#[trigger] ir@.entities[j], cell@) by {
                        if q < k {
                            assert(pair_meta(e0[j], cell@));
                        } else {
                            assert(names@[q]@ == x);
                        }
                    }
                }
            },
            None => {},
        }
        k = k + 1;
    }
    proof {
        assert forall|j: int|
            0 <= j < start.entities.len() && pair_listed(names@, start.entities[j].0) && crate::ir::entity_pos(
                start.entities,
                start.entities[j].0,
            ) == Some(j as nat) implies pair_meta(#[trigger] ir@.entities[j], cell@) by {
            let y = start.entities[j].0;
            let k0 = choose|k0: int| 0 <= k0 < names@.len() && names@[k0]@ == y && rack_of_name(y) is Some;
            assert(crate::ir::entity_pos(start.entities, names@[k0]@) == Some(j as nat));
        }
    }
}

/// One of the first `upto` names is `c`, an `lrdn` node.
pub open spec fn names_node(names: Seq<String>, upto: int, c: Seq<char>) -> bool {
    lrdn(c) && exists|q: int| 0 <= q < upto && q < names.len() && names[q]@ == c
}

/// What `attach_nodes` did to `start` after the first `upto` names: old
/// entities keep their places (an `lrdn` one may be replaced by a fresh
/// compute entity of one of the names), new lists are those of `sw`, and
/// every new child or link is one of the names under `sw`.
pub open spec fn attach_sound(start: crate::ir::IRView, v: crate::ir::IRView, sw: Seq<char>, names: Seq<String>, upto: int) -> bool {
    &&& v.entities.len() >= start.entities.len()
    &&& forall|j: int| 0 <= j < start.entities.len() ==> (#[trigger] v.entities[j]).0 == start.entities[j].0
    &&& forall|j: int|
        0 <= j < v.entities.len() ==> (j < start.entities.len() && #[trigger] v.entities[j] == start.entities[j]) || (
        names_node(names, upto, v.entities[j].0) && v.entities[j].1 == EntityKind::Compute && v.entities[j].2 == Map::<
            Seq<char>,
            Seq<char>,
        >::empty())
    &&& v.contains.len() >= start.contains.len()
    &&& forall|kk: int| 0 <= kk < start.contains.len() ==> (#[trigger] v.contains[kk]).0 == start.contains[kk].0
    &&& forall|kk: int| start.contains.len() <= kk < v.contains.len() ==> (#[trigger] v.contains[kk]).0 == sw
    &&& forall|kk: int, c: Seq<char>|
        0 <= kk < v.contains.len() && #[trigger] v.contains[kk].1.contains(c) ==> (kk < start.contains.len()
            && start.contains[kk].1.contains(c)) || (v.contains[kk].0 == sw && names_node(names, upto, c))
    &&& forall|l: crate::ir::LinkView|
        #[trigger] v.links.contains(l) ==> start.links.contains(l) || (l.0 == sw && names_node(names, upto, l.1) && l.2
            == W_L1_NODE)
}

proof fn lemma_attach_mono(start: crate::ir::IRView, v: crate::ir::IRView, sw: Seq<char>, names: Seq<String>, k: int)
    requires
        attach_sound(start, v, sw, names, k),
    ensures
        attach_sound(start, v, sw, names, k + 1),
{
    assert forall|c: Seq<char>| names_node(names, k, c) implies names_node(names, k + 1, c) by {
        let q = choose|q: int| 0 <= q < k && q < names.len() && names[q]@ == c;
    }
}

proof fn lemma_attach_step(
    start: crate::ir::IRView,
    before: crate::ir::IRView,
    after: crate::ir::IRView,
    sw: Seq<char>,
    names: Seq<String>,
    k: int,
)
    requires
        0 <= k < names.len(),
        lrdn(names[k]@),
        attach_sound(start, before, sw, names, k),
        after.entities == with_entity(before.entities, (names[k]@, EntityKind::Compute, Map::empty())),
        after.contains == with_child(before.contains, sw, names[k]@),
        after.links == before.links.push((sw, names[k]@, W_L1_NODE)),
    ensures
        attach_sound(start, after, sw, names, k + 1),
{
    let xv = names[k]@;
    let ev: EntityView = (xv, EntityKind::Compute, Map::empty());
    assert forall|c: Seq<char>| names_node(names, k, c) implies names_node(names, k + 1, c) by {
        let q = choose|q: int| 0 <= q < k && q < names.len() && names[q]@ == c;
    }
    assert(names_node(names, k + 1, xv));
    crate::ir::lemma_pos_props(before.entities, xv);
    assert forall|j: int| 0 <= j < start.entities.len() implies (#[trigger] after.entities[j]).0 == start.entities[j].0 by {
        assert(before.entities[j].0 == start.entities[j].0);
    }
    assert forall|j: int|
        0 <= j < after.entities.len() implies (j < start.entities.len() && #[trigger] after.entities[j] == start.entities[j]) || (
        names_node(names, k + 1, after.entities[j].0) && after.entities[j].1 == EntityKind::Compute && after.entities[j].2 == Map::<
            Seq<char>,
            Seq<char>,
        >::empty()) by {
        if after.entities[j] != ev {
            assert(after.entities[j] == before.entities[j]);
        }
    }
    crate::ir::lemma_ppos_props(before.contains, sw);
    assert forall|kk: int| 0 <= kk < start.contains.len() implies (#[trigger] after.contains[kk]).0 == start.contains[kk].0 by {
        assert(before.contains[kk].0 == start.contains[kk].0);
    }
    assert forall|kk: int| start.contains.len() <= kk < after.contains.len() implies (#[trigger] after.contains[kk]).0 == sw by {
        if kk < before.contains.len() {
            assert(before.contains[kk].0 == sw);
        }
    }
    assert forall|kk: int, c: Seq<char>|
        0 <= kk < after.contains.len() && #[trigger] after.contains[kk].1.contains(c) implies (kk < start.contains.len()
            && start.contains[kk].1.contains(c)) || (after.contains[kk].0 == sw && names_node(names, k + 1, c)) by {
        match crate::ir::parent_pos(before.contains, sw) {
            Some(p) => {
                if kk == p {
                    let i = choose|i: int| 0 <= i < after.contains[kk].1.len() && after.contains[kk].1[i] == c;
                    if i < before.contains[kk].1.len() {
                        assert(before.contains[kk].1[i] == c);
                        assert(before.contains[kk].1.contains(c));
                    }
                } else {
                    assert(after.contains[kk] == before.contains[kk]);
                }
            },
            None => {
                if kk < before.contains.len() {
                    assert(after.contains[kk] == before.contains[kk]);
                } else {
                    assert(after.contains[kk].1 == seq![xv]);
                }
            },
        }
    }
    assert forall|l: crate::ir::LinkView|
        #[trigger] after.links.contains(l) implies start.links.contains(l) || (l.0 == sw && names_node(names, k + 1, l.1) && l.2
            == W_L1_NODE) by {
        let li = choose|li: int| 0 <= li < after.links.len() && after.links[li] == l;
        if li < before.links.len() {
            assert(before.links.contains(l));
        }
    }
}

/// Add the `lrdn` nodes among `names` under switch `sw`: each a compute
/// entity, a child of `sw` and linked to it.
fn attach_nodes(ir: &mut TopologyIR, sw: &Id, names: &Vec<String>)
    requires
        old(ir)@.wf(),
        lrdn_compute(old(ir)@.entities),
    ensures
        final(ir)@.wf(),
        lrdn_compute(final(ir)@.entities),
        forall|k: int| 0 <= k < names@.len() && lrdn(#[trigger] names@[k]@) ==> placed(final(ir)@, sw@, names@[k]@),
        forall|s: Seq<char>, x: Seq<char>| placed(old(ir)@, s, x) ==> placed(final(ir)@, s, x),
        forall|x: Seq<char>, kd: EntityKind| !lrdn(x) && kind_is(old(ir)@.entities, x, kd) ==> kind_is(final(ir)@.entities, x, kd),
        forall|l: crate::ir::LinkView| old(ir)@.links.contains(l) ==> final(ir)@.links.contains(l),
        forall|l: crate::ir::LinkView| final(ir)@.links.contains(l) ==> old(ir)@.links.contains(l) || (l.0 == sw@ && lrdn(l.1) && l.2 == W_L1_NODE),
        attach_sound(old(ir)@, final(ir)@, sw@, names@, names@.len() as int),
{
    let lp = chars_of("lrdn");
    let ghost start = ir@;
    let mut k: usize = 0;
    while k < names.len()
        invariant
            k <= names@.len(),
            lp@ == "lrdn"@,
            ir@.wf(),
            lrdn_compute(ir@.entities),
            forall|q: int| 0 <= q < k && lrdn(#[trigger] names@[q]@) ==> placed(ir@, sw@, names@[q]@),
            forall|s: Seq<char>, x: Seq<char>| placed(start, s, x) ==> placed(ir@, s, x),
            forall|x: Seq<char>, kd: EntityKind| !lrdn(x) && kind_is(start.entities, x, kd) ==> kind_is(ir@.entities, x, kd),
            forall|l: crate::ir::LinkView| start.links.contains(l) ==> ir@.links.contains(l),
            forall|l: crate::ir::LinkView| ir@.links.contains(l) ==> start.links.contains(l) || (l.0 == sw@ && lrdn(l.1) && l.2 == W_L1_NODE),
            attach_sound(start, ir@, sw@, names@, k as int),
        decreases names.len() - k,
    {
        let ghost pre = ir@;
        let nc = chars_of(names[k].as_str());
        if starts_with(nc.as_slice(), lp.as_slice()) {
            let x = names[k].clone();
            let ghost xv = x@;
            let ghost before = ir@;
            let ent = Entity { id: Id(x.clone()), kind: EntityKind::Compute, meta: StrMap::new() };
            ir.add_entity(ent);
            let ghost after_e = ir@;
            ir.add_contains(sw.copy(), Id(x.clone()));
            let ghost after_c = ir@;
            ir.add_link(sw.copy(), Id(x), W_L1_NODE);
            proof {
                let ev: EntityView = (xv, EntityKind::Compute, Map::empty());
                assert(after_e.entities == with_entity(before.entities, ev));
                assert(after_c.contains == with_child(after_e.contains, sw@, xv));
                // kinds
                lemma_kind_after_add(before.entities, ev, xv, EntityKind::Compute);
                assert(forall|j: int| 0 <= j < before.entities.len() && #[trigger] before.entities[j].0 == xv ==> before.entities[j].1 == EntityKind::Compute);
                assert(ir@.entities == after_e.entities);
                crate::ir::lemma_pos_props(before.entities, xv);
                assert forall|j: int| 0 <= j < ir@.entities.len() && lrdn(#[trigger] ir@.entities[j].0) implies ir@.entities[j].1 is Compute by {
                    match crate::ir::entity_pos(before.entities, xv) {
                        Some(p) => {
                            assert(ir@.entities == before.entities.update(p as int, ev));
                            if j != p {
                                assert(ir@.entities[j] == before.entities[j]);
                            }
                        },
                        None => {
                            assert(ir@.entities == before.entities.push(ev));
                            if j < before.entities.len() {
                                assert(ir@.entities[j] == before.entities[j]);
                            }
                        },
                    }
                }
                assert forall|x2: Seq<char>, kd: EntityKind| !lrdn(x2) && kind_is(start.entities, x2, kd) implies kind_is(ir@.entities, x2, kd) by {
                    assert(kind_is(before.entities, x2, kd));
                    lemma_kind_after_add(before.entities, ev, x2, kd);
                }
                // children and links
                assert forall|s2: Seq<char>, x2: Seq<char>| placed(before, s2, x2) implies placed(ir@, s2, x2) by {
                    lemma_children_after_add(after_e.contains, sw@, xv, s2);
                    assert(children_in(after_e.contains, s2) == before.children(s2));
                    if x2 != xv {
                        lemma_kind_after_add(before.entities, ev, x2, EntityKind::Compute);
                    }
                    assert(ir@.links == before.links.push((sw@, xv, W_L1_NODE)));
                    let li = choose|li: int| 0 <= li < before.links.len() && before.links[li] == (s2, x2, W_L1_NODE);
                    assert(ir@.links[li] == before.links[li]);
                    let ci = choose|ci: int| 0 <= ci < before.children(s2).len() && before.children(s2)[ci] == x2;
                    if s2 == sw@ {
                        assert(ir@.children(s2)[ci] == x2);
                    }
                }
                lemma_children_after_add(after_e.contains, sw@, xv, sw@);
                assert(ir@.children(sw@).last() == xv);
                assert(ir@.links.last() == (sw@, xv, W_L1_NODE));
                assert(placed(ir@, sw@, xv));
                assert forall|l: crate::ir::LinkView| start.links.contains(l) implies ir@.links.contains(l) by {
                    let li = choose|li: int| 0 <= li < before.links.len() && before.links[li] == l;
                    assert(ir@.links[li] == l);
                }
                assert forall|l: crate::ir::LinkView| ir@.links.contains(l) implies start.links.contains(l) || (l.0 == sw@ && lrdn(l.1) && l.2 == W_L1_NODE) by {
                    let li = choose|li: int| 0 <= li < ir@.links.len() && ir@.links[li] == l;
                    if li < before.links.len() {
                        assert(before.links.contains(l));
                    }
                }
                assert(xv == names@[k as int]@);
                lemma_attach_step(start, before, ir@, sw@, names@, k as int);
            }
        } else {
            proof {
                lemma_attach_mono(start, ir@, sw@, names@, k as int);
            }
        }
        k = k + 1;
    }
}

/// The entity kind the Leonardo parser gives a real switch.
pub open spec fn switch_kind(n: Seq<char>) -> EntityKind {
    EntityKind::Switch { level: level_from_name(n) }
}

/// The message with which the node list under `key` on line `l` fails to
/// expand, if it is there and fails.
pub open spec fn expand_error(l: Seq<char>, key: Seq<char>) -> Option<Seq<char>> {
    match field_of(l, key) {
        Some(t) => match expand_nodelist_spec(t) {
            Err(m) => Some(m),
            Ok(_) => None,
        },
        None => None,
    }
}

/// `m` is the message of the first node list that does not expand: the
/// first record picked by `p1` whose `k1` list fails, or, when all of those
/// expand, the first record picked by `p2` whose `k2` list fails.
pub open spec fn first_error(
    ls: Seq<Seq<char>>,
    p1: spec_fn(Seq<char>) -> bool,
    k1: Seq<char>,
    p2: spec_fn(Seq<char>) -> bool,
    k2: Seq<char>,
    m: Seq<char>,
) -> bool {
    ||| exists|i: int|
        0 <= i < ls.len() && p1(ls[i]) && #[trigger] expand_error(ls[i], k1) == Some(m) && forall|j: int|
            0 <= j < i && p1(ls[j]) ==> (#[trigger] expand_error(ls[j], k1)) is None
    ||| (forall|j: int| 0 <= j < ls.len() && p1(ls[j]) ==> (#[trigger] expand_error(ls[j], k1)) is None) && exists|i: int|
        0 <= i < ls.len() && p2(ls[i]) && #[trigger] expand_error(ls[i], k2) == Some(m) && forall|j: int|
            0 <= j < i && p2(ls[j]) ==> (#[trigger] expand_error(ls[j], k2)) is None
}

/// The names that the `Nodes` field of line `l` expands to (none if the
/// field is missing or does not expand).
pub open spec fn node_names(l: Seq<char>) -> Seq<Seq<char>> {
    match field_of(l, "Nodes"@) {
        Some(t) => match expand_nodelist_spec(t) {
            Ok(ns) => ns,
            Err(_) => Seq::empty(),
        },
        None => Seq::empty(),
    }
}

/// What the parser makes of the records `ls`: a well-formed topology with
/// each real switch at the level its name gives, and each `lrdn` node of an
/// L1 switch's node list placed under it.
pub open spec fn leonardo_base(ls: Seq<Seq<char>>, v: crate::ir::IRView) -> bool {
    &&& v.wf()
    &&& forall|i: int|
        0 <= i < ls.len() && real_switch_line(#[trigger] ls[i]) ==> kind_is(
            v.entities,
            switch_name(ls[i])->Some_0,
            switch_kind(switch_name(ls[i])->Some_0),
        )
    &&& forall|i: int, k: int|
        0 <= i < ls.len() && l1_line(#[trigger] ls[i]) && 0 <= k < node_names(ls[i]).len()
            && lrdn(#[trigger] node_names(ls[i])[k]) ==> placed(v, switch_name(ls[i])->Some_0, node_names(ls[i])[k])
}

/// Record `i` is an L1 switch record whose node list has `c`, an `lrdn` node.
pub open spec fn l1_lists(ls: Seq<Seq<char>>, i: int, c: Seq<char>) -> bool {
    0 <= i < ls.len() && l1_line(ls[i]) && lrdn(c) && node_names(ls[i]).contains(c)
}

/// Record `i` is that of an L1 switch named `x`.
pub open spec fn l1_named(ls: Seq<Seq<char>>, i: int, x: Seq<char>) -> bool {
    0 <= i < ls.len() && l1_line(ls[i]) && switch_name(ls[i]) == Some(x)
}

/// Record `i` is a cell group that lists switch `x` among its members.
pub open spec fn group_lists(ls: Seq<Seq<char>>, i: int, x: Seq<char>) -> bool {
    &&& 0 <= i < ls.len()
    &&& group_line(ls[i])
    &&& field_of(ls[i], "Switches"@) matches Some(t)
    &&& expand_nodelist_spec(t) matches Ok(ns)
    &&& ns.contains(x)
}

/// What a switch entity of the parser is: a real switch of some record, at
/// the level its name gives, with no metadata or the group metadata of a
/// cell group that lists it.
pub open spec fn switch_ok(ls: Seq<Seq<char>>, e: EntityView) -> bool {
    &&& e.1 == switch_kind(e.0)
    &&& isw_rest(e.0) is Some
    &&& exists|i: int| 0 <= i < ls.len() && real_switch_line(ls[i]) && switch_name(#[trigger] ls[i]) == Some(e.0)
    &&& (e.2 == Map::<Seq<char>, Seq<char>>::empty() || exists|i: int|
        #[trigger] group_lists(ls, i, e.0) && pair_meta(e, cell_id_of(switch_name(ls[i])->Some_0)))
}

/// Record `l` is a cell group that lists switch `x`, whose name gives a
/// rack: the group sets the metadata of `x`.
pub open spec fn sets_pair(l: Seq<char>, x: Seq<char>) -> bool {
    &&& group_line(l)
    &&& field_of(l, "Switches"@) matches Some(t)
    &&& expand_nodelist_spec(t) matches Ok(ns)
    &&& ns.contains(x)
    &&& rack_of_name(x) is Some
}

/// The last of the first `upto` records that sets the metadata of `x`.
pub open spec fn last_pair_line(ls: Seq<Seq<char>>, upto: int, x: Seq<char>) -> Option<int>
    decreases upto,
{
    if upto <= 0 {
        None
    } else if sets_pair(ls[upto - 1], x) {
        Some(upto - 1)
    } else {
        last_pair_line(ls, upto - 1, x)
    }
}

/// The metadata of switch `e` after the first `upto` records: the cell of
/// the last group that lists it with its rack and pair index, or none.
pub open spec fn meta_after(ls: Seq<Seq<char>>, upto: int, e: EntityView) -> bool {
    match last_pair_line(ls, upto, e.0) {
        Some(i) => pair_meta(e, cell_id_of(switch_name(ls[i])->Some_0)),
        None => e.2 == Map::<Seq<char>, Seq<char>>::empty(),
    }
}

/// Every switch of `v` has the metadata the records give it.
pub open spec fn metas_exact(ls: Seq<Seq<char>>, v: crate::ir::IRView) -> bool {
    forall|j: int|
        0 <= j < v.entities.len() && !(v.entities[j].1 is Compute) ==> meta_after(
            ls,
            ls.len() as int,
            #[trigger] v.entities[j],
        )
}

/// When record `i` is that of an L1 switch whose L2 partner is in `v`, the
/// two are linked at the pair weight.
pub open spec fn pair_linked(ls: Seq<Seq<char>>, i: int, v: crate::ir::IRView) -> bool {
    l1_line(ls[i]) && partner_name(switch_name(ls[i])->Some_0) is Some && v.has(
        partner_name(switch_name(ls[i])->Some_0)->Some_0,
    ) ==> v.links.contains(
        (switch_name(ls[i])->Some_0, partner_name(switch_name(ls[i])->Some_0)->Some_0, W_L1_L2),
    )
}

/// Every L1 switch whose L2 partner is in `v` is linked to it.
pub open spec fn pairs_linked(ls: Seq<Seq<char>>, v: crate::ir::IRView) -> bool {
    forall|i: int| 0 <= i < ls.len() ==> #[trigger] pair_linked(ls, i, v)
}

/// A record that sets no metadata leaves all metadata as it was.
proof fn lemma_pair_skip(ls: Seq<Seq<char>>, i: int, es: Seq<EntityView>)
    requires
        0 <= i < ls.len(),
        forall|x: Seq<char>| !sets_pair(ls[i], x),
        forall|j: int| 0 <= j < es.len() ==> meta_after(ls, i, #[trigger] es[j]),
    ensures
        forall|j: int| 0 <= j < es.len() ==> meta_after(ls, i + 1, #[trigger] es[j]),
{
    assert forall|j: int| 0 <= j < es.len() implies meta_after(ls, i + 1, #[trigger] es[j]) by {
        assert(!sets_pair(ls[i], es[j].0));
        assert(last_pair_line(ls, i + 1, es[j].0) == last_pair_line(ls, i, es[j].0));
    }
}

/// A partner's name is not that of a compute node.
proof fn lemma_partner_not_lrdn(n: Seq<char>)
    requires
        partner_name(n) is Some,
    ensures
        !lrdn(partner_name(n)->Some_0),
{
    reveal_strlit("isw");
    reveal_strlit("lrdn");
    let x = partner_name(n)->Some_0;
    assert(x[0] == 'i');
    if lrdn(x) {
        assert(x.take(4)[0] == x[0]);
        assert("lrdn"@[0] == 'l');
    }
}

/// Adding compute nodes and links keeps a record's pair linked.
proof fn lemma_pair_linked_grow(ls: Seq<Seq<char>>, i: int, v1: crate::ir::IRView, v2: crate::ir::IRView)
    requires
        0 <= i < ls.len(),
        pair_linked(ls, i, v1),
        forall|l: crate::ir::LinkView| v1.links.contains(l) ==> v2.links.contains(l),
        forall|j: int|
            0 <= j < v2.entities.len() ==> (j < v1.entities.len() && #[trigger] v2.entities[j] == v1.entities[j]) || lrdn(
                v2.entities[j].0,
            ),
    ensures
        pair_linked(ls, i, v2),
{
    let n = switch_name(ls[i])->Some_0;
    if l1_line(ls[i]) && partner_name(n) is Some && v2.has(partner_name(n)->Some_0) {
        let x = partner_name(n)->Some_0;
        lemma_partner_not_lrdn(n);
        crate::ir::lemma_pos_props(v2.entities, x);
        let p = crate::ir::entity_pos(v2.entities, x)->Some_0 as int;
        assert(v2.entities[p].0 == x);
        assert(v1.entities[p] == v2.entities[p]);
        crate::ir::lemma_pos_props(v1.entities, x);
    }
}

/// Some L1 record lists node `c`.
pub open spec fn compute_origin(ls: Seq<Seq<char>>, c: Seq<char>) -> bool {
    exists|i: int| l1_lists(ls, i, c)
}

/// Some record is that of an L1 switch named `x`.
pub open spec fn l1_switch_name(ls: Seq<Seq<char>>, x: Seq<char>) -> bool {
    exists|i: int| l1_named(ls, i, x)
}

/// Some record of an L1 switch named `p` lists node `c`.
pub open spec fn l1_child(ls: Seq<Seq<char>>, p: Seq<char>, c: Seq<char>) -> bool {
    exists|i: int| l1_lists(ls, i, c) && l1_named(ls, i, p)
}

/// Nothing else is in the parser's topology: switches as `switch_ok`
/// says, compute nodes only from the node lists of L1 records (with no
/// metadata), lists only of L1 switches holding their listed nodes, and
/// links only from an L1 switch to one of its listed nodes (node weight) or,
/// when pair links are on, to its L2 partner (pair weight).
pub open spec fn leonardo_sound(ls: Seq<Seq<char>>, pair_links: bool, v: crate::ir::IRView) -> bool {
    &&& forall|j: int|
        0 <= j < v.entities.len() ==> if (#[trigger] v.entities[j]).1 is Compute {
            v.entities[j].2 == Map::<Seq<char>, Seq<char>>::empty() && compute_origin(ls, v.entities[j].0)
        } else {
            switch_ok(ls, v.entities[j])
        }
    &&& forall|kk: int| 0 <= kk < v.contains.len() ==> l1_switch_name(ls, (#[trigger] v.contains[kk]).0)
    &&& forall|kk: int, c: Seq<char>|
        0 <= kk < v.contains.len() && #[trigger] v.contains[kk].1.contains(c) ==> l1_child(ls, v.contains[kk].0, c)
    &&& forall|l: crate::ir::LinkView|
        #[trigger] v.links.contains(l) ==> (l.2 == W_L1_NODE && l1_child(ls, l.0, l.1)) || (pair_links && l.2 == W_L1_L2
            && partner_name(l.0) == Some(l.1) && l1_switch_name(ls, l.0))
}

proof fn lemma_sound_attach(
    ls: Seq<Seq<char>>,
    pair: bool,
    before: crate::ir::IRView,
    after: crate::ir::IRView,
    sw: Seq<char>,
    names: Seq<String>,
    i3: int,
)
    requires
        leonardo_sound(ls, pair, before),
        attach_sound(before, after, sw, names, names.len() as int),
        l1_named(ls, i3, sw),
        node_names(ls[i3]) == names.map_values(|x: String| x@),
    ensures
        leonardo_sound(ls, pair, after),
{
    assert(l1_switch_name(ls, sw));
    assert forall|c: Seq<char>| #[trigger] names_node(names, names.len() as int, c) implies l1_lists(ls, i3, c) && l1_child(ls, sw, c)
        && compute_origin(ls, c) by {
        let q = choose|q: int| 0 <= q < names.len() && q < names.len() && names[q]@ == c;
        assert(node_names(ls[i3])[q] == c);
    }
    assert forall|j: int| 0 <= j < after.entities.len() implies if (#[trigger] after.entities[j]).1 is Compute {
        after.entities[j].2 == Map::<Seq<char>, Seq<char>>::empty() && compute_origin(ls, after.entities[j].0)
    } else {
        switch_ok(ls, after.entities[j])
    } by {
        if !(j < before.entities.len() && after.entities[j] == before.entities[j]) {
            assert(names_node(names, names.len() as int, after.entities[j].0));
        }
    }
    assert forall|kk: int| 0 <= kk < after.contains.len() implies l1_switch_name(ls, (#[trigger] after.contains[kk]).0) by {
        if kk < before.contains.len() {
            assert(after.contains[kk].0 == before.contains[kk].0);
        }
    }
    assert forall|kk: int, c: Seq<char>|
        0 <= kk < after.contains.len() && #[trigger] after.contains[kk].1.contains(c) implies l1_child(ls, after.contains[kk].0, c) by {
        if kk < before.contains.len() && before.contains[kk].1.contains(c) {
            assert(after.contains[kk].0 == before.contains[kk].0);
        } else {
            assert(after.contains[kk].0 == sw && names_node(names, names.len() as int, c));
            assert(l1_child(ls, sw, c));
        }
    }
    assert forall|l: crate::ir::LinkView|
        #[trigger] after.links.contains(l) implies (l.2 == W_L1_NODE && l1_child(ls, l.0, l.1)) || (pair && l.2 == W_L1_L2
            && partner_name(l.0) == Some(l.1) && l1_switch_name(ls, l.0)) by {
        if !before.links.contains(l) {
            assert(l.0 == sw && names_node(names, names.len() as int, l.1) && l.2 == W_L1_NODE);
            assert(l1_child(ls, sw, l.1));
        }
    }
}

proof fn lemma_sound_pair(
    ls: Seq<Seq<char>>,
    before: crate::ir::IRView,
    after: crate::ir::IRView,
    x: Seq<char>,
    p: Seq<char>,
    i3: int,
)
    requires
        leonardo_sound(ls, true, before),
        after.entities == before.entities,
        after.contains == before.contains,
        after.links == before.links.push((x, p, W_L1_L2)),
        partner_name(x) == Some(p),
        l1_named(ls, i3, x),
    ensures
        leonardo_sound(ls, true, after),
{
    assert(l1_switch_name(ls, x));
    assert forall|l: crate::ir::LinkView|
        #[trigger] after.links.contains(l) implies (l.2 == W_L1_NODE && l1_child(ls, l.0, l.1)) || (l.2 == W_L1_L2
            && partner_name(l.0) == Some(l.1) && l1_switch_name(ls, l.0)) by {
        let q = choose|q: int| 0 <= q < after.links.len() && after.links[q] == l;
        if q < before.links.len() {
            assert(before.links.contains(l));
        }
    }
}

impl LeonardoParser {
    /// Parse `scontrol show topology` output into a base topology: one
    /// entity per real switch (level from its name), cell/rack/pair-index
    /// metadata from the cell groups, and under each L1 switch its `lrdn`
    /// compute nodes (contained and linked), plus the link to its L2
    /// partner when asked for.  Fails with the first node list that does
    /// not expand.
    pub fn parse_topology_raw(&self, raw: &str) -> (r: Result<TopologyIR, NodeListParseError>)
        requires
            names_ok(merged_lines(raw@)),
        ensures
            r is Ok <==> switches_ok(merged_lines(raw@)) && nodes_ok(merged_lines(raw@)),
            r matches Err(e) ==> first_error(
                merged_lines(raw@),
                |l: Seq<char>| group_line(l),
                "Switches"@,
                |l: Seq<char>| l1_line(l),
                "Nodes"@,
                e.msg@,
            ),
            r matches Ok(ir) ==> leonardo_base(merged_lines(raw@), ir@),
            r matches Ok(ir) ==> leonardo_sound(merged_lines(raw@), self.options.intra_pair_links, ir@),
            r matches Ok(ir) ==> metas_exact(merged_lines(raw@), ir@),
            r matches Ok(ir) ==> (self.options.intra_pair_links ==> pairs_linked(merged_lines(raw@), ir@)),
    {
        let lines = merge_continuation_lines(raw);
        let ghost ls = merged_lines(raw@);
        let mut ir = TopologyIR::new();
        // Pass 1: real switches.
        let mut i: usize = 0;
        while i < lines.len()
            invariant
                views(lines@) == ls,
                ls == merged_lines(raw@),
                i <= ls.len(),
                ir@.wf(),
                lrdn_compute(ir@.entities),
                names_ok(ls),
                forall|j: int| 0 <= j < i && real_switch_line(#[trigger] ls[j]) ==> kind_is(ir@.entities, switch_name(ls[j])->Some_0, switch_kind(switch_name(ls[j])->Some_0)),
                forall|j: int| 0 <= j < ir@.entities.len() ==> isw_rest(#[trigger] ir@.entities[j].0) is Some && ir@.entities[j].1 == switch_kind(ir@.entities[j].0),
                forall|j: int| 0 <= j < ir@.entities.len() ==> switch_ok(ls, #[trigger] ir@.entities[j]),
                forall|j: int| 0 <= j < ir@.entities.len() ==> (#[trigger] ir@.entities[j]).2 == Map::<Seq<char>, Seq<char>>::empty(),
                ir@.links.len() == 0,
                ir@.contains.len() == 0,
            decreases lines.len() - i,
        {
            let f = parse_line(lines[i].as_str());
            assert(f@ == fields_of(words(ls[i as int])));
            match f.get("SwitchName") {
                Some(n) => {
                    let nc = chars_of(n.as_str());
                    assert(switch_name(ls[i as int]) == Some(n@));
                    if !is_virtual_switch(nc.as_slice()) {
                        let level = switch_level_from_name(nc.as_slice());
                        let ghost before = ir@.entities;
                        let ent = Entity { id: Id(n.clone()), kind: EntityKind::Switch { level }, meta: StrMap::new() };
                        ir.add_entity(ent);
                        proof {
                            let ev: EntityView = (n@, switch_kind(n@), Map::empty());
                            assert(ir@.entities == with_entity(before, ev));
                            crate::ir::lemma_pos_props(before, n@);
                            assert(forall|j: int| 0 <= j < before.len() && #[trigger] before[j].0 == n@ ==> before[j].1 == switch_kind(n@));
                            lemma_kind_after_add(before, ev, n@, switch_kind(n@));
                            assert forall|j: int| 0 <= j < i + 1 && real_switch_line(#[trigger] ls[j]) implies kind_is(ir@.entities, switch_name(ls[j])->Some_0, switch_kind(switch_name(ls[j])->Some_0)) by {
                                if j < i {
                                    lemma_kind_after_add(before, ev, switch_name(ls[j])->Some_0, switch_kind(switch_name(ls[j])->Some_0));
                                }
                            }
                            assert forall|j: int| 0 <= j < ir@.entities.len() implies isw_rest(#[trigger] ir@.entities[j].0) is Some && ir@.entities[j].1 == switch_kind(ir@.entities[j].0) by {
                                match crate::ir::entity_pos(before, n@) {
                                    Some(p) => {
                                        if j != p {
                                            assert(ir@.entities[j] == before[j]);
                                        }
                                    },
                                    None => {
                                        if j < before.len() {
                                            assert(ir@.entities[j] == before[j]);
                                        }
                                    },
                                }
                            }
                            assert forall|j: int| 0 <= j < ir@.entities.len() && lrdn(#[trigger] ir@.entities[j].0) implies ir@.entities[j].1 is Compute by {
                                lemma_isw_not_lrdn(ir@.entities[j].0, ir@.entities[j].0);
                            }
                            assert(real_switch_line(ls[i as int]) && switch_name(ls[i as int]) == Some(n@));
                            assert forall|j: int| 0 <= j < ir@.entities.len() implies (#[trigger] ir@.entities[j]).2 == Map::<Seq<char>, Seq<char>>::empty() by {
                                if ir@.entities[j] != ev {
                                    match crate::ir::entity_pos(before, n@) {
                                        Some(p) => {
                                            assert(ir@.entities[j] == before[j]);
                                        },
                                        None => {
                                            assert(ir@.entities[j] == before[j]);
                                        },
                                    }
                                }
                            }
                            assert forall|j: int| 0 <= j < ir@.entities.len() implies switch_ok(ls, #[trigger] ir@.entities[j]) by {
                                if ir@.entities[j] != ev {
                                    match crate::ir::entity_pos(before, n@) {
                                        Some(p) => {
                                            assert(ir@.entities[j] == before[j]);
                                        },
                                        None => {
                                            assert(ir@.entities[j] == before[j]);
                                        },
                                    }
                                }
                            }
                        }
                    }
                },
                None => {},
            }
            i = i + 1;
        }
        // Pass 2: cell, rack and pair index from the cell groups.
        let mut i2: usize = 0;
        while i2 < lines.len()
            invariant
                views(lines@) == ls,
                ls == merged_lines(raw@),
                i2 <= ls.len(),
                ir@.wf(),
                lrdn_compute(ir@.entities),
                names_ok(ls),
                forall|j: int| 0 <= j < ls.len() && real_switch_line(#[trigger] ls[j]) ==> kind_is(ir@.entities, switch_name(ls[j])->Some_0, switch_kind(switch_name(ls[j])->Some_0)),
                forall|j: int| 0 <= j < i2 && group_line(#[trigger] ls[j]) ==> (field_of(ls[j], "Switches"@) matches Some(t) ==> expand_nodelist_spec(t) is Ok),
                forall|j: int| 0 <= j < ir@.entities.len() ==> switch_ok(ls, #[trigger] ir@.entities[j]),
                forall|j: int| 0 <= j < ir@.entities.len() ==> meta_after(ls, i2 as int, #[trigger] ir@.entities[j]),
                ir@.links.len() == 0,
                ir@.contains.len() == 0,
            decreases lines.len() - i2,
        {
            let f = parse_line(lines[i2].as_str());
            assert(f@ == fields_of(words(ls[i2 as int])));
            match f.get("SwitchName") {
                Some(g) => {
                    let gc = chars_of(g.as_str());
                    if is_cell_group(gc.as_slice()) {
                        let cell = cell_id_from_group_name(gc.as_slice());
                        match f.get("Switches") {
                            Some(sw) => {
                                assert(field_of(ls[i2 as int], "Switches"@) == Some(sw@));
                                let names = match expand_nodelist(sw.as_str()) {
                                    Ok(v) => v,
                                    Err(e) => {
                                        assert(group_line(ls[i2 as int]));
                                        assert(expand_error(ls[i2 as int], "Switches"@) == Some(e.msg@));
                                        assert(forall|j: int| 0 <= j < i2 && group_line(ls[j]) ==> (#[trigger] expand_error(ls[j], "Switches"@)) is None);
                                        assert(first_error(ls, |l: Seq<char>| group_line(l), "Switches"@, |l: Seq<char>| l1_line(l), "Nodes"@, e.msg@));
                                        return Err(e);
                                    },
                                };
                                assert(group_line(ls[i2 as int]));
                                proof {
                                    let nn = expand_nodelist_spec(sw@)->Ok_0;
                                    assert(views(names@) == nn);
                                    assert forall|k: int| 0 <= k < names@.len() implies name_ok(#[trigger] names@[k]@) by {
                                        assert(names@[k]@ == nn[k]);
                                    }
                                }
                                let ghost before = ir@;
                                assign_pairs(&mut ir, cell.as_slice(), &names);
                                proof {
                                    assert forall|j: int| 0 <= j < ls.len() && real_switch_line(#[trigger] ls[j]) implies kind_is(ir@.entities, switch_name(ls[j])->Some_0, switch_kind(switch_name(ls[j])->Some_0)) by {
                                        lemma_kind_same_shape(before.entities, ir@.entities, switch_name(ls[j])->Some_0, switch_kind(switch_name(ls[j])->Some_0));
                                    }
                                    assert forall|j: int| 0 <= j < ir@.entities.len() && lrdn(#[trigger] ir@.entities[j].0) implies ir@.entities[j].1 is Compute by {
                                        assert(same_shape(before.entities, ir@.entities));
                                        assert(before.entities[j].0 == ir@.entities[j].0);
                                        assert(lrdn(before.entities[j].0));
                                    }
                                    assert(switch_name(ls[i2 as int]) == Some(g@));
                                    assert(cell@ == cell_id_of(switch_name(ls[i2 as int])->Some_0));
                                    assert forall|j: int| 0 <= j < ir@.entities.len() implies switch_ok(ls, #[trigger] ir@.entities[j]) by {
                                        let eo = before.entities[j];
                                        let en = ir@.entities[j];
                                        assert(same_shape(before.entities, ir@.entities));
                                        assert(eo.0 == en.0 && eo.1 == en.1);
                                        assert(switch_ok(ls, eo));
                                        if pair_listed(names@, eo.0) {
                                            assert forall|j2: int| 0 <= j2 < j implies before.entities[j2].0 != eo.0 by {}
                                            crate::ir::lemma_pos_is(before.entities, eo.0, j);
                                            assert(pair_meta(en, cell@));
                                            let k = choose|k: int| 0 <= k < names@.len() && names@[k]@ == eo.0 && rack_of_name(eo.0) is Some;
                                            let nn = expand_nodelist_spec(sw@)->Ok_0;
                                            assert(nn[k] == names@[k]@);
                                            assert(nn.contains(eo.0));
                                            assert(group_lists(ls, i2 as int, en.0));
                                        } else {
                                            assert(en == eo);
                                        }
                                    }
                                    assert forall|j: int| 0 <= j < ir@.entities.len() implies meta_after(ls, i2 + 1, #[trigger] ir@.entities[j]) by {
                                        let eo = before.entities[j];
                                        let en = ir@.entities[j];
                                        assert(eo.0 == en.0);
                                        assert(meta_after(ls, i2 as int, eo));
                                        let nn = expand_nodelist_spec(sw@)->Ok_0;
                                        if pair_listed(names@, eo.0) {
                                            assert forall|j2: int| 0 <= j2 < j implies before.entities[j2].0 != eo.0 by {}
                                            crate::ir::lemma_pos_is(before.entities, eo.0, j);
                                            let k = choose|k: int| 0 <= k < names@.len() && names@[k]@ == eo.0 && rack_of_name(eo.0) is Some;
                                            assert(nn[k] == names@[k]@);
                                            assert(sets_pair(ls[i2 as int], en.0));
                                            assert(last_pair_line(ls, i2 + 1, en.0) == Some(i2 as int));
                                        } else {
                                            if sets_pair(ls[i2 as int], en.0) {
                                                let k = choose|k: int| 0 <= k < nn.len() && nn[k] == en.0;
                                                assert(names@[k]@ == nn[k]);
                                                assert(pair_listed(names@, eo.0));
                                            }
                                            assert(last_pair_line(ls, i2 + 1, en.0) == last_pair_line(ls, i2 as int, en.0));
                                        }
                                    }
                                }
                            },
                            None => {
                                proof {
                                    assert(field_of(ls[i2 as int], "Switches"@) is None);
                                    lemma_pair_skip(ls, i2 as int, ir@.entities);
                                }
                            },
                        }
                    } else {
                        proof {
                            assert(!group_line(ls[i2 as int]));
                            lemma_pair_skip(ls, i2 as int, ir@.entities);
                        }
                    }
                },
                None => {
                    proof {
                        assert(switch_name(ls[i2 as int]) is None);
                        lemma_pair_skip(ls, i2 as int, ir@.entities);
                    }
                },
            }
            i2 = i2 + 1;
        }
        // Pass 3: compute nodes under L1 switches, and L1-L2 pair links.
        let mut i3: usize = 0;
        while i3 < lines.len()
            invariant
                views(lines@) == ls,
                ls == merged_lines(raw@),
                i3 <= ls.len(),
                ir@.wf(),
                lrdn_compute(ir@.entities),
                names_ok(ls),
                switches_ok(ls),
                forall|j: int| 0 <= j < ls.len() && real_switch_line(#[trigger] ls[j]) ==> kind_is(ir@.entities, switch_name(ls[j])->Some_0, switch_kind(switch_name(ls[j])->Some_0)),
                forall|j: int| 0 <= j < i3 && l1_line(#[trigger] ls[j]) ==> (field_of(ls[j], "Nodes"@) matches Some(t) ==> expand_nodelist_spec(t) is Ok),
                leonardo_sound(ls, self.options.intra_pair_links, ir@),
                forall|j: int, k: int|
                    0 <= j < i3 && l1_line(#[trigger] ls[j]) && 0 <= k < node_names(ls[j]).len() && lrdn(#[trigger] node_names(ls[j])[k])
                        ==> placed(ir@, switch_name(ls[j])->Some_0, node_names(ls[j])[k]),
                metas_exact(ls, ir@),
                self.options.intra_pair_links ==> forall|j: int| 0 <= j < i3 ==> #[trigger] pair_linked(ls, j, ir@),
            decreases lines.len() - i3,
        {
            let f = parse_line(lines[i3].as_str());
            assert(f@ == fields_of(words(ls[i3 as int])));
            let ghost li = ls[i3 as int];
            match f.get("SwitchName") {
                Some(n) => {
                    let nc = chars_of(n.as_str());
                    assert(switch_name(li) == Some(n@));
                    if !is_virtual_switch(nc.as_slice()) {
                        let sw_id = Id(n.clone());
                        let is_l1 = match ir.get_entity(&sw_id) {
                            Some(e) => e.kind == (EntityKind::Switch { level: Some(0) }),
                            None => false,
                        };
                        proof {
                            assert(real_switch_line(li));
                            assert(kind_is(ir@.entities, n@, switch_kind(n@)));
                            crate::ir::lemma_pos_props(ir@.entities, n@);
                            let j0 = choose|j: int| 0 <= j < ir@.entities.len() && #[trigger] ir@.entities[j].0 == n@;
                            assert(is_l1 == (level_from_name(n@) == Some(0u32)));
                        }
                        if is_l1 {
                            assert(l1_line(li));
                            match f.get("Nodes") {
                                Some(ns) => {
                                    assert(field_of(li, "Nodes"@) == Some(ns@));
                                    let names = match expand_nodelist(ns.as_str()) {
                                        Ok(v) => v,
                                        Err(e) => {
                                            assert(expand_error(li, "Nodes"@) == Some(e.msg@));
                                            assert(forall|j: int| 0 <= j < ls.len() && group_line(ls[j]) ==> (#[trigger] expand_error(ls[j], "Switches"@)) is None);
                                            assert(forall|j: int| 0 <= j < i3 && l1_line(ls[j]) ==> (#[trigger] expand_error(ls[j], "Nodes"@)) is None);
                                            assert(first_error(ls, |l: Seq<char>| group_line(l), "Switches"@, |l: Seq<char>| l1_line(l), "Nodes"@, e.msg@));
                                            return Err(e);
                                        },
                                    };
                                    let ghost before = ir@;
                                    attach_nodes(&mut ir, &sw_id, &names);
                                    proof {
                                        assert(node_names(li) == views(names@));
                                        assert(views(names@) == names@.map_values(|x: String| x@));
                                        assert(l1_named(ls, i3 as int, n@));
                                        lemma_sound_attach(ls, self.options.intra_pair_links, before, ir@, sw_id@, names@, i3 as int);
                                        assert(attach_sound(before, ir@, sw_id@, names@, names@.len() as int));
                                        assert forall|j: int|
                                            0 <= j < ir@.entities.len() && !(ir@.entities[j].1 is Compute) implies meta_after(
                                                ls,
                                                ls.len() as int,
                                                #[trigger] ir@.entities[j],
                                            ) by {
                                            assert(j < before.entities.len() && ir@.entities[j] == before.entities[j]);
                                        }
                                        if self.options.intra_pair_links {
                                            assert forall|j: int| 0 <= j < i3 implies #[trigger] pair_linked(ls, j, ir@) by {
                                                lemma_pair_linked_grow(ls, j, before, ir@);
                                            }
                                        }
                                        assert forall|j: int, k: int|
                                            0 <= j <= i3 && l1_line(#[trigger] ls[j]) && 0 <= k < node_names(ls[j]).len() && lrdn(#[trigger] node_names(ls[j])[k])
                                                implies placed(ir@, switch_name(ls[j])->Some_0, node_names(ls[j])[k]) by {
                                            if j == i3 {
                                                assert(node_names(ls[j])[k] == names@[k]@);
                                            } else {
                                                assert(placed(before, switch_name(ls[j])->Some_0, node_names(ls[j])[k]));
                                            }
                                        }
                                        assert forall|j: int| 0 <= j < ls.len() && real_switch_line(#[trigger] ls[j]) implies kind_is(ir@.entities, switch_name(ls[j])->Some_0, switch_kind(switch_name(ls[j])->Some_0)) by {
                                            let nn = switch_name(ls[j])->Some_0;
                                            assert(isw_rest(nn) is Some);
                                            if lrdn(nn) {
                                                lemma_isw_not_lrdn(nn, nn);
                                            }
                                        }
                                    }
                                },
                                None => {
                                    assert(node_names(li).len() == 0);
                                },
                            }
                            if self.options.intra_pair_links {
                                match l2_partner_of(nc.as_slice(), &ir) {
                                    Some(p) => {
                                        let ghost before = ir@;
                                        let ghost pv = p@;
                                        let ghost sv = sw_id@;
                                        ir.add_link(sw_id, p, W_L1_L2);
                                        proof {
                                            assert(l1_named(ls, i3 as int, n@));
                                            lemma_sound_pair(ls, before, ir@, sv, pv, i3 as int);
                                            assert forall|l: crate::ir::LinkView| before.links.contains(l) implies ir@.links.contains(l) by {
                                                let t = choose|t: int| 0 <= t < before.links.len() && before.links[t] == l;
                                                assert(ir@.links[t] == l);
                                            }
                                            assert forall|j: int| 0 <= j < i3 implies #[trigger] pair_linked(ls, j, ir@) by {
                                                lemma_pair_linked_grow(ls, j, before, ir@);
                                            }
                                            assert(ir@.links.last() == (sv, pv, W_L1_L2));
                                            assert(pair_linked(ls, i3 as int, ir@));
                                            assert forall|j: int, k: int|
                                                0 <= j <= i3 && l1_line(#[trigger] ls[j]) && 0 <= k < node_names(ls[j]).len() && lrdn(#[trigger] node_names(ls[j])[k])
                                                    implies placed(ir@, switch_name(ls[j])->Some_0, node_names(ls[j])[k]) by {
                                                let x = node_names(ls[j])[k];
                                                assert(placed(before, switch_name(ls[j])->Some_0, x));
                                                let li2 = choose|q: int| 0 <= q < before.links.len() && before.links[q] == (switch_name(ls[j])->Some_0, x, W_L1_NODE);
                                                assert(ir@.links[li2] == before.links[li2]);
                                            }
                                        }
                                    },
                                    None => {
                                        assert(pair_linked(ls, i3 as int, ir@));
                                    },
                                }
                            }
                        } else {
                            assert(!l1_line(li));
                            assert(pair_linked(ls, i3 as int, ir@));
                        }
                    } else {
                        assert(!l1_line(li));
                        assert(pair_linked(ls, i3 as int, ir@));
                    }
                },
                None => {
                    assert(switch_name(li) is None);
                    assert(pair_linked(ls, i3 as int, ir@));
                },
            }
            proof {
                if self.options.intra_pair_links {
                    assert forall|j: int| 0 <= j < i3 + 1 implies #[trigger] pair_linked(ls, j, ir@) by {
                        if j == i3 {
                            assert(pair_linked(ls, i3 as int, ir@));
                        }
                    }
                }
            }
            i3 = i3 + 1;
        }
        Ok(ir)
    }
}


/// The inter-cell links a topology gets: L2 switches grouped by cell.
pub open spec fn inter_cell_links(es: Seq<EntityView>) -> Seq<LinkView> {
    all_pair_links(cell_groups(es, false), INTER_CELL_LINKS_PER_PAIR as nat, W_INTER_CELL)
}

impl LeonardoParser {
    /// Attach to every entity that `node_infos` lists its sorted,
    /// de-duplicated partitions as `meta["partitions"]`.
    pub fn enrich_node_info(&self, ir: &mut TopologyIR, node_infos: &Vec<NodeInfo>)
        ensures
            final(ir)@.entities == old(ir)@.entities.map_values(|e: EntityView| partitions_enriched(e, node_infos@)),
            final(ir)@.links == old(ir)@.links,
            final(ir)@.contains == old(ir)@.contains,
    {
        let ghost e0 = ir@.entities;
        crate::topology::enrich_node_info(ir, node_infos);
        assert(ir@.entities =~= e0.map_values(|e: EntityView| partitions_enriched(e, node_infos@)));
    }

    /// Add the inter-cell (dragonfly) links: for every two cells, in order
    /// of cell name, the k-th L2 switch of one (by name) to the k-th of the
    /// other, for as many positions as both cells have, at most
    /// `INTER_CELL_LINKS_PER_PAIR`.
    pub fn enrich_inter_cell_links(&self, ir: &mut TopologyIR)
        ensures
            final(ir)@.entities == old(ir)@.entities,
            final(ir)@.contains == old(ir)@.contains,
            final(ir)@.links == old(ir)@.links + inter_cell_links(old(ir)@.entities),
            old(ir)@.wf() ==> final(ir)@.wf(),
    {
        link_cells(ir, false, INTER_CELL_LINKS_PER_PAIR, W_INTER_CELL);
    }
}

/// A topology with the inter-cell links added.
pub open spec fn with_inter_cell_links(v: crate::ir::IRView) -> crate::ir::IRView {
    crate::ir::IRView { entities: v.entities, links: v.links + inter_cell_links(v.entities), contains: v.contains }
}

proof fn lemma_names_ok_at(ls: Seq<Seq<char>>, i: int, t: Seq<char>, names: Seq<Seq<char>>, k: int)
    requires
        names_ok(ls),
        0 <= i < ls.len(),
        group_line(ls[i]),
        field_of(ls[i], "Switches"@) == Some(t),
        expand_nodelist_spec(t) == Ok::<Seq<Seq<char>>, Seq<char>>(names),
        0 <= k < names.len(),
    ensures
        name_ok(names[k]),
{
    let l = ls[i];
    assert(group_line(l));
    assert(field_of(l, "Switches"@) matches Some(tt) ==> (expand_nodelist_spec(tt) matches Ok(ns) ==> forall|q: int| 0 <= q < ns.len() ==> name_ok(#[trigger] ns[q])));
}

/// Whether switch name `n` can be cut where the name parsers cut it.
pub fn name_ok_of(n: &[char]) -> (b: bool)
    ensures
        b == name_ok(n@),
{
    match isw_rest_of(n) {
        Some(d) => is_short1(d.as_slice()) || cut_two(d.as_slice()).is_some(),
        None => true,
    }
}

/// Whether the names in the records `raw` can all be cut where the name
/// parsers cut them (the inputs `parse_topology_raw` takes).
pub fn names_ok_in(raw: &str) -> (b: bool)
    ensures
        b == names_ok(merged_lines(raw@)),
{
    let lines = merge_continuation_lines(raw);
    let ghost ls = merged_lines(raw@);
    let mut i: usize = 0;
    while i < lines.len()
        invariant
            views(lines@) == ls,
            ls == merged_lines(raw@),
            i <= ls.len(),
            forall|j: int| 0 <= j < i ==> (switch_name(#[trigger] ls[j]) matches Some(n) ==> name_ok(n)),
            forall|j: int|
                0 <= j < i && group_line(#[trigger] ls[j]) ==> (field_of(ls[j], "Switches"@) matches Some(t) ==> (
                expand_nodelist_spec(t) matches Ok(names) ==> forall|k: int| 0 <= k < names.len() ==> name_ok(#[trigger] names[k]))),
        decreases lines.len() - i,
    {
        let f = parse_line(lines[i].as_str());
        assert(f@ == fields_of(words(ls[i as int])));
        match f.get("SwitchName") {
            Some(n) => {
                let nc = chars_of(n.as_str());
                assert(switch_name(ls[i as int]) == Some(n@));
                if !name_ok_of(nc.as_slice()) {
                    return false;
                }
                if is_cell_group(nc.as_slice()) {
                    match f.get("Switches") {
                        Some(t) => match expand_nodelist(t.as_str()) {
                            Ok(names) => {
                                let mut k: usize = 0;
                                assert(group_line(ls[i as int]));
                                assert(field_of(ls[i as int], "Switches"@) == Some(t@));
                                while k < names.len()
                                    invariant
                                        views(lines@) == ls,
                                        ls == merged_lines(raw@),
                                        i < ls.len(),
                                        group_line(ls[i as int]),
                                        field_of(ls[i as int], "Switches"@) == Some(t@),
                                        expand_nodelist_spec(t@) == Ok::<Seq<Seq<char>>, Seq<char>>(views(names@)),
                                        k <= names@.len(),
                                        forall|q: int| 0 <= q < k ==> name_ok(#[trigger] views(names@)[q]),
                                    decreases names.len() - k,
                                {
                                    let c = chars_of(names[k].as_str());
                                    if !name_ok_of(c.as_slice()) {
                                        proof {
                                            let bad = views(names@)[k as int];
                                            assert(!name_ok(bad));
                                            if names_ok(ls) {
                                                let li = ls[i as int];
                                                assert(group_line(li));
                                                assert(field_of(li, "Switches"@) == Some(t@));
                                                assert(0 <= i < ls.len() && group_line(ls[i as int]));
                                                let nn = views(names@);
                                                assert(expand_nodelist_spec(t@) == Ok::<Seq<Seq<char>>, Seq<char>>(nn));
                                                assert(k < nn.len());
                                                lemma_names_ok_at(ls, i as int, t@, nn, k as int);
                                                assert(false);
                                            }
                                        }
                                        return false;
                                    }
                                    k = k + 1;
                                }
                            },
                            Err(_) => {},
                        },
                        None => {},
                    }
                }
            },
            None => {},
        }
        i = i + 1;
    }
    true
}

impl LeonardoParser {
    /// The whole pipeline: parse the `scontrol` records, add the inter-cell
    /// links, enrich with the `sinfo` records when given, then filter nodes.
    pub fn build(&self, topology_raw: &str, sinfo_infos: Option<Vec<NodeInfo>>, opts: &NodeFilterOptions) -> (r: Result<TopologyIR, NodeListParseError>)
        requires
            names_ok(merged_lines(topology_raw@)),
        ensures
            r is Ok <==> switches_ok(merged_lines(topology_raw@)) && nodes_ok(merged_lines(topology_raw@)),
            r matches Err(e) ==> first_error(
                merged_lines(topology_raw@),
                |l: Seq<char>| group_line(l),
                "Switches"@,
                |l: Seq<char>| l1_line(l),
                "Nodes"@,
                e.msg@,
            ),
            r matches Ok(ir) ==> exists|base: crate::ir::IRView| #[trigger] leonardo_base(merged_lines(topology_raw@), base)
                && leonardo_sound(merged_lines(topology_raw@), self.options.intra_pair_links, base)
                && metas_exact(merged_lines(topology_raw@), base)
                && (self.options.intra_pair_links ==> pairs_linked(merged_lines(topology_raw@), base))
                && ir@ == finished(with_inter_cell_links(base), infos_view(sinfo_infos), opts.remove_unavailable),
    {
        let mut ir = match self.parse_topology_raw(topology_raw) {
            Ok(ir) => ir,
            Err(e) => return Err(e),
        };
        let ghost base = ir@;
        self.enrich_inter_cell_links(&mut ir);
        assert(ir@ == with_inter_cell_links(base));
        let r = finish_build(ir, sinfo_infos, opts);
        assert(leonardo_base(merged_lines(topology_raw@), base));
        assert(leonardo_sound(merged_lines(topology_raw@), self.options.intra_pair_links, base));
        assert(metas_exact(merged_lines(topology_raw@), base));
        Ok(r)
    }
}
} // verus!
