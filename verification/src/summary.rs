//! A text summary of a topology: entity counts, per-cell figures and the
//! containment tree with compressed node ranges.
use vstd::prelude::*;
use vstd::string::*;
use crate::ir::{parent_pos, EntityKind, EntityView, IRView, Id, TopologyIR};
use crate::stats::{first_parent, meta_or, meta_value};
use crate::order::{join, join_chars, join_strings, sorted_list, sorted_set_of};
use crate::text::{format_padded, chars_eq, slice_chars, chars_of, dec_digits, digit_char, digit_to_char, extend_chars, is_digit, parse_unsigned, split_chars, split_on, string_of, views, zero_pad};

verus! {

broadcast use vstd::seq_lib::group_seq_properties;

/// `format!("{:0width$}", v)` for a `u64`, as characters.
pub fn format_u64(v: u64, width: usize) -> (r: Vec<char>)
    ensures
        r@ == zero_pad(dec_digits(v as nat), width as nat),
{
    let mut digits: Vec<char> = Vec::new();
    let mut n: u64 = v;
    while n >= 10
        invariant
            dec_digits(v as nat) == dec_digits(n as nat) + digits@,
        decreases n,
    {
        let ghost prev = digits@;
        let c = digit_to_char((n % 10) as usize);
        digits.insert(0, c);
        assert(dec_digits(n as nat) == dec_digits((n / 10) as nat).push(c));
        assert(dec_digits((n / 10) as nat).push(c) + prev =~= dec_digits((n / 10) as nat) + digits@);
        n = n / 10;
    }
    let c = digit_to_char(n as usize);
    digits.insert(0, c);
    assert(digits@ =~= dec_digits(v as nat));
    let mut r: Vec<char> = Vec::new();
    if digits.len() < width {
        let pad = width - digits.len();
        let mut k: usize = 0;
        while k < pad
            invariant
                k <= pad,
                r@ =~= Seq::new(k as nat, |i: int| '0'),
            decreases pad - k,
        {
            r.push('0');
            k = k + 1;
        }
    }
    let mut j: usize = 0;
    let ghost pre = r@;
    while j < digits.len()
        invariant
            j <= digits.len(),
            r@ =~= pre + digits@.take(j as int),
        decreases digits.len() - j,
    {
        r.push(digits[j]);
        j = j + 1;
    }
    assert(digits@.take(j as int) =~= digits@);
    r
}

/// A range of numbers as text: one number, or `start-end`, each padded to
/// `width` digits.
pub open spec fn range_text(start: nat, end: nat, width: nat) -> Seq<char> {
    if start == end {
        zero_pad(dec_digits(start), width)
    } else {
        zero_pad(dec_digits(start), width) + seq!['-'] + zero_pad(dec_digits(end), width)
    }
}

pub fn fmt_range(start: u64, end: u64, width: usize) -> (r: String)
    ensures
        r@ == range_text(start as nat, end as nat, width as nat),
{
    let mut v = format_u64(start, width);
    if start != end {
        v.push('-');
        let e = format_u64(end, width);
        extend_chars(&mut v, e.as_slice());
    }
    string_of(v.as_slice())
}

/// Parse a decimal `u64` the way `str::parse::<u64>` does.
pub fn parse_u64(s: &[char]) -> (r: Option<u64>)
    ensures
        match parse_unsigned(s@, u64::MAX as nat) {
            Some(v) => r == Some(v as u64),
            None => r is None,
        },
{
    let mut start: usize = 0;
    if s.len() > 0 && s[0] == '+' {
        start = 1;
    }
    let ghost d = if s@.len() > 0 && s@[0] == '+' {
        s@.drop_first()
    } else {
        s@
    };
    assert(d =~= s@.skip(start as int));
    if start >= s.len() {
        assert(d.len() == 0);
        assert(parse_unsigned(s@, u64::MAX as nat) is None);
        return None;
    }
    let mut acc: u64 = 0;
    let mut i: usize = start;
    while i < s.len()
        invariant
            start <= i <= s.len(),
            d =~= s@.skip(start as int),
            d == (if s@.len() > 0 && s@[0] == '+' {
                s@.drop_first()
            } else {
                s@
            }),
            acc as nat == crate::text::dec_value(d.take(i - start)),
            crate::text::all_digits(d.take(i - start)),
        decreases s.len() - i,
    {
        let c = s[i];
        assert(d.take(i + 1 - start).drop_last() =~= d.take(i - start));
        assert(d.take(i + 1 - start).last() == c);
        assert(d[i - start] == c);
        if !('0' <= c && c <= '9') {
            return None;
        }
        let dv = (c as u32 - '0' as u32) as u64;
        assert(dv == crate::text::digit_value(c));
        assert(crate::text::dec_value(d.take(i + 1 - start)) == acc * 10 + crate::text::digit_value(c));
        match acc.checked_mul(10) {
            Some(m) => match m.checked_add(dv) {
                Some(a) => {
                    acc = a;
                },
                None => {
                    proof {
                        crate::text::lemma_dec_prefix_le(d, i + 1 - start);
                    }
                    assert(crate::text::dec_value(d) > u64::MAX);
                    return None;
                },
            },
            None => {
                proof {
                    crate::text::lemma_dec_prefix_le(d, i + 1 - start);
                }
                return None;
            },
        }
        i = i + 1;
    }
    assert(d.take(i - start) =~= d);
    Some(acc)
}


/// How many decimal digits end `s`.
pub open spec fn trailing_digits(s: Seq<char>) -> nat
    decreases s.len(),
{
    if s.len() > 0 && is_digit(s.last()) {
        trailing_digits(s.drop_last()) + 1
    } else {
        0
    }
}

/// A name without its trailing digits.
pub open spec fn id_prefix(s: Seq<char>) -> Seq<char> {
    s.take(s.len() - trailing_digits(s))
}

/// The number the trailing digits of a name write, if there are any and it
/// fits a `u64`.
pub open spec fn id_number(s: Seq<char>) -> Option<nat> {
    parse_unsigned(s.skip(s.len() - trailing_digits(s)), u64::MAX as nat)
}

/// All names share the first one's prefix and end in a number.
pub open spec fn uniform(ids: Seq<Seq<char>>) -> bool {
    forall|i: int| 0 <= i < ids.len() ==> id_prefix(#[trigger] ids[i]) == id_prefix(ids[0]) && id_number(ids[i]) is Some
}

/// `x` inserted before the first element not below it.
pub open spec fn insert_num(s: Seq<nat>, x: nat) -> Seq<nat>
    decreases s.len(),
{
    if s.len() == 0 {
        seq![x]
    } else if x <= s[0] {
        seq![x] + s
    } else {
        seq![s[0]] + insert_num(s.drop_first(), x)
    }
}

/// The numbers in increasing order.
pub open spec fn sort_nums(s: Seq<nat>) -> Seq<nat>
    decreases s.len(),
{
    if s.len() == 0 {
        Seq::empty()
    } else {
        insert_num(sort_nums(s.drop_last()), s.last())
    }
}

/// The runs of consecutive numbers of a sequence, as (first, last).
pub open spec fn runs(ns: Seq<nat>) -> Seq<(nat, nat)>
    decreases ns.len(),
{
    if ns.len() == 0 {
        Seq::empty()
    } else if ns.len() == 1 {
        seq![(ns[0], ns[0])]
    } else {
        let r = runs(ns.drop_last());
        if r.len() > 0 && ns.last() == r.last().1 + 1 {
            r.drop_last().push((r.last().0, ns.last()))
        } else {
            r.push((ns.last(), ns.last()))
        }
    }
}

/// Names in range notation: `prefix[a-b,c]` (or `prefix` and one number)
/// when all share a prefix and end in a number, else listed with `, `.
pub open spec fn compressed(ids: Seq<Seq<char>>) -> Seq<char> {
    if ids.len() == 0 {
        Seq::empty()
    } else if !uniform(ids) {
        join(ids, ", "@)
    } else {
        let p = id_prefix(ids[0]);
        let w = trailing_digits(ids[0]);
        let rs = runs(sort_nums(ids.map_values(|s: Seq<char>| id_number(s)->Some_0)));
        if rs.len() == 1 && rs[0].0 == rs[0].1 {
            p + range_text(rs[0].0, rs[0].1, w)
        } else {
            p + seq!['['] + join(rs.map_values(|r: (nat, nat)| range_text(r.0, r.1, w)), ","@) + seq![']']
        }
    }
}

/// The number of trailing digits of `s`.
fn count_trailing_digits(s: &[char]) -> (n: usize)
    ensures
        n == trailing_digits(s@),
        n <= s@.len(),
{
    let mut n: usize = 0;
    while n < s.len() && '0' <= s[s.len() - 1 - n] && s[s.len() - 1 - n] <= '9'
        invariant
            n <= s@.len(),
            trailing_digits(s@) == trailing_digits(s@.take(s@.len() - n)) + n,
        decreases s.len() - n,
    {
        let ghost t = s@.take(s@.len() - n);
        assert(t.last() == s@[s@.len() - 1 - n]);
        assert(t.drop_last() == s@.take(s@.len() - n - 1));
        n = n + 1;
    }
    proof {
        let t = s@.take(s@.len() - n);
        if n < s@.len() {
            assert(t.last() == s@[s@.len() - 1 - n]);
        }
    }
    n
}

/// Insert `x` before the first element of `v` not below it.
fn insert_sorted(v: &mut Vec<u64>, x: u64)
    ensures
        final(v)@.map_values(|n: u64| n as nat) == insert_num(old(v)@.map_values(|n: u64| n as nat), x as nat),
{
    let ghost s = old(v)@.map_values(|n: u64| n as nat);
    let mut p: usize = 0;
    while p < v.len() && v[p] < x
        invariant
            p <= v@.len(),
            v@.map_values(|n: u64| n as nat) == s,
            forall|i: int| 0 <= i < p ==> s[i] < x,
        decreases v.len() - p,
    {
        p = p + 1;
    }
    proof {
        lemma_insert_at(s, x as nat, p as int);
    }
    v.insert(p, x);
    assert(v@.map_values(|n: u64| n as nat) =~= s.take(p as int) + seq![x as nat] + s.skip(p as int));
}

/// Inserting at the first position not below `x`.
proof fn lemma_insert_at(s: Seq<nat>, x: nat, p: int)
    requires
        0 <= p <= s.len(),
        forall|i: int| 0 <= i < p ==> s[i] < x,
        p < s.len() ==> x <= s[p],
    ensures
        insert_num(s, x) == s.take(p) + seq![x] + s.skip(p),
    decreases p,
{
    if p == 0 {
        if s.len() > 0 {
            assert(insert_num(s, x) == seq![x] + s);
        }
        assert(s.take(0) + seq![x] + s.skip(0) =~= seq![x] + s);
    } else {
        lemma_insert_at(s.drop_first(), x, p - 1);
        assert(s =~= seq![s[0]] + s.drop_first());
        assert(s.take(p) + seq![x] + s.skip(p) =~= seq![s[0]] + (s.drop_first().take(p - 1) + seq![x] + s.drop_first().skip(p - 1)));
    }
}

/// Names in range notation (see `compressed`), e.g. `lrdn[0001-0003,0005]`.
pub fn compress_ids(ids: &Vec<String>) -> (r: String)
    ensures
        r@ == compressed(views(ids@)),
{
    let ghost iv = views(ids@);
    if ids.len() == 0 {
        return String::new();
    }
    let first = chars_of(ids[0].as_str());
    let w = count_trailing_digits(first.as_slice());
    let prefix0 = slice_chars(first.as_slice(), 0, first.len() - w);
    assert(prefix0@ =~= id_prefix(iv[0]));
    let mut nums: Vec<u64> = Vec::new();
    let mut ok = true;
    let mut i: usize = 0;
    while i < ids.len() && ok
        invariant
            iv == views(ids@),
            iv.len() > 0,
            prefix0@ == id_prefix(iv[0]),
            i <= iv.len(),
            ok ==> forall|q: int| 0 <= q < i ==> id_prefix(#[trigger] iv[q]) == id_prefix(iv[0]) && id_number(iv[q]) is Some,
            ok ==> nums@.map_values(|n: u64| n as nat) == iv.take(i as int).map_values(|x: Seq<char>| id_number(x)->Some_0),
            !ok ==> !uniform(iv),
        decreases ids.len() - i,
    {
        let c = chars_of(ids[i].as_str());
        let t = count_trailing_digits(c.as_slice());
        let p = slice_chars(c.as_slice(), 0, c.len() - t);
        let d = slice_chars(c.as_slice(), c.len() - t, c.len());
        assert(p@ =~= id_prefix(iv[i as int]));
        assert(d@ =~= iv[i as int].skip(iv[i as int].len() - trailing_digits(iv[i as int])));
        if !chars_eq(p.as_slice(), prefix0.as_slice()) {
            ok = false;
        } else {
            match parse_u64(d.as_slice()) {
                Some(n) => {
                    let ghost prev = nums@;
                    nums.push(n);
                    proof {
                        assert(iv.take(i + 1) == iv.take(i as int).push(iv[i as int]));
                        assert(nums@.map_values(|n: u64| n as nat) =~= prev.map_values(|n: u64| n as nat).push(n as nat));
                        assert(iv.take(i + 1).map_values(|x: Seq<char>| id_number(x)->Some_0) =~= iv.take(i as int).map_values(|x: Seq<char>| id_number(x)->Some_0).push(id_number(iv[i as int])->Some_0));
                    }
                },
                None => {
                    ok = false;
                },
            }
        }
        i = i + 1;
    }
    if !ok {
        return join_strings(ids, ", ");
    }
    assert(iv.take(i as int) == iv);
    assert(uniform(iv));
    let ghost ns = iv.map_values(|x: Seq<char>| id_number(x)->Some_0);
    // Sort.
    let mut sorted: Vec<u64> = Vec::new();
    let mut k: usize = 0;
    assert(ns.take(0) == Seq::<nat>::empty());
    while k < nums.len()
        invariant
            nums@.map_values(|n: u64| n as nat) == ns,
            k <= ns.len(),
            sorted@.map_values(|n: u64| n as nat) == sort_nums(ns.take(k as int)),
        decreases nums.len() - k,
    {
        insert_sorted(&mut sorted, nums[k]);
        proof {
            assert(ns.take(k + 1).drop_last() == ns.take(k as int));
            assert(ns.take(k + 1).last() == ns[k as int]);
        }
        k = k + 1;
    }
    assert(ns.take(k as int) == ns);
    let ghost sv = sorted@.map_values(|n: u64| n as nat);
    assert(sv.len() > 0) by {
        lemma_sort_len(ns);
    }
    // Runs.
    let mut ranges: Vec<String> = Vec::new();
    let ghost mut rp: Seq<(nat, nat)> = Seq::empty();
    let mut start = sorted[0];
    let mut end = sorted[0];
    let mut j: usize = 1;
    assert(sv.take(1) =~= seq![sv[0]]);
    while j < sorted.len()
        invariant
            sv == sorted@.map_values(|n: u64| n as nat),
            1 <= j <= sv.len(),
            runs(sv.take(j as int)) == rp.push((start as nat, end as nat)),
            views(ranges@) == rp.map_values(|r: (nat, nat)| range_text(r.0, r.1, w as nat)),
        decreases sorted.len() - j,
    {
        let x = sorted[j];
        proof {
            assert(sv.take(j + 1).drop_last() == sv.take(j as int));
            assert(sv.take(j + 1).last() == x as nat);
        }
        if end < u64::MAX && x == end + 1 {
            end = x;
        } else {
            let ghost prev = views(ranges@);
            let rt = fmt_range(start, end, w);
            let ghost rtv = rt@;
            ranges.push(rt);
            proof {
                assert(views(ranges@) =~= prev.push(rtv));
                assert(rp.push((start as nat, end as nat)).map_values(|r: (nat, nat)| range_text(r.0, r.1, w as nat)) =~= rp.map_values(|r: (nat, nat)| range_text(r.0, r.1, w as nat)).push(rtv));
                rp = rp.push((start as nat, end as nat));
            }
            start = x;
            end = x;
        }
        j = j + 1;
    }
    assert(sv.take(j as int) == sv);
    let ghost prev = views(ranges@);
    let rt = fmt_range(start, end, w);
    let ghost rtv = rt@;
    ranges.push(rt);
    proof {
        assert(views(ranges@) =~= prev.push(rtv));
        assert(rp.push((start as nat, end as nat)).map_values(|r: (nat, nat)| range_text(r.0, r.1, w as nat)) =~= rp.map_values(|r: (nat, nat)| range_text(r.0, r.1, w as nat)).push(rtv));
        rp = rp.push((start as nat, end as nat));
    }
    assert(views(ranges@) =~= rp.map_values(|r: (nat, nat)| range_text(r.0, r.1, w as nat)));
    let ghost rs = runs(sv);
    assert(rs == rp);
    assert(w as nat == trailing_digits(iv[0]));
    let mut out = prefix0;
    if ranges.len() == 1 && start == end {
        let rc = chars_of(ranges[0].as_str());
        extend_chars(&mut out, rc.as_slice());
    } else {
        out.push('[');
        let body = join_chars(&ranges, ",");
        extend_chars(&mut out, body.as_slice());
        out.push(']');
        assert(out@ =~= id_prefix(iv[0]) + seq!['['] + join(rs.map_values(|r: (nat, nat)| range_text(r.0, r.1, w as nat)), ","@) + seq![']']);
    }
    string_of(out.as_slice())
}

/// Sorting keeps the length.
proof fn lemma_sort_len(s: Seq<nat>)
    ensures
        sort_nums(s).len() == s.len(),
    decreases s.len(),
{
    if s.len() > 0 {
        lemma_sort_len(s.drop_last());
        lemma_insert_len(sort_nums(s.drop_last()), s.last());
    }
}

proof fn lemma_insert_len(s: Seq<nat>, x: nat)
    ensures
        insert_num(s, x).len() == s.len() + 1,
    decreases s.len(),
{
    if s.len() > 0 && x > s[0] {
        lemma_insert_len(s.drop_first(), x);
    }
}

/// The pieces of the comma-separated `partitions` of entity `x` (none if
/// it has none).
pub open spec fn entity_parts(v: IRView, x: Seq<char>) -> Seq<Seq<char>> {
    match v.entity(x) {
        Some(e) => if e.2.contains_key("partitions"@) {
            split_on(e.2["partitions"@], ',')
        } else {
            Seq::empty()
        },
        None => Seq::empty(),
    }
}

/// The partition names recorded on the entities `ids` (their
/// comma-separated `partitions`), by name, each once.
pub open spec fn partitions_of(v: IRView, ids: Seq<Seq<char>>) -> Set<Seq<char>> {
    Set::new(|p: Seq<char>| exists|i: int| 0 <= i < ids.len() && (#[trigger] entity_parts(v, ids[i])).contains(p))
}

/// The union of the partitions of the entities `ids`, by name.
pub fn collect_partitions(ids: &Vec<Id>, ir: &TopologyIR) -> (r: Vec<String>)
    ensures
        views(r@) == sorted_list(partitions_of(ir@, crate::ir::id_views(ids@))),
{
    let ghost v = ir@;
    let ghost iv = crate::ir::id_views(ids@);
    let mut all: Vec<String> = Vec::new();
    let mut i: usize = 0;
    while i < ids.len()
        invariant
            v == ir@,
            iv == crate::ir::id_views(ids@),
            i <= iv.len(),
            forall|p: Seq<char>| views(all@).contains(p) <==> exists|q: int| 0 <= q < i && (#[trigger] entity_parts(v, iv[q])).contains(p),
        decreases ids.len() - i,
    {
        let ghost before = views(all@);
        let ghost x = iv[i as int];
        let ghost mut added: Seq<Seq<char>> = Seq::empty();
        match ir.get_entity(&ids[i]) {
            Some(e) => match e.meta.get("partitions") {
                Some(ps) => {
                    let pc = chars_of(ps.as_str());
                    let pieces = split_chars(pc.as_slice(), ',');
                    let ghost pv = pieces@.map_values(|x: Vec<char>| x@);
                    let mut k: usize = 0;
                    while k < pieces.len()
                        invariant
                            pv == pieces@.map_values(|x: Vec<char>| x@),
                            k <= pv.len(),
                            views(all@) == before + pv.take(k as int),
                        decreases pieces.len() - k,
                    {
                        let ghost prev = views(all@);
                        let piece = string_of(pieces[k].as_slice());
                        assert(piece@ == pv[k as int]);
                        all.push(piece);
                        assert(views(all@) == prev.push(pv[k as int]));
                        assert(pv.take(k + 1) == pv.take(k as int).push(pv[k as int]));
                        k = k + 1;
                    }
                    proof {
                        assert(pv.take(k as int) == pv);
                        added = pv;
                    }
                },
                None => {},
            },
            None => {},
        }
        proof {
            assert(views(all@) == before + added);
            assert(ids@[i as int]@ == x);
            assert forall|p: Seq<char>| views(all@).contains(p) <==> exists|q: int| 0 <= q < i + 1 && (#[trigger] entity_parts(v, iv[q])).contains(p) by {
                let n = before + added;
                if n.contains(p) {
                    let t = choose|t: int| 0 <= t < n.len() && n[t] == p;
                    if t < before.len() {
                        assert(before[t] == p);
                        assert(before.contains(p));
                        let q = choose|q: int| 0 <= q < i && (#[trigger] entity_parts(v, iv[q])).contains(p);
                        assert(entity_parts(v, iv[q]).contains(p));
                    } else {
                        assert(added[t - before.len()] == p);
                        assert(added == entity_parts(v, iv[i as int]));
                        assert(entity_parts(v, iv[i as int]).contains(p));
                    }
                }
                if exists|q: int| 0 <= q < i + 1 && (#[trigger] entity_parts(v, iv[q])).contains(p) {
                    let q = choose|q: int| 0 <= q < i + 1 && (#[trigger] entity_parts(v, iv[q])).contains(p);
                    if q < i {
                        assert(before.contains(p));
                        let t = choose|t: int| 0 <= t < before.len() && before[t] == p;
                        assert(n[t] == p);
                    } else {
                        assert(added == entity_parts(v, iv[i as int]));
                        let t = choose|t: int| 0 <= t < added.len() && added[t] == p;
                        assert(n[before.len() + t] == p);
                    }
                }

            }
        }
        i = i + 1;
    }
    assert(views(all@).to_set() =~= partitions_of(v, iv));
    sorted_set_of(&all)
}

/// Two spaces per level.
pub open spec fn indent(d: nat) -> Seq<char> {
    Seq::new(2 * d, |i: int| ' ')
}

/// How a node of the tree is labelled.
pub open spec fn kind_tag(v: IRView, x: Seq<char>) -> Seq<char> {
    match v.entity(x) {
        Some(e) => match e.1 {
            EntityKind::Switch { level: Some(l) } => if l == 0 {
                "L1 cell="@ + meta_or(v, x, "cell"@, "?"@) + " rack="@ + meta_or(v, x, "rack"@, "?"@)
            } else if l == 1 {
                "L2 cell="@ + meta_or(v, x, "cell"@, "?"@) + " rack="@ + meta_or(v, x, "rack"@, "?"@)
            } else {
                "switch(L"@ + dec_digits(l as nat) + ")"@
            },
            EntityKind::Switch { level: None } => "switch"@,
            EntityKind::Compute => "compute"@,
            EntityKind::Group => "group"@,
        },
        None => "?"@,
    }
}

/// The class of a child in the tree: compute (0), L1 switch (1), L2 switch
/// (2) or anything else (3).
pub open spec fn child_class(v: IRView, c: Seq<char>) -> nat {
    match v.entity(c) {
        Some(e) => match e.1 {
            EntityKind::Compute => 0,
            EntityKind::Switch { level: Some(l) } => if l == 0 {
                1
            } else if l == 1 {
                2
            } else {
                3
            },
            _ => 3,
        },
        None => 3,
    }
}

/// The children of class `k`, in order.
pub open spec fn of_class(v: IRView, cs: Seq<Seq<char>>, k: nat) -> Seq<Seq<char>> {
    cs.filter(|c: Seq<char>| child_class(v, c) == k)
}

/// `  partitions=[a, b]` for the partitions of `ids`, or nothing.
pub open spec fn partitions_note(v: IRView, ids: Seq<Seq<char>>) -> Seq<char> {
    let ps = sorted_list(partitions_of(v, ids));
    if ps.len() == 0 {
        Seq::empty()
    } else {
        "  partitions=["@ + join(ps, ", "@) + "]"@
    }
}

/// One line for a group of children, if there are any.
pub open spec fn group_line(ci: Seq<char>, label: Seq<char>, ids: Seq<Seq<char>>) -> Seq<char> {
    if ids.len() == 0 {
        Seq::empty()
    } else {
        ci + label + compressed(ids) + "\n"@
    }
}

/// The tree under `x` at depth `d`, descending to depth `m`: its line, then
/// its L2 switches, L1 switches and compute nodes in compressed form, then
/// the subtrees of its other children.
pub open spec fn subtree_text(v: IRView, x: Seq<char>, d: nat, m: nat) -> Seq<char>
    decreases m - d, 0int,
{
    let line = indent(d) + "["@ + kind_tag(v, x) + "] "@ + x + "\n"@;
    if d >= m {
        if parent_pos(v.contains, x) is Some && v.children(x).len() > 0 {
            line + indent(d) + "  … ("@ + dec_digits(v.children(x).len()) + " children, depth limit)\n"@
        } else {
            line
        }
    } else if parent_pos(v.contains, x) is None {
        line
    } else {
        let cs = v.children(x);
        let ci = indent(d + 1);
        let comp = of_class(v, cs, 0);
        line + group_line(ci, "[L2 switches] "@, of_class(v, cs, 2)) + group_line(ci, "[L1 switches] "@, of_class(v, cs, 1)) + (if comp.len() == 0 {
            Seq::empty()
        } else {
            ci + "[compute ×"@ + dec_digits(comp.len()) + "] "@ + compressed(comp) + partitions_note(v, comp) + "\n"@
        }) + others_text(v, of_class(v, cs, 3), d + 1, m)
    }
}

/// The subtrees of `os`, one after the other.
pub open spec fn others_text(v: IRView, os: Seq<Seq<char>>, d: nat, m: nat) -> Seq<char>
    decreases m - d, os.len() + 1,
{
    if os.len() == 0 {
        Seq::empty()
    } else {
        others_text(v, os.drop_last(), d, m) + subtree_text(v, os.last(), d, m)
    }
}

/// Append a literal.
fn push_str(out: &mut Vec<char>, s: &str)
    ensures
        final(out)@ == old(out)@ + s@,
{
    let c = chars_of(s);
    extend_chars(out, c.as_slice());
}

/// Append `2 * d` spaces.
fn push_indent(out: &mut Vec<char>, d: usize)
    ensures
        final(out)@ == old(out)@ + indent(d as nat),
{
    let ghost start = out@;
    let mut k: usize = 0;
    while k < d
        invariant
            k <= d,
            out@ == start + indent(k as nat),
        decreases d - k,
    {
        out.push(' ');
        out.push(' ');
        assert(indent((k + 1) as nat) =~= indent(k as nat) + seq![' ', ' ']);
        k = k + 1;
    }
}

/// The children of `cs` of class `k`, in order.
fn children_of_class(ir: &TopologyIR, cs: &Vec<Id>, k: u8) -> (r: Vec<Id>)
    requires
        k <= 3,
    ensures
        crate::ir::id_views(r@) == of_class(ir@, crate::ir::id_views(cs@), k as nat),
{
    let ghost v = ir@;
    let ghost cv = crate::ir::id_views(cs@);
    let ghost pred = |c: Seq<char>| child_class(v, c) == k as nat;
    let mut out: Vec<Id> = Vec::new();
    let mut i: usize = 0;
    assert(cv.take(0).filter(pred) == Seq::<Seq<char>>::empty()) by {
        reveal(Seq::filter);
    }
    while i < cs.len()
        invariant
            v == ir@,
            cv == crate::ir::id_views(cs@),
            pred == (|c: Seq<char>| child_class(v, c) == k as nat),
            i <= cv.len(),
            crate::ir::id_views(out@) == cv.take(i as int).filter(pred),
        decreases cs.len() - i,
    {
        let cls: u8 = match ir.get_entity(&cs[i]) {
            Some(e) => match e.kind {
                EntityKind::Compute => 0,
                EntityKind::Switch { level: Some(l) } => if l == 0 {
                    1
                } else if l == 1 {
                    2
                } else {
                    3
                },
                _ => 3,
            },
            None => 3,
        };
        assert(cls as nat == child_class(v, cv[i as int]));
        proof {
            assert(cv.take(i + 1) == cv.take(i as int).push(cv[i as int]));
            cv.take(i as int).lemma_filter_push(cv[i as int], pred);
        }
        if cls == k {
            let ghost prev = crate::ir::id_views(out@);
            out.push(cs[i].copy());
            assert(crate::ir::id_views(out@) == prev.push(cv[i as int]));
        }
        i = i + 1;
    }
    assert(cv.take(i as int) == cv);
    out
}

/// The names of ids.
fn names_of_ids(ids: &Vec<Id>) -> (r: Vec<String>)
    ensures
        views(r@) == crate::ir::id_views(ids@),
{
    let mut r: Vec<String> = Vec::new();
    let mut i: usize = 0;
    while i < ids.len()
        invariant
            i <= ids@.len(),
            views(r@) == crate::ir::id_views(ids@).take(i as int),
        decreases ids.len() - i,
    {
        let ghost prev = views(r@);
        r.push(ids[i].0.clone());
        assert(views(r@) == prev.push(ids@[i as int]@));
        assert(crate::ir::id_views(ids@).take(i + 1) == crate::ir::id_views(ids@).take(i as int).push(ids@[i as int]@));
        i = i + 1;
    }
    assert(crate::ir::id_views(ids@).take(i as int) == crate::ir::id_views(ids@));
    r
}

/// How a node of the tree is labelled.
fn kind_tag_of(ir: &TopologyIR, x: &Id) -> (r: Vec<char>)
    ensures
        r@ == kind_tag(ir@, x@),
{
    let mut out: Vec<char> = Vec::new();
    match ir.get_entity(x) {
        Some(e) => match e.kind {
            EntityKind::Switch { level: Some(l) } => {
                if l == 0 || l == 1 {
                    push_str(&mut out, if l == 0 { "L1 cell=" } else { "L2 cell=" });
                    let c = meta_value(ir, &x.0, "cell", "?");
                    push_str(&mut out, c.as_str());
                    push_str(&mut out, " rack=");
                    let r = meta_value(ir, &x.0, "rack", "?");
                    push_str(&mut out, r.as_str());
                } else {
                    push_str(&mut out, "switch(L");
                    let d = format_padded(l as usize, 0);
                    extend_chars(&mut out, d.as_slice());
                    push_str(&mut out, ")");
                }
            },
            EntityKind::Switch { level: None } => push_str(&mut out, "switch"),
            EntityKind::Compute => push_str(&mut out, "compute"),
            EntityKind::Group => push_str(&mut out, "group"),
        },
        None => push_str(&mut out, "?"),
    }
    out
}

/// Append one line for a group of children, if there are any.
fn push_group_line(out: &mut Vec<char>, d: usize, label: &str, ids: &Vec<Id>)
    ensures
        final(out)@ == old(out)@ + group_line(indent(d as nat), label@, crate::ir::id_views(ids@)),
{
    if ids.len() == 0 {
        return;
    }
    push_indent(out, d);
    push_str(out, label);
    let names = names_of_ids(ids);
    let c = compress_ids(&names);
    push_str(out, c.as_str());
    push_str(out, "\n");
}


/// The line of the compute children, if there are any.
pub open spec fn compute_line(v: IRView, ci: Seq<char>, comp: Seq<Seq<char>>) -> Seq<char> {
    if comp.len() == 0 {
        Seq::empty()
    } else {
        ci + "[compute ×"@ + dec_digits(comp.len()) + "] "@ + compressed(comp) + partitions_note(v, comp) + "\n"@
    }
}

/// Append the line of the compute children.
fn push_compute_line(out: &mut Vec<char>, ir: &TopologyIR, d: usize, comp: &Vec<Id>)
    ensures
        final(out)@ == old(out)@ + compute_line(ir@, indent(d as nat), crate::ir::id_views(comp@)),
{
    if comp.len() == 0 {
        return;
    }
    let ghost start = out@;
    push_indent(out, d);
    push_str(out, "[compute ×");
    let n = format_padded(comp.len(), 0);
    extend_chars(out, n.as_slice());
    push_str(out, "] ");
    let names = names_of_ids(comp);
    let c = compress_ids(&names);
    push_str(out, c.as_str());
    let ghost mid = out@;
    let parts = collect_partitions(comp, ir);
    if parts.len() > 0 {
        push_str(out, "  partitions=[");
        let body = join_chars(&parts, ", ");
        extend_chars(out, body.as_slice());
        push_str(out, "]");
    }
    assert(out@ =~= mid + partitions_note(ir@, crate::ir::id_views(comp@)));
    push_str(out, "\n");
}

/// Append the node's own line.
fn push_node_line(out: &mut Vec<char>, ir: &TopologyIR, id: &Id, depth: usize)
    ensures
        final(out)@ == old(out)@ + (indent(depth as nat) + "["@ + kind_tag(ir@, id@) + "] "@ + id@ + "\n"@),
{
    let ghost start = out@;
    push_indent(out, depth);
    push_str(out, "[");
    let tag = kind_tag_of(ir, id);
    extend_chars(out, tag.as_slice());
    push_str(out, "] ");
    push_str(out, id.0.as_str());
    push_str(out, "\n");
    assert(out@ =~= start + (indent(depth as nat) + "["@ + kind_tag(ir@, id@) + "] "@ + id@ + "\n"@));
}

/// Append the depth-limit note, if the node has children.
fn push_limit_note(out: &mut Vec<char>, ir: &TopologyIR, id: &Id, depth: usize)
    ensures
        final(out)@ == old(out)@ + (if parent_pos(ir@.contains, id@) is Some && ir@.children(id@).len() > 0 {
            indent(depth as nat) + "  … ("@ + dec_digits(ir@.children(id@).len()) + " children, depth limit)\n"@
        } else {
            Seq::empty()
        }),
{
    let ghost start = out@;
    match ir.children_of(id) {
        Some(ch) => {
            if ch.len() > 0 {
                push_indent(out, depth);
                push_str(out, "  … (");
                let n = format_padded(ch.len(), 0);
                extend_chars(out, n.as_slice());
                push_str(out, " children, depth limit)\n");
                assert(out@ =~= start + (indent(depth as nat) + "  … ("@ + dec_digits(ir@.children(id@).len()) + " children, depth limit)\n"@));
            } else {
                assert(out@ =~= start + Seq::<char>::empty());
            }
        },
        None => {
            assert(out@ =~= start + Seq::<char>::empty());
        },
    }
}

/// Append the tree under `id` at depth `depth`, down to `max_depth` (see
/// `subtree_text`).
#[verifier::spinoff_prover]
#[verifier::rlimit(40)]
pub fn fmt_subtree(out: &mut Vec<char>, ir: &TopologyIR, id: &Id, depth: usize, max_depth: usize)
    ensures
        final(out)@ == old(out)@ + subtree_text(ir@, id@, depth as nat, max_depth as nat),
    decreases max_depth - depth, 0int,
{
    let ghost v = ir@;
    let ghost start = out@;
    push_node_line(out, ir, id, depth);
    let ghost line = indent(depth as nat) + "["@ + kind_tag(v, id@) + "] "@ + id@ + "\n"@;
    if depth >= max_depth {
        push_limit_note(out, ir, id, depth);
        return;
    }
    let ch = match ir.children_of(id) {
        Some(c) => c,
        None => {
            assert(out@ =~= start + subtree_text(v, id@, depth as nat, max_depth as nat));
            return;
        },
    };
    let ghost cs = v.children(id@);
    let comp = children_of_class(ir, ch, 0);
    let l1 = children_of_class(ir, ch, 1);
    let l2 = children_of_class(ir, ch, 2);
    let others = children_of_class(ir, ch, 3);
    let ghost ci = indent((depth + 1) as nat);
    push_group_line(out, depth + 1, "[L2 switches] ", &l2);
    push_group_line(out, depth + 1, "[L1 switches] ", &l1);
    push_compute_line(out, ir, depth + 1, &comp);
    let ghost mid2 = out@;
    assert(mid2 == start + line + group_line(ci, "[L2 switches] "@, of_class(v, cs, 2)) + group_line(ci, "[L1 switches] "@, of_class(v, cs, 1))
        + compute_line(v, ci, of_class(v, cs, 0)));
    let ghost os = crate::ir::id_views(others@);
    let mut k: usize = 0;
    assert(os.take(0) == Seq::<Seq<char>>::empty());
    while k < others.len()
        invariant
            v == ir@,
            os == crate::ir::id_views(others@),
            depth < max_depth,
            k <= os.len(),
            out@ == mid2 + others_text(v, os.take(k as int), (depth + 1) as nat, max_depth as nat),
        decreases others.len() - k,
    {
        fmt_subtree(out, ir, &others[k], depth + 1, max_depth);
        proof {
            assert(os.take(k + 1).drop_last() == os.take(k as int));
            assert(os.take(k + 1).last() == others@[k as int]@);
        }
        k = k + 1;
    }
    assert(os.take(k as int) == os);
    proof {
        lemma_subtree_unfold(v, id@, depth as nat, max_depth as nat);
        lemma_concat5(start, line, group_line(ci, "[L2 switches] "@, of_class(v, cs, 2)), group_line(ci, "[L1 switches] "@, of_class(v, cs, 1)),
            compute_line(v, ci, of_class(v, cs, 0)), others_text(v, of_class(v, cs, 3), (depth + 1) as nat, max_depth as nat));
    }
}

/// `subtree_text` of a node with a containment list, above the depth limit.
proof fn lemma_subtree_unfold(v: IRView, x: Seq<char>, d: nat, m: nat)
    requires
        d < m,
        parent_pos(v.contains, x) is Some,
    ensures
        subtree_text(v, x, d, m) == (indent(d) + "["@ + kind_tag(v, x) + "] "@ + x + "\n"@) + group_line(indent(d + 1), "[L2 switches] "@, of_class(v, v.children(x), 2))
            + group_line(indent(d + 1), "[L1 switches] "@, of_class(v, v.children(x), 1)) + compute_line(v, indent(d + 1), of_class(v, v.children(x), 0))
            + others_text(v, of_class(v, v.children(x), 3), d + 1, m),
{
}

proof fn lemma_concat5(s: Seq<char>, a: Seq<char>, b: Seq<char>, c: Seq<char>, d: Seq<char>, e: Seq<char>)
    ensures
        s + (a + b + c + d + e) == s + a + b + c + d + e,
{
    assert(s + (a + b + c + d + e) =~= s + a + b + c + d + e);
}


/// The number of containment edges.
pub open spec fn edge_count(cs: Seq<crate::ir::ContainsView>) -> nat
    decreases cs.len(),
{
    if cs.len() == 0 {
        0
    } else {
        edge_count(cs.drop_last()) + cs.last().1.len()
    }
}

/// The entity classes counted in the summary: compute (0), L1 switch (1),
/// L2 switch (2), other switch (3), group (4).
pub open spec fn entity_class(e: EntityView) -> nat {
    match e.1 {
        EntityKind::Compute => 0,
        EntityKind::Switch { level: Some(l) } => if l == 0 {
            1
        } else if l == 1 {
            2
        } else {
            3
        },
        EntityKind::Switch { level: None } => 3,
        EntityKind::Group => 4,
    }
}

/// How many entities are of class `k`.
pub open spec fn class_count(es: Seq<EntityView>, k: nat) -> nat {
    es.filter(|e: EntityView| entity_class(e) == k).len()
}

/// The head of the summary: sizes and the entity breakdown.
pub open spec fn summary_head(v: IRView) -> Seq<char> {
    "TopologyIR { entities: "@ + dec_digits(v.entities.len()) + ", links: "@ + dec_digits(v.links.len()) + ", containment_edges: "@
        + dec_digits(edge_count(v.contains)) + " }\n"@ + "  Entities:\n"@ + "    Compute       : "@ + dec_digits(class_count(v.entities, 0))
        + "\n"@ + "    L1 switches   : "@ + dec_digits(class_count(v.entities, 1)) + "\n"@ + "    L2 switches   : "@ + dec_digits(
        class_count(v.entities, 2),
    ) + "\n"@ + (if class_count(v.entities, 3) > 0 {
        "    Other switches: "@ + dec_digits(class_count(v.entities, 3)) + "\n"@
    } else {
        Seq::empty()
    }) + (if class_count(v.entities, 4) > 0 {
        "    Groups        : "@ + dec_digits(class_count(v.entities, 4)) + "\n"@
    } else {
        Seq::empty()
    })
}

/// Append a count.
fn push_count(out: &mut Vec<char>, n: usize)
    ensures
        final(out)@ == old(out)@ + dec_digits(n as nat),
{
    let d = format_padded(n, 0);
    extend_chars(out, d.as_slice());
}

/// The head of the summary (see `summary_head`).
pub fn format_summary_head(ir: &TopologyIR) -> (r: String)
    requires
        edge_count(ir@.contains) <= usize::MAX,
    ensures
        r@ == summary_head(ir@),
{
    let ghost v = ir@;
    let ghost es = v.entities;
    // Containment edges.
    let mut edges: usize = 0;
    let mut k: usize = 0;
    assert(v.contains.take(0).len() == 0);
    while k < ir.contains.len()
        invariant
            v == ir@,
            edge_count(v.contains) <= usize::MAX,
            k <= v.contains.len(),
            edges == edge_count(v.contains.take(k as int)),
        decreases ir.contains.len() - k,
    {
        proof {
            assert(v.contains.take(k + 1).drop_last() == v.contains.take(k as int));
            assert(v.contains.take(k + 1).last() == v.contains[k as int]);
            lemma_edges_prefix(v.contains, k + 1);
        }
        edges = edges + ir.contains[k].1.len();
        k = k + 1;
    }
    assert(v.contains.take(k as int) == v.contains);
    // Entity classes.
    let mut counts: [usize; 5] = [0, 0, 0, 0, 0];
    let mut i: usize = 0;
    assert(es.take(0).len() == 0);
    while i < ir.entities.len()
        invariant
            v == ir@,
            es == v.entities,
            i <= es.len(),
            forall|c: int| 0 <= c < 5 ==> #[trigger] counts@[c] == class_count(es.take(i as int), c as nat),
            forall|c: int| 0 <= c < 5 ==> counts@[c] <= i,
        decreases ir.entities.len() - i,
    {
        let cls: usize = match ir.entities[i].kind {
            EntityKind::Compute => 0,
            EntityKind::Switch { level: Some(l) } => if l == 0 {
                1
            } else if l == 1 {
                2
            } else {
                3
            },
            EntityKind::Switch { level: None } => 3,
            EntityKind::Group => 4,
        };
        assert(cls as nat == entity_class(es[i as int]));
        proof {
            assert(es.take(i + 1) == es.take(i as int).push(es[i as int]));
            assert forall|c: int| 0 <= c < 5 implies #[trigger] class_count(es.take(i + 1), c as nat) == class_count(es.take(i as int), c as nat) + (if c == cls { 1int } else { 0int }) by {
                es.take(i as int).lemma_filter_push(es[i as int], |e: EntityView| entity_class(e) == c as nat);
            }
        }
        counts.set(cls, counts[cls] + 1);
        i = i + 1;
    }
    assert(es.take(i as int) == es);
    let mut out: Vec<char> = Vec::new();
    push_str(&mut out, "TopologyIR { entities: ");
    push_count(&mut out, ir.entities.len());
    push_str(&mut out, ", links: ");
    push_count(&mut out, ir.links.len());
    push_str(&mut out, ", containment_edges: ");
    push_count(&mut out, edges);
    push_str(&mut out, " }\n");
    push_str(&mut out, "  Entities:\n");
    push_str(&mut out, "    Compute       : ");
    push_count(&mut out, counts[0]);
    push_str(&mut out, "\n");
    push_str(&mut out, "    L1 switches   : ");
    push_count(&mut out, counts[1]);
    push_str(&mut out, "\n");
    push_str(&mut out, "    L2 switches   : ");
    push_count(&mut out, counts[2]);
    push_str(&mut out, "\n");
    let ghost mid = out@;
    if counts[3] > 0 {
        push_str(&mut out, "    Other switches: ");
        push_count(&mut out, counts[3]);
        push_str(&mut out, "\n");
    }
    let ghost mid2 = out@;
    if counts[4] > 0 {
        push_str(&mut out, "    Groups        : ");
        push_count(&mut out, counts[4]);
        push_str(&mut out, "\n");
    }
    assert(counts@[0] == class_count(es, 0));
    assert(counts@[1] == class_count(es, 1));
    assert(counts@[2] == class_count(es, 2));
    assert(counts@[3] == class_count(es, 3));
    assert(counts@[4] == class_count(es, 4));
    assert(out@ =~= summary_head(v));
    string_of(out.as_slice())
}

proof fn lemma_edges_prefix(cs: Seq<crate::ir::ContainsView>, k: int)
    requires
        0 <= k <= cs.len(),
    ensures
        edge_count(cs.take(k)) <= edge_count(cs),
    decreases cs.len() - k,
{
    if k < cs.len() {
        assert(cs.take(k + 1).drop_last() == cs.take(k));
        lemma_edges_prefix(cs, k + 1);
    } else {
        assert(cs.take(k) == cs);
    }
}

/// The `cell` recorded on an entity.
pub open spec fn cell_meta(e: EntityView) -> Option<Seq<char>> {
    if e.2.contains_key("cell"@) {
        Some(e.2["cell"@])
    } else {
        None
    }
}

/// The cell of an L1 switch.
pub open spec fn l1_cell(e: EntityView) -> Option<Seq<char>> {
    if e.1 == (EntityKind::Switch { level: Some(0u32) }) {
        cell_meta(e)
    } else {
        None
    }
}

/// The cell of an L2 switch.
pub open spec fn l2_cell(e: EntityView) -> Option<Seq<char>> {
    if e.1 == (EntityKind::Switch { level: Some(1u32) }) {
        cell_meta(e)
    } else {
        None
    }
}

/// The cell of a compute node: that of the parent in the first
/// containment list naming it.
pub open spec fn compute_cell(v: IRView, e: EntityView) -> Option<Seq<char>> {
    if e.1 is Compute {
        match first_parent(v.contains, e.0) {
            Some(k) => match v.entity(v.contains[k].0) {
                Some(p) => cell_meta(p),
                None => None,
            },
            None => None,
        }
    } else {
        None
    }
}

/// The index of the first containment list naming `x`.
fn first_parent_index(ir: &TopologyIR, x: &Id) -> (r: Option<usize>)
    ensures
        match first_parent(ir@.contains, x@) {
            Some(k) => r matches Some(q) && q as int == k && q < ir@.contains.len(),
            None => r is None,
        },
{
    let ghost cs = ir@.contains;
    let mut k: usize = 0;
    assert(cs.take(0).len() == 0);
    while k < ir.contains.len()
        invariant
            cs == ir@.contains,
            k <= cs.len(),
            first_parent(cs.take(k as int), x@) is None,
        decreases ir.contains.len() - k,
    {
        let ch = &ir.contains[k].1;
        let ghost iv = crate::ir::id_views(ch@);
        let mut found = false;
        let mut q: usize = 0;
        while q < ch.len()
            invariant
                iv == crate::ir::id_views(ch@),
                q <= iv.len(),
                found == iv.take(q as int).contains(x@),
            decreases ch.len() - q,
        {
            assert(iv.take(q + 1) == iv.take(q as int).push(iv[q as int]));
            if ch[q].same(x) {
                found = true;
            }
            q = q + 1;
        }
        proof {
            assert(iv.take(q as int) == iv);
            assert(cs[k as int] == (ir.contains@[k as int].0@, iv));
            assert(cs.take(k + 1).drop_last() == cs.take(k as int));
            assert(cs.take(k + 1).last() == cs[k as int]);
        }
        if found {
            proof {
                lemma_first_parent_prefix(cs, k + 1, x@);
            }
            return Some(k);
        }
        k = k + 1;
    }
    assert(cs.take(k as int) == cs);
    None
}

proof fn lemma_first_parent_prefix(cs: Seq<crate::ir::ContainsView>, k: int, x: Seq<char>)
    requires
        0 <= k <= cs.len(),
        first_parent(cs.take(k), x) is Some,
    ensures
        first_parent(cs, x) == first_parent(cs.take(k), x),
    decreases cs.len() - k,
{
    if k < cs.len() {
        assert(cs.take(k + 1).drop_last() == cs.take(k));
        lemma_first_parent_prefix(cs, k + 1, x);
    } else {
        assert(cs.take(k) == cs);
    }
}

/// The cell of entity `j`, as a compute node.
fn compute_cell_of(ir: &TopologyIR, j: usize) -> (r: Option<String>)
    requires
        j < ir@.entities.len(),
    ensures
        crate::alps::opt_view(r) == compute_cell(ir@, ir@.entities[j as int]),
{
    let e = &ir.entities[j];
    assert(ir@.entities[j as int] == e@);
    match e.kind {
        EntityKind::Compute => {},
        _ => return None,
    }
    match first_parent_index(ir, &e.id) {
        Some(k) => match ir.get_entity(&ir.contains[k].0) {
            Some(p) => match p.meta.get("cell") {
                Some(c) => Some(c.clone()),
                None => None,
            },
            None => None,
        },
        None => None,
    }
}

/// The cell an entity counts for in the summary: that of an L1 or L2
/// switch, or of a compute node's parent.
pub open spec fn counted_cell(v: IRView, e: EntityView) -> Option<Seq<char>> {
    match l1_cell(e) {
        Some(c) => Some(c),
        None => match l2_cell(e) {
            Some(c) => Some(c),
            None => compute_cell(v, e),
        },
    }
}

/// The cells of the summary.
pub open spec fn summary_cells(v: IRView) -> Set<Seq<char>> {
    Set::new(|c: Seq<char>| exists|j: int| 0 <= j < v.entities.len() && counted_cell(v, v.entities[j]) == Some(c))
}

/// The racks of the L1 switches of cell `c`.
pub open spec fn cell_racks(v: IRView, c: Seq<char>) -> Set<Seq<char>> {
    Set::new(|r: Seq<char>| exists|j: int| 0 <= j < v.entities.len() && l1_cell(v.entities[j]) == Some(c) && v.entities[j].2.contains_key("rack"@)
        && v.entities[j].2["rack"@] == r)
}

/// The pieces of an entity's comma-separated `partitions` (none if it has none).
pub open spec fn own_parts(e: EntityView) -> Seq<Seq<char>> {
    if e.2.contains_key("partitions"@) {
        split_on(e.2["partitions"@], ',')
    } else {
        Seq::empty()
    }
}

/// The partitions of the compute nodes of cell `c`.
pub open spec fn cell_parts(v: IRView, c: Seq<char>) -> Set<Seq<char>> {
    Set::new(|p: Seq<char>| exists|j: int| 0 <= j < v.entities.len() && compute_cell(v, v.entities[j]) == Some(c) && own_parts(v.entities[j]).contains(p))
}

/// `s` padded with spaces on the right to `w` characters.
pub open spec fn pad_right(s: Seq<char>, w: nat) -> Seq<char> {
    if s.len() < w {
        s + Seq::new((w - s.len()) as nat, |i: int| ' ')
    } else {
        s
    }
}

/// The line of cell `c`.
pub open spec fn cell_line(v: IRView, c: Seq<char>) -> Seq<char> {
    let ps = sorted_list(cell_parts(v, c));
    "    "@ + pad_right(c, 12) + "  racks: "@ + dec_digits(sorted_list(cell_racks(v, c)).len()) + "  L1: "@ + dec_digits(
        v.entities.filter(|e: EntityView| l1_cell(e) == Some(c)).len(),
    ) + "  L2: "@ + dec_digits(v.entities.filter(|e: EntityView| l2_cell(e) == Some(c)).len()) + "  compute: "@ + dec_digits(
        v.entities.filter(|e: EntityView| compute_cell(v, e) == Some(c)).len(),
    ) + "  partitions: ["@ + (if ps.len() == 0 {
        "—"@
    } else {
        join(ps, ", "@)
    }) + "]\n"@
}

/// The cell part of the summary.
pub open spec fn cells_text(v: IRView) -> Seq<char> {
    let cl = sorted_list(summary_cells(v));
    if cl.len() == 0 {
        Seq::empty()
    } else {
        "  Cells: "@ + dec_digits(cl.len()) + "\n"@ + cl.map_values(|c: Seq<char>| cell_line(v, c)).flatten()
    }
}

/// Count the entities whose `f`-value (given per entity in `vals`) is `c`.
fn count_matching(vals: &Vec<Option<String>>, c: &String, es: Ghost<Seq<EntityView>>, f: Ghost<spec_fn(EntityView) -> Option<Seq<char>>>) -> (n: usize)
    requires
        vals@.len() == es@.len(),
        forall|j: int| 0 <= j < vals@.len() ==> crate::alps::opt_view(#[trigger] vals@[j]) == f@(es@[j]),
    ensures
        n == es@.filter(|e: EntityView| f@(e) == Some(c@)).len(),
{
    let ghost pred = |e: EntityView| f@(e) == Some(c@);
    let mut n: usize = 0;
    let mut j: usize = 0;
    assert(es@.take(0).filter(pred).len() == 0) by {
        reveal(Seq::filter);
    }
    while j < vals.len()
        invariant
            vals@.len() == es@.len(),
            forall|q: int| 0 <= q < vals@.len() ==> crate::alps::opt_view(#[trigger] vals@[q]) == f@(es@[q]),
            pred == (|e: EntityView| f@(e) == Some(c@)),
            j <= es@.len(),
            n == es@.take(j as int).filter(pred).len(),
            n <= j,
        decreases vals.len() - j,
    {
        assert(crate::alps::opt_view(vals@[j as int]) == f@(es@[j as int]));
        proof {
            assert(es@.take(j + 1) == es@.take(j as int).push(es@[j as int]));
            es@.take(j as int).lemma_filter_push(es@[j as int], pred);
        }
        let hit = match &vals[j] {
            Some(x) => *x == *c,
            None => false,
        };
        if hit {
            n = n + 1;
        }
        j = j + 1;
    }
    assert(es@.take(j as int) == es@);
    n
}

/// The line of cell `c` (see `cell_line`).
fn format_cell_line(ir: &TopologyIR, c: &String, l1c: &Vec<Option<String>>, l2c: &Vec<Option<String>>, cc: &Vec<Option<String>>) -> (r: Vec<char>)
    requires
        l1c@.len() == ir@.entities.len(),
        l2c@.len() == ir@.entities.len(),
        cc@.len() == ir@.entities.len(),
        forall|j: int| 0 <= j < l1c@.len() ==> crate::alps::opt_view(#[trigger] l1c@[j]) == l1_cell(ir@.entities[j]),
        forall|j: int| 0 <= j < l2c@.len() ==> crate::alps::opt_view(#[trigger] l2c@[j]) == l2_cell(ir@.entities[j]),
        forall|j: int| 0 <= j < cc@.len() ==> crate::alps::opt_view(#[trigger] cc@[j]) == compute_cell(ir@, ir@.entities[j]),
    ensures
        r@ == cell_line(ir@, c@),
{
    let ghost v = ir@;
    let ghost es = v.entities;
    let n1 = count_matching(l1c, c, Ghost(es), Ghost(|e: EntityView| l1_cell(e)));
    let n2 = count_matching(l2c, c, Ghost(es), Ghost(|e: EntityView| l2_cell(e)));
    let nc = count_matching(cc, c, Ghost(es), Ghost(|e: EntityView| compute_cell(v, e)));
    assert((|e: EntityView| (|e: EntityView| l1_cell(e))(e) == Some(c@)) =~= (|e: EntityView| l1_cell(e) == Some(c@)));
    assert((|e: EntityView| (|e: EntityView| l2_cell(e))(e) == Some(c@)) =~= (|e: EntityView| l2_cell(e) == Some(c@)));
    assert((|e: EntityView| (|e: EntityView| compute_cell(v, e))(e) == Some(c@)) =~= (|e: EntityView| compute_cell(v, e) == Some(c@)));
    // Racks and partitions.
    let mut racks: Vec<String> = Vec::new();
    let mut parts: Vec<String> = Vec::new();
    let mut j: usize = 0;
    while j < ir.entities.len()
        invariant
            v == ir@,
            es == v.entities,
            l1c@.len() == es.len(),
            cc@.len() == es.len(),
            forall|q: int| 0 <= q < l1c@.len() ==> crate::alps::opt_view(#[trigger] l1c@[q]) == l1_cell(es[q]),
            forall|q: int| 0 <= q < cc@.len() ==> crate::alps::opt_view(#[trigger] cc@[q]) == compute_cell(v, es[q]),
            j <= es.len(),
            forall|r: Seq<char>| views(racks@).contains(r) <==> exists|q: int| 0 <= q < j && l1_cell(es[q]) == Some(c@) && es[q].2.contains_key("rack"@) && es[q].2["rack"@] == r,
            forall|p: Seq<char>| views(parts@).contains(p) <==> exists|q: int| 0 <= q < j && compute_cell(v, es[q]) == Some(c@) && own_parts(es[q]).contains(p),
        decreases ir.entities.len() - j,
    {
        let e = &ir.entities[j];
        assert(es[j as int] == e@);
        assert(crate::alps::opt_view(l1c@[j as int]) == l1_cell(es[j as int]));
        assert(crate::alps::opt_view(cc@[j as int]) == compute_cell(v, es[j as int]));
        let ghost r0 = views(racks@);
        let ghost p0 = views(parts@);
        let in_l1 = match &l1c[j] {
            Some(x) => *x == *c,
            None => false,
        };
        if in_l1 {
            match e.meta.get("rack") {
                Some(r) => {
                    racks.push(r.clone());
                    assert(views(racks@) == r0.push(r@));
                },
                None => {},
            }
        }
        let in_c = match &cc[j] {
            Some(x) => *x == *c,
            None => false,
        };
        let ghost mut added: Seq<Seq<char>> = Seq::empty();
        if in_c {
            match e.meta.get("partitions") {
                Some(ps) => {
                    let pc = chars_of(ps.as_str());
                    let pieces = split_chars(pc.as_slice(), ',');
                    let ghost pv = pieces@.map_values(|x: Vec<char>| x@);
                    let mut k: usize = 0;
                    while k < pieces.len()
                        invariant
                            pv == pieces@.map_values(|x: Vec<char>| x@),
                            k <= pv.len(),
                            views(parts@) == p0 + pv.take(k as int),
                        decreases pieces.len() - k,
                    {
                        let ghost prev = views(parts@);
                        let piece = string_of(pieces[k].as_slice());
                        assert(piece@ == pv[k as int]);
                        parts.push(piece);
                        assert(views(parts@) == prev.push(pv[k as int]));
                        assert(pv.take(k + 1) == pv.take(k as int).push(pv[k as int]));
                        k = k + 1;
                    }
                    proof {
                        assert(pv.take(k as int) == pv);
                        added = pv;
                    }
                },
                None => {},
            }
        }
        proof {
            assert(views(parts@) == p0 + added);
            assert(in_c ==> added == own_parts(es[j as int]));
            assert(!in_c ==> added.len() == 0);
            assert forall|r: Seq<char>| views(racks@).contains(r) <==> exists|q: int| 0 <= q < j + 1 && l1_cell(es[q]) == Some(c@) && es[q].2.contains_key("rack"@) && es[q].2["rack"@] == r by {
                if exists|q: int| 0 <= q < j + 1 && l1_cell(es[q]) == Some(c@) && es[q].2.contains_key("rack"@) && es[q].2["rack"@] == r {
                    let q = choose|q: int| 0 <= q < j + 1 && l1_cell(es[q]) == Some(c@) && es[q].2.contains_key("rack"@) && es[q].2["rack"@] == r;
                    if q < j {
                        assert(r0.contains(r));
                    }
                }
                if r0.contains(r) {
                    let q = choose|q: int| 0 <= q < j && l1_cell(es[q]) == Some(c@) && es[q].2.contains_key("rack"@) && es[q].2["rack"@] == r;
                    assert(l1_cell(es[q]) == Some(c@));
                }
            }
            assert forall|p: Seq<char>| views(parts@).contains(p) <==> exists|q: int| 0 <= q < j + 1 && compute_cell(v, es[q]) == Some(c@) && own_parts(es[q]).contains(p) by {
                let n = p0 + added;
                if n.contains(p) {
                    let t = choose|t: int| 0 <= t < n.len() && n[t] == p;
                    if t < p0.len() {
                        assert(p0[t] == p);
                        assert(p0.contains(p));
                        let q = choose|q: int| 0 <= q < j && compute_cell(v, es[q]) == Some(c@) && own_parts(es[q]).contains(p);
                        assert(compute_cell(v, es[q]) == Some(c@));
                    } else {
                        assert(added[t - p0.len()] == p);
                        assert(own_parts(es[j as int]).contains(p));
                    }
                }
                if exists|q: int| 0 <= q < j + 1 && compute_cell(v, es[q]) == Some(c@) && own_parts(es[q]).contains(p) {
                    let q = choose|q: int| 0 <= q < j + 1 && compute_cell(v, es[q]) == Some(c@) && own_parts(es[q]).contains(p);
                    if q < j {
                        assert(p0.contains(p));
                        let t = choose|t: int| 0 <= t < p0.len() && p0[t] == p;
                        assert(n[t] == p);
                    } else {
                        let t = choose|t: int| 0 <= t < added.len() && added[t] == p;
                        assert(n[p0.len() + t] == p);
                    }
                }
            }
        }
        j = j + 1;
    }
    assert(views(racks@).to_set() =~= cell_racks(v, c@));
    assert(views(parts@).to_set() =~= cell_parts(v, c@));
    let rs = sorted_set_of(&racks);
    let ps = sorted_set_of(&parts);
    let mut out: Vec<char> = Vec::new();
    push_str(&mut out, "    ");
    push_str(&mut out, c.as_str());
    let clen = c.as_str().unicode_len();
    if clen < 12 {
        let mut k: usize = clen;
        let ghost base = out@;
        while k < 12
            invariant
                clen <= k <= 12,
                out@ == base + Seq::new((k - clen) as nat, |i: int| ' '),
            decreases 12 - k,
        {
            out.push(' ');
            assert(Seq::new((k + 1 - clen) as nat, |i: int| ' ') =~= Seq::new((k - clen) as nat, |i: int| ' ').push(' '));
            k = k + 1;
        }
    }
    push_str(&mut out, "  racks: ");
    push_count(&mut out, rs.len());
    push_str(&mut out, "  L1: ");
    push_count(&mut out, n1);
    push_str(&mut out, "  L2: ");
    push_count(&mut out, n2);
    push_str(&mut out, "  compute: ");
    push_count(&mut out, nc);
    push_str(&mut out, "  partitions: [");
    if ps.len() == 0 {
        push_str(&mut out, "—");
    } else {
        let body = join_chars(&ps, ", ");
        extend_chars(&mut out, body.as_slice());
    }
    push_str(&mut out, "]\n");
    assert(out@ =~= cell_line(v, c@));
    out
}

/// `x` is named in some containment list.
pub open spec fn is_child(cs: Seq<crate::ir::ContainsView>, x: Seq<char>) -> bool {
    exists|k: int| 0 <= k < cs.len() && cs[k].1.contains(x)
}

/// The roots of the containment tree: parents that are nobody's child.
pub open spec fn tree_roots(cs: Seq<crate::ir::ContainsView>) -> Set<Seq<char>> {
    Set::new(|p: Seq<char>| exists|k: int| 0 <= k < cs.len() && cs[k].0 == p && !is_child(cs, p))
}

/// The tree part of the summary: each root, by name, down to depth 3.
pub open spec fn tree_text(v: IRView) -> Seq<char> {
    let roots = sorted_list(tree_roots(v.contains));
    if roots.len() == 0 {
        Seq::empty()
    } else {
        "  Containment tree:\n"@ + roots.map_values(|r: Seq<char>| subtree_text(v, r, 2, 3)).flatten()
    }
}

/// The cell and tree part of the summary.
pub open spec fn summary_tail(v: IRView) -> Seq<char> {
    cells_text(v) + tree_text(v)
}

/// The per-entity cells used by the summary.
fn entity_cells(ir: &TopologyIR) -> (r: (Vec<Option<String>>, Vec<Option<String>>, Vec<Option<String>>))
    ensures
        r.0@.len() == ir@.entities.len(),
        r.1@.len() == ir@.entities.len(),
        r.2@.len() == ir@.entities.len(),
        forall|j: int| 0 <= j < r.0@.len() ==> crate::alps::opt_view(#[trigger] r.0@[j]) == l1_cell(ir@.entities[j]),
        forall|j: int| 0 <= j < r.1@.len() ==> crate::alps::opt_view(#[trigger] r.1@[j]) == l2_cell(ir@.entities[j]),
        forall|j: int| 0 <= j < r.2@.len() ==> crate::alps::opt_view(#[trigger] r.2@[j]) == compute_cell(ir@, ir@.entities[j]),
{
    let mut a: Vec<Option<String>> = Vec::new();
    let mut b: Vec<Option<String>> = Vec::new();
    let mut c: Vec<Option<String>> = Vec::new();
    let mut j: usize = 0;
    while j < ir.entities.len()
        invariant
            j <= ir@.entities.len(),
            a@.len() == j,
            b@.len() == j,
            c@.len() == j,
            forall|q: int| 0 <= q < j ==> crate::alps::opt_view(#[trigger] a@[q]) == l1_cell(ir@.entities[q]),
            forall|q: int| 0 <= q < j ==> crate::alps::opt_view(#[trigger] b@[q]) == l2_cell(ir@.entities[q]),
            forall|q: int| 0 <= q < j ==> crate::alps::opt_view(#[trigger] c@[q]) == compute_cell(ir@, ir@.entities[q]),
        decreases ir.entities.len() - j,
    {
        let e = &ir.entities[j];
        assert(ir@.entities[j as int] == e@);
        let cm: Option<String> = match e.meta.get("cell") {
            Some(x) => Some(x.clone()),
            None => None,
        };
        let x1 = if e.kind == (EntityKind::Switch { level: Some(0) }) { cm.clone() } else { None };
        let x2 = if e.kind == (EntityKind::Switch { level: Some(1) }) { cm } else { None };
        let x3 = compute_cell_of(ir, j);
        let ghost (pa, pb, pc) = (a@, b@, c@);
        a.push(x1);
        b.push(x2);
        c.push(x3);
        assert forall|q: int| 0 <= q < j + 1 implies crate::alps::opt_view(#[trigger] a@[q]) == l1_cell(ir@.entities[q]) by {
            if q < j {
                assert(a@[q] == pa[q]);
            }
        }
        assert forall|q: int| 0 <= q < j + 1 implies crate::alps::opt_view(#[trigger] b@[q]) == l2_cell(ir@.entities[q]) by {
            if q < j {
                assert(b@[q] == pb[q]);
            }
        }
        assert forall|q: int| 0 <= q < j + 1 implies crate::alps::opt_view(#[trigger] c@[q]) == compute_cell(ir@, ir@.entities[q]) by {
            if q < j {
                assert(c@[q] == pc[q]);
            }
        }
        j = j + 1;
    }
    (a, b, c)
}

/// The cell part of the summary (see `cells_text`).
fn format_cells(ir: &TopologyIR, out: &mut Vec<char>)
    ensures
        final(out)@ == old(out)@ + cells_text(ir@),
{
    let ghost v = ir@;
    let ghost es = v.entities;
    let (l1c, l2c, cc) = entity_cells(ir);
    let mut all: Vec<String> = Vec::new();
    let mut j: usize = 0;
    while j < ir.entities.len()
        invariant
            v == ir@,
            es == v.entities,
            l1c@.len() == es.len(),
            l2c@.len() == es.len(),
            cc@.len() == es.len(),
            forall|q: int| 0 <= q < l1c@.len() ==> crate::alps::opt_view(#[trigger] l1c@[q]) == l1_cell(es[q]),
            forall|q: int| 0 <= q < l2c@.len() ==> crate::alps::opt_view(#[trigger] l2c@[q]) == l2_cell(es[q]),
            forall|q: int| 0 <= q < cc@.len() ==> crate::alps::opt_view(#[trigger] cc@[q]) == compute_cell(v, es[q]),
            j <= es.len(),
            forall|c: Seq<char>| views(all@).contains(c) <==> exists|q: int| 0 <= q < j && counted_cell(v, es[q]) == Some(c),
        decreases ir.entities.len() - j,
    {
        assert(crate::alps::opt_view(l1c@[j as int]) == l1_cell(es[j as int]));
        assert(crate::alps::opt_view(l2c@[j as int]) == l2_cell(es[j as int]));
        assert(crate::alps::opt_view(cc@[j as int]) == compute_cell(v, es[j as int]));
        let ghost before = views(all@);
        let pick: Option<String> = match &l1c[j] {
            Some(x) => Some(x.clone()),
            None => match &l2c[j] {
                Some(x) => Some(x.clone()),
                None => match &cc[j] {
                    Some(x) => Some(x.clone()),
                    None => None,
                },
            },
        };
        assert(crate::alps::opt_view(pick) == counted_cell(v, es[j as int]));
        match pick {
            Some(x) => {
                let ghost xv = x@;
                all.push(x);
                assert(views(all@) == before.push(xv));
            },
            None => {},
        }
        assert forall|c: Seq<char>| views(all@).contains(c) <==> exists|q: int| 0 <= q < j + 1 && counted_cell(v, es[q]) == Some(c) by {
            if exists|q: int| 0 <= q < j + 1 && counted_cell(v, es[q]) == Some(c) {
                let q = choose|q: int| 0 <= q < j + 1 && counted_cell(v, es[q]) == Some(c);
                if q < j {
                    assert(before.contains(c));
                }
            }
            if before.contains(c) {
                let q = choose|q: int| 0 <= q < j && counted_cell(v, es[q]) == Some(c);
                assert(counted_cell(v, es[q]) == Some(c));
            }
        }
        j = j + 1;
    }
    assert(views(all@).to_set() =~= summary_cells(v));
    let cells = sorted_set_of(&all);
    let ghost cl = views(cells@);
    if cells.len() == 0 {
        assert(out@ =~= out@ + cells_text(v));
        return;
    }
    let ghost start = out@;
    push_str(out, "  Cells: ");
    push_count(out, cells.len());
    push_str(out, "\n");
    let ghost base = out@;
    let ghost f = |c: Seq<char>| cell_line(v, c);
    let mut k: usize = 0;
    assert(cl.take(0).map_values(f).flatten() == Seq::<char>::empty());
    while k < cells.len()
        invariant
            v == ir@,
            l1c@.len() == v.entities.len(),
            l2c@.len() == v.entities.len(),
            cc@.len() == v.entities.len(),
            forall|q: int| 0 <= q < l1c@.len() ==> crate::alps::opt_view(#[trigger] l1c@[q]) == l1_cell(v.entities[q]),
            forall|q: int| 0 <= q < l2c@.len() ==> crate::alps::opt_view(#[trigger] l2c@[q]) == l2_cell(v.entities[q]),
            forall|q: int| 0 <= q < cc@.len() ==> crate::alps::opt_view(#[trigger] cc@[q]) == compute_cell(v, v.entities[q]),
            cl == views(cells@),
            f == (|c: Seq<char>| cell_line(v, c)),
            k <= cl.len(),
            out@ == base + cl.take(k as int).map_values(f).flatten(),
        decreases cells.len() - k,
    {
        let line = format_cell_line(ir, &cells[k], &l1c, &l2c, &cc);
        extend_chars(out, line.as_slice());
        proof {
            let s0 = cl.take(k as int).map_values(f);
            assert(cl.take(k + 1).map_values(f) == s0.push(f(cl[k as int])));
            s0.lemma_flatten_push(f(cl[k as int]));
        }
        k = k + 1;
    }
    assert(cl.take(k as int) == cl);
    assert(out@ =~= start + cells_text(v));
}

/// Whether `x` is named in some containment list.
fn named_as_child(ir: &TopologyIR, x: &Id) -> (b: bool)
    ensures
        b == is_child(ir@.contains, x@),
{
    match first_parent_index(ir, x) {
        Some(_) => {
            proof {
                crate::stats::lemma_first_parent_bound(ir@.contains, x@);
            }
            true
        },
        None => {
            proof {
                lemma_no_first_parent(ir@.contains, x@);
            }
            false
        },
    }
}

proof fn lemma_no_first_parent(cs: Seq<crate::ir::ContainsView>, x: Seq<char>)
    requires
        first_parent(cs, x) is None,
    ensures
        !is_child(cs, x),
    decreases cs.len(),
{
    if cs.len() > 0 {
        lemma_no_first_parent(cs.drop_last(), x);
        if is_child(cs, x) {
            let k = choose|k: int| 0 <= k < cs.len() && cs[k].1.contains(x);
            if k < cs.len() - 1 {
                assert(cs.drop_last()[k] == cs[k]);
            }
        }
    }
}

/// The tree part of the summary (see `tree_text`).
fn format_tree(ir: &TopologyIR, out: &mut Vec<char>)
    ensures
        final(out)@ == old(out)@ + tree_text(ir@),
{
    let ghost v = ir@;
    let ghost cs = v.contains;
    let mut roots: Vec<String> = Vec::new();
    let mut k: usize = 0;
    while k < ir.contains.len()
        invariant
            v == ir@,
            cs == v.contains,
            k <= cs.len(),
            forall|p: Seq<char>| views(roots@).contains(p) <==> exists|q: int| 0 <= q < k && cs[q].0 == p && !is_child(cs, p),
        decreases ir.contains.len() - k,
    {
        let ghost before = views(roots@);
        let p = &ir.contains[k].0;
        assert(cs[k as int].0 == p@);
        if !named_as_child(ir, p) {
            roots.push(p.0.clone());
            assert(views(roots@) == before.push(p@));
        }
        assert forall|x: Seq<char>| views(roots@).contains(x) <==> exists|q: int| 0 <= q < k + 1 && cs[q].0 == x && !is_child(cs, x) by {
            if exists|q: int| 0 <= q < k + 1 && cs[q].0 == x && !is_child(cs, x) {
                let q = choose|q: int| 0 <= q < k + 1 && cs[q].0 == x && !is_child(cs, x);
                if q < k {
                    assert(before.contains(x));
                }
            }
            if before.contains(x) {
                let q = choose|q: int| 0 <= q < k && cs[q].0 == x && !is_child(cs, x);
                assert(cs[q].0 == x);
            }
        }
        k = k + 1;
    }
    assert(views(roots@).to_set() =~= tree_roots(cs));
    let sorted = sorted_set_of(&roots);
    let ghost rl = views(sorted@);
    if sorted.len() == 0 {
        assert(out@ =~= out@ + tree_text(v));
        return;
    }
    let ghost start = out@;
    push_str(out, "  Containment tree:\n");
    let ghost base = out@;
    let ghost f = |r: Seq<char>| subtree_text(v, r, 2, 3);
    let mut i: usize = 0;
    assert(rl.take(0).map_values(f).flatten() == Seq::<char>::empty());
    while i < sorted.len()
        invariant
            v == ir@,
            rl == views(sorted@),
            f == (|r: Seq<char>| subtree_text(v, r, 2, 3)),
            i <= rl.len(),
            out@ == base + rl.take(i as int).map_values(f).flatten(),
        decreases sorted.len() - i,
    {
        let id = Id(sorted[i].clone());
        fmt_subtree(out, ir, &id, 2, 3);
        proof {
            let s0 = rl.take(i as int).map_values(f);
            assert(rl.take(i + 1).map_values(f) == s0.push(f(rl[i as int])));
            s0.lemma_flatten_push(f(rl[i as int]));
        }
        i = i + 1;
    }
    assert(rl.take(i as int) == rl);
    assert(out@ =~= start + tree_text(v));
}

/// The cell and tree part of the summary (see `summary_tail`).
pub fn format_summary_tail(ir: &TopologyIR) -> (r: String)
    ensures
        r@ == summary_tail(ir@),
{
    let mut out: Vec<char> = Vec::new();
    format_cells(ir, &mut out);
    format_tree(ir, &mut out);
    assert(out@ =~= summary_tail(ir@));
    string_of(out.as_slice())
}
} // verus!
