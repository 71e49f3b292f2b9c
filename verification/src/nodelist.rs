//! SLURM host-list expressions (`lrdn[0001-0003,0005],login01`) and
//! `key=value` line splitting.
use vstd::prelude::*;
use vstd::string::*;
use crate::text::{
    all_digits, chars_eq, dec_digits, find_char, format_padded, index_of, is_digit, parse_unsigned,
    parse_usize, slice_chars, split_chars, split_on, string_of, zero_pad, lemma_index_of,
    extend_chars, chars_of, split_whitespace, words, views, is_ws,
};
use crate::kv::StrMap;

verus! {

/// An error in a SLURM node-list expression, or in any input the parsers
/// of this crate read; it carries a human-readable message.
#[derive(Debug)]
pub struct NodeListParseError {
    pub msg: String,
}

impl NodeListParseError {
    pub fn new(msg: String) -> (e: Self)
        ensures
            e.msg@ == msg@,
    {
        NodeListParseError { msg }
    }

    /// The text that `Display` shows: `Invalid SLURM nodelist: <msg>`.
    pub fn to_message(&self) -> (s: String)
        ensures
            s@ == "Invalid SLURM nodelist: "@ + self.msg@,
    {
        let mut s = String::from_str("Invalid SLURM nodelist: ");
        s.append(self.msg.as_str());
        s
    }
}

/// An error whose message is `pre`, then `s`, then `post`.
pub fn error_around(pre: &str, s: &[char], post: &str) -> (e: NodeListParseError)
    ensures
        e.msg@ == pre@ + s@ + post@,
{
    let mut m = String::from_str(pre);
    let mid = string_of(s);
    m.append(mid.as_str());
    m.append(post);
    NodeListParseError { msg: m }
}

/// An error whose message is the literal `m`.
pub fn error_lit(m: &str) -> (e: NodeListParseError)
    ensures
        e.msg@ == m@,
{
    NodeListParseError { msg: String::from_str(m) }
}

// ---------------------------------------------------------------------------
// Splitting at top-level commas
// ---------------------------------------------------------------------------

/// Scan state after reading a prefix: finished items, the item being read,
/// the bracket depth, and whether an unmatched `]` was met.
pub open spec fn bracket_scan(s: Seq<char>) -> (Seq<Seq<char>>, Seq<char>, nat, bool)
    decreases s.len(),
{
    if s.len() == 0 {
        (Seq::empty(), Seq::empty(), 0, false)
    } else {
        let (items, cur, depth, failed) = bracket_scan(s.drop_last());
        let c = s.last();
        if failed {
            (items, cur, depth, true)
        } else if c == '[' {
            (items, cur.push(c), depth + 1, false)
        } else if c == ']' {
            if depth == 0 {
                (items, cur, depth, true)
            } else {
                (items, cur.push(c), (depth - 1) as nat, false)
            }
        } else if c == ',' && depth == 0 {
            if cur.len() > 0 {
                (items.push(cur), Seq::empty(), depth, false)
            } else {
                (items, cur, depth, false)
            }
        } else {
            (items, cur.push(c), depth, false)
        }
    }
}

/// Comma-separated items of `s`, commas inside brackets kept; empty items
/// are dropped.  `Err` carries the message of an unbalanced bracket.
pub open spec fn split_brackets(s: Seq<char>) -> Result<Seq<Seq<char>>, Seq<char>> {
    let (items, cur, depth, failed) = bracket_scan(s);
    if failed {
        Err("closing ']' without matching '['"@)
    } else if depth != 0 {
        Err("missing closing ']'"@)
    } else if cur.len() > 0 {
        Ok(items.push(cur))
    } else {
        Ok(items)
    }
}

pub open spec fn vviews(v: Seq<Vec<char>>) -> Seq<Seq<char>> {
    v.map_values(|x: Vec<char>| x@)
}

/// Split comma-separated items but keep bracket groups intact.
pub fn split_preserving_brackets(s: &[char]) -> (r: Result<Vec<Vec<char>>, NodeListParseError>)
    ensures
        match split_brackets(s@) {
            Ok(items) => r matches Ok(v) && vviews(v@) == items,
            Err(m) => r matches Err(e) && e.msg@ == m,
        },
{
    let mut result: Vec<Vec<char>> = Vec::new();
    let mut current: Vec<char> = Vec::new();
    let mut depth: usize = 0;
    let mut i: usize = 0;
    assert(s@.take(0) =~= Seq::<char>::empty());
    while i < s.len()
        invariant
            i <= s.len(),
            depth <= i,
            bracket_scan(s@.take(i as int)) == (vviews(result@), current@, depth as nat, false),
        decreases s.len() - i,
    {
        let c = s[i];
        assert(s@.take(i + 1).drop_last() =~= s@.take(i as int));
        assert(s@.take(i + 1).last() == c);
        let ghost prev = vviews(result@);
        if c == '[' {
            depth = depth + 1;
            current.push(c);
        } else if c == ']' {
            if depth == 0 {
                proof {
                    lemma_bracket_scan_failed_sticks(s@, i as int + 1);
                }
                return Err(error_lit("closing ']' without matching '['"));
            }
            depth = depth - 1;
            current.push(c);
        } else if c == ',' && depth == 0 {
            if current.len() > 0 {
                result.push(current);
                current = Vec::new();
                assert(vviews(result@) =~= prev.push(bracket_scan(s@.take(i as int)).1));
                assert(current@ =~= Seq::<char>::empty());
            }
        } else {
            current.push(c);
        }
        i = i + 1;
    }
    assert(s@.take(i as int) =~= s@);
    if depth != 0 {
        return Err(error_lit("missing closing ']'"));
    }
    if current.len() > 0 {
        let ghost prev = vviews(result@);
        result.push(current);
        assert(vviews(result@) =~= prev.push(current@));
    }
    Ok(result)
}

/// Once an unmatched `]` is met, the scan stays failed.
pub proof fn lemma_bracket_scan_failed_sticks(s: Seq<char>, k: int)
    requires
        0 <= k <= s.len(),
        bracket_scan(s.take(k)).3,
    ensures
        bracket_scan(s).3,
    decreases s.len() - k,
{
    if k < s.len() {
        assert(s.take(k + 1).drop_last() =~= s.take(k));
        lemma_bracket_scan_failed_sticks(s, k + 1);
    } else {
        assert(s.take(k) =~= s);
    }
}

// ---------------------------------------------------------------------------
// Range elements
// ---------------------------------------------------------------------------

/// The values of one bracket element: `05` or `01-04` (numbers keep the
/// zero-padded width of the start).  `Err` carries the message.
pub open spec fn expand_part_spec(part: Seq<char>) -> Result<Seq<Seq<char>>, Seq<char>> {
    match index_of(part, '-') {
        Some(d) => {
            let a = part.take(d as int);
            let b = part.skip(d as int + 1);
            if a.len() == 0 || b.len() == 0 {
                Err("invalid range '"@ + part + "'"@)
            } else {
                match parse_unsigned(a, usize::MAX as nat) {
                    None => Err("invalid number '"@ + a + "'"@),
                    Some(x) => match parse_unsigned(b, usize::MAX as nat) {
                        None => Err("invalid number '"@ + b + "'"@),
                        Some(y) => if x > y {
                            Err("range start greater than end in '"@ + part + "'"@)
                        } else {
                            Ok(
                                Seq::new(
                                    (y - x + 1) as nat,
                                    |k: int| zero_pad(dec_digits((x + k) as nat), a.len()),
                                ),
                            )
                        },
                    },
                }
            }
        },
        None => if all_digits(part) {
            Ok(seq![part])
        } else {
            Err("invalid element '"@ + part + "'"@)
        },
    }
}

/// Expand a single range element (e.g. `01-04` or `05`).
pub fn expand_part(part: &[char]) -> (r: Result<Vec<Vec<char>>, NodeListParseError>)
    ensures
        match expand_part_spec(part@) {
            Ok(vals) => r matches Ok(v) && vviews(v@) == vals,
            Err(m) => r matches Err(e) && e.msg@ == m,
        },
{
    match find_char(part, '-') {
        Some(dash) => {
            assert(dash < part.len());
            let a = slice_chars(part, 0, dash);
            let b = slice_chars(part, dash + 1, part.len());
            assert(a@ =~= part@.take(dash as int));
            assert(b@ =~= part@.skip(dash + 1));
            if a.len() == 0 || b.len() == 0 {
                return Err(error_around("invalid range '", part, "'"));
            }
            let x = match parse_usize(a.as_slice()) {
                Some(x) => x,
                None => {
                    return Err(error_around("invalid number '", a.as_slice(), "'"));
                },
            };
            let y = match parse_usize(b.as_slice()) {
                Some(y) => y,
                None => {
                    return Err(error_around("invalid number '", b.as_slice(), "'"));
                },
            };
            if x > y {
                return Err(error_around("range start greater than end in '", part, "'"));
            }
            let width = a.len();
            let mut out: Vec<Vec<char>> = Vec::new();
            let mut v: usize = x;
            loop
                invariant_except_break
                    x <= v <= y,
                    vviews(out@) =~= Seq::new(
                        (v - x) as nat,
                        |k: int| zero_pad(dec_digits((x + k) as nat), width as nat),
                    ),
                ensures
                    vviews(out@) =~= Seq::new(
                        (y - x + 1) as nat,
                        |k: int| zero_pad(dec_digits((x + k) as nat), width as nat),
                    ),
                decreases y - v,
            {
                let ghost prev = vviews(out@);
                let item = format_padded(v, width);
                out.push(item);
                proof {
                    let want = Seq::new(
                        (v + 1 - x) as nat,
                        |k: int| zero_pad(dec_digits((x + k) as nat), width as nat),
                    );
                    assert(vviews(out@) =~= prev.push(item@));
                    assert forall|k: int| 0 <= k < want.len() implies vviews(out@)[k] == want[k] by {
                        if k < v - x {
                            assert(prev[k] == want[k]);
                        } else {
                            assert(x + k == v);
                        }
                    }
                    assert(vviews(out@) =~= want);
                }
                if v == y {
                    break;
                }
                v = v + 1;
            }
            Ok(out)
        },
        None => {
            let mut i: usize = 0;
            while i < part.len()
                invariant
                    i <= part.len(),
                    index_of(part@, '-') is None,
                    forall|j: int| 0 <= j < i ==> is_digit(part@[j]),
                decreases part.len() - i,
            {
                if !('0' <= part[i] && part[i] <= '9') {
                    assert(!is_digit(part@[i as int]));
                    return Err(error_around("invalid element '", part, "'"));
                }
                i = i + 1;
            }
            let mut out: Vec<Vec<char>> = Vec::new();
            out.push(slice_chars(part, 0, part.len()));
            assert(part@.subrange(0, part@.len() as int) =~= part@);
            assert(vviews(out@) =~= seq![part@]);
            Ok(out)
        },
    }
}


// ---------------------------------------------------------------------------
// Items with bracket groups
// ---------------------------------------------------------------------------

/// Number of `[` in `s`.
pub open spec fn count_open(s: Seq<char>) -> nat
    decreases s.len(),
{
    if s.len() == 0 {
        0
    } else {
        count_open(s.drop_last()) + if s.last() == '[' {
            1nat
        } else {
            0nat
        }
    }
}

/// `r` with `acc` put in front of its items, errors passed through.
pub open spec fn prepend_ok(
    acc: Seq<Seq<char>>,
    r: Result<Seq<Seq<char>>, Seq<char>>,
) -> Result<Seq<Seq<char>>, Seq<char>> {
    match r {
        Ok(x) => Ok(acc + x),
        Err(m) => Err(m),
    }
}

/// Expansion of one item: the first bracket group `[...]` is replaced by
/// each of its values in turn, and each result is expanded again, so that
/// `a[1-2]b[3,4]` gives `a1b3 a1b4 a2b3 a2b4`.  `Err` carries the message.
pub open spec fn expand_item_spec(s: Seq<char>) -> Result<Seq<Seq<char>>, Seq<char>>
    decreases count_open(s), 2nat, 0nat,
{
    match index_of(s, '[') {
        None => Ok(seq![s]),
        Some(st) => match index_of(s.skip(st as int), ']') {
            None => Err("missing closing ']' in '"@ + s + "'"@),
            Some(e0) => {
                let e = st + e0;
                let inside = s.subrange(st as int + 1, e as int);
                if inside.len() == 0 {
                    Err("empty bracket expression in '"@ + s + "'"@)
                } else {
                    expand_parts(
                        s.take(st as int),
                        split_on(inside, ','),
                        s.skip(e as int + 1),
                        count_open(s),
                    )
                }
            },
        },
    }
}

/// The expansions of `prefix + v + suffix` for every value `v` of every
/// element in `parts`, in order; the first error met is the result.
pub open spec fn expand_parts(
    prefix: Seq<char>,
    parts: Seq<Seq<char>>,
    suffix: Seq<char>,
    bound: nat,
) -> Result<Seq<Seq<char>>, Seq<char>>
    decreases bound, 1nat, parts.len(),
{
    if parts.len() == 0 {
        Ok(Seq::empty())
    } else {
        match expand_part_spec(parts[0]) {
            Err(m) => Err(m),
            Ok(vals) => match expand_vals(prefix, vals, suffix, bound) {
                Err(m) => Err(m),
                Ok(r1) => prepend_ok(r1, expand_parts(prefix, parts.drop_first(), suffix, bound)),
            },
        }
    }
}

/// The expansions of `prefix + v + suffix` for the values `v` in order.
/// (`bound` exceeds the number of `[` in every such string.)
pub open spec fn expand_vals(
    prefix: Seq<char>,
    vals: Seq<Seq<char>>,
    suffix: Seq<char>,
    bound: nat,
) -> Result<Seq<Seq<char>>, Seq<char>>
    decreases bound, 0nat, vals.len(),
{
    if vals.len() == 0 {
        Ok(Seq::empty())
    } else {
        let t = prefix + vals[0] + suffix;
        if count_open(t) < bound {
            match expand_item_spec(t) {
                Err(m) => Err(m),
                Ok(r1) => prepend_ok(r1, expand_vals(prefix, vals.drop_first(), suffix, bound)),
            }
        } else {
            Err(Seq::empty())
        }
    }
}

pub proof fn lemma_count_open_add(a: Seq<char>, b: Seq<char>)
    ensures
        count_open(a + b) == count_open(a) + count_open(b),
    decreases b.len(),
{
    if b.len() > 0 {
        assert((a + b).drop_last() =~= a + b.drop_last());
        lemma_count_open_add(a, b.drop_last());
    } else {
        assert(a + b =~= a);
    }
}

pub proof fn lemma_count_open_none(s: Seq<char>)
    requires
        forall|j: int| 0 <= j < s.len() ==> s[j] != '[',
    ensures
        count_open(s) == 0,
    decreases s.len(),
{
    if s.len() > 0 {
        lemma_count_open_none(s.drop_last());
    }
}

pub proof fn lemma_dec_digits_digits(n: nat)
    ensures
        all_digits(dec_digits(n)),
    decreases n,
{
    if n >= 10 {
        lemma_dec_digits_digits(n / 10);
    }
}

pub proof fn lemma_expand_part_digits(part: Seq<char>)
    requires
        expand_part_spec(part) is Ok,
    ensures
        forall|k: int|
            0 <= k < expand_part_spec(part)->Ok_0.len() ==> all_digits(
                #[trigger] expand_part_spec(part)->Ok_0[k],
            ),
{
    let vals = expand_part_spec(part)->Ok_0;
    assert forall|k: int| 0 <= k < vals.len() implies all_digits(#[trigger] vals[k]) by {
        if index_of(part, '-') is Some {
            let d = index_of(part, '-')->Some_0;
            let a = part.take(d as int);
            let x = parse_unsigned(a, usize::MAX as nat)->Some_0;
            lemma_dec_digits_digits((x + k) as nat);
            let dd = dec_digits((x + k) as nat);
            assert(all_digits(zero_pad(dd, a.len())));
        }
    }
}

/// Expand one item that may contain several bracket groups.
pub fn expand_item(s: &[char]) -> (r: Result<Vec<Vec<char>>, NodeListParseError>)
    ensures
        match expand_item_spec(s@) {
            Ok(v) => r matches Ok(x) && vviews(x@) == v,
            Err(m) => r matches Err(e) && e.msg@ == m,
        },
    decreases count_open(s@),
{
    let st = match find_char(s, '[') {
        None => {
            let mut out: Vec<Vec<char>> = Vec::new();
            out.push(slice_chars(s, 0, s.len()));
            assert(s@.subrange(0, s@.len() as int) =~= s@);
            assert(vviews(out@) =~= seq![s@]);
            return Ok(out);
        },
        Some(st) => st,
    };
    assert(st < s.len());
    let rest = slice_chars(s, st, s.len());
    assert(rest@ =~= s@.skip(st as int));
    let e0 = match find_char(rest.as_slice(), ']') {
        None => {
            return Err(error_around("missing closing ']' in '", s, "'"));
        },
        Some(e0) => e0,
    };
    assert(e0 < rest.len());
    assert(rest@[0] == '[');
    let e = st + e0;
    let prefix = slice_chars(s, 0, st);
    let inside = slice_chars(s, st + 1, e);
    let suffix = slice_chars(s, e + 1, s.len());
    if inside.len() == 0 {
        return Err(error_around("empty bracket expression in '", s, "'"));
    }
    let ghost bound = count_open(s@);
    proof {
        lemma_index_of(s@, '[');
        lemma_count_open_none(prefix@);
        assert(s@ =~= prefix@ + s@.subrange(st as int, e + 1) + suffix@);
        lemma_count_open_add(prefix@ + s@.subrange(st as int, e + 1), suffix@);
        lemma_count_open_add(prefix@, s@.subrange(st as int, e + 1));
        let mid = s@.subrange(st as int, e + 1);
        assert(mid =~= seq!['['] + mid.drop_first());
        lemma_count_open_add(seq!['['], mid.drop_first());
        assert(seq!['['].drop_last() =~= Seq::<char>::empty());
        assert(count_open(Seq::<char>::empty()) == 0);
        assert(count_open(seq!['[']) == count_open(seq!['['].drop_last()) + 1);
        assert(count_open(suffix@) < bound);
    }
    let parts = split_chars(inside.as_slice(), ',');
    let ghost pv = parts@.map_values(|x: Vec<char>| x@);
    let mut results: Vec<Vec<char>> = Vec::new();
    let mut pi: usize = 0;
    assert(pv.skip(0) =~= pv);
    assert(s@.take(st as int) =~= prefix@);
    assert(s@.subrange(st + 1, e as int) =~= inside@);
    assert(s@.skip(e + 1) =~= suffix@);
    assert(expand_item_spec(s@) == expand_parts(prefix@, pv, suffix@, bound));
    assert(vviews(results@) =~= Seq::<Seq<char>>::empty());
    assert(expand_parts(prefix@, pv, suffix@, bound) == prepend_ok(
        vviews(results@),
        expand_parts(prefix@, pv.skip(0), suffix@, bound),
    )) by {
        match expand_parts(prefix@, pv, suffix@, bound) {
            Ok(x) => {
                assert(Seq::<Seq<char>>::empty() + x =~= x);
            },
            Err(_) => {},
        }
    }
    while pi < parts.len()
        invariant
            pi <= parts.len(),
            pv == parts@.map_values(|x: Vec<char>| x@),
            count_open(prefix@) == 0,
            count_open(suffix@) < bound,
            bound == count_open(s@),
            expand_item_spec(s@) == expand_parts(prefix@, pv, suffix@, bound),
            expand_parts(prefix@, pv, suffix@, bound) == prepend_ok(
                vviews(results@),
                expand_parts(prefix@, pv.skip(pi as int), suffix@, bound),
            ),
        decreases parts.len() - pi,
    {
        let ghost rest_parts = pv.skip(pi as int);
        assert(rest_parts[0] == parts@[pi as int]@);
        assert(rest_parts.drop_first() =~= pv.skip(pi + 1));
        let vals = match expand_part(parts[pi].as_slice()) {
            Ok(v) => v,
            Err(err) => {
                return Err(err);
            },
        };
        let ghost vv = vviews(vals@);
        proof {
            lemma_expand_part_digits(parts@[pi as int]@);
        }
        let ghost acc_before = vviews(results@);
        assert(expand_part_spec(pv.skip(pi as int)[0]) == Ok::<Seq<Seq<char>>, Seq<char>>(vv));
        let mut vi: usize = 0;
        assert(vv.skip(0) =~= vv);
        assert(expand_vals(prefix@, vv, suffix@, bound) == prepend_ok(
            vviews(results@).subrange(acc_before.len() as int, acc_before.len() as int),
            expand_vals(prefix@, vv.skip(0), suffix@, bound),
        )) by {
            match expand_vals(prefix@, vv, suffix@, bound) {
                Ok(x) => {
                    assert(Seq::<Seq<char>>::empty() + x =~= x);
                },
                Err(_) => {},
            }
        }
        while vi < vals.len()
            invariant
                vi <= vals.len(),
                vv == vviews(vals@),
                forall|k: int| 0 <= k < vv.len() ==> all_digits(#[trigger] vv[k]),
                count_open(prefix@) == 0,
                count_open(suffix@) < bound,
                bound == count_open(s@),
                acc_before.len() <= results@.len(),
                expand_item_spec(s@) == prepend_ok(
                    acc_before,
                    expand_parts(prefix@, pv.skip(pi as int), suffix@, bound),
                ),
                pi < pv.len(),
                expand_part_spec(pv.skip(pi as int)[0]) == Ok::<Seq<Seq<char>>, Seq<char>>(vv),
                pv.skip(pi as int).drop_first() =~= pv.skip(pi + 1),
                vviews(results@).take(acc_before.len() as int) == acc_before,
                expand_vals(prefix@, vv, suffix@, bound) == prepend_ok(
                    vviews(results@).subrange(acc_before.len() as int, results@.len() as int),
                    expand_vals(prefix@, vv.skip(vi as int), suffix@, bound),
                ),
            decreases vals.len() - vi,
        {
            let mut t: Vec<char> = Vec::new();
            extend_chars(&mut t, prefix.as_slice());
            extend_chars(&mut t, vals[vi].as_slice());
            extend_chars(&mut t, suffix.as_slice());
            let ghost rest_vals = vv.skip(vi as int);
            assert(rest_vals[0] == vv[vi as int]);
            assert(rest_vals.drop_first() =~= vv.skip(vi + 1));
            proof {
                assert(all_digits(vv[vi as int]));
                lemma_count_open_none(vv[vi as int]);
                lemma_count_open_add(prefix@ + vv[vi as int], suffix@);
                lemma_count_open_add(prefix@, vv[vi as int]);
                assert(t@ == prefix@ + rest_vals[0] + suffix@);
            }
            let sub = match expand_item(t.as_slice()) {
                Ok(x) => x,
                Err(err) => {
                    return Err(err);
                },
            };
            let ghost before = vviews(results@);
            let mut k: usize = 0;
            while k < sub.len()
                invariant
                    k <= sub.len(),
                    vviews(results@) =~= before + vviews(sub@).take(k as int),
                decreases sub.len() - k,
            {
                let ghost prev = vviews(results@);
                let item = copy_chars(&sub[k]);
                results.push(item);
                assert(vviews(results@) =~= prev.push(item@));
                assert(vviews(sub@).take(k + 1) =~= vviews(sub@).take(k as int).push(sub@[k as int]@));
                k = k + 1;
            }
            proof {
                assert(vviews(sub@).take(k as int) =~= vviews(sub@));
                assert(vviews(results@).take(acc_before.len() as int) =~= acc_before) by {
                    assert(before.take(acc_before.len() as int) == acc_before);
                }
                assert(vviews(results@).subrange(acc_before.len() as int, results@.len() as int)
                    =~= before.subrange(acc_before.len() as int, before.len() as int) + vviews(
                    sub@,
                ));
                match expand_vals(prefix@, vv.skip(vi + 1), suffix@, bound) {
                    Ok(x) => {
                        assert(before.subrange(acc_before.len() as int, before.len() as int)
                            + vviews(sub@) + x =~= before.subrange(
                            acc_before.len() as int,
                            before.len() as int,
                        ) + (vviews(sub@) + x));
                    },
                    Err(_) => {},
                }
            }
            vi = vi + 1;
        }
        proof {
            assert(vv.skip(vi as int) =~= Seq::<Seq<char>>::empty());
            let added = vviews(results@).subrange(acc_before.len() as int, results@.len() as int);
            assert(vviews(results@) =~= acc_before + added);
            assert(expand_vals(prefix@, vv, suffix@, bound) == Ok::<Seq<Seq<char>>, Seq<char>>(
                added,
            )) by {
                assert(added + Seq::<Seq<char>>::empty() =~= added);
            }
            match expand_parts(prefix@, pv.skip(pi + 1), suffix@, bound) {
                Ok(x) => {
                    assert(acc_before + (added + x) =~= acc_before + added + x);
                },
                Err(_) => {},
            }
        }
        pi = pi + 1;
    }
    proof {
        assert(pv.skip(pi as int) =~= Seq::<Seq<char>>::empty());
        assert(vviews(results@) + Seq::<Seq<char>>::empty() =~= vviews(results@));
    }
    Ok(results)
}

/// A copy of a character vector.
pub fn copy_chars(v: &Vec<char>) -> (r: Vec<char>)
    ensures
        r@ == v@,
{
    slice_chars(v.as_slice(), 0, v.len())
}


// ---------------------------------------------------------------------------
// Whole node lists
// ---------------------------------------------------------------------------

/// The expression a node list is read from: its first whitespace-separated
/// word (or the whole input when it has none).
pub open spec fn nodelist_main(input: Seq<char>) -> Seq<char> {
    let w = words(input);
    if w.len() > 0 {
        w[0]
    } else {
        input
    }
}

/// Every word is non-empty and holds no whitespace; a sequence that ends in
/// a non-whitespace character has a word.
proof fn lemma_words_shape(s: Seq<char>)
    ensures
        forall|i: int|
            0 <= i < words(s).len() ==> (#[trigger] words(s)[i]).len() > 0 && forall|k: int|
                0 <= k < words(s)[i].len() ==> !is_ws(#[trigger] words(s)[i][k]),
        s.len() > 0 && !is_ws(s.last()) ==> words(s).len() > 0,
    decreases s.len(),
{
    if s.len() > 0 {
        let t = s.drop_last();
        lemma_words_shape(t);
        let r = words(t);
        if !is_ws(s.last()) && s.len() >= 2 && !is_ws(s[s.len() - 2]) {
            assert(t.last() == s[s.len() - 2]);
            assert(r.len() > 0);
            let w = r.last().push(s.last());
            assert forall|i: int| 0 <= i < words(s).len() implies (#[trigger] words(s)[i]).len() > 0 && forall|k: int|
                0 <= k < words(s)[i].len() ==> !is_ws(#[trigger] words(s)[i][k]) by {
                if i < r.len() - 1 {
                    assert(words(s)[i] == r[i]);
                } else {
                    assert(words(s)[i] == w);
                    assert forall|k: int| 0 <= k < w.len() implies !is_ws(#[trigger] w[k]) by {
                        if k < r.last().len() {
                            assert(w[k] == r[r.len() - 1][k]);
                        }
                    }
                }
            }
        } else if !is_ws(s.last()) {
            assert forall|i: int| 0 <= i < words(s).len() implies (#[trigger] words(s)[i]).len() > 0 && forall|k: int|
                0 <= k < words(s)[i].len() ==> !is_ws(#[trigger] words(s)[i][k]) by {
                if i < r.len() {
                    assert(words(s)[i] == r[i]);
                } else {
                    assert(words(s)[i] == seq![s.last()]);
                }
            }
        }
    }
}

/// A non-empty sequence with no whitespace is its own single word.
proof fn lemma_words_single(w: Seq<char>)
    requires
        w.len() > 0,
        forall|k: int| 0 <= k < w.len() ==> !is_ws(#[trigger] w[k]),
    ensures
        words(w) == seq![w],
    decreases w.len(),
{
    if w.len() == 1 {
        assert(w.drop_last() =~= Seq::<char>::empty());
        assert(words(w.drop_last()) =~= Seq::<Seq<char>>::empty());
        assert(seq![w.last()] =~= w);
    } else {
        let t = w.drop_last();
        lemma_words_single(t);
        assert(!is_ws(w[w.len() - 2]));
        assert(!is_ws(w.last()));
        assert(t.push(w.last()) =~= w);
    }
}

/// Only the first whitespace-separated word of a node list counts:
/// expanding the input is expanding that word.
pub proof fn lemma_first_word_only(input: Seq<char>)
    ensures
        expand_nodelist_spec(input) == expand_nodelist_spec(nodelist_main(input)),
{
    lemma_words_shape(input);
    if words(input).len() > 0 {
        let w = words(input)[0];
        lemma_words_single(w);
        assert(nodelist_main(w) == w);
    }
}

/// A bracket-scan state: finished items, current item, depth, failure.
pub type ScanState = (Seq<Seq<char>>, Seq<char>, nat, bool);

/// One step of the bracket scan on character `c`.
pub open spec fn scan_step(st: ScanState, c: char) -> ScanState {
    let (items, cur, depth, failed) = st;
    if failed {
        (items, cur, depth, true)
    } else if c == '[' {
        (items, cur.push(c), depth + 1, false)
    } else if c == ']' {
        if depth == 0 {
            (items, cur, depth, true)
        } else {
            (items, cur.push(c), (depth - 1) as nat, false)
        }
    } else if c == ',' && depth == 0 {
        if cur.len() > 0 {
            (items.push(cur), Seq::empty(), depth, false)
        } else {
            (items, cur, depth, false)
        }
    } else {
        (items, cur.push(c), depth, false)
    }
}

/// The bracket scan of `s` started from state `st`.
pub open spec fn scan_from(st: ScanState, s: Seq<char>) -> ScanState
    decreases s.len(),
{
    if s.len() == 0 {
        st
    } else {
        scan_step(scan_from(st, s.drop_last()), s.last())
    }
}

proof fn lemma_scan_init(s: Seq<char>)
    ensures
        bracket_scan(s) == scan_from((Seq::empty(), Seq::empty(), 0, false), s),
    decreases s.len(),
{
    if s.len() > 0 {
        lemma_scan_init(s.drop_last());
    }
}

proof fn lemma_scan_concat(st: ScanState, p: Seq<char>, q: Seq<char>)
    ensures
        scan_from(st, p + q) == scan_from(scan_from(st, p), q),
    decreases q.len(),
{
    if q.len() == 0 {
        assert(p + q =~= p);
    } else {
        lemma_scan_concat(st, p, q.drop_last());
        assert((p + q).drop_last() =~= p + q.drop_last());
        assert((p + q).last() == q.last());
    }
}

/// Items finished before a scan stay in front of those it finishes.
proof fn lemma_scan_prefix(l: Seq<Seq<char>>, st: ScanState, s: Seq<char>)
    ensures
        scan_from((l + st.0, st.1, st.2, st.3), s) == (
            l + scan_from(st, s).0,
            scan_from(st, s).1,
            scan_from(st, s).2,
            scan_from(st, s).3,
        ),
    decreases s.len(),
{
    if s.len() > 0 {
        lemma_scan_prefix(l, st, s.drop_last());
        let r = scan_from(st, s.drop_last());
        assert((l + r.0).push(r.1) =~= l + r.0.push(r.1));
    }
}

/// Splitting `a,b` gives the items of `a` then those of `b`.
proof fn lemma_split_comma(a: Seq<char>, b: Seq<char>)
    requires
        split_brackets(a) is Ok,
        split_brackets(b) is Ok,
    ensures
        split_brackets(a + seq![','] + b) == Ok::<Seq<Seq<char>>, Seq<char>>(
            split_brackets(a)->Ok_0 + split_brackets(b)->Ok_0,
        ),
{
    let init: ScanState = (Seq::empty(), Seq::empty(), 0, false);
    lemma_scan_init(a);
    lemma_scan_init(b);
    lemma_scan_init(a + seq![','] + b);
    lemma_scan_concat(init, a + seq![','], b);
    lemma_scan_concat(init, a, seq![',']);
    let sa = scan_from(init, a);
    assert(seq![','].drop_last() =~= Seq::<char>::empty());
    assert(scan_from(sa, Seq::<char>::empty()) == sa);
    assert(scan_from(sa, seq![','].drop_last()) == sa);
    assert(seq![','].last() == ',');
    assert(scan_from(sa, seq![',']) == scan_step(sa, ','));
    let la = split_brackets(a)->Ok_0;
    assert(scan_step(sa, ',') == (la, Seq::<char>::empty(), 0nat, false));
    lemma_scan_prefix(la, init, b);
    assert(la + Seq::<Seq<char>>::empty() =~= la);
    let sb = scan_from(init, b);
    if sb.1.len() > 0 {
        assert((la + sb.0).push(sb.1) =~= la + sb.0.push(sb.1));
    }
}

/// Expanding two item lists one after the other.
proof fn lemma_expand_items_concat(xs: Seq<Seq<char>>, ys: Seq<Seq<char>>)
    requires
        expand_items(xs) is Ok,
        expand_items(ys) is Ok,
    ensures
        expand_items(xs + ys) == Ok::<Seq<Seq<char>>, Seq<char>>(expand_items(xs)->Ok_0 + expand_items(ys)->Ok_0),
    decreases xs.len(),
{
    if xs.len() == 0 {
        assert(xs + ys =~= ys);
        assert(Seq::<Seq<char>>::empty() + expand_items(ys)->Ok_0 =~= expand_items(ys)->Ok_0);
    } else {
        lemma_expand_items_concat(xs.drop_first(), ys);
        assert((xs + ys).drop_first() =~= xs.drop_first() + ys);
        assert((xs + ys)[0] == xs[0]);
        let r = expand_item_spec(xs[0])->Ok_0;
        let t = expand_items(xs.drop_first())->Ok_0;
        assert(r + (t + expand_items(ys)->Ok_0) =~= (r + t) + expand_items(ys)->Ok_0);
    }
}

/// Two item lists expand one after the other exactly when each does.
proof fn lemma_expand_items_concat_ok(xs: Seq<Seq<char>>, ys: Seq<Seq<char>>)
    ensures
        expand_items(xs + ys) is Ok <==> (expand_items(xs) is Ok && expand_items(ys) is Ok),
    decreases xs.len(),
{
    if xs.len() == 0 {
        assert(xs + ys =~= ys);
    } else {
        lemma_expand_items_concat_ok(xs.drop_first(), ys);
        assert((xs + ys).drop_first() =~= xs.drop_first() + ys);
        assert((xs + ys)[0] == xs[0]);
    }
}

/// Expansion distributes over a comma: for two single words whose brackets
/// balance, `a,b` expands exactly when both do, to the names of `a` followed
/// by those of `b`.
pub proof fn lemma_expand_comma(a: Seq<char>, b: Seq<char>)
    requires
        a.len() > 0,
        b.len() > 0,
        forall|k: int| 0 <= k < a.len() ==> !is_ws(#[trigger] a[k]),
        forall|k: int| 0 <= k < b.len() ==> !is_ws(#[trigger] b[k]),
        split_brackets(a) is Ok,
        split_brackets(b) is Ok,
    ensures
        expand_nodelist_spec(a + seq![','] + b) is Ok <==> (expand_nodelist_spec(a) is Ok && expand_nodelist_spec(b) is Ok),
        expand_nodelist_spec(a) is Ok && expand_nodelist_spec(b) is Ok ==> expand_nodelist_spec(a + seq![','] + b)
            == Ok::<Seq<Seq<char>>, Seq<char>>(expand_nodelist_spec(a)->Ok_0 + expand_nodelist_spec(b)->Ok_0),
{
    let ab = a + seq![','] + b;
    lemma_words_single(a);
    lemma_words_single(b);
    assert forall|k: int| 0 <= k < ab.len() implies !is_ws(#[trigger] ab[k]) by {
        if k < a.len() {
            assert(ab[k] == a[k]);
        } else if k == a.len() {
            assert(ab[k] == ',');
        } else {
            assert(ab[k] == b[k - a.len() - 1]);
        }
    }
    lemma_words_single(ab);
    assert(nodelist_main(a) == a);
    assert(nodelist_main(b) == b);
    assert(nodelist_main(ab) == ab);
    lemma_split_comma(a, b);
    lemma_expand_items_concat_ok(split_brackets(a)->Ok_0, split_brackets(b)->Ok_0);
    if expand_nodelist_spec(a) is Ok && expand_nodelist_spec(b) is Ok {
        lemma_expand_items_concat(split_brackets(a)->Ok_0, split_brackets(b)->Ok_0);
    }
}

/// The expansions of the items in order; the first error is the result.
pub open spec fn expand_items(items: Seq<Seq<char>>) -> Result<Seq<Seq<char>>, Seq<char>>
    decreases items.len(),
{
    if items.len() == 0 {
        Ok(Seq::empty())
    } else {
        match expand_item_spec(items[0]) {
            Err(m) => Err(m),
            Ok(r) => prepend_ok(r, expand_items(items.drop_first())),
        }
    }
}

/// The host names a SLURM node-list expression denotes, or the message of
/// its first error.
pub open spec fn expand_nodelist_spec(input: Seq<char>) -> Result<Seq<Seq<char>>, Seq<char>> {
    match split_brackets(nodelist_main(input)) {
        Err(m) => Err(m),
        Ok(items) => expand_items(items),
    }
}

/// Expand a SLURM-style node list expression into host names.
pub fn expand_nodelist(input: &str) -> (r: Result<Vec<String>, NodeListParseError>)
    ensures
        match expand_nodelist_spec(input@) {
            Ok(names) => r matches Ok(v) && views(v@) == names,
            Err(m) => r matches Err(e) && e.msg@ == m,
        },
{
    let chars = chars_of(input);
    let r = expand_nodelist_chars(chars.as_slice());
    match r {
        Ok(v) => {
            let mut out: Vec<String> = Vec::new();
            let mut i: usize = 0;
            while i < v.len()
                invariant
                    i <= v.len(),
                    views(out@) =~= vviews(v@).take(i as int),
                decreases v.len() - i,
            {
                let ghost prev = views(out@);
                let s = string_of(v[i].as_slice());
                out.push(s);
                assert(views(out@) =~= prev.push(s@));
                i = i + 1;
            }
            assert(vviews(v@).take(i as int) =~= vviews(v@));
            Ok(out)
        },
        Err(e) => Err(e),
    }
}

/// `expand_nodelist` on characters.
pub fn expand_nodelist_chars(input: &[char]) -> (r: Result<Vec<Vec<char>>, NodeListParseError>)
    ensures
        match expand_nodelist_spec(input@) {
            Ok(names) => r matches Ok(v) && vviews(v@) == names,
            Err(m) => r matches Err(e) && e.msg@ == m,
        },
{
    let ws = split_whitespace(input);
    let main = if ws.len() > 0 {
        copy_chars(&ws[0])
    } else {
        slice_chars(input, 0, input.len())
    };
    assert(input@.subrange(0, input@.len() as int) =~= input@);
    assert(main@ == nodelist_main(input@));
    let items = match split_preserving_brackets(main.as_slice()) {
        Ok(items) => items,
        Err(e) => {
            return Err(e);
        },
    };
    let ghost iv = vviews(items@);
    let mut result: Vec<Vec<char>> = Vec::new();
    let mut i: usize = 0;
    assert(iv.skip(0) =~= iv);
    assert(expand_items(iv) == prepend_ok(vviews(result@), expand_items(iv.skip(0)))) by {
        match expand_items(iv) {
            Ok(x) => {
                assert(vviews(result@) + x =~= x);
            },
            Err(_) => {},
        }
    }
    while i < items.len()
        invariant
            i <= items.len(),
            iv == vviews(items@),
            expand_nodelist_spec(input@) == expand_items(iv),
            expand_items(iv) == prepend_ok(vviews(result@), expand_items(iv.skip(i as int))),
        decreases items.len() - i,
    {
        assert(iv.skip(i as int)[0] == items@[i as int]@);
        assert(iv.skip(i as int).drop_first() =~= iv.skip(i + 1));
        let sub = match expand_item(items[i].as_slice()) {
            Ok(x) => x,
            Err(e) => {
                return Err(e);
            },
        };
        let ghost before = vviews(result@);
        let mut k: usize = 0;
        while k < sub.len()
            invariant
                k <= sub.len(),
                vviews(result@) =~= before + vviews(sub@).take(k as int),
            decreases sub.len() - k,
        {
            let ghost prev = vviews(result@);
            let item = copy_chars(&sub[k]);
            result.push(item);
            assert(vviews(result@) =~= prev.push(item@));
            assert(vviews(sub@).take(k + 1) =~= vviews(sub@).take(k as int).push(sub@[k as int]@));
            k = k + 1;
        }
        proof {
            assert(vviews(sub@).take(k as int) =~= vviews(sub@));
            match expand_items(iv.skip(i + 1)) {
                Ok(x) => {
                    assert(before + (vviews(sub@) + x) =~= before + vviews(sub@) + x);
                },
                Err(_) => {},
            }
        }
        i = i + 1;
    }
    assert(iv.skip(i as int) =~= Seq::<Seq<char>>::empty());
    assert(vviews(result@) + Seq::<Seq<char>>::empty() =~= vviews(result@));
    Ok(result)
}

// ---------------------------------------------------------------------------
// key=value lines
// ---------------------------------------------------------------------------

/// The `key=value` fields of a list of words: each word holding a `=` sets
/// the text before its first `=` to the text after it; later words win.
pub open spec fn fields_of(ws: Seq<Seq<char>>) -> Map<Seq<char>, Seq<char>>
    decreases ws.len(),
{
    if ws.len() == 0 {
        Map::empty()
    } else {
        let m = fields_of(ws.drop_last());
        let w = ws.last();
        match index_of(w, '=') {
            Some(p) => m.insert(w.take(p as int), w.skip(p as int + 1)),
            None => m,
        }
    }
}

/// Parse a line of whitespace-separated `key=value` fields.
pub fn parse_line_chars(line: &[char]) -> (m: StrMap)
    ensures
        m@ == fields_of(words(line@)),
{
    let ws = split_whitespace(line);
    let ghost wv = ws@.map_values(|x: Vec<char>| x@);
    let mut m = StrMap::new();
    let mut i: usize = 0;
    assert(wv.take(0) =~= Seq::<Seq<char>>::empty());
    while i < ws.len()
        invariant
            i <= ws.len(),
            wv == ws@.map_values(|x: Vec<char>| x@),
            m@ == fields_of(wv.take(i as int)),
        decreases ws.len() - i,
    {
        let part = &ws[i];
        assert(wv.take(i + 1).drop_last() =~= wv.take(i as int));
        assert(wv.take(i + 1).last() == part@);
        match find_char(part.as_slice(), '=') {
            Some(pos) => {
                assert(pos < part.len());
                let key = string_of(slice_chars(part.as_slice(), 0, pos).as_slice());
                let val = string_of(slice_chars(part.as_slice(), pos + 1, part.len()).as_slice());
                assert(key@ =~= part@.take(pos as int));
                assert(val@ =~= part@.skip(pos as int + 1));
                m.insert(key, val);
            },
            None => {},
        }
        i = i + 1;
    }
    assert(wv.take(i as int) =~= wv);
    m
}

/// Parse line into key-value map.
pub fn parse_line(line: &str) -> (m: StrMap)
    ensures
        m@ == fields_of(words(line@)),
{
    let chars = chars_of(line);
    parse_line_chars(chars.as_slice())
}

} // verus!
