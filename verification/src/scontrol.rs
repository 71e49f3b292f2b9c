//! Text of `scontrol show topology`: joining continuation lines, and the
//! byte-level tail cutting used when switch names are taken apart.
use vstd::prelude::*;
use vstd::string::*;
use crate::sinfo::{byte_len, utf8_len, utf8_len_of};
use crate::text::{chars_of, extend_chars, lines, lines_of, starts_with, string_of, trim, trim_chars, views};

verus! {

/// Whether `s` starts with `p`.
pub open spec fn has_prefix(s: Seq<char>, p: Seq<char>) -> bool {
    p.len() <= s.len() && s.take(p.len() as int) == p
}

/// Continuation state: the finished lines and the line being built.
pub open spec fn merge_acc(ts: Seq<Seq<char>>) -> (Seq<Seq<char>>, Seq<char>)
    decreases ts.len(),
{
    if ts.len() == 0 {
        (Seq::empty(), Seq::empty())
    } else {
        let (ls, cur) = merge_acc(ts.drop_last());
        let t = ts.last();
        if has_prefix(t, "SwitchName="@) {
            (if cur.len() > 0 {
                ls.push(cur)
            } else {
                ls
            }, t)
        } else {
            (ls, cur + " "@ + t)
        }
    }
}

/// The non-empty trimmed lines of `raw`.
pub open spec fn trimmed_lines(raw: Seq<char>) -> Seq<Seq<char>> {
    lines_of(raw).map_values(|l: Seq<char>| trim(l)).filter(|t: Seq<char>| t.len() > 0)
}

/// The records of `scontrol show topology` text: each line that starts
/// with `SwitchName=` begins a record, and the other non-empty lines are
/// appended to the record before them, after a space.
pub open spec fn merged_lines(raw: Seq<char>) -> Seq<Seq<char>> {
    let (ls, cur) = merge_acc(trimmed_lines(raw));
    if cur.len() > 0 {
        ls.push(cur)
    } else {
        ls
    }
}

/// Join continuation lines into one record per switch.
pub fn merge_continuation_lines(raw: &str) -> (r: Vec<String>)
    ensures
        views(r@) == merged_lines(raw@),
{
    let rc = chars_of(raw);
    let all = lines(rc.as_slice());
    let ghost av = all@.map_values(|x: Vec<char>| x@);
    let ghost tv = av.map_values(|l: Seq<char>| trim(l));
    let ghost pred = |t: Seq<char>| t.len() > 0;
    let mut ls: Vec<String> = Vec::new();
    let mut cur: Vec<char> = Vec::new();
    let ghost mut ts: Seq<Seq<char>> = Seq::empty();
    let sw = chars_of("SwitchName=");
    let mut i: usize = 0;
    while i < all.len()
        invariant
            i <= all@.len(),
            av == all@.map_values(|x: Vec<char>| x@),
            av == lines_of(raw@),
            tv == av.map_values(|l: Seq<char>| trim(l)),
            pred == (|t: Seq<char>| t.len() > 0),
            sw@ == "SwitchName="@,
            ts == tv.take(i as int).filter(pred),
            (views(ls@), cur@) == merge_acc(ts),
        decreases all.len() - i,
    {
        let t = trim_chars(all[i].as_slice());
        proof {
            reveal(Seq::filter);
            assert(tv.take(i + 1).drop_last() =~= tv.take(i as int));
            assert(av[i as int] == all@[i as int]@);
            assert(tv.take(i + 1).last() == t@);
        }
        if t.len() > 0 {
            let ghost nts = ts.push(t@);
            assert(nts.drop_last() =~= ts);
            if starts_with(t.as_slice(), sw.as_slice()) {
                if cur.len() > 0 {
                    let ghost prev = views(ls@);
                    ls.push(string_of(cur.as_slice()));
                    assert(views(ls@) =~= prev.push(cur@));
                }
                cur = t;
            } else {
                cur.push(' ');
                extend_chars(&mut cur, t.as_slice());
                assert(cur@ =~= merge_acc(ts).1 + " "@ + t@) by {
                    reveal_strlit(" ");
                }
            }
            proof {
                ts = nts;
            }
        }
        i = i + 1;
    }
    assert(tv.take(i as int) =~= tv);
    if cur.len() > 0 {
        let ghost prev = views(ls@);
        ls.push(string_of(cur.as_slice()));
        assert(views(ls@) =~= prev.push(cur@));
    }
    ls
}

/// `s` has fewer than two bytes.
pub open spec fn short1(d: Seq<char>) -> bool {
    d.len() == 0 || (d.len() == 1 && utf8_len(d[0]) == 1)
}

/// `s` has at most two bytes.
pub open spec fn short2(d: Seq<char>) -> bool {
    ||| short1(d)
    ||| (d.len() == 1 && utf8_len(d[0]) == 2)
    ||| (d.len() == 2 && utf8_len(d[0]) == 1 && utf8_len(d[1]) == 1)
}

/// The character index where the last two bytes of `d` begin, when that
/// index is a character boundary.
pub open spec fn cut2(d: Seq<char>) -> Option<int> {
    if d.len() >= 2 && utf8_len(d.last()) == 1 && utf8_len(d[d.len() - 2]) == 1 {
        Some(d.len() - 2)
    } else if d.len() >= 1 && utf8_len(d.last()) == 2 {
        Some(d.len() - 1)
    } else {
        None
    }
}

/// Cutting off the last two bytes of `d` is possible (or `d` is shorter).
pub open spec fn tail_ok(d: Seq<char>) -> bool {
    short1(d) || cut2(d) is Some
}

proof fn lemma_byte_len_ge(s: Seq<char>)
    ensures
        byte_len(s) >= s.len(),
    decreases s.len(),
{
    if s.len() > 0 {
        lemma_byte_len_ge(s.drop_last());
    }
}

pub proof fn lemma_short(d: Seq<char>)
    ensures
        short1(d) <==> byte_len(d) < 2,
        short2(d) <==> byte_len(d) <= 2,
        cut2(d) matches Some(k) ==> byte_len(d.take(k)) + 2 == byte_len(d),
{
    if d.len() >= 1 {
        let a = d.drop_last();
        lemma_byte_len_ge(a);
        assert(d.take(d.len() - 1) =~= a);
        if d.len() == 1 {
            assert(a.len() == 0);
            assert(d.last() == d[0]);
        } else {
            let b = a.drop_last();
            lemma_byte_len_ge(b);
            assert(d.take(d.len() - 2) =~= b);
            assert(a.last() == d[d.len() - 2]);
            if d.len() == 2 {
                assert(b.len() == 0);
                assert(a[0] == d[0]);
                assert(d.last() == d[1]);
            }
        }
    }
}

/// Whether `d` has fewer than two bytes.
pub fn is_short1(d: &[char]) -> (b: bool)
    ensures
        b == short1(d@),
{
    d.len() == 0 || (d.len() == 1 && utf8_len_of(d[0]) == 1)
}

/// Whether `d` has at most two bytes.
pub fn is_short2(d: &[char]) -> (b: bool)
    ensures
        b == short2(d@),
{
    is_short1(d) || (d.len() == 1 && utf8_len_of(d[0]) == 2) || (d.len() == 2 && utf8_len_of(d[0]) == 1
        && utf8_len_of(d[1]) == 1)
}

/// Where the last two bytes of `d` begin.
pub fn cut_two(d: &[char]) -> (r: Option<usize>)
    ensures
        r matches Some(k) ==> cut2(d@) == Some(k as int),
        r is None ==> cut2(d@) is None,
{
    let n = d.len();
    if n >= 2 && utf8_len_of(d[n - 1]) == 1 && utf8_len_of(d[n - 2]) == 1 {
        Some(n - 2)
    } else if n >= 1 && utf8_len_of(d[n - 1]) == 2 {
        Some(n - 1)
    } else {
        None
    }
}

} // verus!
