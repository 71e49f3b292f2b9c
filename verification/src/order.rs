//! Lists of names: string order, sorting, de-duplication and joining.
use vstd::prelude::*;
use vstd::string::*;
use crate::text::{chars_of, chars_lt, extend_chars, seq_lt, string_of, views};

verus! {

broadcast use vstd::seq_lib::group_seq_properties;

pub proof fn lemma_lt_irrefl(a: Seq<char>)
    ensures
        !seq_lt(a, a),
    decreases a.len(),
{
    if a.len() > 0 {
        lemma_lt_irrefl(a.drop_first());
    }
}

pub proof fn lemma_lt_trans(a: Seq<char>, b: Seq<char>, c: Seq<char>)
    requires
        seq_lt(a, b),
        seq_lt(b, c),
    ensures
        seq_lt(a, c),
    decreases a.len(),
{
    if a.len() > 0 && b.len() > 0 && c.len() > 0 && a[0] == b[0] && b[0] == c[0] {
        lemma_lt_trans(a.drop_first(), b.drop_first(), c.drop_first());
    }
}

pub proof fn lemma_lt_total(a: Seq<char>, b: Seq<char>)
    ensures
        a == b || seq_lt(a, b) || seq_lt(b, a),
    decreases a.len(),
{
    if a.len() > 0 && b.len() > 0 && a[0] == b[0] {
        lemma_lt_total(a.drop_first(), b.drop_first());
        if a.drop_first() == b.drop_first() {
            assert(a =~= seq![a[0]] + a.drop_first());
            assert(b =~= seq![b[0]] + b.drop_first());
        }
    } else if a.len() == 0 && b.len() == 0 {
        assert(a =~= b);
    }
}

pub proof fn lemma_lt_asym(a: Seq<char>, b: Seq<char>)
    requires
        seq_lt(a, b),
    ensures
        !seq_lt(b, a),
{
    if seq_lt(b, a) {
        lemma_lt_trans(a, b, a);
        lemma_lt_irrefl(a);
    }
}

/// No element is smaller than one before it.
pub open spec fn sorted(s: Seq<Seq<char>>) -> bool {
    forall|i: int, j: int| 0 <= i < j < s.len() ==> !seq_lt(#[trigger] s[j], #[trigger] s[i])
}

/// Every element is smaller than the ones after it.
pub open spec fn strictly_sorted(s: Seq<Seq<char>>) -> bool {
    forall|i: int, j: int| 0 <= i < j < s.len() ==> seq_lt(#[trigger] s[i], #[trigger] s[j])
}

/// The names of `s` in string order, repeats kept (what a stable sort
/// gives).
pub open spec fn sorted_version(s: Seq<Seq<char>>) -> Seq<Seq<char>> {
    choose|l: Seq<Seq<char>>| sorted(l) && l.to_multiset() == s.to_multiset()
}

/// "Not after" in string order.
pub open spec fn not_after(a: Seq<char>, b: Seq<char>) -> bool {
    !seq_lt(b, a)
}

proof fn lemma_not_after_total()
    ensures
        vstd::relations::total_ordering(|a: Seq<char>, b: Seq<char>| not_after(a, b)),
{
    let leq = |a: Seq<char>, b: Seq<char>| not_after(a, b);
    assert forall|a: Seq<char>| #[trigger] leq(a, a) by {
        lemma_lt_irrefl(a);
    }
    assert forall|a: Seq<char>, b: Seq<char>| #[trigger] leq(a, b) && #[trigger] leq(b, a) implies a == b by {
        lemma_lt_total(a, b);
    }
    assert forall|a: Seq<char>, b: Seq<char>, c: Seq<char>| #[trigger] leq(a, b) && #[trigger] leq(b, c) implies leq(a, c) by {
        if seq_lt(c, a) {
            lemma_lt_total(a, b);
            if seq_lt(a, b) {
                lemma_lt_trans(c, a, b);
            }
        }
    }
    assert forall|a: Seq<char>, b: Seq<char>| #[trigger] leq(a, b) || #[trigger] leq(b, a) by {
        lemma_lt_total(a, b);
        if seq_lt(a, b) {
            lemma_lt_asym(a, b);
        }
    }
}

/// A sorted list with the names of `s`, repeats included, is the sorted
/// version of `s`.
pub proof fn lemma_sorted_version(l: Seq<Seq<char>>, s: Seq<Seq<char>>)
    requires
        sorted(l),
        l.to_multiset() == s.to_multiset(),
    ensures
        l == sorted_version(s),
{
    let m = sorted_version(s);
    assert(sorted(m) && m.to_multiset() == s.to_multiset());
    let leq = |a: Seq<char>, b: Seq<char>| not_after(a, b);
    lemma_not_after_total();
    assert(vstd::relations::sorted_by(l, leq));
    assert(vstd::relations::sorted_by(m, leq));
    vstd::seq_lib::lemma_sorted_unique(l, m, leq);
}

/// Sort names in string order (as `sort` on `String`s does).
pub fn sort_strings(v: &Vec<String>) -> (r: Vec<String>)
    ensures
        sorted(views(r@)),
        views(r@).to_multiset() == views(v@).to_multiset(),
        views(r@) == sorted_version(views(v@)),
{
    let mut r: Vec<String> = Vec::new();
    let mut i: usize = 0;
    while i < v.len()
        invariant
            i <= v@.len(),
            sorted(views(r@)),
            views(r@).to_multiset() == views(v@.take(i as int)).to_multiset(),
        decreases v.len() - i,
    {
        let x = v[i].clone();
        // First position whose element is greater than x.
        let mut p: usize = 0;
        while p < r.len() && !chars_lt(chars_of(x.as_str()).as_slice(), chars_of(r[p].as_str()).as_slice())
            invariant
                p <= r@.len(),
                forall|q: int| 0 <= q < p ==> !seq_lt(x@, #[trigger] r@[q]@),
            decreases r.len() - p,
        {
            p = p + 1;
        }
        let ghost old_r = views(r@);
        r.insert(p, x);
        proof {
            let nr = views(r@);
            assert(nr =~= old_r.insert(p as int, x@));
            assert forall|a: int, b: int| 0 <= a < b < nr.len() implies !seq_lt(
                #[trigger] nr[b],
                #[trigger] nr[a],
            ) by {
                if a < p && b == p {
                    lemma_lt_total(x@, old_r[a]);
                    if seq_lt(x@, old_r[a]) {
                        assert(r@[a]@ == old_r[a]);
                    }
                } else if a == p && b > p {
                    // old_r[b-1] is at or after position p: x < old_r[p] <= old_r[b-1]
                    assert(seq_lt(x@, old_r[p as int]));
                    if seq_lt(old_r[b - 1], x@) {
                        if b - 1 > p {
                            lemma_lt_trans(old_r[b - 1], x@, old_r[p as int]);
                        } else {
                            lemma_lt_asym(x@, old_r[p as int]);
                        }
                    }
                } else if a < p && b > p {
                    assert(nr[a] == old_r[a] && nr[b] == old_r[b - 1]);
                } else if b < p {
                    assert(nr[a] == old_r[a] && nr[b] == old_r[b]);
                } else {
                    assert(nr[a] == old_r[a - 1] && nr[b] == old_r[b - 1]);
                }
            }
            assert(v@.take(i + 1) =~= v@.take(i as int).push(v@[i as int]));
            assert(views(v@.take(i + 1)) =~= views(v@.take(i as int)).push(x@));
        }
        i = i + 1;
    }
    assert(v@.take(i as int) =~= v@);
    proof {
        lemma_sorted_version(views(r@), views(v@));
    }
    r
}

/// Sort names and drop repeats: the strictly increasing list of the names
/// that occur in `v` (`sort` then `dedup`).
pub fn sorted_unique(v: &Vec<String>) -> (r: Vec<String>)
    ensures
        strictly_sorted(views(r@)),
        views(r@).to_set() == views(v@).to_set(),
{
    let s = sort_strings(v);
    let ghost sv = views(s@);
    proof {
        assert forall|x: Seq<char>| sv.contains(x) <==> views(v@).contains(x) by {
            assert(sv.to_multiset().count(x) == views(v@).to_multiset().count(x));
        }
    }
    let mut r: Vec<String> = Vec::new();
    let mut i: usize = 0;
    while i < s.len()
        invariant
            i <= s@.len(),
            sv == views(s@),
            sorted(sv),
            strictly_sorted(views(r@)),
            forall|x: Seq<char>| views(r@).contains(x) <==> sv.take(i as int).contains(x),
            i > 0 ==> r@.len() > 0 && views(r@).last() == sv[i - 1],
        decreases s.len() - i,
    {
        let ghost old_r = views(r@);
        assert(sv.take(i + 1) =~= sv.take(i as int).push(sv[i as int]));
        if r.len() == 0 || !chars_eq_str(r[r.len() - 1].as_str(), s[i].as_str()) {
            r.push(s[i].clone());
            proof {
                let nr = views(r@);
                assert(nr =~= old_r.push(sv[i as int]));
                assert forall|a: int, b: int| 0 <= a < b < nr.len() implies seq_lt(
                    #[trigger] nr[a],
                    #[trigger] nr[b],
                ) by {
                    if b == nr.len() - 1 {
                        // nr[a] <= last of old_r == sv[i-1] <= sv[i], and sv[i-1] != sv[i]
                        assert(old_r.contains(old_r[0]));
                        assert(i > 0);
                        let l = old_r.last();
                        assert(l == sv[i - 1]);
                        assert(!seq_lt(sv[i as int], sv[i - 1]));
                        lemma_lt_total(l, sv[i as int]);
                        if a < old_r.len() - 1 {
                            assert(seq_lt(old_r[a], l));
                            if seq_lt(l, sv[i as int]) {
                                lemma_lt_trans(old_r[a], l, sv[i as int]);
                            }
                        }
                    } else {
                        assert(nr[a] == old_r[a] && nr[b] == old_r[b]);
                    }
                }
            }
        }
        i = i + 1;
    }
    assert(sv.take(i as int) =~= sv);
    assert(views(r@).to_set() =~= views(v@).to_set());
    r
}

/// Two strings are equal.
pub fn chars_eq_str(a: &str, b: &str) -> (r: bool)
    ensures
        r == (a@ == b@),
{
    let x = chars_of(a);
    let y = chars_of(b);
    crate::text::chars_eq(x.as_slice(), y.as_slice())
}

/// The first occurrence of each element, in order (what a `filter` with a
/// "seen" set keeps).
pub open spec fn dedup_first(s: Seq<Seq<char>>) -> Seq<Seq<char>>
    decreases s.len(),
{
    if s.len() == 0 {
        Seq::empty()
    } else {
        let r = dedup_first(s.drop_last());
        if r.contains(s.last()) {
            r
        } else {
            r.push(s.last())
        }
    }
}

pub proof fn lemma_dedup_first_contains(s: Seq<Seq<char>>, x: Seq<char>)
    ensures
        dedup_first(s).contains(x) <==> s.contains(x),
    decreases s.len(),
{
    if s.len() > 0 {
        lemma_dedup_first_contains(s.drop_last(), x);
        if s.drop_last().contains(x) {
            let k = choose|k: int| 0 <= k < s.drop_last().len() && s.drop_last()[k] == x;
            assert(s[k] == x);
        }
        if s.contains(x) && x != s.last() {
            let k = choose|k: int| 0 <= k < s.len() && s[k] == x;
            assert(s.drop_last()[k] == x);
        }
    }
}

/// The names of `v`, each kept at its first occurrence.
pub fn unique_in_order(v: &Vec<String>) -> (r: Vec<String>)
    ensures
        views(r@) == dedup_first(views(v@)),
{
    let mut r: Vec<String> = Vec::new();
    let mut i: usize = 0;
    while i < v.len()
        invariant
            i <= v@.len(),
            views(r@) == dedup_first(views(v@.take(i as int))),
        decreases v.len() - i,
    {
        let ghost t = views(v@.take(i + 1));
        assert(t.drop_last() =~= views(v@.take(i as int)));
        assert(t.last() == v@[i as int]@);
        let mut seen = false;
        let mut k: usize = 0;
        while k < r.len()
            invariant
                i < v@.len(),
                k <= r@.len(),
                seen == exists|q: int| 0 <= q < k && r@[q]@ == v@[i as int]@,
            decreases r.len() - k,
        {
            if chars_eq_str(r[k].as_str(), v[i].as_str()) {
                seen = true;
            }
            k = k + 1;
        }
        proof {
            let rv = views(r@);
            if seen {
                let q = choose|q: int| 0 <= q < k && r@[q]@ == v@[i as int]@;
                assert(rv[q] == t.last());
            } else {
                assert forall|q: int| 0 <= q < rv.len() implies rv[q] != t.last() by {
                    assert(rv[q] == r@[q]@);
                }
            }
        }
        if !seen {
            let ghost old_r = views(r@);
            r.push(v[i].clone());
            assert(views(r@) =~= old_r.push(v@[i as int]@));
        }
        i = i + 1;
    }
    assert(v@.take(i as int) =~= v@);
    r
}

/// The elements of `parts` with `sep` between consecutive ones.
pub open spec fn join(parts: Seq<Seq<char>>, sep: Seq<char>) -> Seq<char>
    decreases parts.len(),
{
    if parts.len() == 0 {
        Seq::empty()
    } else if parts.len() == 1 {
        parts[0]
    } else {
        join(parts.drop_last(), sep) + sep + parts.last()
    }
}

/// `parts.join(sep)` as characters.
pub fn join_chars(parts: &Vec<String>, sep: &str) -> (r: Vec<char>)
    ensures
        r@ == join(views(parts@), sep@),
{
    let sv = chars_of(sep);
    let mut r: Vec<char> = Vec::new();
    let mut i: usize = 0;
    while i < parts.len()
        invariant
            i <= parts@.len(),
            sv@ == sep@,
            r@ == join(views(parts@.take(i as int)), sep@),
        decreases parts.len() - i,
    {
        let ghost t = views(parts@.take(i + 1));
        assert(t.drop_last() =~= views(parts@.take(i as int)));
        assert(t.last() == parts@[i as int]@);
        if i > 0 {
            extend_chars(&mut r, sv.as_slice());
        }
        let p = chars_of(parts[i].as_str());
        extend_chars(&mut r, p.as_slice());
        proof {
            if i == 0 {
                assert(r@ =~= t[0]);
            }
        }
        i = i + 1;
    }
    assert(parts@.take(i as int) =~= parts@);
    r
}

/// `parts.join(sep)`.
pub fn join_strings(parts: &Vec<String>, sep: &str) -> (r: String)
    ensures
        r@ == join(views(parts@), sep@),
{
    let c = join_chars(parts, sep);
    string_of(c.as_slice())
}


/// The strictly increasing list of the elements of a finite set.
pub open spec fn sorted_list(s: Set<Seq<char>>) -> Seq<Seq<char>> {
    choose|l: Seq<Seq<char>>| strictly_sorted(l) && l.to_set() == s
}

/// `x` put into the strictly increasing list `l` at its place (once).
pub open spec fn insert_sorted(l: Seq<Seq<char>>, x: Seq<char>) -> Seq<Seq<char>>
    decreases l.len(),
{
    if l.len() == 0 {
        seq![x]
    } else if x == l[0] {
        l
    } else if seq_lt(x, l[0]) {
        seq![x] + l
    } else {
        seq![l[0]] + insert_sorted(l.drop_first(), x)
    }
}

proof fn lemma_insert_sorted(l: Seq<Seq<char>>, x: Seq<char>)
    requires
        strictly_sorted(l),
    ensures
        strictly_sorted(insert_sorted(l, x)),
        forall|y: Seq<char>| #[trigger] insert_sorted(l, x).contains(y) <==> (l.contains(y) || y == x),
    decreases l.len(),
{
    let r = insert_sorted(l, x);
    if l.len() == 0 {
        assert(r == seq![x]);
        assert forall|y: Seq<char>| r.contains(y) <==> (l.contains(y) || y == x) by {
            if r.contains(y) {
                assert(r[0] == y);
            }
            if y == x {
                assert(r[0] == y);
            }
        }
    } else if x == l[0] {
        assert forall|y: Seq<char>| r.contains(y) <==> (l.contains(y) || y == x) by {
            if y == x {
                assert(l[0] == y);
            }
        }
    } else if seq_lt(x, l[0]) {
        assert forall|i: int, j: int| 0 <= i < j < r.len() implies seq_lt(#[trigger] r[i], #[trigger] r[j]) by {
            if i == 0 {
                assert(r[j] == l[j - 1]);
                if j - 1 > 0 {
                    assert(seq_lt(l[0], l[j - 1]));
                    lemma_lt_trans(x, l[0], l[j - 1]);
                }
            } else {
                assert(r[i] == l[i - 1] && r[j] == l[j - 1]);
            }
        }
        assert forall|y: Seq<char>| r.contains(y) <==> (l.contains(y) || y == x) by {
            if r.contains(y) {
                let i = choose|i: int| 0 <= i < r.len() && r[i] == y;
                if i > 0 {
                    assert(l[i - 1] == y);
                }
            }
            if l.contains(y) {
                let i = choose|i: int| 0 <= i < l.len() && l[i] == y;
                assert(r[i + 1] == y);
            }
            if y == x {
                assert(r[0] == y);
            }
        }
    } else {
        let t = l.drop_first();
        assert forall|i: int, j: int| 0 <= i < j < t.len() implies seq_lt(#[trigger] t[i], #[trigger] t[j]) by {
            assert(t[i] == l[i + 1] && t[j] == l[j + 1]);
        }
        lemma_insert_sorted(t, x);
        let r2 = insert_sorted(t, x);
        assert(r == seq![l[0]] + r2);
        lemma_lt_total(x, l[0]);
        assert(seq_lt(l[0], x));
        assert forall|i: int, j: int| 0 <= i < j < r.len() implies seq_lt(#[trigger] r[i], #[trigger] r[j]) by {
            if i == 0 {
                assert(r[j] == r2[j - 1]);
                assert(r2.contains(r2[j - 1]));
                if r2[j - 1] != x {
                    assert(t.contains(r2[j - 1]));
                    let k = choose|k: int| 0 <= k < t.len() && t[k] == r2[j - 1];
                    assert(l[k + 1] == r2[j - 1]);
                }
            } else {
                assert(r[i] == r2[i - 1] && r[j] == r2[j - 1]);
            }
        }
        assert forall|y: Seq<char>| r.contains(y) <==> (l.contains(y) || y == x) by {
            if r.contains(y) {
                let i = choose|i: int| 0 <= i < r.len() && r[i] == y;
                if i > 0 {
                    assert(r2[i - 1] == y);
                    assert(r2.contains(y));
                    assert(t.contains(y) || y == x);
                    if y != x {
                        let k = choose|k: int| 0 <= k < t.len() && t[k] == y;
                        assert(l[k + 1] == y);
                    }
                } else {
                    assert(l[0] == y);
                }
            }
            if l.contains(y) {
                let i = choose|i: int| 0 <= i < l.len() && l[i] == y;
                if i == 0 {
                    assert(r[0] == y);
                } else {
                    assert(t[i - 1] == y);
                    assert(t.contains(y));
                    assert(r2.contains(y));
                    let k = choose|k: int| 0 <= k < r2.len() && r2[k] == y;
                    assert(r[k + 1] == y);
                }
            }
            if y == x {
                assert(r2.contains(y));
                let k = choose|k: int| 0 <= k < r2.len() && r2[k] == y;
                assert(r[k + 1] == y);
            }
        }
    }
}

/// Every finite set of names has its strictly increasing list.
pub proof fn lemma_sorted_list(s: Set<Seq<char>>)
    requires
        s.finite(),
    ensures
        strictly_sorted(sorted_list(s)),
        sorted_list(s).to_set() == s,
    decreases s.len(),
{
    if s.len() == 0 {
        let l = Seq::<Seq<char>>::empty();
        assert(s =~= Set::<Seq<char>>::empty());
        assert(l.to_set() =~= s);
        assert(strictly_sorted(l) && l.to_set() == s);
    } else {
        let x = s.choose();
        let s2 = s.remove(x);
        lemma_sorted_list(s2);
        let l2 = sorted_list(s2);
        lemma_insert_sorted(l2, x);
        let l = insert_sorted(l2, x);
        assert forall|y: Seq<char>| l.to_set().contains(y) <==> s.contains(y) by {
            assert(l.to_set().contains(y) <==> l.contains(y));
            assert(l2.to_set().contains(y) <==> l2.contains(y));
        }
        assert(l.to_set() =~= s);
        assert(strictly_sorted(l) && l.to_set() == s);
    }
}

/// Two strictly increasing lists with the same elements are equal./// Two strictly increasing lists with the same elements are equal.
pub proof fn lemma_strictly_sorted_unique(a: Seq<Seq<char>>, b: Seq<Seq<char>>)
    requires
        strictly_sorted(a),
        strictly_sorted(b),
        a.to_set() == b.to_set(),
    ensures
        a == b,
    decreases a.len(),
{
    if a.len() == 0 {
        if b.len() > 0 {
            assert(b.to_set().contains(b[0]));
        }
        assert(a =~= b);
    } else {
        assert(a.to_set().contains(a[0]));
        assert(b.len() > 0);
        assert(b.to_set().contains(b[0]));
        let k = choose|k: int| 0 <= k < b.len() && b[k] == a[0];
        let m = choose|m: int| 0 <= m < a.len() && a[m] == b[0];
        if k > 0 {
            assert(seq_lt(b[0], b[k]));
            if m > 0 {
                assert(seq_lt(a[0], a[m]));
                lemma_lt_asym(a[0], b[0]);
            } else {
                lemma_lt_irrefl(b[0]);
            }
        }
        assert(a[0] == b[0]);
        let a1 = a.drop_first();
        let b1 = b.drop_first();
        assert forall|x: Seq<char>| a1.to_set().contains(x) <==> b1.to_set().contains(x) by {
            if a1.to_set().contains(x) {
                let i = choose|i: int| 0 <= i < a1.len() && a1[i] == x;
                assert(a[i + 1] == x);
                assert(seq_lt(a[0], a[i + 1]));
                lemma_lt_irrefl(x);
                assert(b.to_set().contains(x));
                let j = choose|j: int| 0 <= j < b.len() && b[j] == x;
                assert(j != 0);
                assert(b1[j - 1] == x);
            }
            if b1.to_set().contains(x) {
                let i = choose|i: int| 0 <= i < b1.len() && b1[i] == x;
                assert(b[i + 1] == x);
                assert(seq_lt(b[0], b[i + 1]));
                lemma_lt_irrefl(x);
                assert(a.to_set().contains(x));
                let j = choose|j: int| 0 <= j < a.len() && a[j] == x;
                assert(j != 0);
                assert(a1[j - 1] == x);
            }
        }
        assert(a1.to_set() =~= b1.to_set());
        lemma_strictly_sorted_unique(a1, b1);
        assert(a =~= b);
    }
}

/// Sort names and drop repeats: the result is the sorted list of the set
/// of the names of `v`.
pub fn sorted_set_of(v: &Vec<String>) -> (r: Vec<String>)
    ensures
        views(r@) == sorted_list(views(v@).to_set()),
        strictly_sorted(views(r@)),
        views(r@).to_set() == views(v@).to_set(),
{
    let r = sorted_unique(v);
    proof {
        let l = sorted_list(views(v@).to_set());
        assert(strictly_sorted(views(r@)) && views(r@).to_set() == views(v@).to_set());
        lemma_strictly_sorted_unique(l, views(r@));
    }
    r
}
} // verus!
