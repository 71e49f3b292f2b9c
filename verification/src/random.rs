//! Seeded randomness for the placer: a small generator and random
//! permutations drawn from it.
use vstd::prelude::*;
use rand::rngs::SmallRng;
use rand::seq::SliceRandom;
use rand::SeedableRng;

verus! {

broadcast use vstd::seq_lib::group_seq_properties, vstd::seq_lib::group_to_multiset_ensures;

#[verifier::external_type_specification]
#[verifier::external_body]
pub struct ExSmallRng(SmallRng);

/// `SmallRng::seed_from_u64` (rand_core's `SeedableRng`): a generator whose
/// stream is fixed by the seed.  Nothing is stated of the generator.
#[verifier::external_body]
pub(crate) fn seeded_rng(seed: u64) -> SmallRng {
    SmallRng::seed_from_u64(seed)
}

/// `SliceRandom::shuffle` on a slice: a Fisher–Yates shuffle made of swaps,
/// so the elements are only reordered.  Which order comes out depends on the
/// generator (and, for a given generator state, on the length alone).
#[verifier::external_body]
pub(crate) fn shuffle_usizes(v: &mut Vec<usize>, rng: &mut SmallRng)
    ensures
        final(v)@.to_multiset() == old(v)@.to_multiset(),
{
    v.as_mut_slice().shuffle(rng)
}

/// `s` lists each of `0..n` exactly once.
pub open spec fn is_perm(s: Seq<usize>, n: nat) -> bool {
    &&& s.len() == n
    &&& forall|i: int| 0 <= i < s.len() ==> #[trigger] s[i] < n
    &&& forall|i: int, j: int| 0 <= i < j < s.len() ==> #[trigger] s[i] != #[trigger] s[j]
}

/// Distinct values below `m` are at most `m` many.
proof fn lemma_distinct_below(s: Seq<usize>, m: nat)
    requires
        forall|i: int| 0 <= i < s.len() ==> #[trigger] s[i] < m,
        forall|i: int, j: int| 0 <= i < j < s.len() ==> #[trigger] s[i] != #[trigger] s[j],
    ensures
        s.len() <= m,
    decreases m,
{
    if m == 0 {
        if s.len() > 0 {
            assert(s[0] < 0);
        }
    } else {
        let top = (m - 1) as usize;
        if exists|j: int| 0 <= j < s.len() && s[j] == top {
            let j = choose|j: int| 0 <= j < s.len() && s[j] == top;
            let t = s.remove(j);
            assert forall|i: int| 0 <= i < t.len() implies #[trigger] t[i] < (m - 1) as nat by {
                if i < j {
                    assert(t[i] == s[i]);
                } else {
                    assert(t[i] == s[i + 1]);
                }
            }
            assert forall|a: int, b: int| 0 <= a < b < t.len() implies #[trigger] t[a] != #[trigger] t[b] by {
                let a0 = if a < j { a } else { a + 1 };
                let b0 = if b < j { b } else { b + 1 };
                assert(t[a] == s[a0] && t[b] == s[b0]);
            }
            lemma_distinct_below(t, (m - 1) as nat);
        } else {
            assert forall|i: int| 0 <= i < s.len() implies #[trigger] s[i] < (m - 1) as nat by {
                assert(s[i] != top);
            }
            lemma_distinct_below(s, (m - 1) as nat);
        }
    }
}

/// A permutation of `0..n` lists every one of them.
pub proof fn lemma_perm_covers(s: Seq<usize>, n: nat, t: usize)
    requires
        is_perm(s, n),
        t < n,
    ensures
        exists|i: int| 0 <= i < s.len() && s[i] == t,
{
    if !(exists|i: int| 0 <= i < s.len() && s[i] == t) {
        let f = s.map_values(|x: usize| if x > t { (x - 1) as usize } else { x });
        assert forall|i: int| 0 <= i < f.len() implies #[trigger] f[i] < (n - 1) as nat by {
            assert(s[i] != t);
        }
        assert forall|a: int, b: int| 0 <= a < b < f.len() implies #[trigger] f[a] != #[trigger] f[b] by {
            assert(s[a] != t && s[b] != t && s[a] != s[b]);
        }
        lemma_distinct_below(f, (n - 1) as nat);
    }
}

/// The order in which a shuffle of `n` items leaves them: item `r[i]` ends
/// at position `i`.  Shuffling any vector of length `n` with the same
/// generator state reorders it the same way.
pub fn random_permutation(n: usize, rng: &mut SmallRng) -> (r: Vec<usize>)
    ensures
        is_perm(r@, n as nat),
{
    let mut v: Vec<usize> = Vec::new();
    let mut i: usize = 0;
    while i < n
        invariant
            i <= n,
            v@.len() == i,
            forall|j: int| 0 <= j < i ==> #[trigger] v@[j] == j,
        decreases n - i,
    {
        v.push(i);
        i = i + 1;
    }
    let ghost before = v@;
    assert(before.no_duplicates());
    proof {
        before.lemma_multiset_has_no_duplicates();
    }
    shuffle_usizes(&mut v, rng);
    proof {
        let after = v@;
        assert(after.len() == before.len()) by {
            vstd::seq_lib::to_multiset_len(after);
            vstd::seq_lib::to_multiset_len(before);
        }
        assert forall|x: usize| after.to_multiset().contains(x) implies after.to_multiset().count(
            x,
        ) == 1 by {}
        after.lemma_multiset_has_no_duplicates_conv();
        assert forall|k: int| 0 <= k < after.len() implies #[trigger] after[k] < n by {
            assert(after.contains(after[k]));
            assert(after.to_multiset().count(after[k]) > 0);
            assert(before.to_multiset().count(after[k]) > 0);
            assert(before.contains(after[k]));
        }
    }
    v
}

/// `v` reordered by `perm`: element `perm[i]` goes to position `i`.
pub fn apply_perm<T: Copy>(v: &Vec<T>, perm: &Vec<usize>) -> (r: Vec<T>)
    requires
        is_perm(perm@, v@.len()),
    ensures
        r@.len() == v@.len(),
        forall|i: int| 0 <= i < r@.len() ==> #[trigger] r@[i] == v@[perm@[i] as int],
{
    let mut r: Vec<T> = Vec::new();
    let mut i: usize = 0;
    while i < perm.len()
        invariant
            i <= perm@.len(),
            is_perm(perm@, v@.len()),
            r@.len() == i,
            forall|j: int| 0 <= j < i ==> #[trigger] r@[j] == v@[perm@[j] as int],
        decreases perm.len() - i,
    {
        r.push(v[perm[i]]);
        i = i + 1;
    }
    r
}

} // verus!
