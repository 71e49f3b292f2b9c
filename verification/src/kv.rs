//! A small string-to-string map kept as an ordered list of entries; it holds
//! entity metadata and the `key=value` fields of a line.
use vstd::prelude::*;
use vstd::string::*;

verus! {

/// The value of the first entry whose key is `k`.
pub open spec fn lookup(es: Seq<(String, String)>, k: Seq<char>) -> Option<Seq<char>>
    decreases es.len(),
{
    if es.len() == 0 {
        None
    } else if es[0].0@ == k {
        Some(es[0].1@)
    } else {
        lookup(es.drop_first(), k)
    }
}

pub proof fn lemma_lookup_push(es: Seq<(String, String)>, e: (String, String), k: Seq<char>)
    ensures
        lookup(es.push(e), k) == (if lookup(es, k) is Some {
            lookup(es, k)
        } else if e.0@ == k {
            Some(e.1@)
        } else {
            None
        }),
    decreases es.len(),
{
    if es.len() > 0 {
        assert(es.push(e).drop_first() =~= es.drop_first().push(e));
        assert(es.push(e)[0] == es[0]);
        lemma_lookup_push(es.drop_first(), e, k);
    } else {
        assert(es.push(e).drop_first() =~= Seq::<(String, String)>::empty());
        assert(lookup(Seq::<(String, String)>::empty(), k) is None);
        assert(es.push(e)[0] == e);
    }
}

pub proof fn lemma_lookup_update(es: Seq<(String, String)>, i: int, e: (String, String), k: Seq<char>)
    requires
        0 <= i < es.len(),
        es[i].0@ == e.0@,
        forall|j: int| 0 <= j < i ==> es[j].0@ != e.0@,
    ensures
        lookup(es.update(i, e), k) == (if k == e.0@ {
            Some(e.1@)
        } else {
            lookup(es, k)
        }),
    decreases es.len(),
{
    if i > 0 {
        assert(es.update(i, e).drop_first() =~= es.drop_first().update(i - 1, e));
        lemma_lookup_update(es.drop_first(), i - 1, e, k);
    } else {
        assert(es.update(i, e).drop_first() =~= es.drop_first());
    }
}

pub proof fn lemma_lookup_remove(es: Seq<(String, String)>, i: int, k: Seq<char>)
    requires
        0 <= i < es.len(),
        es[i].0@ != k,
    ensures
        lookup(es.remove(i), k) == lookup(es, k) || (exists|j: int|
            0 <= j < i && es[j].0@ == k),
    decreases es.len(),
{
    if i > 0 {
        if es[0].0@ != k {
            assert(es.remove(i).drop_first() =~= es.drop_first().remove(i - 1));
            lemma_lookup_remove(es.drop_first(), i - 1, k);
            if exists|j: int| 0 <= j < i - 1 && es.drop_first()[j].0@ == k {
                let j = choose|j: int| 0 <= j < i - 1 && es.drop_first()[j].0@ == k;
                assert(es[j + 1].0@ == k);
            }
        }
    } else {
        assert(es.remove(0) =~= es.drop_first());
    }
}

pub proof fn lemma_lookup_none(es: Seq<(String, String)>, k: Seq<char>)
    requires
        forall|j: int| 0 <= j < es.len() ==> es[j].0@ != k,
    ensures
        lookup(es, k) is None,
    decreases es.len(),
{
    if es.len() > 0 {
        lemma_lookup_none(es.drop_first(), k);
    }
}

pub proof fn lemma_lookup_first(es: Seq<(String, String)>, i: int, k: Seq<char>)
    requires
        0 <= i < es.len(),
        es[i].0@ == k,
        forall|j: int| 0 <= j < i ==> es[j].0@ != k,
    ensures
        lookup(es, k) == Some(es[i].1@),
    decreases es.len(),
{
    if i > 0 {
        lemma_lookup_first(es.drop_first(), i - 1, k);
    }
}

/// A map from strings to strings; when a key occurs in several entries
/// the first one counts, and the operations below never create such
/// duplicates.
#[derive(Debug)]
pub struct StrMap {
    pub entries: Vec<(String, String)>,
}

impl View for StrMap {
    type V = Map<Seq<char>, Seq<char>>;

    open spec fn view(&self) -> Map<Seq<char>, Seq<char>> {
        Map::new(
            |k: Seq<char>| lookup(self.entries@, k) is Some,
            |k: Seq<char>| lookup(self.entries@, k)->Some_0,
        )
    }
}

impl StrMap {
    pub fn new() -> (m: Self)
        ensures
            m@ == Map::<Seq<char>, Seq<char>>::empty(),
    {
        let m = StrMap { entries: Vec::new() };
        assert(m@ =~= Map::<Seq<char>, Seq<char>>::empty());
        m
    }

    /// Index of the first entry with key `k`.
    fn position(&self, k: &String) -> (r: Option<usize>)
        ensures
            r matches Some(i) ==> i < self.entries@.len() && self.entries@[i as int].0@ == k@
                && forall|j: int| 0 <= j < i ==> self.entries@[j].0@ != k@,
            r is None ==> forall|j: int| 0 <= j < self.entries@.len() ==> self.entries@[j].0@ != k@,
    {
        let mut i: usize = 0;
        while i < self.entries.len()
            invariant
                i <= self.entries@.len(),
                forall|j: int| 0 <= j < i ==> self.entries@[j].0@ != k@,
            decreases self.entries.len() - i,
        {
            if self.entries[i].0 == *k {
                return Some(i);
            }
            i = i + 1;
        }
        None
    }

    pub fn get_string(&self, k: &String) -> (r: Option<&String>)
        ensures
            r is Some <==> self@.contains_key(k@),
            r matches Some(v) ==> v@ == self@[k@],
    {
        match self.position(k) {
            Some(i) => {
                proof {
                    lemma_lookup_first(self.entries@, i as int, k@);
                }
                Some(&self.entries[i].1)
            },
            None => {
                proof {
                    lemma_lookup_none(self.entries@, k@);
                }
                None
            },
        }
    }

    pub fn get(&self, k: &str) -> (r: Option<&String>)
        ensures
            r is Some <==> self@.contains_key(k@),
            r matches Some(v) ==> v@ == self@[k@],
    {
        let key = String::from_str(k);
        self.get_string(&key)
    }

    pub fn contains_key(&self, k: &str) -> (b: bool)
        ensures
            b == self@.contains_key(k@),
    {
        self.get(k).is_some()
    }

    pub fn insert(&mut self, k: String, v: String)
        ensures
            final(self)@ == old(self)@.insert(k@, v@),
    {
        let ghost es = self.entries@;
        match self.position(&k) {
            Some(i) => {
                let ghost e = (k, v);
                self.entries.set(i, (k, v));
                proof {
                    assert forall|key: Seq<char>|
                        lookup(self.entries@, key) == (if key == e.0@ {
                            Some(e.1@)
                        } else {
                            lookup(es, key)
                        }) by {
                        lemma_lookup_update(es, i as int, e, key);
                    }
                }
            },
            None => {
                let ghost e = (k, v);
                self.entries.push((k, v));
                proof {
                    lemma_lookup_none(es, e.0@);
                    assert forall|key: Seq<char>|
                        lookup(self.entries@, key) == (if key == e.0@ {
                            Some(e.1@)
                        } else {
                            lookup(es, key)
                        }) by {
                        lemma_lookup_push(es, e, key);
                    }
                }
            },
        }
        assert(self@ =~= old(self)@.insert(k@, v@));
    }

    /// Remove every entry with key `k`; the value it had is returned.
    pub fn remove(&mut self, k: &str) -> (r: Option<String>)
        ensures
            final(self)@ == old(self)@.remove(k@),
            r is Some <==> old(self)@.contains_key(k@),
            r matches Some(v) ==> v@ == old(self)@[k@],
    {
        let key = String::from_str(k);
        let ghost es0 = self.entries@;
        let first = self.position(&key);
        let result = match first {
            Some(i) => {
                proof {
                    lemma_lookup_first(es0, i as int, k@);
                }
                Some(self.entries[i].1.clone())
            },
            None => {
                proof {
                    lemma_lookup_none(es0, k@);
                }
                None
            },
        };
        let mut out: Vec<(String, String)> = Vec::new();
        let mut i: usize = 0;
        while i < self.entries.len()
            invariant
                i <= self.entries@.len(),
                self.entries@ == es0,
                key@ == k@,
                forall|j: int| 0 <= j < out@.len() ==> out@[j].0@ != k@,
                forall|q: Seq<char>|
                    q != k@ ==> lookup(out@, q) == lookup(es0.take(i as int), q),
            decreases self.entries.len() - i,
        {
            let ghost prev = out@;
            assert(es0.take(i + 1) =~= es0.take(i as int).push(es0[i as int]));
            assert(self.entries@[i as int] == es0[i as int]);
            if !(self.entries[i].0 == key) {
                let e = (self.entries[i].0.clone(), self.entries[i].1.clone());
                out.push(e);
                proof {
                    assert forall|q: Seq<char>| q != k@ implies lookup(out@, q) == lookup(
                        es0.take(i + 1),
                        q,
                    ) by {
                        lemma_lookup_push(prev, e, q);
                        lemma_lookup_push(es0.take(i as int), es0[i as int], q);
                    }
                }
            } else {
                proof {
                    assert forall|q: Seq<char>| q != k@ implies lookup(out@, q) == lookup(
                        es0.take(i + 1),
                        q,
                    ) by {
                        lemma_lookup_push(es0.take(i as int), es0[i as int], q);
                    }
                }
            }
            i = i + 1;
        }
        assert(es0.take(i as int) =~= es0);
        proof {
            lemma_lookup_none(out@, k@);
        }
        self.entries = out;
        assert(self@ =~= old(self)@.remove(k@));
        result
    }

    /// Number of keys.
    pub fn len(&self) -> (n: usize)
        ensures
            n == self.entries@.len(),
    {
        self.entries.len()
    }
}

} // verus!
