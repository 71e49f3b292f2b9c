//! The topology intermediate representation: entities (compute nodes,
//! switches, groups), weighted links, and the containment tree.
use vstd::prelude::*;
use vstd::string::*;
use vstd::hash_map::StringHashMap;
use crate::kv::StrMap;

verus! {

/// Identifier of a topology entity (a host or switch name).
#[derive(Debug, PartialEq, Eq, Hash, PartialOrd, Ord)]
pub struct Id(pub String);

impl View for Id {
    type V = Seq<char>;

    open spec fn view(&self) -> Seq<char> {
        self.0@
    }
}

impl Id {
    pub fn from(s: &str) -> (r: Id)
        ensures
            r@ == s@,
    {
        Id(String::from_str(s))
    }

    /// A copy of this id.
    pub fn copy(&self) -> (r: Id)
        ensures
            r == *self,
            r@ == self@,
    {
        Id(self.0.clone())
    }

    /// Whether two ids are the same name.
    pub fn same(&self, other: &Id) -> (b: bool)
        ensures
            b == (self@ == other@),
    {
        self.0 == other.0
    }
}

/// Kind of a topology entity.
#[derive(Clone, Copy, Debug, PartialEq, Eq, Structural)]
pub enum EntityKind {
    Compute,
    Switch { level: Option<u32> },
    Group,
}

/// An entity with its metadata.
#[derive(Debug)]
pub struct Entity {
    pub id: Id,
    pub kind: EntityKind,
    pub meta: StrMap,
}

/// What an entity is: its id, kind and metadata.
pub type EntityView = (Seq<char>, EntityKind, Map<Seq<char>, Seq<char>>);

impl View for Entity {
    type V = EntityView;

    open spec fn view(&self) -> EntityView {
        (self.id@, self.kind, self.meta@)
    }
}

impl StrMap {
    /// A copy of this map.
    pub fn copy(&self) -> (r: StrMap)
        ensures
            r@ == self@,
            r.entries@.len() == self.entries@.len(),
    {
        let mut entries: Vec<(String, String)> = Vec::new();
        let mut i: usize = 0;
        while i < self.entries.len()
            invariant
                i <= self.entries@.len(),
                entries@ =~= self.entries@.take(i as int),
            decreases self.entries.len() - i,
        {
            let e = (self.entries[i].0.clone(), self.entries[i].1.clone());
            entries.push(e);
            assert(self.entries@.take(i + 1) =~= self.entries@.take(i as int).push(self.entries@[i as int]));
            i = i + 1;
        }
        assert(self.entries@.take(i as int) =~= self.entries@);
        StrMap { entries }
    }
}

impl Entity {
    /// A copy of this entity.
    pub fn copy(&self) -> (r: Entity)
        ensures
            r@ == self@,
    {
        Entity { id: self.id.copy(), kind: self.kind, meta: self.meta.copy() }
    }
}

/// A weighted link between two entities.  Weights are kept in thousandths
/// of the unit bandwidth of a system (a weight of `1000` is `1.0`).
#[derive(Debug)]
pub struct Link {
    pub from: Id,
    pub to: Id,
    pub weight: u64,
}

pub type LinkView = (Seq<char>, Seq<char>, u64);

impl View for Link {
    type V = LinkView;

    open spec fn view(&self) -> LinkView {
        (self.from@, self.to@, self.weight)
    }
}

/// A parent and the ids it contains, as text.
pub type ContainsView = (Seq<char>, Seq<Seq<char>>);

pub open spec fn id_views(v: Seq<Id>) -> Seq<Seq<char>> {
    v.map_values(|x: Id| x@)
}

/// Intermediate representation of a system's topology.
#[derive(Debug)]
pub struct TopologyIR {
    pub entities: Vec<Entity>,
    pub links: Vec<Link>,
    pub contains: Vec<(Id, Vec<Id>)>,
}

/// What a topology is: its entities, links and containment lists, in order.
pub struct IRView {
    pub entities: Seq<EntityView>,
    pub links: Seq<LinkView>,
    pub contains: Seq<ContainsView>,
}

impl View for TopologyIR {
    type V = IRView;

    open spec fn view(&self) -> IRView {
        IRView {
            entities: self.entities@.map_values(|e: Entity| e@),
            links: self.links@.map_values(|l: Link| l@),
            contains: self.contains@.map_values(|c: (Id, Vec<Id>)| (c.0@, id_views(c.1@))),
        }
    }
}

/// Index of the first entity with id `id`.
pub open spec fn entity_pos(es: Seq<EntityView>, id: Seq<char>) -> Option<nat>
    decreases es.len(),
{
    if es.len() == 0 {
        None
    } else if es[0].0 == id {
        Some(0)
    } else {
        match entity_pos(es.drop_first(), id) {
            Some(k) => Some(k + 1),
            None => None,
        }
    }
}

/// Index of the first containment list of `p`.
pub open spec fn parent_pos(cs: Seq<ContainsView>, p: Seq<char>) -> Option<nat>
    decreases cs.len(),
{
    if cs.len() == 0 {
        None
    } else if cs[0].0 == p {
        Some(0)
    } else {
        match parent_pos(cs.drop_first(), p) {
            Some(k) => Some(k + 1),
            None => None,
        }
    }
}

impl IRView {
    /// The entity with id `id`.
    pub open spec fn entity(self, id: Seq<char>) -> Option<EntityView> {
        match entity_pos(self.entities, id) {
            Some(k) => Some(self.entities[k as int]),
            None => None,
        }
    }

    pub open spec fn has(self, id: Seq<char>) -> bool {
        entity_pos(self.entities, id) is Some
    }

    /// The ids that `p` contains (empty when it has no list).
    pub open spec fn children(self, p: Seq<char>) -> Seq<Seq<char>> {
        match parent_pos(self.contains, p) {
            Some(k) => self.contains[k as int].1,
            None => Seq::empty(),
        }
    }

    /// No two entities share an id and no parent has two lists.
    pub open spec fn wf(self) -> bool {
        &&& forall|a: int, b: int|
            0 <= a < b < self.entities.len() ==> self.entities[a].0 != self.entities[b].0
        &&& forall|a: int, b: int|
            0 <= a < b < self.contains.len() ==> self.contains[a].0 != self.contains[b].0
    }
}

pub proof fn lemma_pos_props(es: Seq<EntityView>, id: Seq<char>)
    ensures
        entity_pos(es, id) matches Some(k) ==> k < es.len() && es[k as int].0 == id && forall|j: int|
            0 <= j < k ==> es[j].0 != id,
        entity_pos(es, id) is None ==> forall|j: int| 0 <= j < es.len() ==> es[j].0 != id,
    decreases es.len(),
{
    if es.len() > 0 {
        lemma_pos_props(es.drop_first(), id);
        if es[0].0 != id {
            assert forall|j: int| 1 <= j < es.len() implies es[j] == es.drop_first()[j - 1] by {}
        }
    }
}

pub proof fn lemma_pos_is(es: Seq<EntityView>, id: Seq<char>, k: int)
    requires
        0 <= k < es.len(),
        es[k].0 == id,
        forall|j: int| 0 <= j < k ==> es[j].0 != id,
    ensures
        entity_pos(es, id) == Some(k as nat),
    decreases es.len(),
{
    if k > 0 {
        lemma_pos_is(es.drop_first(), id, k - 1);
    }
}

pub proof fn lemma_pos_none(es: Seq<EntityView>, id: Seq<char>)
    requires
        forall|j: int| 0 <= j < es.len() ==> es[j].0 != id,
    ensures
        entity_pos(es, id) is None,
    decreases es.len(),
{
    if es.len() > 0 {
        lemma_pos_none(es.drop_first(), id);
    }
}

pub proof fn lemma_ppos_props(cs: Seq<ContainsView>, p: Seq<char>)
    ensures
        parent_pos(cs, p) matches Some(k) ==> k < cs.len() && cs[k as int].0 == p && forall|j: int|
            0 <= j < k ==> cs[j].0 != p,
        parent_pos(cs, p) is None ==> forall|j: int| 0 <= j < cs.len() ==> cs[j].0 != p,
    decreases cs.len(),
{
    if cs.len() > 0 {
        lemma_ppos_props(cs.drop_first(), p);
        if cs[0].0 != p {
            assert forall|j: int| 1 <= j < cs.len() implies cs[j] == cs.drop_first()[j - 1] by {}
        }
    }
}

pub proof fn lemma_ppos_is(cs: Seq<ContainsView>, p: Seq<char>, k: int)
    requires
        0 <= k < cs.len(),
        cs[k].0 == p,
        forall|j: int| 0 <= j < k ==> cs[j].0 != p,
    ensures
        parent_pos(cs, p) == Some(k as nat),
    decreases cs.len(),
{
    if k > 0 {
        lemma_ppos_is(cs.drop_first(), p, k - 1);
    }
}

pub proof fn lemma_ppos_none(cs: Seq<ContainsView>, p: Seq<char>)
    requires
        forall|j: int| 0 <= j < cs.len() ==> cs[j].0 != p,
    ensures
        parent_pos(cs, p) is None,
    decreases cs.len(),
{
    if cs.len() > 0 {
        lemma_ppos_none(cs.drop_first(), p);
    }
}

impl TopologyIR {
    /// Whether no two entities share an id and no parent has two
    /// containment lists.
    pub fn is_wf(&self) -> (b: bool)
        ensures
            b == self@.wf(),
    {
        let ghost es = self@.entities;
        let ghost cs = self@.contains;
        let mut a: usize = 0;
        while a < self.entities.len()
            invariant
                es == self@.entities,
                a <= es.len(),
                forall|x: int, y: int| 0 <= x < a && x < y < es.len() ==> es[x].0 != es[y].0,
            decreases self.entities.len() - a,
        {
            let mut b: usize = a + 1;
            while b < self.entities.len()
                invariant
                    es == self@.entities,
                    a < b <= es.len(),
                    forall|x: int, y: int| 0 <= x < a && x < y < es.len() ==> es[x].0 != es[y].0,
                    forall|y: int| a < y < b ==> es[a as int].0 != es[y].0,
                decreases self.entities.len() - b,
            {
                assert(es[a as int].0 == self.entities@[a as int].id@);
                assert(es[b as int].0 == self.entities@[b as int].id@);
                if self.entities[a].id.same(&self.entities[b].id) {
                    return false;
                }
                b = b + 1;
            }
            a = a + 1;
        }
        let mut a: usize = 0;
        while a < self.contains.len()
            invariant
                es == self@.entities,
                cs == self@.contains,
                forall|x: int, y: int| 0 <= x < y < es.len() ==> es[x].0 != es[y].0,
                a <= cs.len(),
                forall|x: int, y: int| 0 <= x < a && x < y < cs.len() ==> cs[x].0 != cs[y].0,
            decreases self.contains.len() - a,
        {
            let mut b: usize = a + 1;
            while b < self.contains.len()
                invariant
                    cs == self@.contains,
                    a < b <= cs.len(),
                    forall|x: int, y: int| 0 <= x < a && x < y < cs.len() ==> cs[x].0 != cs[y].0,
                    forall|y: int| a < y < b ==> cs[a as int].0 != cs[y].0,
                decreases self.contains.len() - b,
            {
                assert(cs[a as int].0 == self.contains@[a as int].0@);
                assert(cs[b as int].0 == self.contains@[b as int].0@);
                if self.contains[a].0.same(&self.contains[b].0) {
                    return false;
                }
                b = b + 1;
            }
            a = a + 1;
        }
        true
    }

    /// An empty topology.
    pub fn new() -> (ir: Self)
        ensures
            ir@.entities.len() == 0,
            ir@.links.len() == 0,
            ir@.contains.len() == 0,
            ir@.wf(),
    {
        TopologyIR { entities: Vec::new(), links: Vec::new(), contains: Vec::new() }
    }

    /// Index of the entity with id `id`.
    pub fn position(&self, id: &Id) -> (r: Option<usize>)
        ensures
            r matches Some(k) ==> entity_pos(self@.entities, id@) == Some(k as nat) && k
                < self.entities@.len(),
            r is None ==> entity_pos(self@.entities, id@) is None,
    {
        let mut i: usize = 0;
        while i < self.entities.len()
            invariant
                i <= self.entities@.len(),
                forall|j: int| 0 <= j < i ==> self@.entities[j].0 != id@,
            decreases self.entities.len() - i,
        {
            if self.entities[i].id.same(id) {
                proof {
                    lemma_pos_is(self@.entities, id@, i as int);
                }
                return Some(i);
            }
            i = i + 1;
        }
        proof {
            lemma_pos_none(self@.entities, id@);
        }
        None
    }

    /// The entity with id `id`.
    pub fn get_entity(&self, id: &Id) -> (r: Option<&Entity>)
        ensures
            match self@.entity(id@) {
                Some(e) => r matches Some(x) && x@ == e,
                None => r is None,
            },
    {
        match self.position(id) {
            Some(k) => Some(&self.entities[k]),
            None => None,
        }
    }

    pub fn contains_entity(&self, id: &Id) -> (b: bool)
        ensures
            b == self@.has(id@),
    {
        self.position(id).is_some()
    }

    /// Insert an entity, replacing the one with the same id if there is one.
    pub fn add_entity(&mut self, entity: Entity)
        ensures
            final(self)@.entities == (match entity_pos(old(self)@.entities, entity@.0) {
                Some(k) => old(self)@.entities.update(k as int, entity@),
                None => old(self)@.entities.push(entity@),
            }),
            final(self)@.links == old(self)@.links,
            final(self)@.contains == old(self)@.contains,
            old(self)@.wf() ==> final(self)@.wf(),
    {
        let ghost ev = entity@;
        proof {
            lemma_pos_props(self@.entities, ev.0);
        }
        match self.position(&entity.id) {
            Some(k) => {
                self.entities.set(k, entity);
                assert(self@.entities =~= old(self)@.entities.update(k as int, ev));
                assert(forall|j: int|
                    0 <= j < self@.entities.len() ==> self@.entities[j].0 == old(
                        self,
                    )@.entities[j].0);
            },
            None => {
                self.entities.push(entity);
                assert(self@.entities =~= old(self)@.entities.push(ev));
            },
        }
        assert(self@.contains =~= old(self)@.contains);
        assert(self@.links =~= old(self)@.links);
    }

    /// Append a link.
    pub fn add_link(&mut self, from: Id, to: Id, weight: u64)
        ensures
            final(self)@.links == old(self)@.links.push((from@, to@, weight)),
            final(self)@.entities == old(self)@.entities,
            final(self)@.contains == old(self)@.contains,
            old(self)@.wf() ==> final(self)@.wf(),
    {
        self.links.push(Link { from, to, weight });
        assert(self@.links =~= old(self)@.links.push((from@, to@, weight)));
        assert(self@.entities =~= old(self)@.entities);
        assert(self@.contains =~= old(self)@.contains);
    }

    /// Record that `parent` contains `child` (appended to `parent`'s list).
    pub fn add_contains(&mut self, parent: Id, child: Id)
        ensures
            final(self)@.contains == (match parent_pos(old(self)@.contains, parent@) {
                Some(k) => old(self)@.contains.update(
                    k as int,
                    (parent@, old(self)@.contains[k as int].1.push(child@)),
                ),
                None => old(self)@.contains.push((parent@, seq![child@])),
            }),
            final(self)@.entities == old(self)@.entities,
            final(self)@.links == old(self)@.links,
            old(self)@.wf() ==> final(self)@.wf(),
    {
        let ghost cv = old(self)@.contains;
        proof {
            lemma_ppos_props(cv, parent@);
        }
        let mut i: usize = 0;
        while i < self.contains.len()
            invariant
                i <= self.contains@.len(),
                self@.contains == cv,
                cv == old(self)@.contains,
                self.entities@ == old(self).entities@,
                self.links@ == old(self).links@,
                forall|j: int| 0 <= j < i ==> cv[j].0 != parent@,
            decreases self.contains.len() - i,
        {
            if self.contains[i].0.same(&parent) {
                proof {
                    lemma_ppos_is(cv, parent@, i as int);
                }
                let (p, mut ch) = self.contains.remove(i);
                let ghost cw = ch@;
                ch.push(child);
                self.contains.insert(i, (p, ch));
                proof {
                    assert(id_views(ch@) =~= id_views(cw).push(child@));
                    assert(self@.contains =~= cv.update(i as int, (parent@, cv[i as int].1.push(child@))));
                    assert(self@.entities =~= old(self)@.entities);
                    assert(self@.links =~= old(self)@.links);
                    assert(forall|j: int|
                        0 <= j < self@.contains.len() ==> self@.contains[j].0 == cv[j].0);
                }
                return;
            }
            i = i + 1;
        }
        proof {
            lemma_ppos_none(cv, parent@);
        }
        let mut ch: Vec<Id> = Vec::new();
        ch.push(child);
        self.contains.push((parent, ch));
        assert(id_views(ch@) =~= seq![child@]);
        assert(self@.contains =~= cv.push((parent@, seq![child@])));
        assert(self@.entities =~= old(self)@.entities);
        assert(self@.links =~= old(self)@.links);
    }

    /// Remove the entity with id `id` (links and containment are kept).
    pub fn remove_entity(&mut self, id: &Id)
        ensures
            final(self)@.entities == (match entity_pos(old(self)@.entities, id@) {
                Some(k) => old(self)@.entities.remove(k as int),
                None => old(self)@.entities,
            }),
            final(self)@.links == old(self)@.links,
            final(self)@.contains == old(self)@.contains,
            old(self)@.wf() ==> final(self)@.wf(),
    {
        match self.position(id) {
            Some(k) => {
                self.entities.remove(k);
                assert(self@.entities =~= old(self)@.entities.remove(k as int));
                assert(self@.links =~= old(self)@.links);
                assert(self@.contains =~= old(self)@.contains);
            },
            None => {},
        }
    }
}


/// Containment lists restricted to kept ids: kept children of kept parents,
/// lists left empty dropped.
pub open spec fn restrict_contains(
    cs: Seq<ContainsView>,
    kk: spec_fn(Seq<char>) -> bool,
) -> Seq<ContainsView>
    decreases cs.len(),
{
    if cs.len() == 0 {
        Seq::empty()
    } else {
        let r = restrict_contains(cs.drop_last(), kk);
        let c = cs.last();
        let f = c.1.filter(kk);
        if kk(c.0) && f.len() > 0 {
            r.push((c.0, f))
        } else {
            r
        }
    }
}

impl IRView {
    /// The ids that are kept when restricting to `keep`: entities it accepts.
    pub open spec fn kept(self, keep: spec_fn(Seq<char>) -> bool) -> spec_fn(Seq<char>) -> bool {
        |id: Seq<char>| self.has(id) && keep(id)
    }

    /// The topology restricted to the entities whose id `keep` accepts: their
    /// links among themselves and their containment.
    pub open spec fn restrict(self, keep: spec_fn(Seq<char>) -> bool) -> IRView {
        let kk = self.kept(keep);
        IRView {
            entities: self.entities.filter(|e: EntityView| kk(e.0)),
            links: self.links.filter(|l: LinkView| kk(l.0) && kk(l.1)),
            contains: restrict_contains(self.contains, kk),
        }
    }
}

/// A set of names.
pub type NameSet = StringHashMap<()>;

impl TopologyIR {
    /// The topology restricted to the entities whose id is in `keep`
    /// (`inside`) or not in it (`!inside`).
    pub fn restrict_by(&self, keep: &NameSet, inside: bool) -> (r: TopologyIR)
        ensures
            r@ == self@.restrict(|id: Seq<char>| keep@.contains_key(id) == inside),
    {
        let ghost sv = self@;
        let ghost keepf = |id: Seq<char>| keep@.contains_key(id) == inside;
        let ghost kk = sv.kept(keepf);
        // Entities, and the set of kept ids.
        let mut kept: NameSet = StringHashMap::new();
        let mut entities: Vec<Entity> = Vec::new();
        let mut i: usize = 0;
        let ghost ev = sv.entities;
        assert(ev.take(0) =~= Seq::<EntityView>::empty());
        proof {
            reveal(Seq::filter);
        }
        while i < self.entities.len()
            invariant
                i <= self.entities@.len(),
                ev == sv.entities,
                sv == self@,
                keepf == (|id: Seq<char>| keep@.contains_key(id) == inside),
                kk == sv.kept(keepf),
                entities@.map_values(|e: Entity| e@) == ev.take(i as int).filter(
                    |e: EntityView| kk(e.0),
                ),
                forall|id: Seq<char>|
                    kept@.contains_key(id) <==> (keep@.contains_key(id) == inside && exists|j: int|
                        0 <= j < i && ev[j].0 == id),
            decreases self.entities.len() - i,
        {
            let e = &self.entities[i];
            let ghost prev = entities@.map_values(|e: Entity| e@);
            assert(ev[i as int] == e@);
            assert(ev.take(i + 1).drop_last() =~= ev.take(i as int));
            proof {
                reveal(Seq::filter);
                lemma_pos_props(ev, e.id@);
                let k = entity_pos(ev, e.id@)->Some_0;
                if k > i {
                    assert(ev[i as int].0 == e.id@);
                }
                assert(sv.has(e.id@));
            }
            if keep.contains_key(e.id.0.as_str()) == inside {
                kept.insert(e.id.0.clone(), ());
                let c = e.copy();
                entities.push(c);
                assert(entities@.map_values(|e: Entity| e@) =~= prev.push(c@));
            }
            assert forall|id: Seq<char>|
                kept@.contains_key(id) <==> (keep@.contains_key(id) == inside && exists|j: int|
                    0 <= j < i + 1 && ev[j].0 == id) by {
                if keep@.contains_key(id) == inside && ev[i as int].0 == id {
                    assert(kept@.contains_key(id));
                }
                if keep@.contains_key(id) == inside && exists|j: int| 0 <= j < i && ev[j].0 == id {
                    assert(kept@.contains_key(id));
                }
            }
            i = i + 1;
        }
        assert(ev.take(i as int) =~= ev);
        assert forall|id: Seq<char>| kept@.contains_key(id) == kk(id) by {
            lemma_pos_props(ev, id);
            if kept@.contains_key(id) {
                let j = choose|j: int| 0 <= j < i && ev[j].0 == id;
                assert(sv.has(id));
            }
            if kk(id) {
                let k = entity_pos(ev, id)->Some_0;
                assert(ev[k as int].0 == id);
            }
        }
        // Links.
        let mut links: Vec<Link> = Vec::new();
        let ghost lv = sv.links;
        let ghost lpred = |l: LinkView| kk(l.0) && kk(l.1);
        let mut q: usize = 0;
        assert(lv.take(0) =~= Seq::<LinkView>::empty());
        while q < self.links.len()
            invariant
                q <= self.links@.len(),
                lv == sv.links,
                sv == self@,
                lpred == (|l: LinkView| kk(l.0) && kk(l.1)),
                forall|id: Seq<char>| kept@.contains_key(id) == kk(id),
                links@.map_values(|l: Link| l@) == lv.take(q as int).filter(lpred),
            decreases self.links.len() - q,
        {
            let l = &self.links[q];
            let ghost prev = links@.map_values(|l: Link| l@);
            assert(lv[q as int] == l@);
            assert(lv.take(q + 1).drop_last() =~= lv.take(q as int));
            proof {
                reveal(Seq::filter);
            }
            if kept.contains_key(l.from.0.as_str()) && kept.contains_key(l.to.0.as_str()) {
                let c = Link { from: l.from.copy(), to: l.to.copy(), weight: l.weight };
                links.push(c);
                assert(links@.map_values(|l: Link| l@) =~= prev.push(c@));
            }
            q = q + 1;
        }
        assert(lv.take(q as int) =~= lv);
        // Containment.
        let mut contains: Vec<(Id, Vec<Id>)> = Vec::new();
        let ghost cv = sv.contains;
        let mut c: usize = 0;
        assert(cv.take(0) =~= Seq::<ContainsView>::empty());
        while c < self.contains.len()
            invariant
                c <= self.contains@.len(),
                cv == sv.contains,
                sv == self@,
                forall|id: Seq<char>| kept@.contains_key(id) == kk(id),
                contains@.map_values(|c: (Id, Vec<Id>)| (c.0@, id_views(c.1@)))
                    == restrict_contains(cv.take(c as int), kk),
            decreases self.contains.len() - c,
        {
            let (p, children) = (&self.contains[c].0, &self.contains[c].1);
            assert(cv[c as int] == (p@, id_views(children@)));
            assert(cv.take(c + 1).drop_last() =~= cv.take(c as int));
            let ghost prev = contains@.map_values(|c: (Id, Vec<Id>)| (c.0@, id_views(c.1@)));
            let mut kept_children: Vec<Id> = Vec::new();
            let ghost chv = id_views(children@);
            let mut k: usize = 0;
            assert(chv.take(0) =~= Seq::<Seq<char>>::empty());
            while k < children.len()
                invariant
                    k <= children@.len(),
                    chv == id_views(children@),
                    forall|id: Seq<char>| kept@.contains_key(id) == kk(id),
                    id_views(kept_children@) == chv.take(k as int).filter(kk),
                decreases children.len() - k,
            {
                let ghost pk = id_views(kept_children@);
                assert(chv.take(k + 1).drop_last() =~= chv.take(k as int));
                assert(chv[k as int] == children@[k as int]@);
                proof {
                    reveal(Seq::filter);
                }
                if kept.contains_key(children[k].0.as_str()) {
                    let cid = children[k].copy();
                    kept_children.push(cid);
                    assert(id_views(kept_children@) =~= pk.push(cid@));
                }
                k = k + 1;
            }
            assert(chv.take(k as int) =~= chv);
            if kept.contains_key(p.0.as_str()) && kept_children.len() > 0 {
                let entry = (p.copy(), kept_children);
                contains.push(entry);
                assert(contains@.map_values(|c: (Id, Vec<Id>)| (c.0@, id_views(c.1@))) =~= prev.push(
                    (p@, chv.filter(kk)),
                ));
            }
            c = c + 1;
        }
        assert(cv.take(c as int) =~= cv);
        let r = TopologyIR { entities, links, contains };
        assert(r@.entities == sv.restrict(keepf).entities);
        assert(r@.links == sv.restrict(keepf).links);
        assert(r@.contains == sv.restrict(keepf).contains);
        r
    }
}


/// The entities have the same ids and kinds, position by position.
pub open spec fn same_shape(a: Seq<EntityView>, b: Seq<EntityView>) -> bool {
    a.len() == b.len() && forall|j: int| 0 <= j < a.len() ==> #[trigger] a[j].0 == b[j].0 && a[j].1 == b[j].1
}

/// `e` is the added entity `ev` or one of `es` with another id.
#[verifier::opaque]
pub open spec fn came_from(es: Seq<EntityView>, ev: EntityView, e: EntityView) -> bool {
    e == ev || exists|q: int| 0 <= q < es.len() && es[q] == e && es[q].0 != ev.0
}

/// `e` is one of `n`.
#[verifier::opaque]
pub open spec fn stays_in(n: Seq<EntityView>, e: EntityView) -> bool {
    exists|j: int| 0 <= j < n.len() && n[j] == e
}

/// What `add_entity` does to entities with distinct ids: the new entity
/// has its kind, every entity is the new one or an old one with another id,
/// and every old one with another id stays.
pub proof fn lemma_with_entity(es: Seq<EntityView>, ev: EntityView)
    requires
        forall|a: int, b: int| 0 <= a < b < es.len() ==> es[a].0 != es[b].0,
    ensures
        kind_is(with_entity(es, ev), ev.0, ev.1),
        forall|j: int| 0 <= j < with_entity(es, ev).len() ==> came_from(es, ev, #[trigger] with_entity(es, ev)[j]),
        forall|q: int| 0 <= q < es.len() && es[q].0 != ev.0 ==> stays_in(with_entity(es, ev), #[trigger] es[q]),
{
    reveal(came_from);
    reveal(stays_in);
    lemma_pos_props(es, ev.0);
    let n = with_entity(es, ev);
    match entity_pos(es, ev.0) {
        Some(p) => {
            assert(n[p as int] == ev);
            assert forall|j: int| 0 <= j < n.len() && #[trigger] n[j].0 == ev.0 implies n[j].1 == ev.1 by {
                if j != p {
                    assert(n[j] == es[j]);
                    if j < p {
                        assert(es[j].0 != es[p as int].0);
                    } else {
                        assert(es[p as int].0 != es[j].0);
                    }
                }
            }
            assert forall|j: int| 0 <= j < n.len() implies came_from(es, ev, #[trigger] n[j]) by {
                if j != p {
                    assert(n[j] == es[j]);
                    if j < p {
                        assert(es[j].0 != es[p as int].0);
                    } else {
                        assert(es[p as int].0 != es[j].0);
                    }
                }
            }
            assert forall|q: int| 0 <= q < es.len() && es[q].0 != ev.0 implies stays_in(n, #[trigger] es[q]) by {
                assert(q != p);
                assert(n[q] == es[q]);
            }
        },
        None => {
            assert(n[es.len() as int] == ev);
            assert forall|j: int| 0 <= j < n.len() && #[trigger] n[j].0 == ev.0 implies n[j].1 == ev.1 by {
                if j < es.len() {
                    assert(n[j] == es[j]);
                }
            }
            assert forall|j: int| 0 <= j < n.len() implies came_from(es, ev, #[trigger] n[j]) by {
                if j < es.len() {
                    assert(n[j] == es[j]);
                }
            }
            assert forall|q: int| 0 <= q < es.len() && es[q].0 != ev.0 implies stays_in(n, #[trigger] es[q]) by {
                assert(n[q] == es[q]);
            }
        },
    }
}

/// An entity with id `x` among `es` means `x` is there.
pub proof fn lemma_has(es: Seq<EntityView>, j: int, x: Seq<char>)
    requires
        0 <= j < es.len(),
        es[j].0 == x,
    ensures
        entity_pos(es, x) is Some,
{
    lemma_pos_props(es, x);
}

/// `same_shape` is transitive.
pub proof fn lemma_same_shape_trans(a: Seq<EntityView>, b: Seq<EntityView>, c: Seq<EntityView>)
    requires
        same_shape(a, b),
        same_shape(b, c),
    ensures
        same_shape(a, c),
{
    assert(a.len() == b.len() && b.len() == c.len());
    assert forall|j: int| 0 <= j < a.len() implies #[trigger] a[j].0 == c[j].0 && a[j].1 == c[j].1 by {
        assert(0 <= j < b.len());
        assert(a[j].0 == b[j].0);
        assert(a[j].1 == b[j].1);
        assert(b[j].0 == c[j].0);
        assert(b[j].1 == c[j].1);
    }
}

/// `x` is the name of one of `ids`.
pub open spec fn among(ids: Seq<Id>, x: Seq<char>) -> bool {
    exists|i: int| 0 <= i < ids.len() && ids[i]@ == x
}

/// The set of the names in `ids`.
pub fn name_set(ids: &[Id]) -> (s: NameSet)
    ensures
        forall|x: Seq<char>| s@.contains_key(x) <==> among(ids@, x),
{
    let mut s: NameSet = StringHashMap::new();
    let mut i: usize = 0;
    while i < ids.len()
        invariant
            i <= ids@.len(),
            forall|x: Seq<char>|
                s@.contains_key(x) <==> exists|j: int| 0 <= j < i && ids@[j]@ == x,
        decreases ids.len() - i,
    {
        s.insert(ids[i].0.clone(), ());
        assert forall|x: Seq<char>|
            s@.contains_key(x) <==> exists|j: int| 0 <= j < i + 1 && ids@[j]@ == x by {
            if x == ids@[i as int]@ {
                assert(ids@[i as int]@ == x);
            }
        }
        i = i + 1;
    }
    s
}

/// With each member of `s` that some list contains, `s` has that list's parent.
pub open spec fn upward_closed(cs: Seq<ContainsView>, s: spec_fn(Seq<char>) -> bool) -> bool {
    forall|k: int, j: int|
        0 <= k < cs.len() && 0 <= j < cs[k].1.len() && #[trigger] s(cs[k].1[j]) ==> s(cs[k].0)
}

/// `s` has every one of `targets`.
pub open spec fn has_all(targets: Seq<Id>, s: spec_fn(Seq<char>) -> bool) -> bool {
    forall|x: Seq<char>| among(targets, x) ==> #[trigger] s(x)
}

/// `keep` is the set of the targets and all their ancestors: the least set
/// that has the targets and is upward closed.
pub open spec fn ancestor_closure(
    cs: Seq<ContainsView>,
    targets: Seq<Id>,
    keep: spec_fn(Seq<char>) -> bool,
) -> bool {
    &&& has_all(targets, keep)
    &&& upward_closed(cs, keep)
    &&& forall|s: spec_fn(Seq<char>) -> bool|
        has_all(targets, s) && #[trigger] upward_closed(cs, s) ==> forall|x: Seq<char>|
            keep(x) ==> #[trigger] s(x)
}

/// The ancestor closure of a set of targets is unique.
pub proof fn lemma_ancestor_closure_unique(
    cs: Seq<ContainsView>,
    targets: Seq<Id>,
    a: spec_fn(Seq<char>) -> bool,
    b: spec_fn(Seq<char>) -> bool,
)
    requires
        ancestor_closure(cs, targets, a),
        ancestor_closure(cs, targets, b),
    ensures
        a == b,
{
    assert(upward_closed(cs, b));
    assert(upward_closed(cs, a));
    assert forall|x: Seq<char>| #[trigger] a(x) == b(x) by {
        if a(x) {
            assert(b(x));
        }
        if b(x) {
            assert(a(x));
        }
    }
    assert(a =~= b);
}

/// `keep` is the least set that has every name `t` accepts and is upward
/// closed: those names and all their ancestors.
pub open spec fn least_above(cs: Seq<ContainsView>, t: spec_fn(Seq<char>) -> bool, keep: spec_fn(Seq<char>) -> bool) -> bool {
    &&& forall|x: Seq<char>| t(x) ==> #[trigger] keep(x)
    &&& upward_closed(cs, keep)
    &&& forall|s: spec_fn(Seq<char>) -> bool|
        (forall|x: Seq<char>| t(x) ==> #[trigger] s(x)) && #[trigger] upward_closed(cs, s) ==> forall|x: Seq<char>|
            keep(x) ==> #[trigger] s(x)
}

/// The names `t` accepts together with all their ancestors in `cs`.
pub open spec fn above(cs: Seq<ContainsView>, t: spec_fn(Seq<char>) -> bool) -> spec_fn(Seq<char>) -> bool {
    choose|keep: spec_fn(Seq<char>) -> bool| least_above(cs, t, keep)
}

/// The ancestor closure of targets is `above` of the names they give.
pub proof fn lemma_above(cs: Seq<ContainsView>, targets: Seq<Id>, t: spec_fn(Seq<char>) -> bool, keep: spec_fn(Seq<char>) -> bool)
    requires
        ancestor_closure(cs, targets, keep),
        forall|x: Seq<char>| #[trigger] among(targets, x) <==> t(x),
    ensures
        above(cs, t) == keep,
        least_above(cs, t, above(cs, t)),
{
    assert forall|s: spec_fn(Seq<char>) -> bool|
        (forall|x: Seq<char>| t(x) ==> #[trigger] s(x)) && #[trigger] upward_closed(cs, s) implies forall|x: Seq<char>|
            keep(x) ==> #[trigger] s(x) by {
        assert(has_all(targets, s));
    }
    assert(least_above(cs, t, keep));
    let k1 = above(cs, t);
    assert(least_above(cs, t, k1));
    assert(upward_closed(cs, keep));
    assert(upward_closed(cs, k1));
    assert forall|x: Seq<char>| #[trigger] k1(x) == keep(x) by {
        if k1(x) {
            assert(keep(x));
        }
        if keep(x) {
            assert(k1(x));
        }
    }
    assert(k1 =~= keep);
}

/// Keeping the ancestor closure of `targets` is keeping the names listed in
/// some `ids` that lists exactly that closure.
pub proof fn lemma_closure_is_ids(v: IRView, targets: Seq<Id>, keep: spec_fn(Seq<char>) -> bool, ids: Seq<Id>)
    requires
        ancestor_closure(v.contains, targets, keep),
        forall|x: Seq<char>| #[trigger] among(ids, x) <==> keep(x),
    ensures
        v.restrict(keep) == v.restrict(|x: Seq<char>| among(ids, x)),
{
    assert(keep =~= (|x: Seq<char>| among(ids, x)));
}

/// Keeping the entities that `ids` names and removing them split the
/// entities: each entity lands in exactly one of the two results.
pub proof fn lemma_ids_complement(v: IRView, ids: Seq<Id>)
    ensures
        v.restrict(|x: Seq<char>| among(ids, x)).entities.len() + v.restrict(|x: Seq<char>| !among(ids, x)).entities.len()
            == v.entities.len(),
        forall|j: int|
            0 <= j < v.entities.len() ==> (v.restrict(|x: Seq<char>| among(ids, x)).entities.contains(#[trigger] v.entities[j])
                <==> among(ids, v.entities[j].0)) && (v.restrict(|x: Seq<char>| !among(ids, x)).entities.contains(v.entities[j])
                <==> !among(ids, v.entities[j].0)),
{
    let es = v.entities;
    let pa = |e: EntityView| v.kept(|x: Seq<char>| among(ids, x))(e.0);
    let pb = |e: EntityView| v.kept(|x: Seq<char>| !among(ids, x))(e.0);
    assert forall|j: int| 0 <= j < es.len() implies v.has(#[trigger] es[j].0) by {
        lemma_pos_props(es, es[j].0);
        if entity_pos(es, es[j].0) is None {
            assert(es[j].0 != es[j].0);
        }
    }
    lemma_filter_pair_len(es, pa, pb);
    assert forall|j: int| 0 <= j < es.len() implies (v.restrict(|x: Seq<char>| among(ids, x)).entities.contains(#[trigger] es[j])
        <==> among(ids, es[j].0)) && (v.restrict(|x: Seq<char>| !among(ids, x)).entities.contains(es[j])
        <==> !among(ids, es[j].0)) by {
        assert(v.has(es[j].0));
        if among(ids, es[j].0) {
            es.lemma_filter_contains(pa, j);
        } else {
            es.lemma_filter_contains(pb, j);
        }
        if es.filter(pa).contains(es[j]) {
            let k = choose|k: int| 0 <= k < es.filter(pa).len() && es.filter(pa)[k] == es[j];
            es.lemma_filter_pred(pa, k);
        }
        if es.filter(pb).contains(es[j]) {
            let k = choose|k: int| 0 <= k < es.filter(pb).len() && es.filter(pb)[k] == es[j];
            es.lemma_filter_pred(pb, k);
        }
    }
}

/// Two filters whose tests exclude each other on `s` (and together accept
/// every element) split its length.
proof fn lemma_filter_pair_len(s: Seq<EntityView>, a: spec_fn(EntityView) -> bool, b: spec_fn(EntityView) -> bool)
    requires
        forall|j: int| 0 <= j < s.len() ==> (a(#[trigger] s[j]) <==> !b(s[j])),
    ensures
        s.filter(a).len() + s.filter(b).len() == s.len(),
    decreases s.len(),
{
    reveal(Seq::filter);
    if s.len() > 0 {
        let t = s.drop_last();
        assert forall|j: int| 0 <= j < t.len() implies (a(#[trigger] t[j]) <==> !b(t[j])) by {
            assert(t[j] == s[j]);
        }
        lemma_filter_pair_len(t, a, b);
        assert(s == t.push(s.last()));
        t.lemma_filter_push(s.last(), a);
        t.lemma_filter_push(s.last(), b);
    }
}

/// Number of lists whose parent is not in `s`.
pub open spec fn pending(cs: Seq<ContainsView>, s: spec_fn(Seq<char>) -> bool) -> nat
    decreases cs.len(),
{
    if cs.len() == 0 {
        0
    } else {
        pending(cs.drop_last(), s) + if s(cs.last().0) {
            0nat
        } else {
            1nat
        }
    }
}

proof fn lemma_pending_mono(
    cs: Seq<ContainsView>,
    a: spec_fn(Seq<char>) -> bool,
    b: spec_fn(Seq<char>) -> bool,
)
    requires
        forall|x: Seq<char>| #[trigger] a(x) ==> b(x),
    ensures
        pending(cs, b) <= pending(cs, a),
        (exists|k: int| 0 <= k < cs.len() && !a(cs[k].0) && b(cs[k].0)) ==> pending(cs, b)
            < pending(cs, a),
    decreases cs.len(),
{
    if cs.len() > 0 {
        lemma_pending_mono(cs.drop_last(), a, b);
        if exists|k: int| 0 <= k < cs.len() && !a(cs[k].0) && b(cs[k].0) {
            let k = choose|k: int| 0 <= k < cs.len() && !a(cs[k].0) && b(cs[k].0);
            if k < cs.len() - 1 {
                assert(cs.drop_last()[k] == cs[k]);
            }
        }
    }
}

impl TopologyIR {
    /// Keep only the entities whose id is one of `ids`.
    pub fn filter_by_ids(&self, ids: &[Id]) -> (r: TopologyIR)
        ensures
            r@ == self@.restrict(|x: Seq<char>| among(ids@, x)),
    {
        let s = name_set(ids);
        let r = self.restrict_by(&s, true);
        assert((|id: Seq<char>| s@.contains_key(id) == true) =~= (|x: Seq<char>| among(ids@, x)));
        r
    }

    /// Remove the entities whose id is one of `ids`.
    pub fn filter_remove_ids(&self, ids: &[Id]) -> (r: TopologyIR)
        ensures
            r@ == self@.restrict(|x: Seq<char>| !among(ids@, x)),
    {
        let s = name_set(ids);
        let r = self.restrict_by(&s, false);
        assert((|id: Seq<char>| s@.contains_key(id) == false) =~= (|x: Seq<char>| !among(ids@, x)));
        r
    }

    /// Keep the target entities together with all their ancestors in the
    /// containment tree (the switches above them).
    pub fn filter_with_topology(&self, target_ids: &[Id]) -> (r: TopologyIR)
        ensures
            exists|keep: spec_fn(Seq<char>) -> bool|
                #[trigger] ancestor_closure(self@.contains, target_ids@, keep) && r@ == self@.restrict(keep),
    {
        let keep = self.ancestor_set(target_ids);
        let ghost kf = |x: Seq<char>| keep@.contains_key(x);
        let r = self.restrict_by(&keep, true);
        assert((|id: Seq<char>| keep@.contains_key(id) == true) =~= kf);
        assert(ancestor_closure(self@.contains, target_ids@, kf));
        r
    }

    /// The names of the targets together with all their ancestors in the
    /// containment lists.
    pub fn ancestor_set(&self, target_ids: &[Id]) -> (keep: NameSet)
        ensures
            ancestor_closure(self@.contains, target_ids@, |x: Seq<char>| keep@.contains_key(x)),
    {
        let ghost cs = self@.contains;
        let ghost targets = target_ids@;
        let mut keep = name_set(target_ids);
        let mut changed = true;
        while changed
            invariant
                cs == self@.contains,
                targets == target_ids@,
                forall|x: Seq<char>| among(targets, x) ==> #[trigger] keep@.contains_key(x),
                forall|s: spec_fn(Seq<char>) -> bool|
                    has_all(targets, s) && #[trigger] upward_closed(cs, s) ==> forall|x: Seq<char>|
                        keep@.contains_key(x) ==> #[trigger] s(x),
                !changed ==> upward_closed(cs, |x: Seq<char>| keep@.contains_key(x)),
            decreases pending(cs, |x: Seq<char>| keep@.contains_key(x)) + if changed {
                1nat
            } else {
                0nat
            },
        {
            let ghost start = keep@;
            changed = false;
            let mut k: usize = 0;
            while k < self.contains.len()
                invariant
                    cs == self@.contains,
                    targets == target_ids@,
                    k <= cs.len(),
                    forall|x: Seq<char>| start.contains_key(x) ==> keep@.contains_key(x),
                    forall|x: Seq<char>| among(targets, x) ==> #[trigger] keep@.contains_key(x),
                    forall|s: spec_fn(Seq<char>) -> bool|
                        has_all(targets, s) && #[trigger] upward_closed(cs, s) ==> forall|x: Seq<char>|
                            keep@.contains_key(x) ==> #[trigger] s(x),
                    !changed ==> keep@ == start,
                    changed ==> pending(cs, |x: Seq<char>| keep@.contains_key(x)) < pending(
                        cs,
                        |x: Seq<char>| start.contains_key(x),
                    ),
                    !changed ==> forall|a: int, j: int|
                        0 <= a < k && 0 <= j < cs[a].1.len() && keep@.contains_key(cs[a].1[j])
                            ==> keep@.contains_key(cs[a].0),
                decreases self.contains.len() - k,
            {
                let parent = &self.contains[k].0;
                let children = &self.contains[k].1;
                assert(cs[k as int] == (parent@, id_views(children@)));
                let mut j: usize = 0;
                while j < children.len()
                    invariant
                        cs == self@.contains,
                        targets == target_ids@,
                        k < cs.len(),
                        cs[k as int] == (parent@, id_views(children@)),
                        j <= children@.len(),
                        forall|x: Seq<char>| start.contains_key(x) ==> keep@.contains_key(x),
                        forall|x: Seq<char>| among(targets, x) ==> #[trigger] keep@.contains_key(x),
                        forall|s: spec_fn(Seq<char>) -> bool|
                            has_all(targets, s) && #[trigger] upward_closed(cs, s) ==> forall|
                                x: Seq<char>,
                            | keep@.contains_key(x) ==> #[trigger] s(x),
                        !changed ==> keep@ == start,
                        changed ==> pending(cs, |x: Seq<char>| keep@.contains_key(x)) < pending(
                            cs,
                            |x: Seq<char>| start.contains_key(x),
                        ),
                        !changed ==> forall|a: int, q: int|
                            0 <= a < k && 0 <= q < cs[a].1.len() && keep@.contains_key(cs[a].1[q])
                                ==> keep@.contains_key(cs[a].0),
                        !changed ==> forall|q: int|
                            0 <= q < j && keep@.contains_key(cs[k as int].1[q])
                                ==> keep@.contains_key(cs[k as int].0),
                    decreases children.len() - j,
                {
                    assert(cs[k as int].1[j as int] == children@[j as int]@);
                    if keep.contains_key(children[j].0.as_str()) && !keep.contains_key(parent.0.as_str()) {
                        let ghost before = keep@;
                        keep.insert(parent.0.clone(), ());
                        proof {
                            let kb = |x: Seq<char>| before.contains_key(x);
                            let ka = |x: Seq<char>| keep@.contains_key(x);
                            let ks = |x: Seq<char>| start.contains_key(x);
                            lemma_pending_mono(cs, ks, ka);
                            lemma_pending_mono(cs, kb, ka);
                            assert(!kb(cs[k as int].0) && ka(cs[k as int].0));
                            assert forall|s: spec_fn(Seq<char>) -> bool|
                                has_all(targets, s) && #[trigger] upward_closed(cs, s) implies forall|
                                    x: Seq<char>,
                                | keep@.contains_key(x) ==> #[trigger] s(x) by {
                                assert(s(cs[k as int].1[j as int]));
                            }
                        }
                        changed = true;
                    }
                    j = j + 1;
                }
                k = k + 1;
            }
        }
        let ghost kf = |x: Seq<char>| keep@.contains_key(x);
        assert(ancestor_closure(cs, targets, kf));
        keep
    }

    /// Insert (or update) a metadata key on the entity `id`, if it exists.
    pub fn set_meta(&mut self, id: &Id, key: &str, value: String)
        ensures
            final(self)@.entities == (match entity_pos(old(self)@.entities, id@) {
                Some(k) => old(self)@.entities.update(
                    k as int,
                    (
                        old(self)@.entities[k as int].0,
                        old(self)@.entities[k as int].1,
                        old(self)@.entities[k as int].2.insert(key@, value@),
                    ),
                ),
                None => old(self)@.entities,
            }),
            final(self)@.links == old(self)@.links,
            final(self)@.contains == old(self)@.contains,
            same_shape(old(self)@.entities, final(self)@.entities),
            old(self)@.wf() ==> final(self)@.wf(),
    {
        match self.position(id) {
            Some(k) => {
                let mut e = self.entities.remove(k);
                e.meta.insert(String::from_str(key), value);
                self.entities.insert(k, e);
                assert(self@.entities =~= old(self)@.entities.update(
                    k as int,
                    (
                        old(self)@.entities[k as int].0,
                        old(self)@.entities[k as int].1,
                        old(self)@.entities[k as int].2.insert(key@, value@),
                    ),
                ));
                assert(self@.links =~= old(self)@.links);
                assert(self@.contains =~= old(self)@.contains);
            },
            None => {},
        }
    }
}


impl TopologyIR {
    /// Remove a metadata key from the entity `id`, if it exists.
    pub fn remove_meta(&mut self, id: &Id, key: &str)
        ensures
            final(self)@.entities == (match entity_pos(old(self)@.entities, id@) {
                Some(k) => old(self)@.entities.update(
                    k as int,
                    (
                        old(self)@.entities[k as int].0,
                        old(self)@.entities[k as int].1,
                        old(self)@.entities[k as int].2.remove(key@),
                    ),
                ),
                None => old(self)@.entities,
            }),
            final(self)@.links == old(self)@.links,
            final(self)@.contains == old(self)@.contains,
            same_shape(old(self)@.entities, final(self)@.entities),
            old(self)@.wf() ==> final(self)@.wf(),
    {
        match self.position(id) {
            Some(k) => {
                let mut e = self.entities.remove(k);
                let _ = e.meta.remove(key);
                self.entities.insert(k, e);
                assert(self@.entities =~= old(self)@.entities.update(
                    k as int,
                    (
                        old(self)@.entities[k as int].0,
                        old(self)@.entities[k as int].1,
                        old(self)@.entities[k as int].2.remove(key@),
                    ),
                ));
                assert(self@.links =~= old(self)@.links);
                assert(self@.contains =~= old(self)@.contains);
            },
            None => {},
        }
    }
}

/// `x` is the id of an entity at an index where `mask` is set.
pub open spec fn masked(es: Seq<EntityView>, mask: Seq<bool>, x: Seq<char>) -> bool {
    exists|i: int| 0 <= i < es.len() && i < mask.len() && mask[i] && es[i].0 == x
}

/// The ids of the entities at indices where `mask` is set.
pub open spec fn masked_set(es: Seq<EntityView>, mask: Seq<bool>) -> spec_fn(Seq<char>) -> bool {
    |x: Seq<char>| masked(es, mask, x)
}

impl TopologyIR {
    /// Keep only the entities on which `predicate` holds, with the links
    /// and containment among them.
    pub fn filter<F: Fn(&Entity) -> bool>(&self, predicate: F) -> (r: TopologyIR)
        requires
            forall|i: int|
                0 <= i < self.entities@.len() ==> call_requires(predicate, (&self.entities@[i],)),
        ensures
            exists|mask: Seq<bool>|
                mask.len() == self.entities@.len() && (forall|i: int|
                    0 <= i < mask.len() ==> call_ensures(
                        predicate,
                        (&self.entities@[i],),
                        #[trigger] mask[i],
                    )) && r@ == self@.restrict(#[trigger] masked_set(self@.entities, mask)),
    {
        let ghost es = self@.entities;
        let mut keep: NameSet = StringHashMap::new();
        let ghost mut mask: Seq<bool> = Seq::empty();
        let mut i: usize = 0;
        while i < self.entities.len()
            invariant
                es == self@.entities,
                i <= self.entities@.len(),
                mask.len() == i,
                forall|j: int|
                    0 <= j < self.entities@.len() ==> call_requires(predicate, (&self.entities@[j],)),
                forall|j: int|
                    0 <= j < i ==> call_ensures(predicate, (&self.entities@[j],), #[trigger] mask[j]),
                forall|x: Seq<char>| keep@.contains_key(x) <==> masked(es, mask, x),
            decreases self.entities.len() - i,
        {
            let b = predicate(&self.entities[i]);
            assert(es[i as int].0 == self.entities@[i as int].id@);
            if b {
                keep.insert(self.entities[i].id.0.clone(), ());
            }
            proof {
                let m2 = mask.push(b);
                assert forall|x: Seq<char>| keep@.contains_key(x) <==> masked(es, m2, x) by {
                    if masked(es, m2, x) {
                        let j = choose|j: int| 0 <= j < es.len() && j < m2.len() && m2[j] && es[j].0 == x;
                        if j < i {
                            assert(mask[j] == m2[j]);
                        }
                    }
                    if masked(es, mask, x) {
                        let j = choose|j: int| 0 <= j < es.len() && j < mask.len() && mask[j] && es[j].0 == x;
                        assert(m2[j] == mask[j]);
                    }
                    if b && x == es[i as int].0 {
                        assert(m2[i as int]);
                    }
                }
                assert forall|j: int| 0 <= j < i + 1 implies call_ensures(
                    predicate,
                    (&self.entities@[j],),
                    #[trigger] m2[j],
                ) by {
                    if j < i {
                        assert(m2[j] == mask[j]);
                    }
                }
                mask = m2;
            }
            i = i + 1;
        }
        let r = self.restrict_by(&keep, true);
        let ghost sv = self@;
        let ghost f = |id: Seq<char>| keep@.contains_key(id) == true;
        let ghost g = masked_set(es, mask);
        assert(f =~= g);
        assert(r@ == self@.restrict(masked_set(es, mask)));
        r
    }
}

/// One step of a filter chain: keep only the named ids, or remove them.
pub enum IdFilter {
    Keep(NameSet),
    Remove(NameSet),
}

/// `x` passes the filter `f`.
pub open spec fn passes(f: IdFilter, x: Seq<char>) -> bool {
    match f {
        IdFilter::Keep(s) => s@.contains_key(x),
        IdFilter::Remove(s) => !s@.contains_key(x),
    }
}

/// `x` passes every filter of `fs`.
pub open spec fn passes_all(fs: Seq<IdFilter>, x: Seq<char>) -> bool {
    forall|i: int| 0 <= i < fs.len() ==> passes(#[trigger] fs[i], x)
}

/// Builder that chains several id filters over one topology.
pub struct FilterChain<'a> {
    pub ir: &'a TopologyIR,
    pub filters: Vec<IdFilter>,
}

impl TopologyIR {
    /// Start a filter chain over this topology.
    pub fn filter_chain(&self) -> (c: FilterChain<'_>)
        ensures
            c.ir == self,
            c.filters@.len() == 0,
    {
        FilterChain::new(self)
    }
}

impl<'a> FilterChain<'a> {
    pub fn new(ir: &'a TopologyIR) -> (c: Self)
        ensures
            c.ir == ir,
            c.filters@.len() == 0,
    {
        FilterChain { ir, filters: Vec::new() }
    }

    /// Keep only the entities for which `predicate` holds.  The chain is
    /// over a fixed topology, so the predicate is asked of every entity now
    /// and the filter keeps the ids of those it accepted.
    pub fn filter<F: Fn(&Entity) -> bool>(self, predicate: F) -> (c: Self)
        requires
            self.ir@.wf(),
            forall|j: int| 0 <= j < self.ir.entities@.len() ==> predicate.requires((&self.ir.entities@[j],)),
        ensures
            c.ir == self.ir,
            c.filters@.len() == self.filters@.len() + 1,
            forall|i: int| 0 <= i < self.filters@.len() ==> c.filters@[i] == self.filters@[i],
            forall|j: int|
                0 <= j < self.ir.entities@.len() ==> (passes(c.filters@.last(), self.ir.entities@[j]@.0)
                    ==> predicate.ensures((&self.ir.entities@[j],), true)) && (!passes(
                    c.filters@.last(),
                    self.ir.entities@[j]@.0,
                ) ==> predicate.ensures((&self.ir.entities@[j],), false)),
            forall|x: Seq<char>| passes(#[trigger] c.filters@.last(), x) ==> self.ir@.has(x),
    {
        let ghost es = self.ir@.entities;
        let mut keep: NameSet = StringHashMap::new();
        let mut i: usize = 0;
        while i < self.ir.entities.len()
            invariant
                es == self.ir@.entities,
                self.ir@.wf(),
                i <= es.len(),
                forall|j: int| 0 <= j < self.ir.entities@.len() ==> predicate.requires((&self.ir.entities@[j],)),
                forall|j: int|
                    0 <= j < i ==> (keep@.contains_key(self.ir.entities@[j]@.0) ==> predicate.ensures(
                        (&self.ir.entities@[j],),
                        true,
                    )) && (!keep@.contains_key(self.ir.entities@[j]@.0) ==> predicate.ensures(
                        (&self.ir.entities@[j],),
                        false,
                    )),
                forall|x: Seq<char>| keep@.contains_key(x) ==> exists|j: int| 0 <= j < i && es[j].0 == x,
            decreases self.ir.entities.len() - i,
        {
            let e = &self.ir.entities[i];
            assert(es[i as int] == self.ir.entities@[i as int]@);
            let b = predicate(e);
            if b {
                let ghost before = keep@;
                keep.insert(e.id.0.clone(), ());
                proof {
                    assert forall|j: int| 0 <= j < i implies (keep@.contains_key(self.ir.entities@[j]@.0) ==> predicate.ensures(
                        (&self.ir.entities@[j],),
                        true,
                    )) && (!keep@.contains_key(self.ir.entities@[j]@.0) ==> predicate.ensures(
                        (&self.ir.entities@[j],),
                        false,
                    )) by {
                        assert(es[j] == self.ir.entities@[j]@);
                        assert(es[j].0 != es[i as int].0);
                    }
                }
            }
            assert forall|x: Seq<char>| keep@.contains_key(x) implies exists|j: int| 0 <= j < i + 1 && es[j].0 == x by {
                if x == es[i as int].0 {
                    assert(es[i as int].0 == x);
                }
            }
            i = i + 1;
        }
        proof {
            assert forall|x: Seq<char>| keep@.contains_key(x) implies self.ir@.has(x) by {
                let j = choose|j: int| 0 <= j < i && es[j].0 == x;
                lemma_pos_props(es, x);
            }
        }
        let mut c = self;
        c.filters.push(IdFilter::Keep(keep));
        c
    }

    /// Keep only the specified ids.
    pub fn keep_ids(self, ids: Vec<Id>) -> (c: Self)
        ensures
            c.ir == self.ir,
            c.filters@.len() == self.filters@.len() + 1,
            forall|i: int| 0 <= i < self.filters@.len() ==> c.filters@[i] == self.filters@[i],
            forall|x: Seq<char>|
                passes(#[trigger] c.filters@.last(), x) <==> among(ids@, x),
    {
        let s = name_set(ids.as_slice());
        let mut c = self;
        c.filters.push(IdFilter::Keep(s));
        c
    }

    /// Remove the specified ids.
    pub fn remove_ids(self, ids: Vec<Id>) -> (c: Self)
        ensures
            c.ir == self.ir,
            c.filters@.len() == self.filters@.len() + 1,
            forall|i: int| 0 <= i < self.filters@.len() ==> c.filters@[i] == self.filters@[i],
            forall|x: Seq<char>|
                passes(#[trigger] c.filters@.last(), x) <==> !among(ids@, x),
    {
        let s = name_set(ids.as_slice());
        let mut c = self;
        c.filters.push(IdFilter::Remove(s));
        c
    }

    /// Build the filtered topology: the entities that pass every filter.
    pub fn build(self) -> (r: TopologyIR)
        ensures
            r@ == self.ir@.restrict(|x: Seq<char>| passes_all(self.filters@, x)),
    {
        let ghost es = self.ir@.entities;
        let mut keep: NameSet = StringHashMap::new();
        let mut i: usize = 0;
        while i < self.ir.entities.len()
            invariant
                es == self.ir@.entities,
                i <= es.len(),
                forall|x: Seq<char>|
                    keep@.contains_key(x) <==> (passes_all(self.filters@, x) && exists|j: int|
                        0 <= j < i && es[j].0 == x),
            decreases self.ir.entities.len() - i,
        {
            let id = &self.ir.entities[i].id;
            assert(es[i as int].0 == id@);
            let mut ok = true;
            let mut k: usize = 0;
            while k < self.filters.len()
                invariant
                    k <= self.filters@.len(),
                    ok <==> forall|q: int| 0 <= q < k ==> passes(#[trigger] self.filters@[q], id@),
                decreases self.filters.len() - k,
            {
                let p = match &self.filters[k] {
                    IdFilter::Keep(s) => s.contains_key(id.0.as_str()),
                    IdFilter::Remove(s) => !s.contains_key(id.0.as_str()),
                };
                assert(p == passes(self.filters@[k as int], id@));
                ok = ok && p;
                k = k + 1;
            }
            if ok {
                keep.insert(id.0.clone(), ());
            }
            assert forall|x: Seq<char>|
                keep@.contains_key(x) <==> (passes_all(self.filters@, x) && exists|j: int|
                    0 <= j < i + 1 && es[j].0 == x) by {
                if x == id@ && passes_all(self.filters@, x) {
                    assert(es[i as int].0 == x);
                }
            }
            i = i + 1;
        }
        let r = self.ir.restrict_by(&keep, true);
        let ghost sv = self.ir@;
        let ghost f = |id: Seq<char>| keep@.contains_key(id) == true;
        let ghost g = |x: Seq<char>| passes_all(self.filters@, x);
        assert forall|x: Seq<char>| #[trigger] sv.kept(f)(x) == sv.kept(g)(x) by {
            lemma_pos_props(es, x);
            if sv.has(x) && g(x) {
                let k = entity_pos(es, x)->Some_0;
                assert(es[k as int].0 == x);
            }
        }
        assert(sv.kept(f) =~= sv.kept(g));
        r
    }
}

impl TopologyIR {
    /// The containment list of `parent`, if it has one.
    pub fn children_of(&self, parent: &Id) -> (r: Option<&Vec<Id>>)
        ensures
            r is Some <==> parent_pos(self@.contains, parent@) is Some,
            r matches Some(v) ==> id_views(v@) == self@.children(parent@),
    {
        let ghost cv = self@.contains;
        proof {
            lemma_ppos_props(cv, parent@);
        }
        let mut i: usize = 0;
        while i < self.contains.len()
            invariant
                i <= self.contains@.len(),
                cv == self@.contains,
                forall|j: int| 0 <= j < i ==> cv[j].0 != parent@,
            decreases self.contains.len() - i,
        {
            assert(cv[i as int] == (self.contains@[i as int].0@, id_views(self.contains@[i as int].1@)));
            if self.contains[i].0.same(parent) {
                proof {
                    lemma_ppos_is(cv, parent@, i as int);
                }
                return Some(&self.contains[i].1);
            }
            i = i + 1;
        }
        proof {
            lemma_ppos_none(cv, parent@);
        }
        None
    }
}

impl Link {
    /// A copy of this link.
    pub fn copy(&self) -> (r: Link)
        ensures
            r@ == self@,
    {
        Link { from: self.from.copy(), to: self.to.copy(), weight: self.weight }
    }
}

/// A copy of a list of ids.
pub fn copy_ids(v: &Vec<Id>) -> (r: Vec<Id>)
    ensures
        id_views(r@) == id_views(v@),
{
    let mut r: Vec<Id> = Vec::new();
    let mut i: usize = 0;
    while i < v.len()
        invariant
            i <= v@.len(),
            id_views(r@) == id_views(v@.take(i as int)),
        decreases v.len() - i,
    {
        let ghost prev = id_views(r@);
        r.push(v[i].copy());
        assert(id_views(r@) =~= prev.push(v@[i as int]@));
        assert(id_views(v@.take(i + 1)) =~= id_views(v@.take(i as int)).push(v@[i as int]@));
        i = i + 1;
    }
    assert(v@.take(i as int) =~= v@);
    r
}

impl TopologyIR {
    /// A copy of this topology.
    pub fn copy(&self) -> (r: TopologyIR)
        ensures
            r@ == self@,
    {
        let mut entities: Vec<Entity> = Vec::new();
        let mut i: usize = 0;
        while i < self.entities.len()
            invariant
                i <= self.entities@.len(),
                entities@.map_values(|e: Entity| e@) == self@.entities.take(i as int),
            decreases self.entities.len() - i,
        {
            let ghost prev = entities@.map_values(|e: Entity| e@);
            let c = self.entities[i].copy();
            entities.push(c);
            assert(entities@.map_values(|e: Entity| e@) =~= prev.push(c@));
            assert(self@.entities.take(i + 1) =~= self@.entities.take(i as int).push(self@.entities[i as int]));
            i = i + 1;
        }
        let mut links: Vec<Link> = Vec::new();
        let mut j: usize = 0;
        while j < self.links.len()
            invariant
                j <= self.links@.len(),
                links@.map_values(|l: Link| l@) == self@.links.take(j as int),
            decreases self.links.len() - j,
        {
            let ghost prev = links@.map_values(|l: Link| l@);
            let c = self.links[j].copy();
            links.push(c);
            assert(links@.map_values(|l: Link| l@) =~= prev.push(c@));
            assert(self@.links.take(j + 1) =~= self@.links.take(j as int).push(self@.links[j as int]));
            j = j + 1;
        }
        let mut contains: Vec<(Id, Vec<Id>)> = Vec::new();
        let mut k: usize = 0;
        while k < self.contains.len()
            invariant
                k <= self.contains@.len(),
                contains@.map_values(|c: (Id, Vec<Id>)| (c.0@, id_views(c.1@))) == self@.contains.take(k as int),
            decreases self.contains.len() - k,
        {
            let ghost prev = contains@.map_values(|c: (Id, Vec<Id>)| (c.0@, id_views(c.1@)));
            let c = (self.contains[k].0.copy(), copy_ids(&self.contains[k].1));
            contains.push(c);
            assert(contains@.map_values(|c: (Id, Vec<Id>)| (c.0@, id_views(c.1@))) =~= prev.push((c.0@, id_views(c.1@))));
            assert(self@.contains.take(k + 1) =~= self@.contains.take(k as int).push(self@.contains[k as int]));
            k = k + 1;
        }
        assert(self@.entities.take(i as int) =~= self@.entities);
        assert(self@.links.take(j as int) =~= self@.links);
        assert(self@.contains.take(k as int) =~= self@.contains);
        TopologyIR { entities, links, contains }
    }
}

/// Every entity named `x` has kind `k`, and there is one.
pub open spec fn kind_is(es: Seq<EntityView>, x: Seq<char>, k: EntityKind) -> bool {
    &&& exists|j: int| 0 <= j < es.len() && #[trigger] es[j].0 == x
    &&& forall|j: int| 0 <= j < es.len() && #[trigger] es[j].0 == x ==> es[j].1 == k
}

/// The entities after `add_entity(e)`.
pub open spec fn with_entity(es: Seq<EntityView>, e: EntityView) -> Seq<EntityView> {
    match entity_pos(es, e.0) {
        Some(k) => es.update(k as int, e),
        None => es.push(e),
    }
}

/// Adding another entity keeps what `kind_is` says of `x`; adding `x` with
/// kind `k` makes it hold.
pub proof fn lemma_kind_after_add(es: Seq<EntityView>, e: EntityView, x: Seq<char>, k: EntityKind)
    ensures
        e.0 != x && kind_is(es, x, k) ==> kind_is(with_entity(es, e), x, k),
        e.0 == x && e.1 == k && (forall|j: int| 0 <= j < es.len() && #[trigger] es[j].0 == x ==> es[j].1 == k)
            ==> kind_is(with_entity(es, e), x, k),
{
    lemma_pos_props(es, e.0);
    let a = with_entity(es, e);
    if e.0 != x && kind_is(es, x, k) {
        let j0 = choose|j: int| 0 <= j < es.len() && #[trigger] es[j].0 == x;
        assert(a[j0].0 == x);
        assert forall|j: int| 0 <= j < a.len() && #[trigger] a[j].0 == x implies a[j].1 == k by {
            if j < es.len() {
                assert(a[j] == es[j] || a[j] == e);
            }
        }
    }
    if e.0 == x && e.1 == k && (forall|j: int| 0 <= j < es.len() && #[trigger] es[j].0 == x ==> es[j].1 == k) {
        match entity_pos(es, e.0) {
            Some(p) => {
                assert(a[p as int].0 == x);
            },
            None => {
                assert(a[es.len() as int].0 == x);
            },
        }
        assert forall|j: int| 0 <= j < a.len() && #[trigger] a[j].0 == x implies a[j].1 == k by {
            if j < es.len() {
                assert(a[j] == es[j] || a[j] == e);
            }
        }
    }
}

/// What `kind_is` says survives a change of metadata only.
pub proof fn lemma_kind_same_shape(a: Seq<EntityView>, b: Seq<EntityView>, x: Seq<char>, k: EntityKind)
    requires
        same_shape(a, b),
        kind_is(a, x, k),
    ensures
        kind_is(b, x, k),
{
    let j0 = choose|j: int| 0 <= j < a.len() && #[trigger] a[j].0 == x;
    assert(b[j0].0 == a[j0].0);
    assert forall|j: int| 0 <= j < b.len() && #[trigger] b[j].0 == x implies b[j].1 == k by {
        assert(a[j].0 == b[j].0 && a[j].1 == b[j].1);
    }
}

/// The containment lists after `add_contains(p, c)`.
pub open spec fn with_child(cs: Seq<ContainsView>, p: Seq<char>, c: Seq<char>) -> Seq<ContainsView> {
    match parent_pos(cs, p) {
        Some(k) => cs.update(k as int, (p, cs[k as int].1.push(c))),
        None => cs.push((p, seq![c])),
    }
}

/// After `add_contains(p, c)`, `p` has `c` appended and every other parent
/// keeps its children.
pub proof fn lemma_children_after_add(cs: Seq<ContainsView>, p: Seq<char>, c: Seq<char>, q: Seq<char>)
    ensures
        children_in(with_child(cs, p, c), q) == if q == p {
            children_in(cs, p).push(c)
        } else {
            children_in(cs, q)
        },
{
    lemma_ppos_props(cs, p);
    lemma_ppos_props(cs, q);
    let a = with_child(cs, p, c);
    match parent_pos(cs, p) {
        Some(k) => {
            if q == p {
                lemma_ppos_is(a, q, k as int);
            } else {
                match parent_pos(cs, q) {
                    Some(m) => {
                        lemma_ppos_is(a, q, m as int);
                    },
                    None => {
                        lemma_ppos_none(a, q);
                    },
                }
            }
        },
        None => {
            if q == p {
                lemma_ppos_is(a, q, cs.len() as int);
                assert(Seq::<Seq<char>>::empty().push(c) =~= seq![c]);
            } else {
                match parent_pos(cs, q) {
                    Some(m) => {
                        lemma_ppos_is(a, q, m as int);
                    },
                    None => {
                        lemma_ppos_none(a, q);
                    },
                }
            }
        },
    }
}

/// The children of `p` in containment lists `cs`.
pub open spec fn children_in(cs: Seq<ContainsView>, p: Seq<char>) -> Seq<Seq<char>> {
    match parent_pos(cs, p) {
        Some(k) => cs[k as int].1,
        None => Seq::empty(),
    }
}

/// The first missing endpoint of the links `ls` (a link's source before
/// its target), if any.
pub open spec fn first_missing(ls: Seq<LinkView>, v: IRView) -> Option<Seq<char>>
    decreases ls.len(),
{
    if ls.len() == 0 {
        None
    } else if !v.has(ls[0].0) {
        Some(ls[0].0)
    } else if !v.has(ls[0].1) {
        Some(ls[0].1)
    } else {
        first_missing(ls.drop_first(), v)
    }
}

/// How `{:?}` writes a string: in quotes, with escapes.
pub uninterp spec fn debug_quoted(s: Seq<char>) -> Seq<char>;

/// `format!("{:?}", s)`: its result is named `debug_quoted`.
#[verifier::external_body]
fn debug_text(s: &str) -> (r: String)
    ensures
        r@ == debug_quoted(s@),
{
    format!("{:?}", s)
}

/// The message for a link to a missing entity, given the entity's id as
/// `{:?}` writes it.
pub fn missing_entity_text(quoted: &str) -> (r: String)
    ensures
        r@ == "Missing entity Id("@ + quoted@ + ")"@,
{
    let mut m = String::from_str("Missing entity Id(");
    m.append(quoted);
    m.append(")");
    m
}

/// Check that every link joins two entities of the topology; the error
/// names the first missing one.
pub fn validate(ir: &TopologyIR) -> (r: Result<(), String>)
    ensures
        match first_missing(ir@.links, ir@) {
            None => r is Ok,
            Some(x) => r matches Err(m) && m@ == "Missing entity Id("@ + debug_quoted(x) + ")"@,
        },
{
    let ghost v = ir@;
    let ghost ls = v.links;
    let mut i: usize = 0;
    assert(ls.skip(0) =~= ls);
    while i < ir.links.len()
        invariant
            v == ir@,
            ls == v.links,
            i <= ls.len(),
            first_missing(ls, v) == first_missing(ls.skip(i as int), v),
        decreases ir.links.len() - i,
    {
        let l = &ir.links[i];
        assert(ls[i as int] == l@);
        assert(ls.skip(i as int)[0] == ls[i as int]);
        assert(ls.skip(i as int).drop_first() =~= ls.skip(i + 1));
        if !ir.contains_entity(&l.from) {
            let q = debug_text(l.from.0.as_str());
            return Err(missing_entity_text(q.as_str()));
        }
        if !ir.contains_entity(&l.to) {
            let q = debug_text(l.to.0.as_str());
            return Err(missing_entity_text(q.as_str()));
        }
        i = i + 1;
    }
    assert(ls.skip(i as int) =~= Seq::<LinkView>::empty());
    Ok(())
}

} // verus!
