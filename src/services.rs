//! The registry of advertised services, shared by the responder engines.
use vstd::prelude::*;
use crate::name::{copy_bytes, same_name, valid_labels, Name};

verus! {

/// One advertisement: a service type, an instance name, a port and the TXT payload.
pub struct ServiceData {
    pub typ: Name,
    pub name: Name,
    pub port: u16,
    pub txt: Vec<u8>,
}

/// What a `ServiceData` stands for.
pub struct ServiceModel {
    pub typ: Seq<Seq<u8>>,
    pub name: Seq<Seq<u8>>,
    pub port: u16,
    pub txt: Seq<u8>,
}

impl View for ServiceData {
    type V = ServiceModel;

    open spec fn view(&self) -> ServiceModel {
        ServiceModel { typ: self.typ@, name: self.name@, port: self.port, txt: self.txt@ }
    }
}

impl ServiceData {
    /// Both names are well formed.
    pub open spec fn wf(&self) -> bool {
        self.typ.wf() && self.name.wf()
    }

    /// Whether both names are well formed.
    pub fn validate(&self) -> (r: bool)
        ensures
            r == self.wf(),
    {
        self.typ.validate() && self.name.validate()
    }

    /// An equal copy.
    pub fn duplicate(&self) -> (r: ServiceData)
        ensures
            r@ == self@,
    {
        ServiceData {
            typ: self.typ.duplicate(),
            name: self.name.duplicate(),
            port: self.port,
            txt: copy_bytes(&self.txt),
        }
    }
}

/// A registered service and the id it was given.
pub struct ServiceEntry {
    pub id: usize,
    pub data: ServiceData,
}

/// The registry: the host name and the registered services in order of registration.
pub struct ServicesInner {
    hostname: Name,
    entries: Vec<ServiceEntry>,
}

/// What the registry holds: each id with its service, in order of registration.
pub type Entries = Seq<(usize, ServiceModel)>;

/// The id the next registration gets: one past the largest id in use, or zero.
pub open spec fn next_id(es: Entries) -> int
    decreases es.len(),
{
    if es.len() == 0 {
        0
    } else if next_id(es.drop_last()) > es.last().0 + 1 {
        next_id(es.drop_last())
    } else {
        es.last().0 + 1
    }
}

/// No two entries share an id.
pub open spec fn ids_unique(es: Entries) -> bool {
    forall|i: int, j: int| 0 <= i < j < es.len() ==> es[i].0 != es[j].0
}

/// The id is in use.
pub open spec fn has_id(es: Entries, id: usize) -> bool {
    exists|i: int| 0 <= i < es.len() && es[i].0 == id
}

/// The services whose type is `t`, in order of registration.
pub open spec fn of_type(es: Entries, t: Seq<Seq<u8>>) -> Seq<ServiceModel>
    decreases es.len(),
{
    if es.len() == 0 {
        Seq::empty()
    } else if same_name(es.last().1.typ, t) {
        of_type(es.drop_last(), t).push(es.last().1)
    } else {
        of_type(es.drop_last(), t)
    }
}

/// The latest registered service whose instance name is `n`.
pub open spec fn by_name(es: Entries, n: Seq<Seq<u8>>) -> Option<ServiceModel>
    decreases es.len(),
{
    if es.len() == 0 {
        None
    } else if same_name(es.last().1.name, n) {
        Some(es.last().1)
    } else {
        by_name(es.drop_last(), n)
    }
}

/// One of the names is `t` but for case.
pub open spec fn holds_name(ts: Seq<Seq<Seq<u8>>>, t: Seq<Seq<u8>>) -> bool {
    exists|j: int| 0 <= j < ts.len() && same_name(ts[j], t)
}

/// The registered types, each once, in order of first registration.
pub open spec fn types_of(es: Entries) -> Seq<Seq<Seq<u8>>>
    decreases es.len(),
{
    if es.len() == 0 {
        Seq::empty()
    } else if holds_name(types_of(es.drop_last()), es.last().1.typ) {
        types_of(es.drop_last())
    } else {
        types_of(es.drop_last()).push(es.last().1.typ)
    }
}

/// Every service's names are well formed.
pub open spec fn names_valid(svcs: Seq<ServiceModel>) -> bool {
    forall|i: int| 0 <= i < svcs.len() ==> valid_labels(#[trigger] svcs[i].typ) && valid_labels(svcs[i].name)
}

proof fn lemma_entries_names(es: Entries, t: Seq<Seq<u8>>)
    requires
        forall|i: int| 0 <= i < es.len() ==> valid_labels(#[trigger] es[i].1.typ) && valid_labels(es[i].1.name),
    ensures
        forall|i: int| 0 <= i < types_of(es).len() ==> valid_labels(#[trigger] types_of(es)[i]),
        names_valid(of_type(es, t)),
        by_name(es, t) matches Some(s) ==> valid_labels(s.name),
    decreases es.len(),
{
    if es.len() > 0 {
        let p = es.drop_last();
        assert forall|i: int| 0 <= i < p.len() implies valid_labels(#[trigger] p[i].1.typ) && valid_labels(p[i].1.name) by {
            assert(p[i] == es[i]);
        }
        assert(valid_labels(es[es.len() - 1].1.typ));
        lemma_entries_names(p, t);
        let x = es.last().1;
        assert forall|i: int| 0 <= i < types_of(es).len() implies valid_labels(#[trigger] types_of(es)[i]) by {
            if i < types_of(p).len() {
                assert(types_of(es)[i] == types_of(p)[i]);
            } else {
                assert(types_of(es)[i] == x.typ);
            }
        }
        assert forall|i: int| 0 <= i < of_type(es, t).len() implies valid_labels(#[trigger] of_type(es, t)[i].typ)
            && valid_labels(of_type(es, t)[i].name) by {
            if i < of_type(p, t).len() {
                assert(of_type(es, t)[i] == of_type(p, t)[i]);
            } else {
                assert(of_type(es, t)[i] == x);
            }
        }
    }
}

proof fn lemma_next_id_fresh(es: Entries)
    ensures
        next_id(es) >= 0,
        forall|i: int| 0 <= i < es.len() ==> es[i].0 < next_id(es),
    decreases es.len(),
{
    if es.len() > 0 {
        lemma_next_id_fresh(es.drop_last());
        assert forall|i: int| 0 <= i < es.len() implies es[i].0 < next_id(es) by {
            if i < es.len() - 1 {
                assert(es[i] == es.drop_last()[i]);
            }
        }
    }
}

proof fn lemma_next_id_witness(es: Entries)
    ensures
        es.len() > 0 ==> exists|i: int| 0 <= i < es.len() && es[i].0 + 1 == next_id(es),
    decreases es.len(),
{
    if es.len() > 1 {
        let t = es.drop_last();
        lemma_next_id_witness(t);
        if next_id(t) > es.last().0 + 1 {
            let i = choose|i: int| 0 <= i < t.len() && t[i].0 + 1 == next_id(t);
            assert(es[i] == t[i]);
        } else {
            assert(es[es.len() - 1].0 + 1 == next_id(es));
        }
    } else if es.len() == 1 {
        assert(es.drop_last().len() == 0);
        assert(next_id(es.drop_last()) == 0);
        assert(es[0].0 + 1 == next_id(es));
    }
}

impl ServicesInner {
    /// The registered services with their ids.
    pub closed spec fn entries(&self) -> Entries {
        self.entries@.map_values(|e: ServiceEntry| (e.id, e.data@))
    }

    /// The host name whose addresses are advertised.
    pub closed spec fn host(&self) -> Seq<Seq<u8>> {
        self.hostname@
    }

    /// The registry's invariant: a well-formed host name, well-formed services, distinct ids.
    pub closed spec fn wf(&self) -> bool {
        &&& self.hostname.wf()
        &&& ids_unique(self.entries())
        &&& forall|i: int| 0 <= i < self.entries@.len() ==> (#[trigger] self.entries@[i]).data.wf()
    }

    /// No two registered services share an id.
    pub proof fn lemma_ids_unique(&self)
        requires
            self.wf(),
        ensures
            ids_unique(self.entries()),
    {
    }

    /// The names the registry holds are well formed.
    pub proof fn lemma_wf_names(&self, t: Seq<Seq<u8>>)
        requires
            self.wf(),
        ensures
            valid_labels(self.host()),
            forall|i: int| 0 <= i < types_of(self.entries()).len() ==> valid_labels(#[trigger] types_of(self.entries())[i]),
            names_valid(of_type(self.entries(), t)),
            by_name(self.entries(), t) matches Some(s) ==> valid_labels(s.name),
    {
        let es = self.entries();
        assert forall|i: int| 0 <= i < es.len() implies valid_labels(#[trigger] es[i].1.typ) && valid_labels(es[i].1.name) by {
            assert(self.entries@[i].data.wf());
        }
        lemma_entries_names(es, t);
    }

    /// An empty registry for the given host.
    pub fn new(hostname: Name) -> (r: ServicesInner)
        requires
            hostname.wf(),
        ensures
            r.wf(),
            ids_unique(r.entries()),
            r.host() == hostname@,
            r.entries() == Seq::<(usize, ServiceModel)>::empty(),
    {
        let r = ServicesInner { hostname, entries: Vec::new() };
        assert(r.entries() =~= Seq::<(usize, ServiceModel)>::empty());
        r
    }

    /// The host name.
    pub fn get_hostname(&self) -> (r: &Name)
        requires
            self.wf(),
        ensures
            r@ == self.host(),
            r.wf(),
    {
        &self.hostname
    }

    /// Adds a service under a fresh id, one past the largest in use; `None` when that
    /// would not fit in `usize`.
    pub fn register(&mut self, svc: ServiceData) -> (r: Option<usize>)
        requires
            old(self).wf(),
            svc.wf(),
        ensures
            final(self).wf(),
            ids_unique(final(self).entries()),
            final(self).host() == old(self).host(),
            r.is_some() == (next_id(old(self).entries()) <= usize::MAX),
            match r {
                Some(id) => {
                    &&& id == next_id(old(self).entries())
                    &&& !has_id(old(self).entries(), id)
                    &&& final(self).entries() == old(self).entries().push((id, svc@))
                },
                None => final(self).entries() == old(self).entries(),
            },
    {
        let mut next: usize = 0;
        let mut i: usize = 0;
        let n = self.entries.len();
        while i < n
            invariant
                n == self.entries@.len(),
                *self == *old(self),
                0 <= i <= n,
                next as int == next_id(self.entries().subrange(0, i as int)) || (next == usize::MAX
                    && next_id(self.entries().subrange(0, i as int)) > usize::MAX),
            decreases n - i,
        {
            let ghost es = self.entries();
            assert(es.subrange(0, i + 1).drop_last() == es.subrange(0, i as int));
            assert(es.subrange(0, i + 1).last() == es[i as int]);
            let id = self.entries[i].id;
            if id == usize::MAX {
                next = usize::MAX;
                proof {
                    lemma_next_id_fresh(es.subrange(0, i as int));
                }
            } else if next == usize::MAX {
            } else if id + 1 > next {
                next = id + 1;
            }
            i = i + 1;
        }
        proof {
            assert(self.entries().subrange(0, n as int) == self.entries());
            lemma_next_id_fresh(self.entries());
            lemma_next_id_witness(self.entries());
        }
        if next == usize::MAX {
            let has_max = self.max_in_use();
            if has_max {
                return None;
            }
        }
        let ghost before = self.entries();
        self.entries.push(ServiceEntry { id: next, data: svc });
        proof {
            assert(self.entries() =~= before.push((next, svc@)));
            assert forall|i: int| 0 <= i < self.entries@.len() implies (#[trigger] self.entries@[i]).data.wf() by {
                if i < before.len() {
                    assert(self.entries@[i] == old(self).entries@[i]);
                }
            }
        }
        Some(next)
    }

    /// Some entry holds the largest id.
    fn max_in_use(&self) -> (r: bool)
        ensures
            r == has_id(self.entries(), usize::MAX),
    {
        let mut i: usize = 0;
        while i < self.entries.len()
            invariant
                0 <= i <= self.entries@.len(),
                forall|j: int| 0 <= j < i ==> self.entries()[j].0 != usize::MAX,
            decreases self.entries@.len() - i,
        {
            if self.entries[i].id == usize::MAX {
                assert(self.entries()[i as int].0 == usize::MAX);
                return true;
            }
            i = i + 1;
        }
        false
    }

    /// Removes the service with the given id and hands it back; `None`, and no change,
    /// when no service has that id.
    pub fn unregister(&mut self, id: usize) -> (r: Option<ServiceData>)
        requires
            old(self).wf(),
        ensures
            final(self).wf(),
            ids_unique(final(self).entries()),
            !has_id(final(self).entries(), id),
            final(self).host() == old(self).host(),
            r.is_some() == has_id(old(self).entries(), id),
            match r {
                Some(d) => exists|i: int|
                    0 <= i < old(self).entries().len() && old(self).entries()[i].0 == id
                        && d@ == old(self).entries()[i].1 && d.wf()
                        && final(self).entries() == old(self).entries().remove(i),
                None => final(self).entries() == old(self).entries(),
            },
    {
        let mut i: usize = 0;
        while i < self.entries.len()
            invariant
                *self == *old(self),
                self.wf(),
                0 <= i <= self.entries@.len(),
                forall|j: int| 0 <= j < i ==> self.entries()[j].0 != id,
            decreases self.entries@.len() - i,
        {
            if self.entries[i].id == id {
                let ghost before = self.entries();
                let ghost k = i as int;
                assert(before[k].0 == id);
                assert(self.entries@[k].data.wf());
                assert(ids_unique(before));
                let e = self.entries.remove(i);
                proof {
                    assert(self.entries() =~= before.remove(k));
                    assert forall|a: int, b: int|
                        0 <= a < b < self.entries().len() implies self.entries()[a].0
                        != self.entries()[b].0 by {
                        let a0 = if a < k { a } else { a + 1 };
                        let b0 = if b < k { b } else { b + 1 };
                        assert(self.entries()[a] == before[a0]);
                        assert(self.entries()[b] == before[b0]);
                        assert(a0 < b0);
                    }
                    assert forall|j: int| 0 <= j < self.entries@.len() implies (#[trigger] self.entries@[j]).data.wf() by {
                        if j < k {
                            assert(self.entries@[j] == old(self).entries@[j]);
                        } else {
                            assert(self.entries@[j] == old(self).entries@[j + 1]);
                        }
                    }
                }
                return Some(e.data);
            }
            i = i + 1;
        }
        None
    }

    /// The services of the given type, ignoring case, in order of registration.
    pub fn find_by_type(&self, typ: &Name) -> (r: Vec<ServiceData>)
        requires
            self.wf(),
        ensures
            r@.map_values(|d: ServiceData| d@) == of_type(self.entries(), typ@),
            forall|i: int| 0 <= i < r@.len() ==> (#[trigger] r@[i]).wf(),
    {
        let mut r: Vec<ServiceData> = Vec::new();
        let mut i: usize = 0;
        while i < self.entries.len()
            invariant
                self.wf(),
                0 <= i <= self.entries@.len(),
                r@.map_values(|d: ServiceData| d@) == of_type(self.entries().subrange(0, i as int), typ@),
                forall|j: int| 0 <= j < r@.len() ==> (#[trigger] r@[j]).wf(),
            decreases self.entries@.len() - i,
        {
            let ghost es = self.entries();
            let ghost before = r@.map_values(|d: ServiceData| d@);
            assert(es.subrange(0, i + 1).drop_last() == es.subrange(0, i as int));
            assert(es.subrange(0, i + 1).last() == es[i as int]);
            assert(self.entries@[i as int].data.wf());
            if self.entries[i].data.typ.same_as(typ) {
                let d = self.entries[i].data.duplicate();
                r.push(d);
                proof {
                    assert(r@.map_values(|d: ServiceData| d@) =~= before.push(d@));
                }
            }
            i = i + 1;
        }
        assert(self.entries().subrange(0, self.entries@.len() as int) == self.entries());
        r
    }

    /// The latest registered service with the given instance name, ignoring case.
    pub fn find_by_name(&self, name: &Name) -> (r: Option<ServiceData>)
        requires
            self.wf(),
        ensures
            match r {
                Some(d) => by_name(self.entries(), name@) == Some(d@) && d.wf(),
                None => by_name(self.entries(), name@).is_none(),
            },
    {
        let mut i: usize = self.entries.len();
        assert(self.entries().subrange(0, i as int) == self.entries());
        while i > 0
            invariant
                self.wf(),
                0 <= i <= self.entries@.len(),
                by_name(self.entries(), name@) == by_name(self.entries().subrange(0, i as int), name@),
            decreases i,
        {
            let ghost es = self.entries();
            assert(es.subrange(0, i as int).drop_last() == es.subrange(0, i - 1));
            assert(es.subrange(0, i as int).last() == es[i - 1]);
            assert(self.entries@[i - 1].data.wf());
            if self.entries[i - 1].data.name.same_as(name) {
                return Some(self.entries[i - 1].data.duplicate());
            }
            i = i - 1;
        }
        None
    }

    /// The registered service types, each once (ignoring case), in order of first registration.
    pub fn types_iter(&self) -> (r: Vec<Name>)
        requires
            self.wf(),
        ensures
            r@.map_values(|n: Name| n@) == types_of(self.entries()),
            forall|i: int| 0 <= i < r@.len() ==> (#[trigger] r@[i]).wf(),
    {
        let mut r: Vec<Name> = Vec::new();
        let mut i: usize = 0;
        while i < self.entries.len()
            invariant
                self.wf(),
                0 <= i <= self.entries@.len(),
                r@.map_values(|n: Name| n@) == types_of(self.entries().subrange(0, i as int)),
                forall|j: int| 0 <= j < r@.len() ==> (#[trigger] r@[j]).wf(),
            decreases self.entries@.len() - i,
        {
            let ghost es = self.entries();
            let ghost before = r@.map_values(|n: Name| n@);
            assert(es.subrange(0, i + 1).drop_last() == es.subrange(0, i as int));
            assert(es.subrange(0, i + 1).last() == es[i as int]);
            assert(self.entries@[i as int].data.wf());
            let t = &self.entries[i].data.typ;
            let mut seen = false;
            let mut k: usize = 0;
            while k < r.len()
                invariant
                    0 <= k <= r@.len(),
                    before == r@.map_values(|n: Name| n@),
                    seen == exists|j: int| 0 <= j < k && same_name(before[j], t@),
                decreases r@.len() - k,
            {
                assert(before[k as int] == r@[k as int]@);
                if r[k].same_as(t) {
                    seen = true;
                }
                k = k + 1;
            }
            if !seen {
                let c = t.duplicate();
                r.push(c);
                proof {
                    assert(r@.map_values(|n: Name| n@) =~= before.push(c@));
                }
            }
            i = i + 1;
        }
        assert(self.entries().subrange(0, self.entries@.len() as int) == self.entries());
        r
    }
}

proof fn lemma_types_of(es: Entries)
    ensures
        forall|t: Seq<Seq<u8>>|
            holds_name(types_of(es), t) <==> exists|i: int|
                0 <= i < es.len() && same_name(#[trigger] es[i].1.typ, t),
        forall|a: int, b: int|
            0 <= a < b < types_of(es).len() ==> !same_name(types_of(es)[a], types_of(es)[b]),
    decreases es.len(),
{
    if es.len() > 0 {
        let p = es.drop_last();
        lemma_types_of(p);
        let tp = types_of(p);
        let x = es.last().1.typ;
        assert forall|t: Seq<Seq<u8>>|
            holds_name(types_of(es), t) <==> exists|i: int|
                0 <= i < es.len() && same_name(#[trigger] es[i].1.typ, t) by {
            if holds_name(types_of(es), t) {
                let j = choose|j: int| 0 <= j < types_of(es).len() && same_name(types_of(es)[j], t);
                if j < tp.len() {
                    assert(types_of(es)[j] == tp[j]);
                    assert(holds_name(tp, t));
                    let i = choose|i: int| 0 <= i < p.len() && same_name(#[trigger] p[i].1.typ, t);
                    assert(es[i] == p[i]);
                } else {
                    assert(same_name(es[es.len() - 1].1.typ, t));
                }
            }
            if exists|i: int| 0 <= i < es.len() && same_name(#[trigger] es[i].1.typ, t) {
                let i = choose|i: int| 0 <= i < es.len() && same_name(#[trigger] es[i].1.typ, t);
                if i < p.len() {
                    assert(es[i] == p[i]);
                    assert(holds_name(tp, t));
                    let j = choose|j: int| 0 <= j < tp.len() && same_name(tp[j], t);
                    if holds_name(tp, x) {
                        assert(types_of(es)[j] == tp[j]);
                    } else {
                        assert(types_of(es)[j] == tp[j]);
                    }
                } else if holds_name(tp, x) {
                    let j = choose|j: int| 0 <= j < tp.len() && same_name(tp[j], x);
                    assert(types_of(es)[j] == tp[j]);
                } else {
                    assert(types_of(es)[tp.len() as int] == x);
                }
            }
        }
    }
}

/// The registered types are exactly the distinct types of the registered services:
/// a name is among them if and only if some service has that type, and no two of them
/// are the same name.
pub proof fn lemma_types_are_distinct_types(reg: ServicesInner)
    requires
        reg.wf(),
    ensures
        forall|t: Seq<Seq<u8>>|
            holds_name(types_of(reg.entries()), t) <==> exists|i: int|
                0 <= i < reg.entries().len() && same_name(#[trigger] reg.entries()[i].1.typ, t),
        forall|a: int, b: int|
            0 <= a < b < types_of(reg.entries()).len() ==> !same_name(
                types_of(reg.entries())[a],
                types_of(reg.entries())[b],
            ),
{
    lemma_types_of(reg.entries());
}

/// After the service at position `i` is removed, the registered types are exactly the
/// types of the other services, each once: the removed type stays if and only if another
/// service has it.
pub proof fn lemma_types_after_removal(es: Entries, i: int)
    requires
        0 <= i < es.len(),
    ensures
        forall|t: Seq<Seq<u8>>|
            holds_name(types_of(es.remove(i)), t) <==> exists|j: int|
                0 <= j < es.len() && j != i && same_name(#[trigger] es[j].1.typ, t),
        forall|a: int, b: int|
            0 <= a < b < types_of(es.remove(i)).len() ==> !same_name(
                types_of(es.remove(i))[a],
                types_of(es.remove(i))[b],
            ),
{
    let r = es.remove(i);
    lemma_types_of(r);
    assert forall|t: Seq<Seq<u8>>|
        holds_name(types_of(r), t) <==> exists|j: int|
            0 <= j < es.len() && j != i && same_name(#[trigger] es[j].1.typ, t) by {
        if exists|k: int| 0 <= k < r.len() && same_name(#[trigger] r[k].1.typ, t) {
            let k = choose|k: int| 0 <= k < r.len() && same_name(#[trigger] r[k].1.typ, t);
            let j = if k < i { k } else { k + 1 };
            assert(r[k] == es[j]);
        }
        if exists|j: int| 0 <= j < es.len() && j != i && same_name(#[trigger] es[j].1.typ, t) {
            let j = choose|j: int| 0 <= j < es.len() && j != i && same_name(#[trigger] es[j].1.typ, t);
            let k = if j < i { j } else { j - 1 };
            assert(r[k] == es[j]);
        }
    }
}

proof fn lemma_remove_last_id(es: Entries, i: int)
    requires
        ids_unique(es),
        es.len() > 0,
        0 <= i < es.len(),
        es[i].0 == es.last().0,
    ensures
        i == es.len() - 1,
        es.remove(i) == es.drop_last(),
{
    assert(es.remove(es.len() - 1) =~= es.drop_last());
}

/// Registering a service and then unregistering the id it got gives back the service
/// and leaves the registry as it was.
pub proof fn lemma_register_unregister(es: Entries, d: ServiceModel, i: int)
    requires
        ids_unique(es),
        next_id(es) <= usize::MAX,
        0 <= i < es.len() + 1,
        es.push((next_id(es) as usize, d))[i].0 == next_id(es),
    ensures
        es.push((next_id(es) as usize, d)).remove(i) == es,
        es.push((next_id(es) as usize, d))[i].1 == d,
{
    let id = next_id(es) as usize;
    let es2 = es.push((id, d));
    lemma_next_id_fresh(es);
    assert(ids_unique(es2)) by {
        assert forall|a: int, b: int| 0 <= a < b < es2.len() implies es2[a].0 != es2[b].0 by {
            if b < es.len() {
                assert(es2[a] == es[a] && es2[b] == es[b]);
            } else {
                assert(es2[a] == es[a]);
            }
        }
    }
    lemma_remove_last_id(es2, i);
    assert(es2.drop_last() =~= es);
}

/// Two registrations in a row get different ids, and unregistering them in reverse
/// order leaves the registry as it was before both.
pub proof fn lemma_register_twice(es: Entries, d: ServiceModel, i: int, j: int)
    requires
        ids_unique(es),
        next_id(es) < usize::MAX,
        0 <= i < es.len() + 2,
        0 <= j < es.len() + 1,
        ({
            let id1 = next_id(es) as usize;
            let es1 = es.push((id1, d));
            let id2 = next_id(es1) as usize;
            &&& es1.push((id2, d))[i].0 == id2
            &&& es1[j].0 == id1
        }),
    ensures
        ({
            let id1 = next_id(es) as usize;
            let es1 = es.push((id1, d));
            let id2 = next_id(es1) as usize;
            &&& id1 != id2
            &&& next_id(es1) <= usize::MAX
            &&& es1.push((id2, d)).remove(i).remove(j) == es
        }),
{
    let id1 = next_id(es) as usize;
    let es1 = es.push((id1, d));
    lemma_next_id_fresh(es);
    assert(next_id(es1) == id1 + 1) by {
        assert(es1.drop_last() == es);
    }
    assert(ids_unique(es1)) by {
        assert forall|a: int, b: int| 0 <= a < b < es1.len() implies es1[a].0 != es1[b].0 by {
            if b < es.len() {
                assert(es1[a] == es[a] && es1[b] == es[b]);
            } else {
                assert(es1[a] == es[a]);
            }
        }
    }
    lemma_register_unregister(es1, d, i);
    lemma_register_unregister(es, d, j);
}

} // verus!
