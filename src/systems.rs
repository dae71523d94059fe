//! Units of work and their declared data dependencies.

use vstd::prelude::*;

use crate::components::ComponentSetId;
use crate::conflictgraph::{ConflictCmp, ConflictGraphError};

verus! {

#[derive(Debug, Clone, Copy, PartialEq, Eq, Hash, Structural)]
pub struct SystemId(pub usize);

impl SystemId {
    pub fn index(&self) -> (r: usize)
        ensures
            r == self.0,
    {
        self.0
    }
}

#[derive(Clone, Copy, Debug, PartialEq, Eq, Hash, Structural)]
pub enum DependencyType {
    Read,
    Write,
}

pub enum WorldSystemError<F> {
    FailedToResolveSystemTree(ConflictGraphError),
    FailedToAddWorldSystem(WorldSystem<F>),
}

/// Some handle occurs in both lists.
pub open spec fn ids_meet(a: Seq<ComponentSetId>, b: Seq<ComponentSetId>) -> bool {
    exists|i: int, j: int| 0 <= i < a.len() && 0 <= j < b.len() && a[i] == b[j]
}

/// Two units with these read and write lists would race: one writes what
/// the other reads or writes.
pub open spec fn profiles_conflict(
    reads_a: Seq<ComponentSetId>,
    writes_a: Seq<ComponentSetId>,
    reads_b: Seq<ComponentSetId>,
    writes_b: Seq<ComponentSetId>,
) -> bool {
    ||| ids_meet(reads_a, writes_b)
    ||| ids_meet(writes_a, reads_b)
    ||| ids_meet(writes_a, writes_b)
}

/// Some handle of `a` occurs in `b`.
fn lists_meet(a: &Vec<ComponentSetId>, b: &Vec<ComponentSetId>) -> (r: bool)
    ensures
        r == ids_meet(a@, b@),
{
    let mut i: usize = 0;
    while i < a.len()
        invariant
            i <= a@.len(),
            forall|x: int, y: int| 0 <= x < i && 0 <= y < b@.len() ==> a@[x] != b@[y],
        decreases a@.len() - i,
    {
        let mut j: usize = 0;
        while j < b.len()
            invariant
                i < a@.len(),
                j <= b@.len(),
                forall|x: int, y: int| 0 <= x < i && 0 <= y < b@.len() ==> a@[x] != b@[y],
                forall|y: int| 0 <= y < j ==> a@[i as int] != b@[y],
            decreases b@.len() - j,
        {
            if a[i] == b[j] {
                return true;
            }
            j = j + 1;
        }
        i = i + 1;
    }
    false
}

/// A unit of work: an entry point of type `F` and the data sets it reads
/// and writes.
pub struct WorldSystem<F> {
    name: String,
    id: SystemId,
    system_fn: F,
    reads: Vec<ComponentSetId>,
    writes: Vec<ComponentSetId>,
}

impl<F> WorldSystem<F> {
    pub closed spec fn spec_id(&self) -> SystemId {
        self.id
    }

    pub closed spec fn spec_reads(&self) -> Seq<ComponentSetId> {
        self.reads@
    }

    pub closed spec fn spec_writes(&self) -> Seq<ComponentSetId> {
        self.writes@
    }

    /// The handles declared under `dependency`.
    pub open spec fn declared(&self, dependency: DependencyType) -> Seq<ComponentSetId> {
        match dependency {
            DependencyType::Read => self.spec_reads(),
            DependencyType::Write => self.spec_writes(),
        }
    }

    pub closed spec fn spec_fn_of(&self) -> F {
        self.system_fn
    }

    /// The unit's name, for messages.
    pub closed spec fn spec_name(&self) -> Seq<char> {
        self.name@
    }

    /// A unit with no declared dependencies and id 0.
    pub fn new(system_fn: F) -> (r: Self)
        ensures
            r.spec_id() == SystemId(0),
            r.spec_reads() == Seq::<ComponentSetId>::empty(),
            r.spec_writes() == Seq::<ComponentSetId>::empty(),
            r.spec_fn_of() == system_fn,
            r.spec_name() == Seq::<char>::empty(),
    {
        WorldSystem {
            name: String::new(),
            id: SystemId(0),
            system_fn,
            reads: Vec::new(),
            writes: Vec::new(),
        }
    }

    pub fn id(&self) -> (r: SystemId)
        ensures
            r == self.spec_id(),
    {
        self.id
    }

    pub fn set_id(&mut self, id: SystemId)
        ensures
            final(self).spec_id() == id,
            final(self).spec_reads() == old(self).spec_reads(),
            final(self).spec_writes() == old(self).spec_writes(),
            final(self).spec_fn_of() == old(self).spec_fn_of(),
    {
        self.id = id;
    }

    pub fn name(&self) -> (r: &str)
        ensures
            r@ == self.spec_name(),
    {
        self.name.as_str()
    }

    pub fn set_name(&mut self, name: String)
        ensures
            final(self).spec_name() == name@,
            final(self).spec_id() == old(self).spec_id(),
            final(self).spec_reads() == old(self).spec_reads(),
            final(self).spec_writes() == old(self).spec_writes(),
            final(self).spec_fn_of() == old(self).spec_fn_of(),
    {
        self.name = name;
    }

    pub fn system_fn(&self) -> (r: &F)
        ensures
            *r == self.spec_fn_of(),
    {
        &self.system_fn
    }

    pub fn reads(&self) -> (r: &Vec<ComponentSetId>)
        ensures
            r@ == self.spec_reads(),
    {
        &self.reads
    }

    pub fn writes(&self) -> (r: &Vec<ComponentSetId>)
        ensures
            r@ == self.spec_writes(),
    {
        &self.writes
    }

    /// The unit already declares `dependency` on data set `component`.
    pub fn declares(&self, dependency: DependencyType, component: ComponentSetId) -> (r: bool)
        ensures
            r == self.declared(dependency).contains(component),
    {
        let list = match dependency {
            DependencyType::Read => &self.reads,
            DependencyType::Write => &self.writes,
        };
        let ghost target = self.declared(dependency);
        assert(list@ == target);
        let mut i: usize = 0;
        while i < list.len()
            invariant
                list@ == target,
                target == self.declared(dependency),
                i <= list@.len(),
                forall|x: int| 0 <= x < i ==> list@[x] != component,
            decreases list@.len() - i,
        {
            if list[i] == component {
                assert(target[i as int] == component);
                return true;
            }
            i = i + 1;
        }
        assert(!target.contains(component));
        false
    }

    /// Adds `dependency` on `component` unless it is already declared;
    /// returns true when the declaration changed.
    pub fn declare(&mut self, dependency: DependencyType, component: ComponentSetId) -> (r: bool)
        ensures
            final(self).spec_id() == old(self).spec_id(),
            final(self).spec_fn_of() == old(self).spec_fn_of(),
            r == !old(self).declared(dependency).contains(component),
            dependency == DependencyType::Read ==> final(self).spec_writes() == old(self).spec_writes()
                && final(self).spec_reads() == if r {
                old(self).spec_reads().push(component)
            } else {
                old(self).spec_reads()
            },
            dependency == DependencyType::Write ==> final(self).spec_reads() == old(self).spec_reads()
                && final(self).spec_writes() == if r {
                old(self).spec_writes().push(component)
            } else {
                old(self).spec_writes()
            },
    {
        if self.declares(dependency, component) {
            return false;
        }
        match dependency {
            DependencyType::Read => self.reads.push(component),
            DependencyType::Write => self.writes.push(component),
        }
        true
    }
}

impl<'a, F> ConflictCmp for &'a WorldSystem<F> {
    open spec fn conflicts(&self, other: &Self) -> bool {
        profiles_conflict(
            self.spec_reads(),
            self.spec_writes(),
            other.spec_reads(),
            other.spec_writes(),
        )
    }

    fn conflict_cmp(&self, other: &Self) -> (r: bool) {
        lists_meet(&self.reads, &other.writes) || lists_meet(&self.writes, &other.reads)
            || lists_meet(&self.writes, &other.writes)
    }
}


/// `acc` followed by the handles of `xs` that it does not hold yet, each
/// once, in order of first appearance.
pub open spec fn merge_unique(acc: Seq<ComponentSetId>, xs: Seq<ComponentSetId>) -> Seq<ComponentSetId>
    decreases xs.len(),
{
    if xs.len() == 0 {
        acc
    } else {
        let prev = merge_unique(acc, xs.drop_last());
        if prev.contains(xs.last()) {
            prev
        } else {
            prev.push(xs.last())
        }
    }
}

/// The distinct handles of all `lists`, in order of first appearance.
pub open spec fn union_unique(lists: Seq<Seq<ComponentSetId>>) -> Seq<ComponentSetId>
    decreases lists.len(),
{
    if lists.len() == 0 {
        Seq::empty()
    } else {
        merge_unique(union_unique(lists.drop_last()), lists.last())
    }
}

/// `v` holds `x`.
fn contains_id(v: &Vec<ComponentSetId>, x: ComponentSetId) -> (r: bool)
    ensures
        r == v@.contains(x),
{
    let mut i: usize = 0;
    while i < v.len()
        invariant
            i <= v@.len(),
            forall|j: int| 0 <= j < i ==> v@[j] != x,
        decreases v@.len() - i,
    {
        if v[i] == x {
            assert(v@[i as int] == x);
            return true;
        }
        i = i + 1;
    }
    false
}

/// Appends the handles of `xs` that `acc` does not hold yet.
fn merge_into(acc: &mut Vec<ComponentSetId>, xs: &Vec<ComponentSetId>)
    ensures
        final(acc)@ == merge_unique(old(acc)@, xs@),
{
    let mut i: usize = 0;
    while i < xs.len()
        invariant
            i <= xs@.len(),
            acc@ == merge_unique(old(acc)@, xs@.subrange(0, i as int)),
        decreases xs@.len() - i,
    {
        let x = xs[i];
        assert(xs@.subrange(0, i + 1).drop_last() =~= xs@.subrange(0, i as int));
        if !contains_id(acc, x) {
            acc.push(x);
        }
        i = i + 1;
    }
    assert(xs@.subrange(0, xs@.len() as int) =~= xs@);
}

/// The ids, read handles and write handles of the members of a batch.
pub open spec fn group_view<'a, F>(members: Seq<&'a WorldSystem<F>>) -> (
    Seq<SystemId>,
    Seq<ComponentSetId>,
    Seq<ComponentSetId>,
) {
    (
        members.map_values(|s: &WorldSystem<F>| s.spec_id()),
        union_unique(members.map_values(|s: &WorldSystem<F>| s.spec_reads())),
        union_unique(members.map_values(|s: &WorldSystem<F>| s.spec_writes())),
    )
}

/// A batch of units that may run at the same time, with the data sets that
/// the batch reads and writes.
#[derive(Debug, Clone)]
pub struct SystemGroup {
    systems: Vec<SystemId>,
    group_mutable: Vec<ComponentSetId>,
    group_immutable: Vec<ComponentSetId>,
}

impl View for SystemGroup {
    type V = (Seq<SystemId>, Seq<ComponentSetId>, Seq<ComponentSetId>);

    /// Member ids, then the distinct read handles, then the distinct write
    /// handles.
    closed spec fn view(&self) -> (Seq<SystemId>, Seq<ComponentSetId>, Seq<ComponentSetId>) {
        (self.systems@, self.group_immutable@, self.group_mutable@)
    }
}

impl SystemGroup {
    /// The batch of `members`, in their order.
    pub fn from_systems<F>(members: &Vec<&WorldSystem<F>>) -> (r: SystemGroup)
        ensures
            r@ == group_view(members@),
    {
        let ghost ms = members@;
        let mut systems: Vec<SystemId> = Vec::new();
        let mut reads: Vec<ComponentSetId> = Vec::new();
        let mut writes: Vec<ComponentSetId> = Vec::new();
        let mut i: usize = 0;
        while i < members.len()
            invariant
                ms == members@,
                i <= ms.len(),
                systems@ == ms.subrange(0, i as int).map_values(|s: &WorldSystem<F>| s.spec_id()),
                reads@ == union_unique(
                    ms.subrange(0, i as int).map_values(|s: &WorldSystem<F>| s.spec_reads()),
                ),
                writes@ == union_unique(
                    ms.subrange(0, i as int).map_values(|s: &WorldSystem<F>| s.spec_writes()),
                ),
            decreases ms.len() - i,
        {
            let m = members[i];
            let ghost next = ms.subrange(0, i + 1);
            assert(next.map_values(|s: &WorldSystem<F>| s.spec_reads()).drop_last() =~= ms.subrange(
                0,
                i as int,
            ).map_values(|s: &WorldSystem<F>| s.spec_reads()));
            assert(next.map_values(|s: &WorldSystem<F>| s.spec_writes()).drop_last() =~= ms.subrange(
                0,
                i as int,
            ).map_values(|s: &WorldSystem<F>| s.spec_writes()));
            systems.push(m.id());
            merge_into(&mut reads, m.reads());
            merge_into(&mut writes, m.writes());
            assert(systems@ =~= next.map_values(|s: &WorldSystem<F>| s.spec_id()));
            i = i + 1;
        }
        assert(ms.subrange(0, ms.len() as int) =~= ms);
        SystemGroup { systems, group_mutable: writes, group_immutable: reads }
    }

    pub fn system_ids(&self) -> (r: &Vec<SystemId>)
        ensures
            r@ == self@.0,
    {
        &self.systems
    }

    pub fn group_immutable(&self) -> (r: &Vec<ComponentSetId>)
        ensures
            r@ == self@.1,
    {
        &self.group_immutable
    }

    pub fn group_mutable(&self) -> (r: &Vec<ComponentSetId>)
        ensures
            r@ == self@.2,
    {
        &self.group_mutable
    }
}

} // verus!
