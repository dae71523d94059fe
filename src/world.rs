//! The scheduler: registered units of work, their batches, entities, and
//! the command queue that the run loop drains.

use vstd::prelude::*;

use crate::collections::SparseSet;
use crate::components::{ComponentSet, ComponentSetId};
use crate::conflictgraph::{spec_cliques, ConflictGraph};
use crate::identity::TypeRegistry;
use crate::query::{driving_set_index, Query, QueryFilter};
use crate::systems::{
    group_view, DependencyType, SystemGroup, SystemId, WorldSystem, WorldSystemError,
};

verus! {

/// Identifies one entity: an index in its low 32 bits and a generation in
/// the high 32 bits.
#[derive(Debug, Clone, Copy, PartialEq, Eq, Hash, Structural)]
pub struct EntityId(u64);

impl EntityId {
    pub open spec fn spec_index(self) -> u64 {
        self.raw() & 0xFFFF_FFFFu64
    }

    pub open spec fn spec_generation(self) -> u64 {
        self.raw() >> 32u64
    }

    pub closed spec fn raw(self) -> u64 {
        self.0
    }

    pub fn new(idx: usize, generation: usize) -> (r: Self)
        requires
            idx <= 0xFFFF_FFFF,
            generation <= 0xFFFF_FFFF,
        ensures
            r.spec_index() == idx,
            r.spec_generation() == generation,
    {
        let i = idx as u64;
        let g = generation as u64;
        let v = (g << 32u64) | i;
        assert(v & 0xFFFF_FFFFu64 == i && v >> 32u64 == g) by (bit_vector)
            requires
                v == (g << 32u64) | i,
                i <= 0xFFFF_FFFFu64,
                g <= 0xFFFF_FFFFu64,
        ;
        EntityId(v)
    }

    pub fn index(&self) -> (r: usize)
        ensures
            r == self.spec_index(),
    {
        let v = self.0;
        assert(v & 0xFFFF_FFFFu64 <= 0xFFFF_FFFFu64) by (bit_vector);
        (v & 0xFFFF_FFFFu64) as usize
    }

    pub fn generation(&self) -> (r: usize)
        ensures
            r == self.spec_generation(),
    {
        let v = self.0;
        assert(v >> 32u64 <= 0xFFFF_FFFFu64) by (bit_vector);
        (v >> 32u64) as usize
    }

    /// The identifier as one integer.
    pub fn to_bits(&self) -> (r: u64)
        ensures
            r == self.raw(),
    {
        self.0
    }
}

/// A request to the world, applied between two passes of the run loop.
#[derive(Debug, Clone, Copy, PartialEq, Eq, Structural)]
pub enum WorldCommand {
    AddComponentToEntity(ComponentSetId, EntityId),
    RemoveComponentFromEntity(ComponentSetId, EntityId),
    CreateEntity,
    ResolveSystemTree,
    Stop,
}

/// What one batch looks like: member ids, read handles, write handles.
pub type GroupView = (Seq<SystemId>, Seq<ComponentSetId>, Seq<ComponentSetId>);

/// The units in `systems`, as the nodes of a conflict graph.
pub open spec fn refs_of<'a, F>(systems: Seq<WorldSystem<F>>) -> Seq<&'a WorldSystem<F>> {
    Seq::new(systems.len(), |i: int| &systems[i])
}

/// The batches that resolving `systems` yields.
pub open spec fn tree_of<F>(systems: Seq<WorldSystem<F>>) -> Seq<GroupView> {
    spec_cliques(refs_of(systems)).map_values(|g: Seq<&WorldSystem<F>>| group_view(g))
}


/// Entity `k` passes a query with data sets `components` and filters
/// `filters`: it has an entry in every requested data set and none in an
/// excluded one.
pub open spec fn passes(
    members: Map<usize, Map<usize, ()>>,
    components: Seq<ComponentSetId>,
    filters: Seq<QueryFilter>,
    k: usize,
) -> bool {
    &&& forall|i: int|
        0 <= i < components.len() ==> members.contains_key(#[trigger] components[i].0)
            && members[components[i].0].contains_key(k)
    &&& forall|i: int|
        0 <= i < filters.len() ==> match #[trigger] filters[i] {
            QueryFilter::ComponentNot(c) => !(members.contains_key(c.0) && members[c.0].contains_key(k)),
            _ => true,
        }
}

/// A world of entities, data sets and units of work of entry-point type
/// `F`. It decides what the run loop does; the loop itself calls the entry
/// points.
pub struct World<F> {
    entities: SparseSet<EntityId>,
    components: SparseSet<ComponentSet<()>>,
    command_queue: Vec<WorldCommand>,
    systems: SparseSet<WorldSystem<F>>,
    system_tree: Vec<SystemGroup>,
    types: TypeRegistry,
    tree_stale: bool,
}

/// The largest number of units a world registers.
pub const MAX_SYSTEMS: usize = usize::MAX - 2;

impl<F> World<F> {
    pub closed spec fn wf(&self) -> bool {
        &&& self.entities.wf()
        &&& forall|k: usize| #[trigger] self.entities@.contains_key(k) ==> self.entities@[k].spec_index() == k
        &&& self.components.wf()
        &&& forall|k: usize| #[trigger] self.components@.contains_key(k) ==> self.components@[k].wf()
        &&& self.systems.wf()
        &&& self.systems@.len() <= MAX_SYSTEMS
        &&& forall|k: usize| #[trigger] self.systems@.contains_key(k) ==> self.systems@[k].spec_id() == SystemId(k)
        &&& self.types.wf()
        &&& !self.tree_stale ==> self.system_tree@.map_values(|g: SystemGroup| g@) == tree_of(
            self.systems.values(),
        )
    }

    /// The registered units, in registration-slot order.
    pub closed spec fn spec_systems(&self) -> Seq<WorldSystem<F>> {
        self.systems.values()
    }

    /// The registered units by id.
    pub closed spec fn system_map(&self) -> Map<usize, WorldSystem<F>> {
        self.systems@
    }

    /// The current batches.
    pub closed spec fn spec_tree(&self) -> Seq<GroupView> {
        self.system_tree@.map_values(|g: SystemGroup| g@)
    }

    /// A registration or a dependency change happened since the batches
    /// were last computed.
    pub closed spec fn spec_stale(&self) -> bool {
        self.tree_stale
    }

    pub closed spec fn spec_queue(&self) -> Seq<WorldCommand> {
        self.command_queue@
    }

    /// Live entities by index.
    pub closed spec fn spec_entities(&self) -> Map<usize, EntityId> {
        self.entities@
    }

    /// Entities holding an entry in each data set, by handle.
    pub closed spec fn spec_members(&self) -> Map<usize, Map<usize, ()>> {
        Map::new(
            |k: usize| self.components@.contains_key(k),
            |k: usize| self.components@[k].entries(),
        )
    }

    pub closed spec fn spec_types(&self) -> TypeRegistry {
        self.types
    }

    /// `next` is `self` with its batches recomputed from its units.
    pub open spec fn resolves_to(&self, next: &Self) -> bool {
        &&& next.spec_systems() == self.spec_systems()
        &&& next.system_map() == self.system_map()
        &&& next.spec_tree() == tree_of(self.spec_systems())
        &&& !next.spec_stale()
        &&& next.spec_queue() == self.spec_queue()
        &&& next.spec_entities() == self.spec_entities()
        &&& next.spec_members() == self.spec_members()
    }

    /// `next` is `self` after `create_entity` returned `r`: a new entity at
    /// the smallest free index with generation 0, or `None`, changing
    /// nothing, once every index that fits in 32 bits is taken.
    pub open spec fn creates_entity(&self, next: &Self, r: Option<EntityId>) -> bool {
        &&& match r {
            Some(e) => {
                &&& !self.spec_entities().contains_key(e.spec_index() as usize)
                &&& forall|k: usize| k < e.spec_index() ==> self.spec_entities().contains_key(k)
                &&& e.spec_generation() == 0
                &&& next.spec_entities() == self.spec_entities().insert(e.spec_index() as usize, e)
            },
            None => {
                &&& forall|k: usize| k < 0xFFFF_FFFF ==> self.spec_entities().contains_key(k)
                &&& next.spec_entities() == self.spec_entities()
            },
        }
        &&& next.system_map() == self.system_map()
        &&& next.spec_systems() == self.spec_systems()
        &&& next.spec_tree() == self.spec_tree()
        &&& next.spec_stale() == self.spec_stale()
        &&& next.spec_queue() == self.spec_queue()
        &&& next.spec_members() == self.spec_members()
    }

    /// `next` is `self` with `command` appended to the queue and nothing
    /// else changed: commands are applied only when the queue is drained.
    pub open spec fn queues(&self, next: &Self, command: WorldCommand) -> bool {
        &&& next.spec_queue() == self.spec_queue().push(command)
        &&& next.system_map() == self.system_map()
        &&& next.spec_systems() == self.spec_systems()
        &&& next.spec_tree() == self.spec_tree()
        &&& next.spec_stale() == self.spec_stale()
        &&& next.spec_entities() == self.spec_entities()
        &&& next.spec_members() == self.spec_members()
    }

    /// `next` is `self` after `mark_dependency(dependency, system_id,
    /// component)` returned `r`: true exactly when the unit exists and did
    /// not declare the dependency yet; then its list under `dependency`
    /// grows by `component` and the batches are stale. Otherwise nothing
    /// changes.
    pub open spec fn marks(
        &self,
        next: &Self,
        dependency: DependencyType,
        system_id: SystemId,
        component: ComponentSetId,
        r: bool,
    ) -> bool {
        &&& r == self.check_mid_frame_dependency_spec(dependency, system_id, component)
        &&& r ==> {
            &&& next.system_map().dom() == self.system_map().dom()
            &&& next.system_map()[system_id.0].declared(dependency) == self.system_map()[system_id.0].declared(
                dependency,
            ).push(component)
            &&& next.system_map()[system_id.0].spec_id() == system_id
            &&& next.spec_stale()
        }
        &&& !r ==> next.system_map() == self.system_map() && next.spec_systems()
            == self.spec_systems() && next.spec_stale() == self.spec_stale()
        &&& forall|k: usize|
            #[trigger] next.system_map().contains_key(k) && k != system_id.0 ==> next.system_map()[k]
                == self.system_map()[k]
        &&& next.spec_tree() == self.spec_tree()
        &&& next.spec_queue() == self.spec_queue()
        &&& next.spec_entities() == self.spec_entities()
        &&& next.spec_members() == self.spec_members()
    }

    /// An empty world; its batches count as stale until first resolved.
    pub fn new() -> (r: Self)
        ensures
            r.wf(),
            r.spec_systems() == Seq::<WorldSystem<F>>::empty(),
            r.spec_tree() == Seq::<GroupView>::empty(),
            r.spec_stale(),
            r.spec_queue() == Seq::<WorldCommand>::empty(),
            r.spec_entities() == Map::<usize, EntityId>::empty(),
    {
        let r = World {
            entities: SparseSet::new(),
            components: SparseSet::new(),
            command_queue: Vec::new(),
            systems: SparseSet::new(),
            system_tree: Vec::new(),
            types: TypeRegistry::new(),
            tree_stale: true,
        };
        assert(r.spec_tree() =~= Seq::<GroupView>::empty());
        r
    }

    /// Registers a unit of work with no declared dependencies and returns
    /// its id; fails, handing the unit back, once `MAX_SYSTEMS` units are
    /// registered.
    pub fn add_system(&mut self, system_fn: F) -> (r: Result<SystemId, WorldSystemError<F>>)
        requires
            old(self).wf(),
        ensures
            final(self).wf(),
            r is Ok <==> old(self).system_map().len() < MAX_SYSTEMS,
            match r {
                Ok(id) => {
                    &&& !old(self).system_map().contains_key(id.0)
                    &&& forall|k: usize| k < id.0 ==> old(self).system_map().contains_key(k)
                    &&& final(self).system_map().contains_key(id.0)
                    &&& final(self).system_map() == old(self).system_map().insert(
                        id.0,
                        final(self).system_map()[id.0],
                    )
                    &&& final(self).spec_systems() == old(self).spec_systems().push(
                        final(self).system_map()[id.0],
                    )
                    &&& final(self).system_map()[id.0].spec_id() == id
                    &&& final(self).system_map()[id.0].spec_fn_of() == system_fn
                    &&& final(self).system_map()[id.0].spec_reads().len() == 0
                    &&& final(self).system_map()[id.0].spec_writes().len() == 0
                    &&& final(self).spec_stale()
                },
                Err(e) => {
                    &&& e matches WorldSystemError::FailedToAddWorldSystem(s)
                    &&& s.spec_fn_of() == system_fn
                    &&& final(self).system_map() == old(self).system_map()
                    &&& final(self).spec_systems() == old(self).spec_systems()
                    &&& final(self).spec_stale() == old(self).spec_stale()
                },
            },
            final(self).spec_tree() == old(self).spec_tree(),
            final(self).spec_queue() == old(self).spec_queue(),
            final(self).spec_entities() == old(self).spec_entities(),
            final(self).spec_members() == old(self).spec_members(),
    {
        let mut system = WorldSystem::new(system_fn);
        if self.systems.len() >= MAX_SYSTEMS {
            return Err(WorldSystemError::FailedToAddWorldSystem(system));
        }
        let key = self.systems.next_key();
        system.set_id(SystemId(key));
        let ghost sys = system;
        let _ = self.systems.insert_with(key, system);
        self.tree_stale = true;
        proof {
            assert(self.system_map() =~= old(self).system_map().insert(key, sys));
            old(self).systems.lemma_layout();
            self.systems.lemma_layout();
        }
        Ok(SystemId(key))
    }


    /// The unit registered as `id`.
    pub fn system(&self, id: SystemId) -> (r: Option<&WorldSystem<F>>)
        requires
            self.wf(),
        ensures
            match r {
                Some(s) => self.system_map().contains_key(id.0) && *s == self.system_map()[id.0],
                None => !self.system_map().contains_key(id.0),
            },
    {
        self.systems.get(id.0)
    }

    pub fn system_count(&self) -> (r: usize)
        requires
            self.wf(),
        ensures
            r == self.system_map().len(),
    {
        self.systems.len()
    }

    /// The batches, in the order the run loop executes them.
    pub fn system_tree(&self) -> (r: &Vec<SystemGroup>)
        ensures
            r@.map_values(|g: SystemGroup| g@) == self.spec_tree(),
    {
        &self.system_tree
    }

    /// The batches must be resolved again before the next pass.
    pub fn tree_is_stale(&self) -> (r: bool)
        ensures
            r == self.spec_stale(),
    {
        self.tree_stale
    }

    /// Declaring `dependency` on `component` for unit `system_id` would
    /// change its conflict profile, which makes the current batches stale.
    pub fn check_mid_frame_dependency(
        &self,
        dependency: DependencyType,
        system_id: SystemId,
        component: ComponentSetId,
    ) -> (r: bool)
        requires
            self.wf(),
        ensures
            r == (self.system_map().contains_key(system_id.0) && !self.system_map()[system_id.0].declared(
                dependency,
            ).contains(component)),
    {
        match self.systems.get(system_id.0) {
            Some(system) => !system.declares(dependency, component),
            None => false,
        }
    }

    /// Records that unit `system_id` has `dependency` on `component`. A new
    /// dependency, such as a read promoted to a write, marks the batches
    /// stale until the next `resolve_system_tree`. Returns true when the
    /// declaration changed.
    pub fn mark_dependency(
        &mut self,
        dependency: DependencyType,
        system_id: SystemId,
        component: ComponentSetId,
    ) -> (r: bool)
        requires
            old(self).wf(),
        ensures
            final(self).wf(),
            old(self).marks(final(self), dependency, system_id, component, r),
    {
        if !self.check_mid_frame_dependency(dependency, system_id, component) {
            return false;
        }
        let ghost before = self.systems;
        match self.systems.get_mut(system_id.0) {
            Some(system) => {
                let changed = system.declare(dependency, component);
                self.tree_stale = true;
                proof {
                    assert(self.system_map().dom() =~= before@.dom());
                }
                changed
            },
            None => false,
        }
    }

    /// The spec of `check_mid_frame_dependency`.
    pub open spec fn check_mid_frame_dependency_spec(
        &self,
        dependency: DependencyType,
        system_id: SystemId,
        component: ComponentSetId,
    ) -> bool {
        self.system_map().contains_key(system_id.0) && !self.system_map()[system_id.0].declared(
            dependency,
        ).contains(component)
    }

    /// Creates an entity at the smallest free index, with generation 0;
    /// `None` once every index that fits in 32 bits is taken.
    pub fn create_entity(&mut self) -> (r: Option<EntityId>)
        requires
            old(self).wf(),
        ensures
            final(self).wf(),
            old(self).creates_entity(final(self), r),
    {
        let key = self.entities.next_key();
        if key >= 0xFFFF_FFFF {
            return None;
        }
        let id = EntityId::new(key, 0);
        let _ = self.entities.insert_with(key, id);
        Some(id)
    }

    /// Walks the live entities.
    pub fn entity_ids(&self) -> (r: EntityIdIter<'_>)
        requires
            self.wf(),
        ensures
            r.spec_entities() == self.spec_entities(),
            r.remaining() == self.spec_entities().len(),
            r.wf(),
    {
        proof {
            self.entities.lemma_layout();
        }
        EntityIdIter { entities: &self.entities, idx: 0 }
    }

    /// Appends a command; it is applied after the current pass.
    pub fn queue_command(&mut self, command: WorldCommand)
        ensures
            final(self).wf() == old(self).wf(),
            old(self).queues(final(self), command),
    {
        self.command_queue.push(command);
    }

    /// Empties the queue and returns the commands in the order queued.
    pub fn take_commands(&mut self) -> (r: Vec<WorldCommand>)
        ensures
            r@ == old(self).spec_queue(),
            final(self).spec_queue() == Seq::<WorldCommand>::empty(),
            final(self).wf() == old(self).wf(),
            final(self).system_map() == old(self).system_map(),
            final(self).spec_systems() == old(self).spec_systems(),
            final(self).spec_tree() == old(self).spec_tree(),
            final(self).spec_stale() == old(self).spec_stale(),
            final(self).spec_entities() == old(self).spec_entities(),
            final(self).spec_members() == old(self).spec_members(),
    {
        let mut taken: Vec<WorldCommand> = Vec::new();
        std::mem::swap(&mut taken, &mut self.command_queue);
        taken
    }

    /// Entity `entity` holds an entry in data set `component`.
    pub fn has_component(&self, component: ComponentSetId, entity: EntityId) -> (r: bool)
        requires
            self.wf(),
        ensures
            r == (self.spec_members().contains_key(component.0) && self.spec_members()[component.0].contains_key(
                entity.spec_index() as usize,
            )),
    {
        match self.components.get(component.0) {
            Some(set) => match set.raw_set(set.id()) {
                Some(entries) => entries.contains(entity.index()),
                None => false,
            },
            None => false,
        }
    }

    /// Gives entity `entity` an entry in data set `component`.
    fn add_entry(&mut self, component: ComponentSetId, entity: EntityId)
        requires
            old(self).wf(),
        ensures
            final(self).wf(),
            component.0 < usize::MAX && entity.spec_index() < usize::MAX ==> final(self).spec_members().contains_key(component.0)
                && final(self).spec_members()[component.0].contains_key(entity.spec_index() as usize),
            final(self).system_map() == old(self).system_map(),
            final(self).spec_systems() == old(self).spec_systems(),
            final(self).spec_tree() == old(self).spec_tree(),
            final(self).spec_stale() == old(self).spec_stale(),
            final(self).spec_queue() == old(self).spec_queue(),
            final(self).spec_entities() == old(self).spec_entities(),
    {
        let idx = entity.index();
        if component.0 == usize::MAX || idx == usize::MAX {
            return;
        }
        match self.components.get_mut(component.0) {
            Some(set) => {
                let _ = set.insert(idx, ());
            },
            None => {
                let mut set = ComponentSet::new(component);
                let _ = set.insert(idx, ());
                let _ = self.components.insert_with(component.0, set);
            },
        }
    }

    /// Takes entity `entity` out of data set `component`.
    fn remove_entry(&mut self, component: ComponentSetId, entity: EntityId)
        requires
            old(self).wf(),
        ensures
            final(self).wf(),
            old(self).spec_members().contains_key(component.0) ==> final(self).spec_members().contains_key(
                component.0,
            ) && !final(self).spec_members()[component.0].contains_key(entity.spec_index() as usize),
            final(self).system_map() == old(self).system_map(),
            final(self).spec_systems() == old(self).spec_systems(),
            final(self).spec_tree() == old(self).spec_tree(),
            final(self).spec_stale() == old(self).spec_stale(),
            final(self).spec_queue() == old(self).spec_queue(),
            final(self).spec_entities() == old(self).spec_entities(),
    {
        match self.components.get_mut(component.0) {
            Some(set) => {
                let _ = set.remove(entity.index());
            },
            None => {},
        }
    }

    /// Applies one queued command. Returns false for `Stop`, which ends the
    /// run loop, and true for every other command.
    pub fn apply_command(&mut self, command: WorldCommand) -> (keep_running: bool)
        requires
            old(self).wf(),
        ensures
            final(self).wf(),
            keep_running == !(command is Stop),
            final(self).spec_queue() == old(self).spec_queue(),
            final(self).system_map() == old(self).system_map(),
            final(self).spec_systems() == old(self).spec_systems(),
            match command {
                WorldCommand::ResolveSystemTree => old(self).resolves_to(final(self)),
                _ => final(self).spec_tree() == old(self).spec_tree() && final(self).spec_stale()
                    == old(self).spec_stale(),
            },
            match command {
                WorldCommand::AddComponentToEntity(c, e) => c.0 < usize::MAX && e.spec_index() < usize::MAX ==> final(self).spec_members().contains_key(c.0) && final(self).spec_members()[c.0].contains_key(
                    e.spec_index() as usize,
                ),
                WorldCommand::RemoveComponentFromEntity(c, e) => old(self).spec_members().contains_key(
                    c.0,
                ) ==> !final(self).spec_members()[c.0].contains_key(e.spec_index() as usize),
                WorldCommand::CreateEntity => exists|e: Option<EntityId>| #[trigger] old(self).creates_entity(final(self), e),
                _ => final(self).spec_entities() == old(self).spec_entities(),
            },
    {
        match command {
            WorldCommand::AddComponentToEntity(component, entity) => {
                self.add_entry(component, entity);
                true
            },
            WorldCommand::RemoveComponentFromEntity(component, entity) => {
                self.remove_entry(component, entity);
                true
            },
            WorldCommand::CreateEntity => {
                let e = self.create_entity();
                assert(old(self).creates_entity(self, e));
                true
            },
            WorldCommand::ResolveSystemTree => {
                let _ = self.resolve_system_tree();
                true
            },
            WorldCommand::Stop => false,
        }
    }

    /// The handle of the data set of type `T`; `None` once the registry
    /// has handed out every handle.
    pub fn component_set_id<T: 'static>(&mut self) -> (r: Option<ComponentSetId>)
        requires
            old(self).wf(),
        ensures
            final(self).wf(),
            r is Some <==> old(self).spec_types()@.len() < usize::MAX - 1,
            match r {
                Some(id) => id.0 < final(self).spec_types()@.len(),
                None => final(self).spec_types() == old(self).spec_types(),
            },
            final(self).system_map() == old(self).system_map(),
            final(self).spec_systems() == old(self).spec_systems(),
            final(self).spec_tree() == old(self).spec_tree(),
            final(self).spec_stale() == old(self).spec_stale(),
            final(self).spec_queue() == old(self).spec_queue(),
            final(self).spec_entities() == old(self).spec_entities(),
            final(self).spec_members() == old(self).spec_members(),
    {
        if self.types.len() >= usize::MAX - 1 {
            return None;
        }
        Some(ComponentSetId::of::<T>(&mut self.types))
    }


    /// The entries of data set `component`.
    fn member_set(&self, component: ComponentSetId) -> (r: Option<&SparseSet<()>>)
        requires
            self.wf(),
        ensures
            match r {
                Some(set) => set.wf() && self.spec_members().contains_key(component.0) && set@
                    == self.spec_members()[component.0],
                None => !self.spec_members().contains_key(component.0),
            },
    {
        match self.components.get(component.0) {
            Some(cs) => cs.raw_set(cs.id()),
            None => None,
        }
    }

    /// Entity `key`, found in the driving set, is in every one of `sets`
    /// and in no data set that `filters` excludes.
    fn entity_passes(
        &self,
        sets: &Vec<&SparseSet<()>>,
        components: &Vec<ComponentSetId>,
        filters: &Vec<QueryFilter>,
        key: usize,
    ) -> (r: bool)
        requires
            self.wf(),
            sets@.len() == components@.len(),
            forall|i: int|
                0 <= i < sets@.len() ==> (#[trigger] sets@[i]).wf() && self.spec_members().contains_key(
                    components@[i].0,
                ) && sets@[i]@ == self.spec_members()[components@[i].0],
        ensures
            r == passes(self.spec_members(), components@, filters@, key),
    {
        let mut i: usize = 0;
        while i < sets.len()
            invariant
                i <= sets@.len(),
                sets@.len() == components@.len(),
                forall|j: int|
                    0 <= j < sets@.len() ==> (#[trigger] sets@[j]).wf() && self.spec_members().contains_key(
                        components@[j].0,
                    ) && sets@[j]@ == self.spec_members()[components@[j].0],
                forall|j: int|
                    0 <= j < i ==> self.spec_members().contains_key(#[trigger] components@[j].0)
                        && self.spec_members()[components@[j].0].contains_key(key),
            decreases sets@.len() - i,
        {
            if !sets[i].contains(key) {
                assert(!self.spec_members()[components@[i as int].0].contains_key(key));
                return false;
            }
            i = i + 1;
        }
        let mut f: usize = 0;
        while f < filters.len()
            invariant
                self.wf(),
                f <= filters@.len(),
                forall|j: int|
                    0 <= j < components@.len() ==> self.spec_members().contains_key(#[trigger] components@[j].0)
                        && self.spec_members()[components@[j].0].contains_key(key),
                forall|j: int|
                    0 <= j < f ==> match #[trigger] filters@[j] {
                        QueryFilter::ComponentNot(c) => !(self.spec_members().contains_key(c.0)
                            && self.spec_members()[c.0].contains_key(key)),
                        _ => true,
                    },
            decreases filters@.len() - f,
        {
            match filters[f] {
                QueryFilter::ComponentNot(c) => {
                    match self.member_set(c) {
                        Some(set) => {
                            if set.contains(key) {
                                assert(match filters@[f as int] {
                                    QueryFilter::ComponentNot(c) => self.spec_members().contains_key(c.0)
                                        && self.spec_members()[c.0].contains_key(key),
                                    _ => false,
                                });
                                return false;
                            }
                        },
                        None => {},
                    }
                },
                _ => {},
            }
            f = f + 1;
        }
        true
    }

    /// The entities that pass `query`, each once. The smallest requested
    /// data set (the first of the smallest) drives the iteration, and every
    /// one of its entities is probed in the other requested sets. A query
    /// that requests no data set yields nothing. Change and spatial
    /// filters pass every entity: the world records neither changes nor
    /// positions.
    pub fn query_entities(&self, query: &Query) -> (r: Vec<usize>)
        requires
            self.wf(),
        ensures
            r@.no_duplicates(),
            forall|k: usize|
                r@.contains(k) <==> (query@.0.len() > 0 && passes(
                    self.spec_members(),
                    query@.0,
                    query@.1,
                    k,
                )),
    {
        let components = query.components();
        let filters = query.filters();
        let mut out: Vec<usize> = Vec::new();
        if components.len() == 0 {
            return out;
        }
        let mut sets: Vec<&SparseSet<()>> = Vec::new();
        let mut lens: Vec<usize> = Vec::new();
        let mut i: usize = 0;
        while i < components.len()
            invariant
                self.wf(),
                components@ == query@.0,
                filters@ == query@.1,
                out@ == Seq::<usize>::empty(),
                i <= components@.len(),
                sets@.len() == i,
                lens@.len() == i,
                forall|j: int|
                    0 <= j < i ==> (#[trigger] sets@[j]).wf() && self.spec_members().contains_key(
                        components@[j].0,
                    ) && sets@[j]@ == self.spec_members()[components@[j].0] && lens@[j]
                        == sets@[j]@.len(),
            decreases components@.len() - i,
        {
            match self.member_set(components[i]) {
                Some(set) => {
                    let n = set.len();
                    sets.push(set);
                    lens.push(n);
                },
                None => {
                    proof {
                        assert forall|k: usize|
                            !passes(self.spec_members(), components@, filters@, k) by {
                            assert(!self.spec_members().contains_key(components@[i as int].0));
                        }
                    }
                    return out;
                },
            }
            i = i + 1;
        }
        let d = match driving_set_index(&lens) {
            Some(d) => d,
            None => {
                return out;
            },
        };
        let driver = sets[d];
        proof {
            driver.lemma_layout();
        }
        let mut slot: usize = 0;
        while slot < driver.len()
            invariant
                self.wf(),
                d < sets@.len(),
                driver == sets@[d as int],
                driver.wf(),
                sets@.len() == components@.len(),
                components@.len() > 0,
                forall|j: int|
                    0 <= j < sets@.len() ==> (#[trigger] sets@[j]).wf() && self.spec_members().contains_key(
                        components@[j].0,
                    ) && sets@[j]@ == self.spec_members()[components@[j].0],
                driver.keys().no_duplicates(),
                slot <= driver.keys().len(),
                out@.no_duplicates(),
                forall|x: usize|
                    #[trigger] out@.contains(x) ==> passes(self.spec_members(), components@, filters@, x)
                        && exists|j: int| 0 <= j < slot && driver.keys()[j] == x,
                forall|j: int|
                    0 <= j < slot && passes(self.spec_members(), components@, filters@, driver.keys()[j])
                        ==> out@.contains(#[trigger] driver.keys()[j]),
            decreases driver.keys().len() - slot,
        {
            proof {
                driver.lemma_layout();
            }
            let key = driver.get_key(slot).unwrap();
            let ghost before = out@;
            let ok = self.entity_passes(&sets, components, filters, key);
            if ok {
                proof {
                    if out@.contains(key) {
                        let j = choose|j: int| 0 <= j < slot && driver.keys()[j] == key;
                        assert(driver.keys()[slot as int] == key);
                    }
                }
                out.push(key);
            }
            assert(ok ==> out@ == before.push(key));
            assert(!ok ==> out@ == before);
            proof {
                assert forall|x: usize| #[trigger] out@.contains(x) implies passes(
                    self.spec_members(),
                    components@,
                    filters@,
                    x,
                ) && exists|j: int| 0 <= j < slot + 1 && driver.keys()[j] == x by {
                    if x == key && !before.contains(x) {
                        assert(driver.keys()[slot as int] == x);
                    } else {
                        assert(before.contains(x));
                        let j = choose|j: int| 0 <= j < slot && driver.keys()[j] == x;
                        assert(driver.keys()[j] == x);
                    }
                }
                assert forall|j: int|
                    0 <= j < slot + 1 && passes(self.spec_members(), components@, filters@, driver.keys()[j])
                        implies out@.contains(#[trigger] driver.keys()[j]) by {
                    if j < slot {
                        assert(before.contains(driver.keys()[j]));
                        let t = choose|t: int| 0 <= t < before.len() && before[t] == driver.keys()[j];
                        assert(out@[t] == driver.keys()[j]);
                    } else {
                        assert(driver.keys()[j] == key);
                        assert(out@ == before.push(key));
                        assert(out@[out@.len() - 1] == key);
                    }
                }
            }
            slot = slot + 1;
        }
        proof {
            driver.lemma_layout();
            assert forall|k: usize|
                passes(self.spec_members(), components@, filters@, k) implies out@.contains(k) by {
                assert(self.spec_members()[components@[d as int].0].contains_key(k));
                assert(driver@.contains_key(k));
                let j = choose|j: int| 0 <= j < driver.keys().len() && driver.keys()[j] == k;
                assert(out@.contains(driver.keys()[j]));
            }
        }
        out
    }

    /// Ends a pass of the run loop: drains the queue and applies its
    /// commands in order. Returns false as soon as a `Stop` is applied, the
    /// commands after it being dropped. Otherwise the batches are resolved
    /// again if a registration or a dependency change made them stale, and
    /// the loop goes on.
    pub fn finish_pass(&mut self) -> (keep_running: bool)
        requires
            old(self).wf(),
        ensures
            final(self).wf(),
            keep_running == !old(self).spec_queue().contains(WorldCommand::Stop),
            final(self).spec_queue() == Seq::<WorldCommand>::empty(),
            final(self).system_map() == old(self).system_map(),
            final(self).spec_systems() == old(self).spec_systems(),
            keep_running ==> !final(self).spec_stale() && final(self).spec_tree() == tree_of(
                final(self).spec_systems(),
            ),
    {
        let commands = self.take_commands();
        let mut i: usize = 0;
        while i < commands.len()
            invariant
                self.wf(),
                commands@ == old(self).spec_queue(),
                i <= commands@.len(),
                self.spec_queue() == Seq::<WorldCommand>::empty(),
                self.system_map() == old(self).system_map(),
                self.spec_systems() == old(self).spec_systems(),
                forall|j: int| 0 <= j < i ==> commands@[j] != WorldCommand::Stop,
            decreases commands@.len() - i,
        {
            if !self.apply_command(commands[i]) {
                assert(commands@[i as int] == WorldCommand::Stop);
                return false;
            }
            i = i + 1;
        }
        if self.tree_stale {
            let _ = self.resolve_system_tree();
        }
        true
    }

    /// The graph of the registered units and its groups of mutually
    /// conflict-free units.
    fn build_tree(&self) -> (r: Vec<SystemGroup>)
        requires
            self.wf(),
        ensures
            r@.map_values(|g: SystemGroup| g@) == tree_of(self.spec_systems()),
    {
        let systems = self.systems.as_slice();
        proof {
            self.systems.lemma_layout();
        }
        let mut graph: ConflictGraph<&WorldSystem<F>> = ConflictGraph::new();
        let mut i: usize = 0;
        while i < systems.len()
            invariant
                graph.wf(),
                i <= systems@.len(),
                systems@ == self.spec_systems(),
                systems@.len() <= MAX_SYSTEMS,
                graph@ == refs_of(self.spec_systems()).subrange(0, i as int),
            decreases systems@.len() - i,
        {
            let _ = graph.insert(&systems[i]);
            assert(graph@ =~= refs_of(self.spec_systems()).subrange(0, i + 1));
            i = i + 1;
        }
        assert(graph@ =~= refs_of(self.spec_systems()));
        let mut tree: Vec<SystemGroup> = Vec::new();
        match graph.cliques() {
            Ok(groups) => {
                let ghost gv = groups@.map_values(|g: Vec<&WorldSystem<F>>| g@);
                let mut j: usize = 0;
                while j < groups.len()
                    invariant
                        gv == groups@.map_values(|g: Vec<&WorldSystem<F>>| g@),
                        gv == spec_cliques(refs_of(self.spec_systems())),
                        j <= groups@.len(),
                        tree@.len() == j,
                        forall|k: int| 0 <= k < j ==> (#[trigger] tree@[k])@ == group_view(gv[k]),
                    decreases groups@.len() - j,
                {
                    let group = SystemGroup::from_systems(&groups[j]);
                    assert(group@ == group_view(gv[j as int]));
                    tree.push(group);
                    j = j + 1;
                }
                assert(tree@.map_values(|g: SystemGroup| g@) =~= gv.map_values(
                    |g: Seq<&WorldSystem<F>>| group_view(g),
                ));
            },
            Err(_) => {},
        }
        tree
    }

    /// Rebuilds the conflict graph of the registered units, colors it, and
    /// replaces the batches with its groups.
    pub fn resolve_system_tree(&mut self) -> (r: Result<(), WorldSystemError<F>>)
        requires
            old(self).wf(),
        ensures
            final(self).wf(),
            r is Ok,
            old(self).resolves_to(final(self)),
    {
        let tree = self.build_tree();
        self.system_tree = tree;
        self.tree_stale = false;
        Ok(())
    }
}


/// Walks the entity ids of a world, in storage order.
pub struct EntityIdIter<'a> {
    entities: &'a SparseSet<EntityId>,
    idx: usize,
}

impl<'a> EntityIdIter<'a> {
    pub closed spec fn wf(&self) -> bool {
        &&& self.entities.wf()
        &&& self.idx <= self.entities.keys().len()
        &&& forall|k: usize| #[trigger] self.entities@.contains_key(k) ==> self.entities@[k].spec_index() == k
    }

    /// The entities being walked, by index.
    pub closed spec fn spec_entities(&self) -> Map<usize, EntityId> {
        self.entities@
    }

    /// How many ids are still to come.
    pub closed spec fn remaining(&self) -> nat {
        (self.entities.keys().len() - self.idx) as nat
    }

    /// The next id; every live entity comes out exactly once.
    pub fn next(&mut self) -> (r: Option<EntityId>)
        requires
            old(self).wf(),
        ensures
            final(self).wf(),
            final(self).spec_entities() == old(self).spec_entities(),
            match r {
                Some(e) => old(self).remaining() > 0 && final(self).remaining() == old(self).remaining() - 1
                    && old(self).spec_entities().contains_key(e.spec_index() as usize)
                    && old(self).spec_entities()[e.spec_index() as usize] == e,
                None => old(self).remaining() == 0 && final(self).remaining() == 0,
            },
    {
        proof {
            self.entities.lemma_layout();
        }
        if self.idx < self.entities.len() {
            match self.entities.get_kv_pair(self.idx) {
                Some((_, e)) => {
                    self.idx = self.idx + 1;
                    Some(*e)
                },
                None => None,
            }
        } else {
            None
        }
    }
}

/// The view of the world that a unit of work gets while it runs.
pub struct LocalWorld<'a, F> {
    world: &'a mut World<F>,
    system_id: SystemId,
}

impl<'a, F> LocalWorld<'a, F> {
    pub closed spec fn spec_world(&self) -> World<F> {
        *self.world
    }

    pub closed spec fn spec_system_id(&self) -> SystemId {
        self.system_id
    }

    pub fn new(world: &'a mut World<F>, system_id: SystemId) -> (r: Self)
        ensures
            r.spec_world() == *old(world),
            r.spec_system_id() == system_id,
    {
        LocalWorld { world, system_id }
    }

    pub fn system_id(&self) -> (r: SystemId)
        ensures
            r == self.spec_system_id(),
    {
        self.system_id
    }

    /// Read access to the world.
    pub fn world(&self) -> (r: &World<F>)
        ensures
            *r == self.spec_world(),
    {
        &*self.world
    }

    /// Creates an entity, as `World::create_entity` does.
    pub fn spawn_entity(&mut self) -> (r: Option<EntityId>)
        requires
            old(self).spec_world().wf(),
        ensures
            final(self).spec_world().wf(),
            final(self).spec_system_id() == old(self).spec_system_id(),
            old(self).spec_world().creates_entity(&final(self).spec_world(), r),
    {
        self.world.create_entity()
    }

    /// Queues a command for the world.
    pub fn queue_command(&mut self, command: WorldCommand)
        requires
            old(self).spec_world().wf(),
        ensures
            final(self).spec_world().wf(),
            final(self).spec_system_id() == old(self).spec_system_id(),
            old(self).spec_world().queues(&final(self).spec_world(), command),
    {
        self.world.queue_command(command);
    }

    /// Declares a dependency of the running unit, as
    /// `World::mark_dependency` does.
    pub fn mark_dependency(&mut self, dependency: DependencyType, component: ComponentSetId) -> (r: bool)
        requires
            old(self).spec_world().wf(),
        ensures
            final(self).spec_world().wf(),
            final(self).spec_system_id() == old(self).spec_system_id(),
            old(self).spec_world().marks(
                &final(self).spec_world(),
                dependency,
                old(self).spec_system_id(),
                component,
                r,
            ),
    {
        self.world.mark_dependency(dependency, self.system_id, component)
    }

    /// Gives `entity` an entry of type `T`: the running unit now writes
    /// that data set, and the entry is added when the queued command is
    /// applied. Returns the handle of the data set, or `None`, changing
    /// nothing, when it has no handle and none can be assigned.
    pub fn add_component<T: 'static>(&mut self, entity: EntityId) -> (r: Option<ComponentSetId>)
        requires
            old(self).spec_world().wf(),
        ensures
            final(self).spec_world().wf(),
            final(self).spec_system_id() == old(self).spec_system_id(),
            r is Some <==> old(self).spec_world().spec_types()@.len() < usize::MAX - 1,
            match r {
                Some(c) => {
                    &&& final(self).spec_world().spec_queue() == old(self).spec_world().spec_queue().push(
                        WorldCommand::AddComponentToEntity(c, entity),
                    )
                    &&& old(self).spec_world().system_map().contains_key(old(self).spec_system_id().0)
                        ==> final(self).spec_world().system_map()[old(self).spec_system_id().0].declared(
                        DependencyType::Write,
                    ).contains(c)
                },
                None => final(self).spec_world().spec_queue() == old(self).spec_world().spec_queue(),
            },
    {
        match self.world.component_set_id::<T>() {
            Some(component) => {
                let ghost w0 = *self.world;
                let _ = self.world.mark_dependency(DependencyType::Write, self.system_id, component);
                proof {
                    let sid = self.system_id.0;
                    if w0.system_map().contains_key(sid) {
                        let before = w0.system_map()[sid].declared(DependencyType::Write);
                        if !before.contains(component) {
                            assert(self.world.system_map()[sid].declared(DependencyType::Write)[before.len() as int] == component);
                        }
                    }
                }
                self.world.queue_command(WorldCommand::AddComponentToEntity(component, entity));
                Some(component)
            },
            None => None,
        }
    }
}

/// Resolving twice in a row, with no registration or dependency change in
/// between, gives the same batches both times.
pub proof fn lemma_resolve_idempotent<F>(w0: World<F>, w1: World<F>, w2: World<F>)
    requires
        w0.resolves_to(&w1),
        w1.resolves_to(&w2),
    ensures
        w2.spec_tree() == w1.spec_tree(),
        w2.system_map() == w1.system_map(),
{
}

} // verus!
