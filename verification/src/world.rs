use crate::error::QueryError;
use crate::matching::{records_of, rows_of};
use crate::model::{
    arrays, faithful, in_table, positions, records_fit, replay, same_shape, Call,
};
use crate::query::run_query;
use crate::request::{
    acquire_all, granted_requirements, keys_of, lemma_granted_bound, lemma_granted_modes,
    lemma_tracker_domain, outcome, Access, SystemReq,
};
use crate::tracker::{all_free, CompChk};
use std::collections::HashMap;
use vstd::prelude::*;

verus! {

broadcast use vstd::std_specs::hash::group_hash_axioms;

/// What a world holds, as plain mathematical values.
pub struct WorldView<T> {
    /// The component table: for each component type that was ever inserted,
    /// the array of its values.
    pub table: Map<u64, Seq<T>>,
    /// The entity registry: one record of (component type, slot) pairs per
    /// entity, in creation order.
    pub records: Seq<Seq<(u64, usize)>>,
    /// The aliasing tracker: the borrow state of each registered type.
    pub tracker: Map<u64, i32>,
}

/// The invariant of a world: the tracker knows exactly the component types
/// that have an array, and every pair of every record names an existing
/// array element.
pub open spec fn valid<T>(v: WorldView<T>) -> bool {
    &&& v.tracker.dom() == v.table.dom()
    &&& records_fit(v.table, v.records)
}

/// The slot that the next value of type `key` is stored under: the length of
/// its array, or 0 where there is none yet.
pub open spec fn next_slot<T>(table: Map<u64, Seq<T>>, key: u64) -> nat {
    if table.contains_key(key) {
        table[key].len()
    } else {
        0
    }
}

/// The world after `component` was appended to the array of type `key`. The
/// array is created if this is its first value, and the type is registered
/// with the tracker as free.
pub open spec fn inserted<T>(v: WorldView<T>, key: u64, component: T) -> WorldView<T> {
    let array = if v.table.contains_key(key) {
        v.table[key]
    } else {
        Seq::empty()
    };
    WorldView {
        table: v.table.insert(key, array.push(component)),
        records: v.records,
        tracker: v.tracker.insert(key, 0i32),
    }
}

/// The world after an entity with `record` was appended to the registry.
pub open spec fn registered<T>(v: WorldView<T>, record: Seq<(u64, usize)>) -> WorldView<T> {
    WorldView { table: v.table, records: v.records.push(record), tracker: v.tracker }
}

/// Whether every pair of a pending record names an existing array element.
pub open spec fn pending_valid<T>(v: WorldView<T>, pending: Seq<(u64, usize)>) -> bool {
    forall|p: int| 0 <= p < pending.len() ==> in_table(v.table, #[trigger] pending[p])
}

/// Container of all components and all entities.
pub struct World<T> {
    /// One array per component type.
    components: HashMap<u64, Vec<T>>,
    /// Borrow state per component type, granted anew for each query.
    comp_chk: CompChk,
    /// One record per entity.
    entities: Vec<Vec<(u64, usize)>>,
}

/// Staging object for one new entity. It stores each component in the world
/// at once and remembers the slot; `build` adds the record to the registry.
pub struct EntityBuilder<'a, T> {
    world: &'a mut World<T>,
    new_entity: Vec<(u64, usize)>,
}

impl<T> View for World<T> {
    type V = WorldView<T>;

    closed spec fn view(&self) -> WorldView<T> {
        WorldView {
            table: arrays(self.components@),
            records: records_of(self.entities@),
            tracker: self.comp_chk@,
        }
    }
}

impl<T> World<T> {
    /// Whether the world's invariant holds.
    pub open spec fn wf(&self) -> bool {
        valid(self@)
    }

    /// An empty world.
    pub fn new() -> (world: Self)
        ensures
            world.wf(),
            world@.table == Map::<u64, Seq<T>>::empty(),
            world@.records == Seq::<Seq<(u64, usize)>>::empty(),
            world@.tracker == Map::<u64, i32>::empty(),
    {
        let world = World {
            components: HashMap::new(),
            comp_chk: CompChk::new(),
            entities: Vec::new(),
        };
        assert(world@.table =~= Map::<u64, Seq<T>>::empty());
        assert(world@.records =~= Seq::<Seq<(u64, usize)>>::empty());
        world
    }

    /// Starts a new entity. The world is borrowed until the builder is built
    /// or dropped.
    pub fn create_entity(&mut self) -> (builder: EntityBuilder<'_, T>)
        requires
            old(self).wf(),
        ensures
            builder.wf(),
            *builder.world() == *old(self),
            *final(builder.world()) == *final(self),
            builder.pending() == Seq::<(u64, usize)>::empty(),
    {
        EntityBuilder { world: self, new_entity: Vec::new() }
    }

    /// Runs `f` once for every entity that holds a component of each type
    /// that `R` asks for, in registry order.
    ///
    /// The tracker is reset, and asked for every requirement of `R` before
    /// any entity is looked at: a refusal fails the whole query, and then no
    /// component has changed. The callback receives mutable references to the
    /// entity's components of the types asked for with `Access::Write`, and
    /// shared references to those asked for with `Access::Read`, each group
    /// in the order of `R`. What it leaves behind the mutable references is
    /// what the arrays hold afterwards.
    pub fn execute<R: SystemReq, F: FnMut(Vec<&mut T>, Vec<&T>)>(&mut self, f: F) -> (res: Result<
        (),
        QueryError,
    >)
        requires
            old(self).wf(),
            forall|w: Vec<&mut T>, r: Vec<&T>|
                w@.len() == positions(R::requirements(), Access::Write).len() && r@.len()
                    == positions(R::requirements(), Access::Read).len() ==> call_requires(
                    f,
                    (w, r),
                ),
        ensures
            final(self).wf(),
            final(self)@.records == old(self)@.records,
            final(self)@.tracker == acquire_all(
                all_free(old(self)@.tracker),
                R::requirements(),
            ).state,
            res == outcome(acquire_all(all_free(old(self)@.tracker), R::requirements())),
            res is Err ==> final(self)@.table == old(self)@.table,
            same_shape(final(self)@.table, old(self)@.table),
            res is Ok ==> exists|calls: Seq<(Vec<&mut T>, Vec<&T>)>, log: Seq<Call<T>>|
                {
                    &&& calls.len() == log.len()
                    &&& forall|i: int|
                        0 <= i < calls.len() ==> {
                            &&& call_ensures(f, #[trigger] calls[i], ())
                            &&& log[i].taken == calls[i].0@.map_values(|w: &mut T| *w)
                            &&& log[i].given == calls[i].0@.map_values(|w: &mut T| *final(w))
                            &&& log[i].seen == calls[i].1@.map_values(|r: &T| *r)
                        }
                    &&& faithful(
                        R::requirements(),
                        rows_of(old(self)@.records, keys_of(R::requirements())),
                        old(self)@.table,
                        log,
                    )
                    &&& final(self)@.table == replay(
                        R::requirements(),
                        rows_of(old(self)@.records, keys_of(R::requirements())),
                        old(self)@.table,
                        log,
                    )
                },
    {
        let mut f = f;
        let mut component_set: Vec<u64> = Vec::new();
        self.comp_chk.return_all();
        let ghost free = self.comp_chk@;
        assert(free.dom() =~= old(self)@.tracker.dom());
        match R::c_set(&mut component_set, &mut self.comp_chk) {
            Ok(()) => {},
            Err(e) => {
                proof {
                    lemma_tracker_domain(free, R::requirements());
                }
                return Err(e);
            },
        }
        proof {
            lemma_granted_bound(free, R::requirements());
            lemma_granted_modes(free, R::requirements());
            lemma_tracker_domain(free, R::requirements());
            assert(R::requirements().take(R::requirements().len() as int) =~= R::requirements());
            assert(component_set@ =~= keys_of(R::requirements()));
        }
        let reqs = granted_requirements(&component_set, &self.comp_chk);
        assert(reqs@ =~= R::requirements());
        run_query(&mut self.components, &self.entities, &reqs, &mut f);
        proof {
            let before = old(self)@;
            let after = self@;
            assert forall|e: int, p: int|
                0 <= e < after.records.len() && 0 <= p < after.records[e].len() implies in_table(
                after.table,
                #[trigger] after.records[e][p],
            ) by {
                assert(in_table(before.table, before.records[e][p]));
            }
        }
        Ok(())
    }

    /// Appends `component` to the array of type `key` and returns its slot.
    ///
    /// The array is created if this is the first value of its type. The slot
    /// stays valid for as long as the world lives: nothing is ever removed.
    pub fn insert(&mut self, key: u64, component: T) -> (slot: usize)
        requires
            old(self).wf(),
        ensures
            final(self).wf(),
            final(self)@ == inserted(old(self)@, key, component),
            slot == next_slot(old(self)@.table, key),
    {
        let ghost before = self@;
        self.comp_chk.register(key);
        let storage = self.components.entry(key).or_insert(Vec::new());
        let index = storage.len();
        storage.push(component);
        proof {
            let after = self@;
            assert(after.table =~= inserted(before, key, component).table);
            assert(after.tracker.dom() =~= after.table.dom());
            assert forall|e: int, p: int|
                0 <= e < after.records.len() && 0 <= p < after.records[e].len() implies in_table(
                after.table,
                #[trigger] after.records[e][p],
            ) by {
                assert(in_table(before.table, before.records[e][p]));
            }
        }
        index
    }

    /// The array of the components of type `key`.
    pub fn get_array(&self, key: u64) -> (res: Result<&Vec<T>, QueryError>)
        ensures
            match res {
                Ok(array) => self@.table.contains_key(key) && array@ == self@.table[key],
                Err(e) => e == QueryError::UnknownComponent && !self@.table.contains_key(key),
            },
    {
        match self.components.get(&key) {
            Some(array) => Ok(array),
            None => Err(QueryError::UnknownComponent),
        }
    }

    /// The entity registry.
    pub fn entities(&self) -> (records: &Vec<Vec<(u64, usize)>>)
        ensures
            records_of(records@) == self@.records,
    {
        &self.entities
    }

    /// The borrow state that the aliasing tracker holds for `key`.
    pub fn borrow_state(&self, key: u64) -> (entry: Option<i32>)
        ensures
            entry == (if self@.tracker.contains_key(key) {
                Some(self@.tracker[key])
            } else {
                None
            }),
    {
        self.comp_chk.state(key)
    }
}

impl<'a, T> EntityBuilder<'a, T> {
    /// The borrow of the world that the builder works on.
    pub closed spec fn world(&self) -> &'a mut World<T> {
        self.world
    }

    /// The record assembled so far.
    pub closed spec fn pending(&self) -> Seq<(u64, usize)> {
        self.new_entity@
    }

    /// Whether the world is well formed and the pending record fits it.
    pub open spec fn wf(&self) -> bool {
        self.world().wf() && pending_valid(self.world()@, self.pending())
    }

    /// Stores `component` as a value of type `key` and notes its slot in the
    /// pending record.
    pub fn with(self, key: u64, component: T) -> (builder: EntityBuilder<'a, T>)
        requires
            self.wf(),
        ensures
            builder.wf(),
            *final(builder.world()) == *final(self.world()),
            builder.world()@ == inserted(self.world()@, key, component),
            next_slot(self.world()@.table, key) <= usize::MAX,
            builder.pending() == self.pending().push(
                (key, next_slot(self.world()@.table, key) as usize),
            ),
    {
        let mut this = self;
        let ghost before = this.world@;
        let index = this.world.insert(key, component);
        this.new_entity.push((key, index));
        proof {
            let after = this.world@;
            assert forall|p: int| 0 <= p < this.new_entity@.len() implies in_table(
                after.table,
                #[trigger] this.new_entity@[p],
            ) by {
                if p < self.new_entity@.len() {
                    assert(in_table(before.table, self.new_entity@[p]));
                }
            }
        }
        this
    }

    /// Adds the pending record to the registry as a new entity.
    pub fn build(self)
        requires
            self.wf(),
        ensures
            final(self.world()).wf(),
            final(self.world())@ == registered(self.world()@, self.pending()),
    {
        let EntityBuilder { new_entity, world } = self;
        let ghost before = world@;
        world.entities.push(new_entity);
        proof {
            let after = world@;
            assert(after.records =~= before.records.push(new_entity@));
            assert(after.table =~= before.table);
            assert forall|e: int, p: int|
                0 <= e < after.records.len() && 0 <= p < after.records[e].len() implies in_table(
                after.table,
                #[trigger] after.records[e][p],
            ) by {
                if e < before.records.len() {
                    assert(in_table(before.table, before.records[e][p]));
                } else {
                    assert(in_table(before.table, new_entity@[p]));
                }
            }
        }
    }
}

} // verus!
