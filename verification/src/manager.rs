//! The registry of map generators that the game engine creates, drives and destroys by id.

use vstd::prelude::*;
use std::collections::HashMap;
use std::collections::hash_map::Entry;

verus! {

broadcast use vstd::std_specs::hash::group_hash_axioms;

/// The id under which the engine refers to a map generator.
pub type MapgenId = u32;

/// A map generator that can be created for a given id.
pub trait FromMapgenId: Sized {
    /// The id the generator was created for.
    spec fn mapgen_id(&self) -> MapgenId;

    fn from_mapgen_id(id: MapgenId) -> (r: Self)
        ensures
            r.mapgen_id() == id,
    ;
}

/// The map generators that are alive, by id.
pub struct MapgenManager<G> {
    generators: HashMap<MapgenId, G>,
}

impl<G> View for MapgenManager<G> {
    type V = Map<MapgenId, G>;

    closed spec fn view(&self) -> Map<MapgenId, G> {
        self.generators@
    }
}

impl<G> Default for MapgenManager<G> {
    fn default() -> (r: Self)
        ensures
            r@ == Map::<MapgenId, G>::empty(),
    {
        MapgenManager { generators: HashMap::new() }
    }
}

impl<G: FromMapgenId> MapgenManager<G> {
    /// Registers a new generator under `id` unless the id is taken. Returns whether it did.
    pub fn register(&mut self, id: MapgenId) -> (r: bool)
        ensures
            r == !old(self)@.contains_key(id),
            final(self)@.dom() == old(self)@.dom().insert(id),
            r ==> final(self)@[id].mapgen_id() == id,
            forall|k: MapgenId| k != id ==> #[trigger] final(self)@.get(k) == old(self)@.get(k),
            !r ==> final(self)@ == old(self)@,
            final(self)@.dom().finite(),
            final(self)@.dom().len() == old(self)@.dom().len() + if r { 1int } else { 0int },
    {
        match self.generators.entry(id) {
            Entry::Vacant(entry) => {
                entry.insert(G::from_mapgen_id(id));
                true
            },
            Entry::Occupied(_) => false,
        }
    }
}

impl<G: FromMapgenId> MapgenManager<G> {
    /// Creates a generator under a random id that no live generator has, and returns the id.
    /// Ids are drawn at random until a free one comes up; should an astronomical number of
    /// draws all hit taken ids, the smallest free id is taken instead.
    pub fn new_mapgen(&mut self) -> (id: MapgenId)
        requires
            exists|k: MapgenId| !old(self)@.contains_key(k),
        ensures
            !old(self)@.contains_key(id),
            final(self)@.dom() == old(self)@.dom().insert(id),
            final(self)@[id].mapgen_id() == id,
            forall|k: MapgenId| k != id ==> #[trigger] final(self)@.get(k) == old(self)@.get(k),
            final(self)@.dom().finite(),
            final(self)@.dom().len() == old(self)@.dom().len() + 1,
    {
        let mut draws: u64 = 0;
        while draws < u64::MAX
            invariant
                self@ == old(self)@,
            decreases u64::MAX - draws,
        {
            let id = crate::specs::random_mapgen_id();
            if self.register(id) {
                return id;
            }
            draws = draws + 1;
        }
        let mut id: MapgenId = 0;
        loop
            invariant
                self@ == old(self)@,
                exists|k: MapgenId| !self@.contains_key(k),
                forall|k: MapgenId| k < id ==> #[trigger] self@.contains_key(k),
            decreases u32::MAX - id,
        {
            if self.register(id) {
                return id;
            }
            if id == u32::MAX {
                assert(forall|k: MapgenId| #[trigger] self@.contains_key(k));
                return id;
            }
            id = id + 1;
        }
    }

    /// Removes the generator with `id`. Returns whether there was one.
    pub fn destroy_mapgen(&mut self, id: MapgenId) -> (r: bool)
        ensures
            r == old(self)@.contains_key(id),
            final(self)@ == old(self)@.remove(id),
            final(self)@.dom().finite(),
            final(self)@.dom().len() == old(self)@.dom().len() - if r { 1int } else { 0int },
    {
        self.generators.remove(&id).is_some()
    }
}

/// All `2^32` ids, as a set.
proof fn lemma_all_ids() -> (all: Set<MapgenId>)
    ensures
        all.finite(),
        all.len() == 0x1_0000_0000,
        forall|k: MapgenId| #[trigger] all.contains(k),
{
    let range = vstd::set_lib::set_int_range(0, 0x1_0000_0000);
    vstd::set_lib::lemma_int_range(0, 0x1_0000_0000);
    let to_id = |i: int| i as MapgenId;
    let all = range.map(to_id);
    assert(vstd::relations::injective_on(to_id, range));
    vstd::set_lib::lemma_map_size(range, all, to_id);
    assert forall|k: MapgenId| #[trigger] all.contains(k) by {
        assert(range.contains(k as int));
        assert(to_id(k as int) == k);
    }
    all
}

/// A map from ids has a free id exactly when it holds fewer than `2^32` entries.
proof fn lemma_free_id(m: Map<MapgenId, int>, n: nat)
    requires
        m.dom().finite(),
        n == m.dom().len(),
    ensures
        (exists|k: MapgenId| !m.contains_key(k)) <==> n < 0x1_0000_0000,
{
    let all = lemma_all_ids();
    assert(m.dom().subset_of(all));
    vstd::set_lib::lemma_len_subset(m.dom(), all);
    if n >= 0x1_0000_0000 {
        vstd::set_lib::lemma_subset_equality(m.dom(), all);
        assert forall|k: MapgenId| #[trigger] m.contains_key(k) by {
            assert(all.contains(k));
        }
    } else {
        if forall|k: MapgenId| #[trigger] m.contains_key(k) {
            assert(all.subset_of(m.dom()));
            vstd::set_lib::lemma_len_subset(all, m.dom());
        }
    }
}

/// Destroying a generator undoes its creation: the generators that `new_mapgen` leaves, less
/// the new one, are exactly those that were there before, and a second `destroy_mapgen` of the
/// same id finds nothing.
pub proof fn law_destroy_undoes_new<G>(before: Map<MapgenId, G>, after: Map<MapgenId, G>, id: MapgenId)
    requires
        !before.contains_key(id),
        after.dom() == before.dom().insert(id),
        forall|k: MapgenId| k != id ==> #[trigger] after.get(k) == before.get(k),
    ensures
        after.contains_key(id),
        after.remove(id) == before,
        !after.remove(id).contains_key(id),
        after.remove(id).remove(id) == after.remove(id),
{
    assert forall|k: MapgenId| #[trigger] after.remove(id).get(k) == before.get(k) by {
        if k != id {
            assert(after.get(k) == before.get(k));
        }
    }
    assert(after.remove(id) =~= before) by {
        assert forall|k: MapgenId| #[trigger] after.remove(id).dom().contains(k) == before.dom().contains(k) by {
            assert(after.remove(id).get(k) == before.get(k));
        }
        assert forall|k: MapgenId| #[trigger] after.remove(id).dom().contains(k) implies after.remove(id)[k] == before[k] by {
            assert(after.remove(id).get(k) == before.get(k));
        }
    }
    assert(after.remove(id).remove(id) =~= after.remove(id));
}

impl<G> MapgenManager<G> {
    /// A registry holds finitely many generators.
    pub proof fn law_finitely_many(&self)
        ensures
            self@.dom().finite(),
    {
    }

    /// Whether some id is free, so that `new_mapgen` can take it.
    pub fn has_free_id(&self) -> (r: bool)
        ensures
            r == exists|k: MapgenId| !self@.contains_key(k),
    {
        let len = self.generators.len();
        proof {
            let ghost ids = self@.dom().mk_map(|k: MapgenId| 0int);
            assert(ids.dom() == self@.dom());
            lemma_free_id(ids, self@.dom().len());
            assert forall|k: MapgenId| ids.contains_key(k) == self@.contains_key(k) by {}
        }
        len <= 0xffff_ffff
    }

    /// The generator with `id`, if there is one.
    pub fn generator(&self, id: MapgenId) -> (r: Option<&G>)
        ensures
            match r {
                Some(g) => self@.contains_key(id) && *g == self@[id],
                None => !self@.contains_key(id),
            },
    {
        self.generators.get(&id)
    }

    /// Runs `f` on the generator with `id`, if there is one. Returns whether there was one; the
    /// other generators are left as they are.
    pub fn run(&mut self, id: MapgenId, f: impl FnOnce(&mut G)) -> (r: bool)
        requires
            forall|g: &mut G| #[trigger] call_requires(f, (g,)),
        ensures
            r == old(self)@.contains_key(id),
            !r ==> final(self)@ == old(self)@,
            r ==> final(self)@.dom() == old(self)@.dom(),
            r ==> forall|k: MapgenId| k != id ==> #[trigger] final(self)@.get(k) == old(self)@.get(k),
            r ==> exists|g: &mut G|
                *g == old(self)@[id] && *final(g) == final(self)@[id] && #[trigger] call_ensures(f, (g,), ()),
    {
        match self.generator_mut(id) {
            Some(generator) => {
                f(generator);
                true
            },
            None => false,
        }
    }

    /// The generator with `id`, if there is one, to be driven in place.
    pub fn generator_mut(&mut self, id: MapgenId) -> (r: Option<&mut G>)
        ensures
            match r {
                Some(g) => old(self)@.contains_key(id) && *g == old(self)@[id]
                    && final(self)@ == old(self)@.insert(id, *final(g)),
                None => !old(self)@.contains_key(id) && final(self)@ == old(self)@,
            },
    {
        match self.generators.entry(id) {
            Entry::Occupied(entry) => Some(entry.into_mut()),
            Entry::Vacant(_) => None,
        }
    }
}

} // verus!
