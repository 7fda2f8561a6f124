use rost_west::manager::{FromMapgenId, MapgenId, MapgenManager};
use rost_west::rustlantis::Mapgen;

struct Recorder {
    id: MapgenId,
    chunks: u32,
}

impl FromMapgenId for Recorder {
    fn mapgen_id(&self) -> MapgenId {
        self.id
    }

    fn from_mapgen_id(id: MapgenId) -> Self {
        Recorder { id, chunks: 0 }
    }
}

#[test]
fn register_takes_free_ids_only() {
    let mut manager: MapgenManager<Recorder> = MapgenManager::default();
    assert!(manager.register(7));
    assert!(!manager.register(7));
    assert_eq!(manager.generator(7).unwrap().id, 7);
    assert!(manager.generator(8).is_none());
}

#[test]
fn new_mapgen_gives_distinct_live_ids() {
    let mut manager: MapgenManager<Recorder> = MapgenManager::default();
    let a = manager.new_mapgen();
    let b = manager.new_mapgen();
    assert_ne!(a, b);
    assert_eq!(manager.generator(a).unwrap().id, a);
    assert_eq!(manager.generator(b).unwrap().id, b);
}

#[test]
fn destroy_undoes_new() {
    let mut manager: MapgenManager<Recorder> = MapgenManager::default();
    let kept = manager.new_mapgen();
    let id = manager.new_mapgen();
    assert!(manager.destroy_mapgen(id));
    assert!(manager.generator(id).is_none());
    assert!(!manager.destroy_mapgen(id));
    assert!(manager.generator(kept).is_some());
}

#[test]
fn generator_mut_of_an_unknown_id() {
    let mut manager: MapgenManager<Recorder> = MapgenManager::default();
    assert!(manager.generator_mut(5).is_none());
    assert!(manager.generator(5).is_none());
}

#[test]
fn destroy_of_an_unknown_id() {
    let mut manager: MapgenManager<Mapgen> = MapgenManager::default();
    assert!(!manager.destroy_mapgen(12345));
}

#[test]
fn generator_mut_drives_the_generator_in_place() {
    let mut manager: MapgenManager<Recorder> = MapgenManager::default();
    let id = manager.new_mapgen();
    manager.generator_mut(id).unwrap().chunks += 1;
    manager.generator_mut(id).unwrap().chunks += 1;
    assert_eq!(manager.generator(id).unwrap().chunks, 2);
}

#[test]
fn mapgen_remembers_its_id() {
    let mut manager: MapgenManager<Mapgen> = MapgenManager::default();
    let id = manager.new_mapgen();
    assert_eq!(manager.generator(id).unwrap().id(), id);
    assert_eq!(Mapgen::new(99).id(), 99);
}

#[test]
fn a_fresh_registry_has_free_ids() {
    let mut manager: MapgenManager<Recorder> = MapgenManager::default();
    assert!(manager.has_free_id());
    manager.new_mapgen();
    assert!(manager.has_free_id());
}

#[test]
fn run_drives_a_known_generator_only() {
    let mut manager: MapgenManager<Recorder> = MapgenManager::default();
    let id = manager.new_mapgen();
    assert!(manager.run(id, |g| g.chunks += 1));
    assert!(manager.run(id, |g| g.chunks += 1));
    assert_eq!(manager.generator(id).unwrap().chunks, 2);
    let other = id.wrapping_add(1);
    assert!(!manager.run(other, |_| panic!("no generator has this id")));
    assert_eq!(manager.generator(id).unwrap().chunks, 2);
}
