//! The content ids of the nodes that the map generator places, looked up by node name.

use vstd::prelude::*;
use crate::chunk::{CONTENT_AIR, CONTENT_IGNORE, CONTENT_UNKNOWN, id_or_unknown};

verus! {


// stone
pub const BASENODE_STONE: &'static str = "basenodes:stone";
pub const BASENODE_DESERT_STONE: &'static str = "basenodes:desert_stone";
pub const BASENODE_COBBLE: &'static str = "basenodes:cobble";
pub const BASENODE_MOSSYCOBBLE: &'static str = "basenodes:mossycobble";

// dirt
pub const BASENODE_DIRT: &'static str = "basenodes:dirt";
pub const BASENODE_DIRT_WITH_GRASS: &'static str = "basenodes:dirt_with_grass";
pub const BASENODE_DIRT_WITH_SNOW: &'static str = "basenodes:dirt_with_snow";

// sand
pub const BASENODE_SAND: &'static str = "basenodes:sand";
pub const BASENODE_DESERT_SAND: &'static str = "basenodes:desert_sand";
pub const BASENODE_GRAVEL: &'static str = "basenodes:gravel";

// trees
pub const BASENODE_TREE: &'static str = "basenodes:tree";
pub const BASENODE_LEAVES: &'static str = "basenodes:leaves";
pub const BASENODE_JUNGLETREE: &'static str = "basenodes:jungletree";
pub const BASENODE_JUNGLELEAVES: &'static str = "basenodes:jungleleaves";
pub const BASENODE_PINE_TREE: &'static str = "basenodes:pine_tree";
pub const BASENODE_PINE_NEEDLES: &'static str = "basenodes:pine_needles";

// fluids
pub const BASENODE_WATER_SOURCE: &'static str = "basenodes:water_source";
pub const BASENODE_WATER_FLOWING: &'static str = "basenodes:water_flowing";
pub const BASENODE_RIVER_WATER_SOURCE: &'static str = "basenodes:river_water_source";
pub const BASENODE_RIVER_WATER_FLOWING: &'static str = "basenodes:river_water_flowing";
pub const BASENODE_LAVA_FLOWING: &'static str = "basenodes:lava_flowing";
pub const BASENODE_LAVA_SOURCE: &'static str = "basenodes:lava_source";

// plants
pub const BASENODE_JUNGLEGRASS: &'static str = "basenodes:junglegrass";
pub const BASENODE_APPLE: &'static str = "basenodes:apple";

// snow
pub const BASENODE_ICE: &'static str = "basenodes:ice";
pub const BASENODE_SNOW: &'static str = "basenodes:snow";
pub const BASENODE_SNOWBLOCK: &'static str = "basenodes:snowblock";

// the names of the game the generator is played with, where it differs from basenodes
pub const MCL_STONE: &'static str = "mcl_core:stone";
pub const MCL_DIRT_WITH_GRASS: &'static str = "mcl_core:dirt_with_grass";
pub const MCL_DIRT_WITH_GRASS_SNOW: &'static str = "mcl_core:dirt_with_grass_snow";
pub const MCL_DIRT: &'static str = "mcl_core:dirt";
pub const MCL_SAND: &'static str = "mcl_core:sand";
pub const MCL_WATER_SOURCE: &'static str = "mcl_core:water_source";
pub const MCL_LAVA_SOURCE: &'static str = "mcl_core:lava_source";

/// The content ids of the nodes that the map generator places.
pub struct Materials {
    pub unknown: u16,
    pub air: u16,
    pub ignore: u16,
    pub stone: u16,
    pub desert_stone: u16,
    pub dirt_with_grass: u16,
    pub dirt_with_snow: u16,
    pub dirt: u16,
    pub sand: u16,
    pub desert_sand: u16,
    pub gravel: u16,
    pub junglegrass: u16,
    pub tree: u16,
    pub leaves: u16,
    pub jungletree: u16,
    pub jungleleaves: u16,
    pub pine_tree: u16,
    pub pine_needles: u16,
    pub water_source: u16,
    pub water_flowing: u16,
    pub river_water_source: u16,
    pub river_water_flowing: u16,
    pub lava_flowing: u16,
    pub lava_source: u16,
    pub cobble: u16,
    pub mossycobble: u16,
    pub apple: u16,
    pub ice: u16,
    pub snow: u16,
    pub snowblock: u16,
}

/// The id that `lookup` gave for `name`, or `CONTENT_UNKNOWN` where it found none.
fn lookup_id(lookup: &impl Fn(&str) -> Option<u16>, name: &str) -> (r: u16)
    requires
        call_requires(*lookup, (name,)),
    ensures
        exists|found: Option<u16>| call_ensures(*lookup, (name,), found) && r == id_or_unknown(found),
{
    let found = lookup(name);
    let id = match found {
        Some(id) => id,
        None => CONTENT_UNKNOWN,
    };
    assert(call_ensures(*lookup, (name,), found) && id == id_or_unknown(found));
    id
}

impl Materials {
    /// The ids of the materials: the engine's hard-coded ids for unknown, air and ignore, and for
    /// every other material the id that `lookup` gives for its node name, or `CONTENT_UNKNOWN`
    /// where the engine knows no node of that name.
    pub fn load(lookup: impl Fn(&str) -> Option<u16>) -> (r: Self)
        requires
            forall|name: &str| #[trigger] call_requires(lookup, (name,)),
        ensures
            r.unknown == CONTENT_UNKNOWN,
            r.air == CONTENT_AIR,
            r.ignore == CONTENT_IGNORE,
            exists|found: Option<u16>| call_ensures(lookup, (MCL_STONE,), found) && r.stone == id_or_unknown(found),
            exists|found: Option<u16>| call_ensures(lookup, (BASENODE_DESERT_STONE,), found) && r.desert_stone == id_or_unknown(found),
            exists|found: Option<u16>| call_ensures(lookup, (MCL_DIRT_WITH_GRASS,), found) && r.dirt_with_grass == id_or_unknown(found),
            exists|found: Option<u16>| call_ensures(lookup, (MCL_DIRT_WITH_GRASS_SNOW,), found) && r.dirt_with_snow == id_or_unknown(found),
            exists|found: Option<u16>| call_ensures(lookup, (MCL_DIRT,), found) && r.dirt == id_or_unknown(found),
            exists|found: Option<u16>| call_ensures(lookup, (MCL_SAND,), found) && r.sand == id_or_unknown(found),
            exists|found: Option<u16>| call_ensures(lookup, (BASENODE_DESERT_SAND,), found) && r.desert_sand == id_or_unknown(found),
            exists|found: Option<u16>| call_ensures(lookup, (BASENODE_GRAVEL,), found) && r.gravel == id_or_unknown(found),
            exists|found: Option<u16>| call_ensures(lookup, (BASENODE_JUNGLEGRASS,), found) && r.junglegrass == id_or_unknown(found),
            exists|found: Option<u16>| call_ensures(lookup, (BASENODE_TREE,), found) && r.tree == id_or_unknown(found),
            exists|found: Option<u16>| call_ensures(lookup, (BASENODE_LEAVES,), found) && r.leaves == id_or_unknown(found),
            exists|found: Option<u16>| call_ensures(lookup, (BASENODE_JUNGLETREE,), found) && r.jungletree == id_or_unknown(found),
            exists|found: Option<u16>| call_ensures(lookup, (BASENODE_JUNGLELEAVES,), found) && r.jungleleaves == id_or_unknown(found),
            exists|found: Option<u16>| call_ensures(lookup, (BASENODE_PINE_TREE,), found) && r.pine_tree == id_or_unknown(found),
            exists|found: Option<u16>| call_ensures(lookup, (BASENODE_PINE_NEEDLES,), found) && r.pine_needles == id_or_unknown(found),
            exists|found: Option<u16>| call_ensures(lookup, (MCL_WATER_SOURCE,), found) && r.water_source == id_or_unknown(found),
            exists|found: Option<u16>| call_ensures(lookup, (BASENODE_WATER_FLOWING,), found) && r.water_flowing == id_or_unknown(found),
            exists|found: Option<u16>| call_ensures(lookup, (BASENODE_RIVER_WATER_SOURCE,), found) && r.river_water_source == id_or_unknown(found),
            exists|found: Option<u16>| call_ensures(lookup, (BASENODE_RIVER_WATER_FLOWING,), found) && r.river_water_flowing == id_or_unknown(found),
            exists|found: Option<u16>| call_ensures(lookup, (BASENODE_LAVA_FLOWING,), found) && r.lava_flowing == id_or_unknown(found),
            exists|found: Option<u16>| call_ensures(lookup, (MCL_LAVA_SOURCE,), found) && r.lava_source == id_or_unknown(found),
            exists|found: Option<u16>| call_ensures(lookup, (BASENODE_COBBLE,), found) && r.cobble == id_or_unknown(found),
            exists|found: Option<u16>| call_ensures(lookup, (BASENODE_MOSSYCOBBLE,), found) && r.mossycobble == id_or_unknown(found),
            exists|found: Option<u16>| call_ensures(lookup, (BASENODE_APPLE,), found) && r.apple == id_or_unknown(found),
            exists|found: Option<u16>| call_ensures(lookup, (BASENODE_ICE,), found) && r.ice == id_or_unknown(found),
            exists|found: Option<u16>| call_ensures(lookup, (BASENODE_SNOW,), found) && r.snow == id_or_unknown(found),
            exists|found: Option<u16>| call_ensures(lookup, (BASENODE_SNOWBLOCK,), found) && r.snowblock == id_or_unknown(found),
    {
        let stone = lookup_id(&lookup, MCL_STONE);
        let desert_stone = lookup_id(&lookup, BASENODE_DESERT_STONE);
        let dirt_with_grass = lookup_id(&lookup, MCL_DIRT_WITH_GRASS);
        let dirt_with_snow = lookup_id(&lookup, MCL_DIRT_WITH_GRASS_SNOW);
        let dirt = lookup_id(&lookup, MCL_DIRT);
        let sand = lookup_id(&lookup, MCL_SAND);
        let desert_sand = lookup_id(&lookup, BASENODE_DESERT_SAND);
        let gravel = lookup_id(&lookup, BASENODE_GRAVEL);
        let junglegrass = lookup_id(&lookup, BASENODE_JUNGLEGRASS);
        let tree = lookup_id(&lookup, BASENODE_TREE);
        let leaves = lookup_id(&lookup, BASENODE_LEAVES);
        let jungletree = lookup_id(&lookup, BASENODE_JUNGLETREE);
        let jungleleaves = lookup_id(&lookup, BASENODE_JUNGLELEAVES);
        let pine_tree = lookup_id(&lookup, BASENODE_PINE_TREE);
        let pine_needles = lookup_id(&lookup, BASENODE_PINE_NEEDLES);
        let water_source = lookup_id(&lookup, MCL_WATER_SOURCE);
        let water_flowing = lookup_id(&lookup, BASENODE_WATER_FLOWING);
        let river_water_source = lookup_id(&lookup, BASENODE_RIVER_WATER_SOURCE);
        let river_water_flowing = lookup_id(&lookup, BASENODE_RIVER_WATER_FLOWING);
        let lava_flowing = lookup_id(&lookup, BASENODE_LAVA_FLOWING);
        let lava_source = lookup_id(&lookup, MCL_LAVA_SOURCE);
        let cobble = lookup_id(&lookup, BASENODE_COBBLE);
        let mossycobble = lookup_id(&lookup, BASENODE_MOSSYCOBBLE);
        let apple = lookup_id(&lookup, BASENODE_APPLE);
        let ice = lookup_id(&lookup, BASENODE_ICE);
        let snow = lookup_id(&lookup, BASENODE_SNOW);
        let snowblock = lookup_id(&lookup, BASENODE_SNOWBLOCK);
        Materials {
            unknown: CONTENT_UNKNOWN,
            air: CONTENT_AIR,
            ignore: CONTENT_IGNORE,
            stone,
            desert_stone,
            dirt_with_grass,
            dirt_with_snow,
            dirt,
            sand,
            desert_sand,
            gravel,
            junglegrass,
            tree,
            leaves,
            jungletree,
            jungleleaves,
            pine_tree,
            pine_needles,
            water_source,
            water_flowing,
            river_water_source,
            river_water_flowing,
            lava_flowing,
            lava_source,
            cobble,
            mossycobble,
            apple,
            ice,
            snow,
            snowblock,
        }
    }

    /// Loads the materials into `slot` with `load`, unless they are there already: a
    /// generator looks its materials up once, when it fills its first chunk.
    pub fn load_once(slot: &mut Option<Materials>, load: impl FnOnce() -> Materials)
        requires
            *old(slot) is None ==> call_requires(load, ()),
        ensures
            *final(slot) is Some,
            *old(slot) is Some ==> *final(slot) == *old(slot),
            *old(slot) is None ==> call_ensures(load, (), (*final(slot))->Some_0),
    {
        if slot.is_none() {
            *slot = Some(load());
        }
    }
}

} // verus!
