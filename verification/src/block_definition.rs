//! What is known of each kind of block.

use crate::types::BlockId;
use std::collections::HashMap;
use vstd::prelude::*;
use vstd::std_specs::hash::*;

verus! {

broadcast use vstd::std_specs::hash::group_hash_axioms;

/// The names of a block's textures.
#[derive(Debug, Clone)]
pub struct BlockTextures {
    pub top: String,
    pub bottom: String,
    pub side: String,
}

/// One kind of block.
#[derive(Debug, Clone)]
pub struct BlockDefinition {
    pub id: u8,
    pub name: String,
    /// Whether the block fills its space.
    pub solid: bool,
    /// Whether one can see through the block.
    pub transparent: bool,
    pub textures: BlockTextures,
}

/// Which blocks are solid and which transparent.
#[derive(Debug, Clone)]
pub struct BlockPropertiesTable {
    solid: [bool; 256],
    transparent: [bool; 256],
}

/// Some definition in `defs` is about block `i` and has these properties.
pub open spec fn defined_as(
    defs: Map<u8, BlockDefinition>,
    i: int,
    solid: bool,
    transparent: bool,
) -> bool {
    exists|k: u8| #[trigger]
        defs.contains_key(k) && defs[k].id == i && defs[k].solid == solid && defs[k].transparent
            == transparent
}

/// No definition in `defs` is about block `i`.
pub open spec fn undefined(defs: Map<u8, BlockDefinition>, i: int) -> bool {
    forall|k: u8| #[trigger] defs.contains_key(k) ==> defs[k].id != i
}

/// Some definition whose key is below `key` is about block `i`.
spec fn defined_below(defs: Map<u8, BlockDefinition>, i: int, key: int) -> bool {
    exists|k: u8| #[trigger] defs.contains_key(k) && k < key && defs[k].id == i
}

impl BlockPropertiesTable {
    /// Whether the table says that a block is solid.
    pub closed spec fn solid_spec(&self, id: int) -> bool {
        self.solid@[id]
    }

    /// Whether the table says that a block is transparent.
    pub closed spec fn transparent_spec(&self, id: int) -> bool {
        self.transparent@[id]
    }

    /// The table of a set of definitions. A block without a definition is solid
    /// and not transparent, but air is not solid. If several definitions are
    /// about one block, the table follows one of them.
    pub fn from_definitions(definitions: &HashMap<u8, BlockDefinition>) -> (r: Self)
        ensures
            forall|i: int|
                0 <= i < 256 && undefined(definitions@, i) ==> (#[trigger] r.solid_spec(i)) == (i
                    != 0) && !r.transparent_spec(i),
            forall|i: int|
                0 <= i < 256 && !undefined(definitions@, i) ==> defined_as(
                    definitions@,
                    i,
                    #[trigger] r.solid_spec(i),
                    r.transparent_spec(i),
                ),
    {
        let mut table: BlockPropertiesTable = BlockPropertiesTable::default();
        let ghost first = table;
        table.solid[0] = false;
        let mut key: usize = 0;
        proof {
            assert forall|i: int| 0 <= i < 256 implies table.follows(definitions@, i, 0) by {
                assert(first.solid_spec(i) && !first.transparent_spec(i));
            }
        }
        while key < 256
            invariant
                key <= 256,
                forall|i: int| 0 <= i < 256 ==> #[trigger] table.follows(definitions@, i, key as int),
            decreases 256 - key,
        {
            let k: u8 = key as u8;
            let ghost before = table;
            match definitions.get(&k) {
                Some(def) => {
                    table.solid[def.id as usize] = def.solid;
                    table.transparent[def.id as usize] = def.transparent;
                },
                None => {},
            }
            proof {
                assert forall|i: int| 0 <= i < 256 implies #[trigger] table.follows(
                    definitions@,
                    i,
                    key + 1,
                ) by {
                    assert(before.follows(definitions@, i, key as int));
                    if definitions@.contains_key(k) && definitions@[k].id == i {
                        assert(defined_as(
                            definitions@,
                            i,
                            table.solid_spec(i),
                            table.transparent_spec(i),
                        ));
                    } else {
                        assert(table.solid_spec(i) == before.solid_spec(i));
                        assert(table.transparent_spec(i) == before.transparent_spec(i));
                        assert(defined_below(definitions@, i, key + 1) == defined_below(
                            definitions@,
                            i,
                            key as int,
                        ));
                    }
                }
            }
            key = key + 1;
        }
        proof {
            assert forall|i: int| 0 <= i < 256 implies (undefined(definitions@, i)
                <==> !defined_below(definitions@, i, 256)) && #[trigger] table.follows(
                definitions@,
                i,
                256,
            ) by {}
            assert forall|i: int| 0 <= i < 256 && undefined(definitions@, i) implies (
            #[trigger] table.solid_spec(i)) == (i != 0) && !table.transparent_spec(i) by {
                assert(table.follows(definitions@, i, 256));
            }
            assert forall|i: int| 0 <= i < 256 && !undefined(definitions@, i) implies defined_as(
                definitions@,
                i,
                #[trigger] table.solid_spec(i),
                table.transparent_spec(i),
            ) by {
                assert(table.follows(definitions@, i, 256));
            }
        }
        table
    }

    /// What the table says of block `i` is right for the definitions whose keys
    /// are below `key`.
    closed spec fn follows(&self, defs: Map<u8, BlockDefinition>, i: int, key: int) -> bool {
        if defined_below(defs, i, key) {
            defined_as(defs, i, self.solid_spec(i), self.transparent_spec(i))
        } else {
            self.solid_spec(i) == (i != 0) && !self.transparent_spec(i)
        }
    }

    /// Whether a block is solid.
    pub fn is_solid(&self, block_id: u8) -> (r: bool)
        ensures
            r == self.solid_spec(block_id as int),
    {
        self.solid[block_id as usize]
    }

    /// Whether a block is transparent.
    pub fn is_transparent(&self, block_id: u8) -> (r: bool)
        ensures
            r == self.transparent_spec(block_id as int),
    {
        self.transparent[block_id as usize]
    }
}

impl Default for BlockPropertiesTable {
    /// Every block is solid and none is transparent.
    fn default() -> (r: Self)
        ensures
            forall|i: int| 0 <= i < 256 ==> #[trigger] r.solid_spec(i),
            forall|i: int| 0 <= i < 256 ==> !#[trigger] r.transparent_spec(i),
    {
        Self { solid: [true; 256], transparent: [false; 256] }
    }
}

/// Whether a block is solid: as the table says, or, where there is none, unless
/// it is air or water.
pub open spec fn solid_in(table: Option<&BlockPropertiesTable>, block_id: BlockId) -> bool {
    match table {
        Some(t) => t.solid_spec(block_id as int),
        None => block_id != 0 && block_id != 5,
    }
}

/// Whether a block is solid: as the table says, or, where there is none, unless
/// it is air or water.
pub fn is_block_solid_from_table(
    table: Option<&BlockPropertiesTable>,
    block_id: BlockId,
) -> (r: bool)
    ensures
        r == solid_in(table, block_id),
{
    match table {
        Some(t) => t.is_solid(block_id),
        None => !(block_id == 0 || block_id == 5),
    }
}

/// Where nothing is known of the blocks, air and water stop nobody and all else does.
pub proof fn law_unknown_blocks(block_id: BlockId)
    ensures
        !solid_in(None, 0),
        !solid_in(None, 5),
        0 < block_id < 5 || block_id > 5 ==> solid_in(None, block_id),
{
}

/// Where the definitions agree on a block, the block has the properties that they give it, and
/// no other.
pub proof fn law_definitions_are_kept(
    defs: Map<u8, BlockDefinition>,
    key: u8,
    solid: bool,
    transparent: bool,
)
    requires
        defs.contains_key(key),
        forall|k: u8| #[trigger]
            defs.contains_key(k) && defs[k].id == defs[key].id ==> defs[k].solid == defs[key].solid
                && defs[k].transparent == defs[key].transparent,
    ensures
        !undefined(defs, defs[key].id as int),
        defined_as(defs, defs[key].id as int, solid, transparent) <==> solid == defs[key].solid
            && transparent == defs[key].transparent,
{
}

} // verus!
