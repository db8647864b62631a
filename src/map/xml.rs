//! The older map file of GNOME Mahjongg: maps made of layers, each a list of
//! rows, columns, blocks and single tiles. The XML is read elsewhere into the
//! types below; here they are turned into slots.

use crate::map::{
    block_slots, check_coords, coords_in_range, map_of, max_x, max_y, push_block, push_run,
    column_slots, row_slots, run, GameMap, MapError, Slot,
};
use vstd::prelude::*;

verus! {

/// A whole map file.
pub struct MapDef {
    pub maps: Vec<MapElement>,
}

/// One map of a file.
pub struct MapElement {
    pub name: String,
    pub scorename: String,
    pub layers: Vec<Layer>,
}

/// The items of layer `z`.
pub struct Layer {
    pub z: usize,
    pub items: Vec<Item>,
}

/// One element of a layer, in half cells.
pub enum Item {
    Row { left: usize, right: usize, y: usize },
    Column { x: usize, top: usize, bottom: usize },
    Block { left: usize, right: usize, top: usize, bottom: usize },
    Tile { x: usize, y: usize },
}

/// The slots of `item` on layer `z`.
pub open spec fn item_slots(item: Item, z: usize) -> Seq<Slot> {
    match item {
        Item::Row { left, right, y } => row_slots(left as int, right as int, y, z),
        Item::Column { x, top, bottom } => column_slots(x, top as int, bottom as int, z),
        Item::Block { left, right, top, bottom } => block_slots(
            run(left as int, right as int),
            top as int,
            bottom as int,
            z,
        ),
        Item::Tile { x, y } => seq![Slot { x, y, z }],
    }
}

pub open spec fn items_slots(items: Seq<Item>, z: usize) -> Seq<Slot>
    decreases items.len(),
{
    if items.len() == 0 {
        Seq::empty()
    } else {
        items_slots(items.drop_last(), z) + item_slots(items.last(), z)
    }
}

/// The slots of the layers, layer after layer.
pub open spec fn layers_slots(layers: Seq<Layer>) -> Seq<Slot>
    decreases layers.len(),
{
    if layers.len() == 0 {
        Seq::empty()
    } else {
        layers_slots(layers.drop_last()) + items_slots(layers.last().items@, layers.last().z)
    }
}

fn push_item(slots: &mut Vec<Slot>, item: &Item, z: usize)
    ensures
        final(slots)@ == old(slots)@ + item_slots(*item, z),
{
    match item {
        Item::Row { left, right, y } => push_run(slots, *left, *right, *y, z, true),
        Item::Column { x, top, bottom } => push_run(slots, *top, *bottom, *x, z, false),
        Item::Block { left, right, top, bottom } => push_block(slots, *left, *right, *top, *bottom, z),
        Item::Tile { x, y } => {
            let ghost start = slots@;
            slots.push(Slot { x: *x, y: *y, z });
            proof {
                assert(slots@ =~= start + seq![Slot { x: *x, y: *y, z }]);
            }
        },
    }
}

/// A map can be played: some slots, an even number of them, none too far
/// out.
pub open spec fn map_ok(m: MapElement) -> bool {
    let slots = layers_slots(m.layers@);
    slots.len() > 0 && slots.len() % 2 == 0 && coords_in_range(slots)
}

/// The slots of one map of a file.
fn map_slots(m: &MapElement) -> (r: Vec<Slot>)
    ensures
        r@ == layers_slots(m.layers@),
{
    let mut slots: Vec<Slot> = Vec::new();
    let mut i: usize = 0;
    while i < m.layers.len()
        invariant
            i <= m.layers@.len(),
            slots@ == layers_slots(m.layers@.subrange(0, i as int)),
        decreases m.layers@.len() - i,
    {
        let layer = &m.layers[i];
        let ghost before = slots@;
        let mut k: usize = 0;
        while k < layer.items.len()
            invariant
                k <= layer.items@.len(),
                slots@ == before + items_slots(layer.items@.subrange(0, k as int), layer.z),
            decreases layer.items@.len() - k,
        {
            proof {
                let next = layer.items@.subrange(0, k + 1);
                assert(next.drop_last() =~= layer.items@.subrange(0, k as int));
                assert(next.last() == layer.items@[k as int]);
            }
            push_item(&mut slots, &layer.items[k], layer.z);
            proof {
                assert(slots@ =~= before + items_slots(layer.items@.subrange(0, k + 1), layer.z));
            }
            k += 1;
        }
        proof {
            assert(layer.items@.subrange(0, layer.items@.len() as int) =~= layer.items@);
            let next = m.layers@.subrange(0, i + 1);
            assert(next.drop_last() =~= m.layers@.subrange(0, i as int));
            assert(next.last() == m.layers@[i as int]);
        }
        i += 1;
    }
    proof {
        assert(m.layers@.subrange(0, m.layers@.len() as int) =~= m.layers@);
    }
    slots
}

/// The maps of a file, in order; refused as a whole if one of them cannot
/// be played.
pub fn maps_from_def(def: &MapDef) -> (r: Result<Vec<GameMap>, MapError>)
    ensures
        r is Ok <==> forall|i: int|
            0 <= i < def.maps@.len() ==> map_ok(#[trigger] def.maps@[i]),
        match r {
            Ok(v) => {
                &&& v@.len() == def.maps@.len()
                &&& forall|i: int|
                    0 <= i < v@.len() ==> {
                        let slots = layers_slots(def.maps@[i].layers@);
                        &&& (#[trigger] v@[i]).name@ == def.maps@[i].name@
                        &&& v@[i].slots@ == slots
                        &&& v@[i].width == max_x(slots) + 2
                        &&& v@[i].height == max_y(slots) + 2
                    }
            },
            Err(e) => e == MapError::InvalidMap,
        },
{
    let mut maps: Vec<GameMap> = Vec::new();
    let mut i: usize = 0;
    while i < def.maps.len()
        invariant
            i <= def.maps@.len(),
            maps@.len() == i,
            forall|j: int| 0 <= j < i ==> map_ok(#[trigger] def.maps@[j]),
            forall|j: int|
                0 <= j < i ==> {
                    let slots = layers_slots(def.maps@[j].layers@);
                    &&& (#[trigger] maps@[j]).name@ == def.maps@[j].name@
                    &&& maps@[j].slots@ == slots
                    &&& maps@[j].width == max_x(slots) + 2
                    &&& maps@[j].height == max_y(slots) + 2
                },
        decreases def.maps@.len() - i,
    {
        let m = &def.maps[i];
        let slots = map_slots(m);
        if slots.len() == 0 || slots.len() % 2 != 0 || !check_coords(slots.as_slice()) {
            return Err(MapError::InvalidMap);
        }
        let map = map_of(m.name.clone(), slots);
        maps.push(map);
        i += 1;
    }
    Ok(maps)
}

} // verus!
