//! The map file of GNOME Mahjongg: maps of rows, columns, blocks and single
//! tiles, grouped in layers that may nest. The XML is read elsewhere into
//! the types below; here they are turned into slots.

use crate::map::{
    block_slots, check_coords, coords_in_range, map_of, max_x, max_y, push_block, push_run, row_slots,
    column_slots, run, GameMap, MapError, Slot,
};
use vstd::prelude::*;

verus! {

broadcast use vstd::std_specs::vec::group_vec_axioms, vstd::seq::group_seq_axioms;

/// A whole map file.
pub struct Mahjongg {
    pub maps: Vec<MapElement>,
}

/// One map of a file: its name and what it is made of.
pub struct MapElement {
    pub name: String,
    pub items: Vec<Item>,
}

/// Items on layer `z` (0 when the file gives none), where their own layer
/// is not given.
pub struct Layer {
    pub z: usize,
    pub items: Vec<Item>,
}

/// One element of a map. The coordinates are in half cells; a `z` of `None`
/// takes the layer of the enclosing element.
pub enum Item {
    Layer(Layer),
    Row { left: usize, right: usize, y: usize, z: Option<usize> },
    Column { x: usize, top: usize, bottom: usize, z: Option<usize> },
    Block { left: usize, right: usize, top: usize, bottom: usize, z: Option<usize> },
    Tile { x: usize, y: usize, z: Option<usize> },
}

pub open spec fn layer_of(z: Option<usize>, layer_z: usize) -> usize {
    match z {
        Some(z) => z,
        None => layer_z,
    }
}

/// The slots of `item`, inside a layer `layer_z`.
pub open spec fn item_slots(item: Item, layer_z: usize) -> Seq<Slot>
    decreases item,
{
    match item {
        Item::Layer(l) => items_slots(l.items@, l.z),
        Item::Row { left, right, y, z } => row_slots(left as int, right as int, y, layer_of(z, layer_z)),
        Item::Column { x, top, bottom, z } => column_slots(x, top as int, bottom as int, layer_of(z, layer_z)),
        Item::Block { left, right, top, bottom, z } => block_slots(
            run(left as int, right as int),
            top as int,
            bottom as int,
            layer_of(z, layer_z),
        ),
        Item::Tile { x, y, z } => seq![Slot { x, y, z: layer_of(z, layer_z) }],
    }
}

/// The slots of `items` in turn, inside a layer `layer_z`.
pub open spec fn items_slots(items: Seq<Item>, layer_z: usize) -> Seq<Slot>
    decreases items,
{
    if items.len() == 0 {
        Seq::empty()
    } else {
        items_slots(items.drop_last(), layer_z) + item_slots(items.last(), layer_z)
    }
}

/// Appends the slots of `item`, inside a layer `layer_z`.
pub fn parse_items(slots: &mut Vec<Slot>, item: &Item, layer_z: usize)
    ensures
        final(slots)@ == old(slots)@ + item_slots(*item, layer_z),
    decreases item,
{
    match item {
        Item::Layer(l) => {
            let ghost start = slots@;
            let mut k: usize = 0;
            while k < l.items.len()
                invariant
                    *item == Item::Layer(*l),
                    k <= l.items@.len(),
                    slots@ == start + items_slots(l.items@.subrange(0, k as int), l.z),
                decreases l.items@.len() - k,
            {
                proof {
                    let next = l.items@.subrange(0, k + 1);
                    assert(next.drop_last() =~= l.items@.subrange(0, k as int));
                    assert(next.last() == l.items@[k as int]);
                    assert(decreases_to!(l.items => l.items[k as int]));
                    assert(decreases_to!(*item => (*item)->Layer_0));
                    assert(decreases_to!((*item)->Layer_0 => (*item)->Layer_0.items));
                    assert(decreases_to!(*item => l.items@[k as int]));
                }
                parse_items(slots, &l.items[k], l.z);
                proof {
                    assert(slots@ =~= start + items_slots(l.items@.subrange(0, k + 1), l.z));
                }
                k += 1;
            }
            proof {
                assert(l.items@.subrange(0, l.items@.len() as int) =~= l.items@);
            }
        },
        Item::Row { left, right, y, z } => {
            let z = match z {
                Some(v) => *v,
                None => layer_z,
            };
            push_run(slots, *left, *right, *y, z, true);
        },
        Item::Column { x, top, bottom, z } => {
            let z = match z {
                Some(v) => *v,
                None => layer_z,
            };
            push_run(slots, *top, *bottom, *x, z, false);
        },
        Item::Block { left, right, top, bottom, z } => {
            let z = match z {
                Some(v) => *v,
                None => layer_z,
            };
            push_block(slots, *left, *right, *top, *bottom, z);
        },
        Item::Tile { x, y, z } => {
            let z = match z {
                Some(v) => *v,
                None => layer_z,
            };
            let ghost start = slots@;
            slots.push(Slot { x: *x, y: *y, z });
            proof {
                assert(slots@ =~= start + seq![Slot { x: *x, y: *y, z }]);
            }
        },
    }
}

/// A map can be played: some slots, an even number of them, none too far
/// out.
pub open spec fn map_ok(m: MapElement) -> bool {
    let slots = items_slots(m.items@, 0);
    slots.len() > 0 && slots.len() % 2 == 0 && coords_in_range(slots)
}

/// The slots of one map of a file.
fn map_slots(m: &MapElement) -> (r: Vec<Slot>)
    ensures
        r@ == items_slots(m.items@, 0),
{
    let mut slots: Vec<Slot> = Vec::new();
    let mut k: usize = 0;
    while k < m.items.len()
        invariant
            k <= m.items@.len(),
            slots@ == items_slots(m.items@.subrange(0, k as int), 0),
        decreases m.items@.len() - k,
    {
        proof {
            let next = m.items@.subrange(0, k + 1);
            assert(next.drop_last() =~= m.items@.subrange(0, k as int));
            assert(next.last() == m.items@[k as int]);
        }
        parse_items(&mut slots, &m.items[k], 0);
        k += 1;
    }
    proof {
        assert(m.items@.subrange(0, m.items@.len() as int) =~= m.items@);
    }
    slots
}

/// The maps of a file, in order; refused as a whole if one of them cannot
/// be played.
pub fn load(mahjongg: &Mahjongg) -> (r: Result<Vec<GameMap>, MapError>)
    ensures
        r is Ok <==> forall|i: int| 0 <= i < mahjongg.maps@.len() ==> map_ok(#[trigger] mahjongg.maps@[i]),
        match r {
            Ok(v) => {
                &&& v@.len() == mahjongg.maps@.len()
                &&& forall|i: int|
                    0 <= i < v@.len() ==> {
                        let slots = items_slots(mahjongg.maps@[i].items@, 0);
                        &&& (#[trigger] v@[i]).name@ == mahjongg.maps@[i].name@
                        &&& v@[i].slots@ == slots
                        &&& v@[i].width == max_x(slots) + 2
                        &&& v@[i].height == max_y(slots) + 2
                    }
            },
            Err(e) => e == MapError::InvalidMap,
        },
{
    let mut maps: Vec<GameMap> = Vec::new();
    let mut i: usize = 0;
    while i < mahjongg.maps.len()
        invariant
            i <= mahjongg.maps@.len(),
            maps@.len() == i,
            forall|j: int| 0 <= j < i ==> map_ok(#[trigger] mahjongg.maps@[j]),
            forall|j: int|
                0 <= j < i ==> {
                    let slots = items_slots(mahjongg.maps@[j].items@, 0);
                    &&& (#[trigger] maps@[j]).name@ == mahjongg.maps@[j].name@
                    &&& maps@[j].slots@ == slots
                    &&& maps@[j].width == max_x(slots) + 2
                    &&& maps@[j].height == max_y(slots) + 2
                },
        decreases mahjongg.maps@.len() - i,
    {
        let m = &mahjongg.maps[i];
        let slots = map_slots(m);
        if slots.len() == 0 || slots.len() % 2 != 0 || !check_coords(slots.as_slice()) {
            return Err(MapError::InvalidMap);
        }
        let map = map_of(m.name.clone(), slots);
        maps.push(map);
        i += 1;
    }
    Ok(maps)
}

} // verus!
