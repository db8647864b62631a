//! Tiles on a board, the rule that says which of them can be removed, and
//! the pairs that can be removed together.

use crate::map::Slot;
use vstd::prelude::*;

verus! {

/// One physical piece: its identity (`id / 4` is its group), its place, and
/// whether it is still on the board.
#[derive(Debug, Clone, Copy, PartialEq, Eq, Structural)]
pub struct Tile {
    pub id: usize,
    pub slot: Slot,
    pub visible: bool,
}

/// The group of an identity; two tiles match when their groups agree.
pub open spec fn group_of(id: usize) -> int {
    id as int / 4
}

pub open spec fn same_group(a: Tile, b: Tile) -> bool {
    group_of(a.id) == group_of(b.id)
}

/// `upper` lies one layer above `lower`, within one unit on both axes.
pub open spec fn covers(upper: Slot, lower: Slot) -> bool {
    &&& upper.z == lower.z + 1
    &&& lower.x - 1 <= upper.x <= lower.x + 1
    &&& lower.y - 1 <= upper.y <= lower.y + 1
}

/// `side` is on the same layer and a row within one unit of `s`.
pub open spec fn beside(side: Slot, s: Slot) -> bool {
    side.z == s.z && s.y - 1 <= side.y <= s.y + 1
}

pub open spec fn blocks_left(side: Slot, s: Slot) -> bool {
    beside(side, s) && side.x == s.x - 2
}

pub open spec fn blocks_right(side: Slot, s: Slot) -> bool {
    beside(side, s) && side.x == s.x + 2
}

/// Another tile than `i` that is still on the board.
pub open spec fn other_visible(tiles: Seq<Tile>, i: int, j: int) -> bool {
    0 <= j < tiles.len() && j != i && tiles[j].visible
}

pub open spec fn is_covered(tiles: Seq<Tile>, i: int) -> bool {
    exists|j: int| other_visible(tiles, i, j) && #[trigger] covers(tiles[j].slot, tiles[i].slot)
}

pub open spec fn is_pinched(tiles: Seq<Tile>, i: int) -> bool {
    &&& exists|j: int| other_visible(tiles, i, j) && #[trigger] blocks_left(tiles[j].slot, tiles[i].slot)
    &&& exists|j: int| other_visible(tiles, i, j) && #[trigger] blocks_right(tiles[j].slot, tiles[i].slot)
}

/// Tile `i` can be removed: it is on the board, nothing lies on it, and it is
/// not held on both its left and its right.
pub open spec fn is_exposed(tiles: Seq<Tile>, i: int) -> bool {
    &&& tiles[i].visible
    &&& !is_covered(tiles, i)
    &&& !is_pinched(tiles, i)
}

impl Tile {
    pub fn matches(&self, other: &Tile) -> (r: bool)
        ensures
            r == same_group(*self, *other),
    {
        self.id / 4 == other.id / 4
    }
}

/// `|a - b| <= 1`, without leaving `usize`.
fn within_one(a: usize, b: usize) -> (r: bool)
    ensures
        r == (b - 1 <= a <= b + 1),
{
    if a >= b {
        a - b <= 1
    } else {
        b - a <= 1
    }
}

fn slot_covers(upper: &Slot, lower: &Slot) -> (r: bool)
    ensures
        r == covers(*upper, *lower),
{
    upper.z > lower.z && upper.z - lower.z == 1 && within_one(upper.x, lower.x) && within_one(
        upper.y,
        lower.y,
    )
}

/// Whether the tile at `index` can be removed now.
pub fn tile_is_exposed(index: usize, tiles: &[Tile]) -> (r: bool)
    requires
        index < tiles@.len(),
    ensures
        r == is_exposed(tiles@, index as int),
{
    if !tiles[index].visible {
        return false;
    }
    let slot = tiles[index].slot;
    let mut blocked_left = false;
    let mut blocked_right = false;
    let mut i: usize = 0;
    while i < tiles.len()
        invariant
            index < tiles@.len(),
            i <= tiles@.len(),
            slot == tiles@[index as int].slot,
            tiles@[index as int].visible,
            forall|j: int|
                0 <= j < i && other_visible(tiles@, index as int, j) ==> !#[trigger] covers(
                    tiles@[j].slot,
                    slot,
                ),
            blocked_left ==> exists|j: int|
                0 <= j < i && other_visible(tiles@, index as int, j) && #[trigger] blocks_left(
                    tiles@[j].slot,
                    slot,
                ),
            !blocked_left ==> forall|j: int|
                0 <= j < i && other_visible(tiles@, index as int, j) ==> !#[trigger] blocks_left(
                    tiles@[j].slot,
                    slot,
                ),
            blocked_right ==> exists|j: int|
                0 <= j < i && other_visible(tiles@, index as int, j) && #[trigger] blocks_right(
                    tiles@[j].slot,
                    slot,
                ),
            !blocked_right ==> forall|j: int|
                0 <= j < i && other_visible(tiles@, index as int, j) ==> !#[trigger] blocks_right(
                    tiles@[j].slot,
                    slot,
                ),
            !(blocked_left && blocked_right),
        decreases tiles@.len() - i,
    {
        let tile = tiles[i];
        assert(tile == tiles@[i as int]);
        if i != index && tile.visible {
            assert(other_visible(tiles@, index as int, i as int));
            if slot_covers(&tile.slot, &slot) {
                assert(other_visible(tiles@, index as int, i as int));
                return false;
            }
            if tile.slot.z == slot.z && within_one(tile.slot.y, slot.y) {
                if slot.x >= 2 && tile.slot.x == slot.x - 2 {
                    assert(blocks_left(tiles@[i as int].slot, slot));
                    blocked_left = true;
                }
                if tile.slot.x >= 2 && tile.slot.x - 2 == slot.x {
                    assert(blocks_right(tiles@[i as int].slot, slot));
                    blocked_right = true;
                }
                if blocked_left && blocked_right {
                    return false;
                }
            }
        }
        i += 1;
    }
    true
}

/// Tile `j` is a candidate partner for tile `index`: another tile of the same
/// group that can be removed now.
pub open spec fn is_partner(tiles: Seq<Tile>, index: int, j: int) -> bool {
    &&& 0 <= j < tiles.len()
    &&& j != index
    &&& same_group(tiles[j], tiles[index])
    &&& is_exposed(tiles, j)
}

/// Tiles `i` and `j` can be removed together now.
pub open spec fn is_match_pair(tiles: Seq<Tile>, i: int, j: int) -> bool {
    &&& 0 <= i < tiles.len()
    &&& is_exposed(tiles, i)
    &&& is_partner(tiles, i, j)
}

/// The pair of indices `{a, b}`, smaller first.
pub open spec fn ordered_pair(a: usize, b: usize) -> (usize, usize) {
    if a <= b {
        (a, b)
    } else {
        (b, a)
    }
}

/// An unordered pair of tile indices. It keeps the smaller index first, so
/// that the pairs built from `(i, j)` and from `(j, i)` are equal and hash
/// alike.
#[derive(Debug, Clone, Copy, PartialEq, Eq, Structural, Hash)]
pub struct Match {
    lo: usize,
    hi: usize,
}

impl View for Match {
    type V = (usize, usize);

    closed spec fn view(&self) -> (usize, usize) {
        (self.lo, self.hi)
    }
}

impl Match {
    pub fn new(a: usize, b: usize) -> (r: Match)
        ensures
            r@ == ordered_pair(a, b),
    {
        if a <= b {
            Match { lo: a, hi: b }
        } else {
            Match { lo: b, hi: a }
        }
    }

    /// The smaller of the two indices.
    pub fn first(&self) -> (r: usize)
        ensures
            r == self@.0,
    {
        self.lo
    }

    /// The larger of the two indices.
    pub fn second(&self) -> (r: usize)
        ensures
            r == self@.1,
    {
        self.hi
    }

    pub proof fn lemma_view_injective(self, other: Match)
        ensures
            self@ == other@ ==> self == other,
    {
    }
}

/// A match does not depend on the order of its two tiles: the matches built
/// from `(i, j)` and from `(j, i)` are equal, and a set of both holds one
/// element.
pub proof fn lemma_match_symmetric(m1: Match, m2: Match, i: usize, j: usize)
    requires
        m1@ == ordered_pair(i, j),
        m2@ == ordered_pair(j, i),
    ensures
        m1 == m2,
        set![m1, m2].len() == 1,
{
    m1.lemma_view_injective(m2);
    assert(set![m1, m2] =~= set![m1]);
}

/// The other tiles that can be removed together with tile `index`, in
/// increasing order. Tile `index` itself need not be removable.
pub fn find_matches(index: usize, tiles: &[Tile]) -> (r: Vec<usize>)
    requires
        index < tiles@.len(),
    ensures
        forall|k: int| 0 <= k < r@.len() ==> is_partner(tiles@, index as int, #[trigger] r@[k] as int),
        forall|a: int, b: int| 0 <= a < b < r@.len() ==> r@[a] < r@[b],
        forall|j: int| is_partner(tiles@, index as int, j) ==> r@.contains(j as usize),
{
    let mut r: Vec<usize> = Vec::new();
    let mut i: usize = 0;
    while i < tiles.len()
        invariant
            index < tiles@.len(),
            i <= tiles@.len(),
            forall|k: int| 0 <= k < r@.len() ==> is_partner(tiles@, index as int, #[trigger] r@[k] as int),
            forall|k: int| 0 <= k < r@.len() ==> #[trigger] r@[k] < i,
            forall|a: int, b: int| 0 <= a < b < r@.len() ==> r@[a] < r@[b],
            forall|j: int| 0 <= j < i && is_partner(tiles@, index as int, j) ==> r@.contains(j as usize),
        decreases tiles@.len() - i,
    {
        if i != index && tiles[i].visible && tiles[i].matches(&tiles[index]) && tile_is_exposed(
            i,
            tiles,
        ) {
            let ghost before = r@;
            r.push(i);
            proof {
                assert forall|j: int| 0 <= j < i + 1 && is_partner(tiles@, index as int, j) implies r@.contains(j as usize) by {
                    if j == i {
                        assert(r@[r@.len() - 1] == i);
                    } else {
                        let q = choose|q: int| 0 <= q < before.len() && before[q] == j as usize;
                        assert(r@[q] == before[q]);
                    }
                }
            }
        }
        i += 1;
    }
    r
}

fn contains_match(v: &Vec<Match>, m: Match) -> (r: bool)
    ensures
        r == v@.contains(m),
{
    let mut k: usize = 0;
    while k < v.len()
        invariant
            k <= v@.len(),
            forall|a: int| 0 <= a < k ==> v@[a] != m,
        decreases v@.len() - k,
    {
        if v[k] == m {
            return true;
        }
        k += 1;
    }
    false
}

/// The pairs `(i, j)`, `i < j`, of tiles that can be removed together now.
pub open spec fn match_set(tiles: Seq<Tile>) -> Set<(usize, usize)> {
    Set::new(|p: (usize, usize)| p.0 < p.1 && is_match_pair(tiles, p.0 as int, p.1 as int))
}

/// `ms` holds a match on the pair `p`.
pub open spec fn has_pair(ms: Seq<Match>, p: (usize, usize)) -> bool {
    exists|q: int| 0 <= q < ms.len() && #[trigger] ms[q]@ == p
}

proof fn lemma_has_pair_push(ms: Seq<Match>, m: Match)
    ensures
        forall|p: (usize, usize)| has_pair(ms, p) ==> #[trigger] has_pair(ms.push(m), p),
        has_pair(ms.push(m), m@),
{
    assert forall|p: (usize, usize)| has_pair(ms, p) implies #[trigger] has_pair(ms.push(m), p) by {
        let q = choose|q: int| 0 <= q < ms.len() && #[trigger] ms[q]@ == p;
        assert(ms.push(m)[q] == ms[q]);
    }
    assert(ms.push(m)[ms.len() as int] == m);
}

pub open spec fn match_views(ms: Seq<Match>) -> Seq<(usize, usize)> {
    ms.map_values(|m: Match| m@)
}

/// Every pair of tiles that can be removed together now, each pair once.
/// The pairs are gathered in a `Vec` kept free of duplicates: vstd gives a
/// `HashSet` meaning only for keys whose hashing it models, which a struct
/// of this crate is not.
pub fn find_all_matches(tiles: &[Tile]) -> (r: Vec<Match>)
    ensures
        r@.no_duplicates(),
        match_views(r@).to_set() == match_set(tiles@),
{
    let mut r: Vec<Match> = Vec::new();
    let mut i: usize = 0;
    while i < tiles.len()
        invariant
            i <= tiles@.len(),
            r@.no_duplicates(),
            forall|q: int|
                0 <= q < r@.len() ==> #[trigger] r@[q]@.0 < r@[q]@.1 && is_match_pair(
                    tiles@,
                    r@[q]@.0 as int,
                    r@[q]@.1 as int,
                ),
            forall|a: int, b: int|
                a < b && a < i && #[trigger] is_match_pair(tiles@, a, b) ==> has_pair(r@, (a as usize, b as usize)),
        decreases tiles@.len() - i,
    {
        if tile_is_exposed(i, tiles) {
            let partners = find_matches(i, tiles);
            let mut k: usize = 0;
            while k < partners.len()
                invariant
                    i < tiles@.len(),
                    is_exposed(tiles@, i as int),
                    k <= partners@.len(),
                    forall|q: int|
                        0 <= q < partners@.len() ==> is_partner(
                            tiles@,
                            i as int,
                            #[trigger] partners@[q] as int,
                        ),
                    forall|j: int| is_partner(tiles@, i as int, j) ==> partners@.contains(j as usize),
                    r@.no_duplicates(),
                    forall|q: int|
                        0 <= q < r@.len() ==> #[trigger] r@[q]@.0 < r@[q]@.1 && is_match_pair(
                            tiles@,
                            r@[q]@.0 as int,
                            r@[q]@.1 as int,
                        ),
                    forall|a: int, b: int|
                        a < b && a < i && #[trigger] is_match_pair(tiles@, a, b) ==> has_pair(r@, (a as usize, b as usize)),
                    forall|p: int|
                        0 <= p < k && i < #[trigger] partners@[p] ==> has_pair(r@, (i, partners@[p])),
                decreases partners@.len() - k,
            {
                let j = partners[k];
                let m = Match::new(i, j);
                if !contains_match(&r, m) {
                    proof {
                        lemma_has_pair_push(r@, m);
                    }
                    r.push(m);
                } else {
                    let ghost q = choose|q: int| 0 <= q < r@.len() && r@[q] == m;
                    assert(r@[q]@ == m@);
                }
                k += 1;
            }
            proof {
                assert forall|a: int, b: int|
                    a < b && a < i + 1 && #[trigger] is_match_pair(tiles@, a, b) implies has_pair(r@, (a as usize, b as usize)) by {
                    if a == i {
                        assert(is_partner(tiles@, i as int, b));
                        assert(partners@.contains(b as usize));
                        let p = choose|p: int| 0 <= p < partners@.len() && partners@[p] == b as usize;
                        assert(i < partners@[p]);
                    }
                }
            }
        }
        i += 1;
    }
    proof {
        assert forall|p: (usize, usize)| match_set(tiles@).contains(p) implies match_views(r@).to_set().contains(p) by {
            let q = choose|q: int| 0 <= q < r@.len() && #[trigger] r@[q]@ == (p.0, p.1);
            assert(match_views(r@)[q] == p);
        }
        assert forall|p: (usize, usize)| match_views(r@).to_set().contains(p) implies match_set(tiles@).contains(p) by {
            let q = choose|q: int| 0 <= q < match_views(r@).len() && match_views(r@)[q] == p;
            assert(r@[q]@ == p);
        }
        assert(match_views(r@).to_set() =~= match_set(tiles@));
    }
    r
}

/// A fresh board on `slots`: one tile on each, every tile on the board,
/// none with an identity yet (zero).
pub fn new_board(slots: &[Slot]) -> (r: Vec<Tile>)
    ensures
        r@.len() == slots@.len(),
        forall|i: int|
            0 <= i < slots@.len() ==> #[trigger] r@[i] == (Tile { id: 0, slot: slots@[i], visible: true }),
{
    let mut tiles: Vec<Tile> = Vec::new();
    let mut i: usize = 0;
    while i < slots.len()
        invariant
            i <= slots@.len(),
            tiles@.len() == i,
            forall|j: int|
                0 <= j < i ==> #[trigger] tiles@[j] == (Tile { id: 0, slot: slots@[j], visible: true }),
        decreases slots@.len() - i,
    {
        tiles.push(Tile { id: 0, slot: slots[i], visible: true });
        i += 1;
    }
    tiles
}

/// Groups in a full set.
pub const GROUPS: usize = 36;

pub open spec fn image_offset(id: usize) -> usize {
    let set = id / 4;
    if set == 33 {
        (33 + id % 4) as usize
    } else if set == 35 {
        (38 + id % 4) as usize
    } else if set == 34 {
        37
    } else {
        set
    }
}

/// Which picture of the theme shows a tile: pictures follow the groups,
/// except that the two bonus groups have one picture per tile and the white
/// dragon sits between them.
pub fn get_image_offset(id: usize) -> (r: usize)
    requires
        id / 4 < GROUPS,
    ensures
        r == image_offset(id),
{
    let set = id / 4;
    if set == 33 {
        33 + id % 4
    } else if set == 35 {
        38 + id % 4
    } else if set == 34 {
        37
    } else {
        set
    }
}

} // verus!
