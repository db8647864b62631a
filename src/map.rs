//! Board shapes: slot positions and the maps that list them, and what the
//! two layout formats share.

pub mod gnome_mahjongg;
pub mod kmahjongg;
pub mod xml;

use vstd::prelude::*;

verus! {

/// A position a tile can occupy. `x` and `y` count half cells (a tile spans
/// two units each way); `z` is the layer, 0 being the table.
#[derive(Debug, Clone, Copy, PartialEq, Eq, Structural)]
pub struct Slot {
    pub x: usize,
    pub y: usize,
    pub z: usize,
}

/// A named board shape. `width` and `height` bound every slot, in the units
/// of the slots, with room for the tile itself.
#[derive(Debug, Clone)]
pub struct GameMap {
    pub name: String,
    pub slots: Vec<Slot>,
    pub width: usize,
    pub height: usize,
}

/// Why a layout was refused.
#[derive(Debug, Clone, Copy, PartialEq, Eq, Structural)]
pub enum MapError {
    /// A map with no slot or an odd number of them, or a slot too far out.
    InvalidMap,
    /// No map of the name asked for.
    LayoutNotFound,
    /// A layout description without its section.
    InvalidMapFormat,
    /// A layout description of a later format version.
    UnsupportedVersion,
    /// A layout description without a name.
    NoMapName,
    /// A layout description without the name of its layout file.
    NoLayoutFileName,
    /// A layout file with no line at all.
    EmptyLayoutFile,
    /// A layout file whose first line names no known format.
    UnsupportedLayoutFormat,
    /// A size in a layout file that is not a number.
    InvalidNumber,
    /// A layout file whose grid does not fit its size, or with no tile or
    /// an odd number of tiles.
    InvalidLayout,
}

/// The largest coordinate a map may hold: its size must still fit.
pub const MAX_COORD: usize = usize::MAX - 2;

pub open spec fn max_x(slots: Seq<Slot>) -> nat
    decreases slots.len(),
{
    if slots.len() == 0 {
        0
    } else {
        let m = max_x(slots.drop_last());
        if slots.last().x > m {
            slots.last().x as nat
        } else {
            m
        }
    }
}

pub open spec fn max_y(slots: Seq<Slot>) -> nat
    decreases slots.len(),
{
    if slots.len() == 0 {
        0
    } else {
        let m = max_y(slots.drop_last());
        if slots.last().y > m {
            slots.last().y as nat
        } else {
            m
        }
    }
}

pub open spec fn coords_in_range(slots: Seq<Slot>) -> bool {
    forall|i: int| 0 <= i < slots.len() ==> (#[trigger] slots[i]).x <= MAX_COORD && slots[i].y <= MAX_COORD
}

/// Whether every slot lies within `MAX_COORD` on both axes.
pub fn check_coords(slots: &[Slot]) -> (r: bool)
    ensures
        r == coords_in_range(slots@),
{
    let mut i: usize = 0;
    while i < slots.len()
        invariant
            i <= slots@.len(),
            forall|j: int| 0 <= j < i ==> (#[trigger] slots@[j]).x <= MAX_COORD && slots@[j].y <= MAX_COORD,
        decreases slots@.len() - i,
    {
        if slots[i].x > MAX_COORD || slots[i].y > MAX_COORD {
            return false;
        }
        i += 1;
    }
    true
}

/// The width and height of a map: the largest `x` and `y` of its slots,
/// plus the two units of a tile.
pub fn calc_size(slots: &[Slot]) -> (r: (usize, usize))
    requires
        coords_in_range(slots@),
    ensures
        r.0 == max_x(slots@) + 2,
        r.1 == max_y(slots@) + 2,
{
    let mut width: usize = 0;
    let mut height: usize = 0;
    let mut i: usize = 0;
    while i < slots.len()
        invariant
            i <= slots@.len(),
            coords_in_range(slots@),
            width == max_x(slots@.subrange(0, i as int)),
            height == max_y(slots@.subrange(0, i as int)),
            width <= MAX_COORD,
            height <= MAX_COORD,
        decreases slots@.len() - i,
    {
        let slot = slots[i];
        proof {
            let next = slots@.subrange(0, i + 1);
            assert(next.drop_last() =~= slots@.subrange(0, i as int));
            assert(next.last() == slot);
        }
        if slot.x > width {
            width = slot.x;
        }
        if slot.y > height {
            height = slot.y;
        }
        i += 1;
    }
    proof {
        assert(slots@.subrange(0, slots@.len() as int) =~= slots@);
    }
    (width + 2, height + 2)
}

/// A map whose slots are `slots`, sized to fit them.
pub fn map_of(name: String, slots: Vec<Slot>) -> (r: GameMap)
    requires
        coords_in_range(slots@),
    ensures
        r.name@ == name@,
        r.slots@ == slots@,
        r.width == max_x(slots@) + 2,
        r.height == max_y(slots@) + 2,
{
    let (width, height) = calc_size(slots.as_slice());
    GameMap { name, slots, width, height }
}

/// The first of `maps` called `name`.
pub fn load_map(maps: Vec<GameMap>, name: &str) -> (r: Result<GameMap, MapError>)
    ensures
        match r {
            Ok(m) => exists|i: int|
                0 <= i < maps@.len() && maps@[i].name@ == name@ && m == maps@[i] && forall|j: int|
                    0 <= j < i ==> (#[trigger] maps@[j]).name@ != name@,
            Err(e) => e == MapError::LayoutNotFound && forall|j: int|
                0 <= j < maps@.len() ==> (#[trigger] maps@[j]).name@ != name@,
        },
{
    let target = name.to_owned();
    let mut list = maps;
    let ghost all = list@;
    let mut i: usize = 0;
    while i < list.len()
        invariant
            list@ == all,
            all == maps@,
            target@ == name@,
            i <= all.len(),
            forall|j: int| 0 <= j < i ==> (#[trigger] all[j]).name@ != name@,
        decreases all.len() - i,
    {
        if list[i].name == target {
            let m = list.swap_remove(i);
            assert(all[i as int].name@ == name@ && m == all[i as int]);
            return Ok(m);
        }
        i += 1;
    }
    Err(MapError::LayoutNotFound)
}

pub open spec fn is_digit(b: u8) -> bool {
    48 <= b <= 57
}

/// The value of a string of decimal digits.
pub open spec fn digits_value(s: Seq<u8>) -> nat
    decreases s.len(),
{
    if s.len() == 0 {
        0
    } else {
        digits_value(s.drop_last()) * 10 + (s.last() - 48) as nat
    }
}

/// The digits of an unsigned decimal number, after an optional `+`.
pub open spec fn number_digits(s: Seq<u8>) -> Seq<u8> {
    if s.len() > 0 && s[0] == 43 {
        s.drop_first()
    } else {
        s
    }
}

/// `s` reads as an unsigned decimal number that fits in a `usize`: an
/// optional `+`, then at least one digit and nothing else.
pub open spec fn number_value(s: Seq<u8>) -> Option<usize> {
    let d = number_digits(s);
    if d.len() > 0 && (forall|i: int| 0 <= i < d.len() ==> is_digit(#[trigger] d[i]))
        && digits_value(d) <= usize::MAX {
        Some(digits_value(d) as usize)
    } else {
        None
    }
}

proof fn lemma_digits_value_monotone(s: Seq<u8>, n: int)
    requires
        0 <= n <= s.len(),
        forall|i: int| 0 <= i < s.len() ==> is_digit(#[trigger] s[i]),
    ensures
        digits_value(s.subrange(0, n)) <= digits_value(s),
    decreases s.len() - n,
{
    if n < s.len() {
        lemma_digits_value_monotone(s, n + 1);
        let t = s.subrange(0, n + 1);
        assert(t.drop_last() =~= s.subrange(0, n));
        assert(t.last() == s[n]);
    } else {
        assert(s.subrange(0, n) =~= s);
    }
}

/// Reads an unsigned decimal number that fits in a `usize`.
pub fn parse_number(s: &[u8]) -> (r: Option<usize>)
    ensures
        r == number_value(s@),
{
    let mut start: usize = 0;
    if s.len() > 0 && s[0] == 43u8 {
        start = 1;
    }
    let ghost d = number_digits(s@);
    proof {
        assert(d =~= s@.subrange(start as int, s@.len() as int));
    }
    if start == s.len() {
        return None;
    }
    let mut value: usize = 0;
    let mut i: usize = start;
    while i < s.len()
        invariant
            start <= i <= s@.len(),
            d == number_digits(s@),
            d == s@.subrange(start as int, s@.len() as int),
            d.len() > 0,
            forall|j: int| start <= j < i ==> is_digit(#[trigger] s@[j]),
            value == digits_value(s@.subrange(start as int, i as int)),
        decreases s@.len() - i,
    {
        let b = s[i];
        if b < 48u8 || b > 57u8 {
            proof {
                assert(d[i - start] == s@[i as int]);
                assert(!is_digit(d[i - start]));
            }
            return None;
        }
        proof {
            let t = s@.subrange(start as int, i + 1);
            assert(t.drop_last() =~= s@.subrange(start as int, i as int));
            assert(t.last() == b);
            assert(digits_value(t) == digits_value(t.drop_last()) * 10 + (b - 48) as nat);
        }
        let digit = (b - 48u8) as usize;
        if value > (usize::MAX - digit) / 10 {
            proof {
                assert(value * 10 + digit > usize::MAX) by (nonlinear_arith)
                    requires
                        value > (usize::MAX - digit) / 10,
                        digit <= 9,
                ;
                if forall|j: int| 0 <= j < d.len() ==> is_digit(#[trigger] d[j]) {
                    lemma_digits_value_monotone(d, i + 1 - start);
                    assert(d.subrange(0, i + 1 - start) =~= s@.subrange(start as int, i + 1));
                    assert(digits_value(s@.subrange(start as int, i + 1)) == value * 10 + digit);
                    assert(digits_value(d) > usize::MAX);
                }
            }
            return None;
        }
        value = value * 10 + digit;
        i += 1;
    }
    proof {
        assert(s@.subrange(start as int, s@.len() as int) == d);
        assert forall|j: int| 0 <= j < d.len() implies is_digit(#[trigger] d[j]) by {
            assert(d[j] == s@[start + j]);
        }
    }
    Some(value)
}

/// `from, from + 2, ...` up to `to` inclusive: the cells of a run of tiles.
pub open spec fn run(from: int, to: int) -> Seq<usize>
    decreases to + 2 - from,
{
    if from > to {
        Seq::empty()
    } else {
        seq![from as usize] + run(from + 2, to)
    }
}

/// A row of tiles at height `y` on layer `z`, from `left` to `right`.
pub open spec fn row_slots(left: int, right: int, y: usize, z: usize) -> Seq<Slot> {
    run(left, right).map_values(|x: usize| Slot { x, y, z })
}

/// A column of tiles at `x` on layer `z`, from `top` to `bottom`.
pub open spec fn column_slots(x: usize, top: int, bottom: int, z: usize) -> Seq<Slot> {
    run(top, bottom).map_values(|y: usize| Slot { x, y, z })
}

/// A block of tiles on layer `z`: a column for each `x` of the run `xs`.
pub open spec fn block_slots(xs: Seq<usize>, top: int, bottom: int, z: usize) -> Seq<Slot>
    decreases xs.len(),
{
    if xs.len() == 0 {
        Seq::empty()
    } else {
        column_slots(xs[0], top, bottom, z) + block_slots(xs.drop_first(), top, bottom, z)
    }
}

/// Appends the tiles of the run from `from` to `to`: a row at height
/// `fixed` when `along_x`, else a column at `x == fixed`.
fn push_run(slots: &mut Vec<Slot>, from: usize, to: usize, fixed: usize, z: usize, along_x: bool)
    ensures
        final(slots)@ == old(slots)@ + if along_x {
            row_slots(from as int, to as int, fixed, z)
        } else {
            column_slots(fixed, from as int, to as int, z)
        },
{
    let ghost mk = |v: usize|
        if along_x {
            Slot { x: v, y: fixed, z }
        } else {
            Slot { x: fixed, y: v, z }
        };
    let ghost all = run(from as int, to as int);
    let ghost start = slots@;
    proof {
        if along_x {
            assert(row_slots(from as int, to as int, fixed, z) =~= all.map_values(mk));
        } else {
            assert(column_slots(fixed, from as int, to as int, z) =~= all.map_values(mk));
        }
    }
    let mut v: usize = from;
    let mut more = from <= to;
    while more
        invariant
            all == run(from as int, to as int),
            start + all.map_values(mk) == slots@ + if more {
                run(v as int, to as int).map_values(mk)
            } else {
                Seq::empty()
            },
            more ==> v <= to,
            mk == (|v: usize|
                if along_x {
                    Slot { x: v, y: fixed, z }
                } else {
                    Slot { x: fixed, y: v, z }
                }),
        decreases to + 2 - v, if more { 1int } else { 0int },
    {
        let ghost rest = run(v as int, to as int);
        proof {
            assert(rest == seq![v] + run(v + 2, to as int));
            assert(rest.map_values(mk) =~= seq![mk(v)] + run(v + 2, to as int).map_values(mk));
        }
        if along_x {
            slots.push(Slot { x: v, y: fixed, z });
        } else {
            slots.push(Slot { x: fixed, y: v, z });
        }
        if to - v >= 2 {
            v = v + 2;
            proof {
                assert(slots@ + run(v as int, to as int).map_values(mk) =~= slots@.drop_last() + rest.map_values(mk));
            }
        } else {
            more = false;
            proof {
                assert(run(v + 2, to as int) =~= Seq::<usize>::empty());
                assert(slots@ + Seq::<Slot>::empty() =~= slots@.drop_last() + rest.map_values(mk));
            }
        }
    }
    proof {
        if from > to {
            assert(all =~= Seq::<usize>::empty());
        }
        assert(start + all.map_values(mk) =~= slots@);
    }
}

/// Appends a block of tiles: for each `x` from `left` to `right`, the
/// column from `top` to `bottom`.
fn push_block(slots: &mut Vec<Slot>, left: usize, right: usize, top: usize, bottom: usize, z: usize)
    ensures
        final(slots)@ == old(slots)@ + block_slots(run(left as int, right as int), top as int, bottom as int, z),
{
    let ghost start = slots@;
    let mut x: usize = left;
    let mut more = left <= right;
    while more
        invariant
            start + block_slots(run(left as int, right as int), top as int, bottom as int, z) == slots@
                + if more {
                block_slots(run(x as int, right as int), top as int, bottom as int, z)
            } else {
                Seq::empty()
            },
            more ==> x <= right,
        decreases right + 2 - x, if more { 1int } else { 0int },
    {
        let ghost before = slots@;
        let ghost rest = run(x as int, right as int);
        proof {
            assert(rest == seq![x] + run(x + 2, right as int));
            assert(rest.drop_first() =~= run(x + 2, right as int));
        }
        push_run(slots, top, bottom, x, z, false);
        if right - x >= 2 {
            x = x + 2;
            proof {
                assert(slots@ + block_slots(run(x as int, right as int), top as int, bottom as int, z) =~= before
                    + block_slots(rest, top as int, bottom as int, z));
            }
        } else {
            more = false;
            proof {
                assert(run(x + 2, right as int) =~= Seq::<usize>::empty());
                assert(block_slots(rest.drop_first(), top as int, bottom as int, z) =~= Seq::<Slot>::empty());
                assert(slots@ + Seq::<Slot>::empty() =~= before + block_slots(rest, top as int, bottom as int, z));
            }
        }
    }
    proof {
        if left > right {
            assert(run(left as int, right as int) =~= Seq::<usize>::empty());
        }
        assert(start + block_slots(run(left as int, right as int), top as int, bottom as int, z) =~= slots@);
    }
}

pub open spec fn ends_with_half(s: Seq<u8>) -> bool {
    s.len() >= 2 && s[s.len() - 2] == 46 && s[s.len() - 1] == 53
}

/// `s` without the copies of `.5` it ends with.
pub open spec fn trim_halves(s: Seq<u8>) -> Seq<u8>
    decreases s.len(),
{
    if ends_with_half(s) {
        trim_halves(s.subrange(0, s.len() - 2))
    } else {
        s
    }
}

/// A position of a map file in half cells: `n` is `2 * n`, `n.5` is
/// `2 * n + 1`.
pub open spec fn pos_value(s: Seq<u8>) -> Option<usize> {
    if ends_with_half(s) {
        match number_value(trim_halves(s)) {
            Some(n) => if 2 * n + 1 <= usize::MAX {
                Some((2 * n + 1) as usize)
            } else {
                None
            },
            None => None,
        }
    } else {
        match number_value(s) {
            Some(n) => if 2 * n <= usize::MAX {
                Some((2 * n) as usize)
            } else {
                None
            },
            None => None,
        }
    }
}

/// Reads a position of a map file (`3` or `3.5`) in half cells.
pub fn parse_pos(s: &[u8]) -> (r: Option<usize>)
    ensures
        r == pos_value(s@),
{
    let half = s.len() >= 2 && s[s.len() - 2] == 46u8 && s[s.len() - 1] == 53u8;
    let mut end: usize = s.len();
    assert(s@.subrange(0, end as int) =~= s@);
    assert(half == ends_with_half(s@));
    while end >= 2 && s[end - 2] == 46u8 && s[end - 1] == 53u8
        invariant
            half == ends_with_half(s@),
            end <= s@.len(),
            half ==> trim_halves(s@) == trim_halves(s@.subrange(0, end as int)),
            !half ==> end == s@.len(),
        decreases end,
    {
        proof {
            let t = s@.subrange(0, end as int);
            assert(ends_with_half(t));
            assert(t.subrange(0, t.len() - 2) =~= s@.subrange(0, end - 2));
        }
        end = end - 2;
    }
    let mut digits: Vec<u8> = Vec::new();
    let mut i: usize = 0;
    while i < end
        invariant
            end <= s@.len(),
            i <= end,
            digits@ == s@.subrange(0, i as int),
        decreases end - i,
    {
        digits.push(s[i]);
        i += 1;
        assert(digits@ =~= s@.subrange(0, i as int));
    }
    proof {
        if half {
            let t = s@.subrange(0, end as int);
            assert(!ends_with_half(t));
            assert(trim_halves(t) == t);
        } else {
            assert(digits@ =~= s@);
        }
    }
    match parse_number(digits.as_slice()) {
        Some(n) => {
            if n > usize::MAX / 2 {
                None
            } else if half {
                assert(2 * n + 1 <= usize::MAX) by {
                    assert(usize::MAX == 0xffff_ffff || usize::MAX == 0xffff_ffff_ffff_ffff);
                }
                Some(2 * n + 1)
            } else {
                Some(2 * n)
            }
        },
        None => None,
    }
}

} // verus!
