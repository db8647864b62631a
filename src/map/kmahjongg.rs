//! The layout format of KMahjongg: a description that names the layout and
//! its layout file, and the layout file, a grid of `1`s where tiles stand.
//! The files are read elsewhere; here their lines are checked and turned
//! into slots.

use crate::map::{
    check_coords, coords_in_range, map_of, max_x, max_y, number_value, parse_number, GameMap,
    MapError, Slot,
};
use vstd::prelude::*;

verus! {

/// The latest version of the description format understood here.
pub const LAYOUT_VERSION_FORMAT: usize = 1;

/// The grid size of a version 1.0 layout file.
pub const V10_WIDTH: usize = 32;
pub const V10_HEIGHT: usize = 16;
pub const V10_DEPTH: usize = 5;

/// The entries of a description's layout section, as found.
pub struct DesktopEntry {
    pub version_format: Option<Vec<u8>>,
    pub name: Option<String>,
    pub file_name: Option<String>,
}

/// The first line of a layout file of version `1.minor`,
/// `kmahjongg-layout-v1.<minor>`.
pub open spec fn layout_magic(minor: u8) -> Seq<u8> {
    seq![
        107u8, 109u8, 97u8, 104u8, 106u8, 111u8, 110u8, 103u8, 103u8, 45u8, 108u8, 97u8, 121u8,
        111u8, 117u8, 116u8, 45u8, 118u8, 49u8, 46u8, minor,
    ]
}

pub open spec fn starts_with(line: Seq<u8>, b: u8) -> bool {
    line.len() > 0 && line[0] == b
}

/// `line` without the copies of `c` it starts with.
pub open spec fn trim_leading(line: Seq<u8>, c: u8) -> Seq<u8>
    decreases line.len(),
{
    if line.len() > 0 && line[0] == c {
        trim_leading(line.drop_first(), c)
    } else {
        line
    }
}

pub open spec fn line_views(lines: Seq<Vec<u8>>) -> Seq<Seq<u8>> {
    lines.map_values(|l: Vec<u8>| l@)
}

/// The grid of a version 1.0 file: its lines but comments, end to end.
pub open spec fn data_v10(lines: Seq<Seq<u8>>) -> Seq<u8>
    decreases lines.len(),
{
    if lines.len() == 0 {
        Seq::empty()
    } else if starts_with(lines.last(), 35) {
        data_v10(lines.drop_last())
    } else {
        data_v10(lines.drop_last()) + lines.last()
    }
}

/// The grid, width, height and depth of a version 1.1 file: lines that
/// start with `w`, `h` or `d` set a size (the last one counts), comments are
/// skipped, other lines are the grid. `None` where a size is no number.
pub open spec fn scan_v11(lines: Seq<Seq<u8>>) -> Option<(Seq<u8>, usize, usize, usize)>
    decreases lines.len(),
{
    if lines.len() == 0 {
        Some((Seq::empty(), 0, 0, 0))
    } else {
        match scan_v11(lines.drop_last()) {
            None => None,
            Some(s) => {
                let line = lines.last();
                if starts_with(line, 119) {
                    match number_value(trim_leading(line, 119)) {
                        Some(v) => Some((s.0, v, s.2, s.3)),
                        None => None,
                    }
                } else if starts_with(line, 104) {
                    match number_value(trim_leading(line, 104)) {
                        Some(v) => Some((s.0, s.1, v, s.3)),
                        None => None,
                    }
                } else if starts_with(line, 100) {
                    match number_value(trim_leading(line, 100)) {
                        Some(v) => Some((s.0, s.1, s.2, v)),
                        None => None,
                    }
                } else if starts_with(line, 35) {
                    Some(s)
                } else {
                    Some((s.0 + line, s.1, s.2, s.3))
                }
            },
        }
    }
}

/// The place of the `i`-th cell of a grid `w` wide and `h` high, row by row
/// and layer by layer.
pub open spec fn cell_slot(i: int, w: int, h: int) -> Slot {
    Slot { x: (i % w) as usize, y: ((i / w) % h) as usize, z: (i / (w * h)) as usize }
}

/// The slots of the cells of `data` that hold a `1`, in grid order.
pub open spec fn grid_slots(data: Seq<u8>, w: int, h: int) -> Seq<Slot>
    decreases data.len(),
{
    if data.len() == 0 {
        Seq::empty()
    } else if data.last() == 49 {
        grid_slots(data.drop_last(), w, h).push(cell_slot(data.len() - 1, w, h))
    } else {
        grid_slots(data.drop_last(), w, h)
    }
}

/// What a layout file of the lines `lines` describes: a non-empty, even
/// list of slots, or why there is none.
pub open spec fn layout_result(lines: Seq<Seq<u8>>) -> Result<Seq<Slot>, MapError> {
    if lines.len() == 0 {
        Err(MapError::EmptyLayoutFile)
    } else {
        let header = if lines[0] == layout_magic(48) {
            Some(Some((data_v10(lines.skip(1)), V10_WIDTH, V10_HEIGHT, V10_DEPTH)))
        } else if lines[0] == layout_magic(49) {
            Some(scan_v11(lines.skip(1)))
        } else {
            None
        };
        match header {
            None => Err(MapError::UnsupportedLayoutFormat),
            Some(None) => Err(MapError::InvalidNumber),
            Some(Some(s)) => {
                let (data, w, h, d) = s;
                if w == 0 || h == 0 || d == 0 || data.len() != w * h * d {
                    Err(MapError::InvalidLayout)
                } else if grid_slots(data, w as int, h as int).len() == 0 || grid_slots(
                    data,
                    w as int,
                    h as int,
                ).len() % 2 != 0 {
                    Err(MapError::InvalidLayout)
                } else {
                    Ok(grid_slots(data, w as int, h as int))
                }
            },
        }
    }
}

/// A version that is a number above `LAYOUT_VERSION_FORMAT` (as an `i32`).
pub open spec fn version_too_new(v: Seq<u8>) -> bool {
    match number_value(v) {
        Some(n) => LAYOUT_VERSION_FORMAT < n <= i32::MAX,
        None => false,
    }
}

fn is_layout_magic(line: &Vec<u8>, minor: u8) -> (r: bool)
    ensures
        r == (line@ == layout_magic(minor)),
{
    let r = line.len() == 21 && line[0] == 107u8 && line[1] == 109u8 && line[2] == 97u8 && line[3]
        == 104u8 && line[4] == 106u8 && line[5] == 111u8 && line[6] == 110u8 && line[7] == 103u8
        && line[8] == 103u8 && line[9] == 45u8 && line[10] == 108u8 && line[11] == 97u8 && line[12]
        == 121u8 && line[13] == 111u8 && line[14] == 117u8 && line[15] == 116u8 && line[16] == 45u8
        && line[17] == 118u8 && line[18] == 49u8 && line[19] == 46u8 && line[20] == minor;
    proof {
        if r {
            assert(line@ =~= layout_magic(minor));
        }
    }
    r
}

fn first_is(line: &Vec<u8>, b: u8) -> (r: bool)
    ensures
        r == starts_with(line@, b),
{
    line.len() > 0 && line[0] == b
}

proof fn lemma_trim_leading_step(s: Seq<u8>, k: int, c: u8)
    requires
        0 <= k < s.len(),
        s[k] == c,
    ensures
        trim_leading(s.skip(k), c) == trim_leading(s.skip(k + 1), c),
{
    assert(s.skip(k).drop_first() =~= s.skip(k + 1));
}

/// `line` without the copies of `c` it starts with.
fn after_leading(line: &Vec<u8>, c: u8) -> (r: Vec<u8>)
    ensures
        r@ == trim_leading(line@, c),
{
    let mut k: usize = 0;
    assert(line@.skip(0) =~= line@);
    while k < line.len() && line[k] == c
        invariant
            k <= line@.len(),
            trim_leading(line@, c) == trim_leading(line@.skip(k as int), c),
        decreases line@.len() - k,
    {
        proof {
            lemma_trim_leading_step(line@, k as int, c);
        }
        k += 1;
    }
    let mut r: Vec<u8> = Vec::new();
    let mut i: usize = k;
    while i < line.len()
        invariant
            k <= i <= line@.len(),
            r@ == line@.subrange(k as int, i as int),
        decreases line@.len() - i,
    {
        r.push(line[i]);
        i += 1;
        proof {
            assert(r@ =~= line@.subrange(k as int, i as int));
        }
    }
    proof {
        assert(r@ =~= line@.skip(k as int));
    }
    r
}

/// The grid of a version 1.0 file, from the lines after the first.
fn collect_v10(lines: &Vec<Vec<u8>>) -> (r: Vec<u8>)
    requires
        lines@.len() > 0,
    ensures
        r@ == data_v10(line_views(lines@).skip(1)),
{
    let ghost views = line_views(lines@);
    let mut data: Vec<u8> = Vec::new();
    let mut i: usize = 1;
    while i < lines.len()
        invariant
            views == line_views(lines@),
            1 <= i <= lines@.len(),
            data@ == data_v10(views.subrange(1, i as int)),
        decreases lines@.len() - i,
    {
        proof {
            let next = views.subrange(1, i + 1);
            assert(next.drop_last() =~= views.subrange(1, i as int));
            assert(next.last() == lines@[i as int]@);
        }
        if !first_is(&lines[i], 35u8) {
            data.extend_from_slice(lines[i].as_slice());
        }
        i += 1;
    }
    proof {
        assert(views.subrange(1, lines@.len() as int) =~= views.skip(1));
    }
    data
}

/// The grid and sizes of a version 1.1 file, from the lines after the first.
fn scan_lines_v11(lines: &Vec<Vec<u8>>) -> (r: Option<(Vec<u8>, usize, usize, usize)>)
    requires
        lines@.len() > 0,
    ensures
        match r {
            Some(s) => scan_v11(line_views(lines@).skip(1)) == Some((s.0@, s.1, s.2, s.3)),
            None => scan_v11(line_views(lines@).skip(1)).is_none(),
        },
{
    let ghost views = line_views(lines@);
    let mut data: Vec<u8> = Vec::new();
    let mut width: usize = 0;
    let mut height: usize = 0;
    let mut depth: usize = 0;
    let mut i: usize = 1;
    while i < lines.len()
        invariant
            views == line_views(lines@),
            1 <= i <= lines@.len(),
            scan_v11(views.subrange(1, i as int)) == Some((data@, width, height, depth)),
        decreases lines@.len() - i,
    {
        let ghost prev = views.subrange(1, i as int);
        let ghost next = views.subrange(1, i + 1);
        proof {
            assert(next.drop_last() =~= prev);
            assert(next.last() == lines@[i as int]@);
        }
        let line = &lines[i];
        if first_is(line, 119u8) {
            match parse_number(after_leading(line, 119u8).as_slice()) {
                Some(v) => width = v,
                None => {
                    proof {
                        assert(next =~= views.skip(1).subrange(0, i as int));
                        lemma_scan_v11_stays_none(views.skip(1), i as int);
                    }
                    return None;
                },
            }
        } else if first_is(line, 104u8) {
            match parse_number(after_leading(line, 104u8).as_slice()) {
                Some(v) => height = v,
                None => {
                    proof {
                        assert(next =~= views.skip(1).subrange(0, i as int));
                        lemma_scan_v11_stays_none(views.skip(1), i as int);
                    }
                    return None;
                },
            }
        } else if first_is(line, 100u8) {
            match parse_number(after_leading(line, 100u8).as_slice()) {
                Some(v) => depth = v,
                None => {
                    proof {
                        assert(next =~= views.skip(1).subrange(0, i as int));
                        lemma_scan_v11_stays_none(views.skip(1), i as int);
                    }
                    return None;
                },
            }
        } else if !first_is(line, 35u8) {
            data.extend_from_slice(line.as_slice());
        }
        i += 1;
    }
    proof {
        assert(views.subrange(1, lines@.len() as int) =~= views.skip(1));
    }
    Some((data, width, height, depth))
}

/// Once a size line fails, the whole scan fails.
proof fn lemma_scan_v11_stays_none(lines: Seq<Seq<u8>>, i: int)
    requires
        0 <= i <= lines.len(),
        scan_v11(lines.subrange(0, i)).is_none(),
    ensures
        scan_v11(lines).is_none(),
    decreases lines.len() - i,
{
    if i < lines.len() {
        assert(lines.subrange(0, i + 1).drop_last() =~= lines.subrange(0, i));
        lemma_scan_v11_stays_none(lines, i + 1);
    } else {
        assert(lines.subrange(0, i) =~= lines);
    }
}

/// The slots of the cells of a `w` by `h` by `d` grid that hold a `1`.
fn grid_to_slots(data: &Vec<u8>, w: usize, h: usize, d: usize) -> (r: Vec<Slot>)
    requires
        w > 0,
        h > 0,
        d > 0,
        data@.len() == w * h * d,
    ensures
        r@ == grid_slots(data@, w as int, h as int),
{
    proof {
        assert(w * h <= w * h * d) by (nonlinear_arith)
            requires
                d > 0,
                w > 0,
                h > 0,
        ;
    }
    let len = data.len();
    assert(w * h <= len);
    let wh = w * h;
    assert(wh > 0) by (nonlinear_arith)
        requires
            wh == w * h,
            w > 0,
            h > 0,
    ;
    let mut slots: Vec<Slot> = Vec::new();
    let mut i: usize = 0;
    while i < data.len()
        invariant
            w > 0,
            h > 0,
            wh == w * h,
            wh > 0,
            i <= data@.len(),
            slots@ == grid_slots(data@.subrange(0, i as int), w as int, h as int),
        decreases data@.len() - i,
    {
        proof {
            let next = data@.subrange(0, i + 1);
            assert(next.drop_last() =~= data@.subrange(0, i as int));
            assert(next.last() == data@[i as int]);
        }
        if data[i] == 49u8 {
            slots.push(Slot { x: i % w, y: (i / w) % h, z: i / wh });
        }
        i += 1;
    }
    proof {
        assert(data@.subrange(0, data@.len() as int) =~= data@);
    }
    slots
}

/// Reads a layout file, given as its lines: the slots of its grid.
pub fn parse_layout_file(lines: &Vec<Vec<u8>>) -> (r: Result<Vec<Slot>, MapError>)
    ensures
        match r {
            Ok(v) => layout_result(line_views(lines@)) == Ok::<Seq<Slot>, MapError>(v@),
            Err(e) => layout_result(line_views(lines@)) == Err::<Seq<Slot>, MapError>(e),
        },
{
    if lines.len() == 0 {
        return Err(MapError::EmptyLayoutFile);
    }
    assert(line_views(lines@)[0] == lines@[0]@);
    let (data, w, h, d) = if is_layout_magic(&lines[0], 48u8) {
        (collect_v10(lines), V10_WIDTH, V10_HEIGHT, V10_DEPTH)
    } else if is_layout_magic(&lines[0], 49u8) {
        match scan_lines_v11(lines) {
            Some(s) => s,
            None => return Err(MapError::InvalidNumber),
        }
    } else {
        return Err(MapError::UnsupportedLayoutFormat);
    };
    if w == 0 || h == 0 || d == 0 {
        return Err(MapError::InvalidLayout);
    }
    let len = data.len();
    let fits = match w.checked_mul(h) {
        Some(wh) => match wh.checked_mul(d) {
            Some(n) => n == len,
            None => false,
        },
        None => {
            proof {
                assert(w * h <= w * h * d) by (nonlinear_arith)
                    requires
                        d > 0,
                        w > 0,
                        h > 0,
                ;
            }
            false
        },
    };
    if !fits {
        return Err(MapError::InvalidLayout);
    }
    let slots = grid_to_slots(&data, w, h, d);
    if slots.len() == 0 || slots.len() % 2 != 0 {
        return Err(MapError::InvalidLayout);
    }
    Ok(slots)
}

/// Checks the layout section of a description: it must be there, of a
/// version not above `LAYOUT_VERSION_FORMAT`, with a name and a layout file
/// name, which are returned.
pub fn parse_desktop_file(section: Option<DesktopEntry>) -> (r: Result<(String, String), MapError>)
    ensures
        match section {
            None => r == Err::<(String, String), MapError>(MapError::InvalidMapFormat),
            Some(e) => if e.version_format matches Some(v) && version_too_new(v@) {
                r == Err::<(String, String), MapError>(MapError::UnsupportedVersion)
            } else {
                match (e.name, e.file_name) {
                    (None, _) => r == Err::<(String, String), MapError>(MapError::NoMapName),
                    (Some(_), None) => r == Err::<(String, String), MapError>(
                        MapError::NoLayoutFileName,
                    ),
                    (Some(n), Some(f)) => r == Ok::<(String, String), MapError>((n, f)),
                }
            },
        },
{
    let entry = match section {
        Some(e) => e,
        None => return Err(MapError::InvalidMapFormat),
    };
    if let Some(version) = &entry.version_format {
        if let Some(n) = parse_number(version.as_slice()) {
            if n > LAYOUT_VERSION_FORMAT && n <= 0x7fff_ffffusize {
                return Err(MapError::UnsupportedVersion);
            }
        }
    }
    let name = match entry.name {
        Some(n) => n,
        None => return Err(MapError::NoMapName),
    };
    let file_name = match entry.file_name {
        Some(f) => f,
        None => return Err(MapError::NoLayoutFileName),
    };
    Ok((name, file_name))
}

/// The map of a layout called `name` whose layout file has the lines
/// `lines`.
pub fn load(name: String, lines: &Vec<Vec<u8>>) -> (r: Result<Vec<GameMap>, MapError>)
    ensures
        match layout_result(line_views(lines@)) {
            Err(e) => r == Err::<Vec<GameMap>, MapError>(e),
            Ok(slots) => if coords_in_range(slots) {
                &&& r is Ok
                &&& r->Ok_0@.len() == 1
                &&& r->Ok_0@[0].name@ == name@
                &&& r->Ok_0@[0].slots@ == slots
                &&& r->Ok_0@[0].width == max_x(slots) + 2
                &&& r->Ok_0@[0].height == max_y(slots) + 2
            } else {
                r == Err::<Vec<GameMap>, MapError>(MapError::InvalidMap)
            },
        },
{
    let slots = match parse_layout_file(lines) {
        Ok(s) => s,
        Err(e) => return Err(e),
    };
    if !check_coords(slots.as_slice()) {
        return Err(MapError::InvalidMap);
    }
    let map = map_of(name, slots);
    let mut maps: Vec<GameMap> = Vec::new();
    maps.push(map);
    Ok(maps)
}

} // verus!
