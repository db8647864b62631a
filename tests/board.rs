use mahjongg::game::{find_all_matches, find_matches, get_image_offset, tile_is_exposed, Match, Tile};
use mahjongg::map::Slot;
use std::collections::HashSet;

fn tile(id: usize, x: usize, y: usize, z: usize) -> Tile {
    Tile { id, slot: Slot { x, y, z }, visible: true }
}

#[test]
fn upper_tile_covers_both_tiles_below() {
    let tiles = vec![tile(0, 2, 2, 0), tile(1, 4, 2, 0), tile(2, 3, 2, 1)];
    assert!(!tile_is_exposed(0, &tiles));
    assert!(!tile_is_exposed(1, &tiles));
    assert!(tile_is_exposed(2, &tiles));
}

#[test]
fn cover_reaches_one_unit_only() {
    // two units away on the layer above: no longer on top of the tile
    let tiles = vec![tile(0, 2, 2, 0), tile(1, 4, 4, 1)];
    assert!(tile_is_exposed(0, &tiles));
    // two layers above does not cover either
    let tiles = vec![tile(0, 2, 2, 0), tile(1, 2, 2, 2)];
    assert!(tile_is_exposed(0, &tiles));
}

#[test]
fn blocked_on_one_side_stays_exposed() {
    let mut tiles = vec![tile(0, 4, 2, 0), tile(1, 2, 2, 0)];
    assert!(tile_is_exposed(0, &tiles));
    tiles.push(tile(2, 6, 2, 0));
    assert!(!tile_is_exposed(0, &tiles));
    // the outer tiles are each blocked on one side only
    assert!(tile_is_exposed(1, &tiles));
    assert!(tile_is_exposed(2, &tiles));
}

#[test]
fn side_neighbours_in_adjacent_rows_pinch() {
    let tiles = vec![tile(0, 4, 2, 0), tile(1, 2, 1, 0), tile(2, 6, 3, 0)];
    assert!(!tile_is_exposed(0, &tiles));
    let tiles = vec![tile(0, 4, 2, 0), tile(1, 2, 0, 0), tile(2, 6, 2, 0)];
    assert!(tile_is_exposed(0, &tiles));
}

#[test]
fn removed_tiles_neither_block_nor_are_exposed() {
    let mut tiles = vec![tile(0, 4, 2, 0), tile(1, 2, 2, 0), tile(2, 6, 2, 0), tile(3, 4, 2, 1)];
    assert!(!tile_is_exposed(0, &tiles));
    tiles[3].visible = false;
    tiles[2].visible = false;
    assert!(tile_is_exposed(0, &tiles));
    assert!(!tile_is_exposed(2, &tiles));
    for t in tiles.iter_mut() {
        t.visible = false;
    }
    for i in 0..tiles.len() {
        assert!(!tile_is_exposed(i, &tiles));
    }
    assert!(find_all_matches(&tiles).is_empty());
}

#[test]
fn tiles_match_by_group() {
    for a in 0..144usize {
        for b in 0..144usize {
            let t1 = tile(a, 0, 0, 0);
            let t2 = tile(b, 4, 0, 0);
            assert_eq!(t1.matches(&t2), a / 4 == b / 4);
        }
    }
    assert!(tile(8, 0, 0, 0).matches(&tile(11, 2, 0, 0)));
    assert!(!tile(7, 0, 0, 0).matches(&tile(8, 2, 0, 0)));
}

#[test]
fn match_is_symmetric() {
    assert_eq!(Match::new(3, 7), Match::new(7, 3));
    assert_eq!(Match::new(7, 3).first(), 3);
    assert_eq!(Match::new(7, 3).second(), 7);
    assert_ne!(Match::new(3, 7), Match::new(3, 8));
    let mut set = HashSet::new();
    set.insert(Match::new(1, 2));
    set.insert(Match::new(2, 1));
    assert_eq!(set.len(), 1);
}

#[test]
fn find_matches_lists_exposed_partners() {
    // 0 and 1 match (group 0); 2 is of group 0 too but covered by 3
    let tiles = vec![
        tile(0, 0, 0, 0),
        tile(1, 10, 0, 0),
        tile(2, 20, 0, 0),
        tile(4, 20, 0, 1),
        tile(3, 30, 0, 0),
    ];
    assert_eq!(find_matches(0, &tiles), vec![1, 4]);
    assert_eq!(find_matches(2, &tiles), vec![0, 1, 4]);
    assert_eq!(find_matches(3, &tiles), Vec::<usize>::new());
}

#[test]
fn all_matches_lists_each_pair_once() {
    let tiles = vec![
        tile(0, 0, 0, 0),
        tile(1, 10, 0, 0),
        tile(2, 20, 0, 0),
        tile(5, 30, 0, 0),
        tile(9, 40, 0, 0),
    ];
    let found: HashSet<Match> = find_all_matches(&tiles).into_iter().collect();
    assert_eq!(find_all_matches(&tiles).len(), 3);
    let expected: HashSet<Match> =
        vec![Match::new(0, 1), Match::new(0, 2), Match::new(1, 2)].into_iter().collect();
    assert_eq!(found, expected);
}

#[test]
fn image_offsets() {
    assert_eq!(get_image_offset(0), 0);
    assert_eq!(get_image_offset(7), 1);
    assert_eq!(get_image_offset(131), 32);
    assert_eq!(get_image_offset(132), 33);
    assert_eq!(get_image_offset(135), 36);
    assert_eq!(get_image_offset(136), 37);
    assert_eq!(get_image_offset(139), 37);
    assert_eq!(get_image_offset(140), 38);
    assert_eq!(get_image_offset(143), 41);
}
