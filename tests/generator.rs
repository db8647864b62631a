use mahjongg::game::{find_all_matches, Tile};
use mahjongg::generate::{fill_random_ids, random_pairs, GenerateError, PAIR_VALUES};
use mahjongg::map::Slot;
use rand::rngs::StdRng;
use rand::SeedableRng;

fn board(slots: &[(usize, usize, usize)]) -> Vec<Tile> {
    slots
        .iter()
        .map(|&(x, y, z)| Tile { id: 0, slot: Slot { x, y, z }, visible: true })
        .collect()
}

/// Two rows of six, with a row of four on top and a pair on top of that.
fn pyramid() -> Vec<Tile> {
    let mut slots = Vec::new();
    for y in [0usize, 2] {
        for x in 0..6usize {
            slots.push((2 * x, y, 0));
        }
    }
    for x in 0..4usize {
        slots.push((2 * x + 2, 1, 1));
    }
    slots.push((4, 1, 2));
    slots.push((6, 1, 2));
    board(&slots)
}

#[test]
fn two_tiles_in_one_place() {
    let mut tiles = board(&[(2, 2, 0), (2, 2, 0)]);
    let mut rng = StdRng::seed_from_u64(1);
    let order = fill_random_ids(&mut tiles, &mut rng).unwrap();
    assert_eq!(order.len(), 1);
    assert_eq!((order[0].first(), order[0].second()), (0, 1));
    assert_eq!(tiles[0].id % 2, 0);
    assert_eq!(tiles[1].id, tiles[0].id + 1);
    assert!(tiles[0].matches(&tiles[1]));
    assert!(tiles.iter().all(|t| t.visible));
}

#[test]
fn odd_board_is_refused() {
    let mut tiles = board(&[(0, 0, 0), (2, 0, 0), (4, 0, 0)]);
    let before = tiles.clone();
    let mut rng = StdRng::seed_from_u64(1);
    assert_eq!(fill_random_ids(&mut tiles, &mut rng), Err(GenerateError::OddTileCount));
    assert_eq!(tiles, before);
}

#[test]
fn odd_board_is_refused_whatever_it_holds() {
    let mut tiles = board(&[(0, 0, 0)]);
    tiles[0].id = 9;
    tiles[0].visible = false;
    let before = tiles.clone();
    let mut rng = StdRng::seed_from_u64(1);
    assert_eq!(fill_random_ids(&mut tiles, &mut rng), Err(GenerateError::OddTileCount));
    assert_eq!(tiles, before);
}

#[test]
fn stacked_pair_has_no_solution() {
    let mut tiles = board(&[(0, 0, 0), (0, 0, 1)]);
    let mut rng = StdRng::seed_from_u64(3);
    assert_eq!(
        fill_random_ids(&mut tiles, &mut rng),
        Err(GenerateError::NoSolvableConfiguration)
    );
    assert!(tiles.iter().all(|t| t.visible && t.id == 0));
}

#[test]
fn empty_board_is_solved() {
    let mut tiles: Vec<Tile> = Vec::new();
    let mut rng = StdRng::seed_from_u64(3);
    assert_eq!(fill_random_ids(&mut tiles, &mut rng).unwrap().len(), 0);
}

#[test]
fn generated_board_clears_in_recorded_order() {
    for seed in 0..20u64 {
        let mut tiles = pyramid();
        let mut rng = StdRng::seed_from_u64(seed);
        let order = fill_random_ids(&mut tiles, &mut rng).unwrap();
        assert_eq!(order.len(), tiles.len() / 2);
        assert!(tiles.iter().all(|t| t.visible));
        for m in &order {
            assert!(find_all_matches(&tiles).contains(m));
            tiles[m.first()].visible = false;
            tiles[m.second()].visible = false;
        }
        assert!(tiles.iter().all(|t| !t.visible));
        assert!(find_all_matches(&tiles).is_empty());
    }
}

#[test]
fn generated_identities_come_in_sibling_pairs() {
    let mut tiles = pyramid();
    let mut rng = StdRng::seed_from_u64(11);
    let order = fill_random_ids(&mut tiles, &mut rng).unwrap();
    let mut seen = std::collections::HashSet::new();
    for m in &order {
        let a = tiles[m.first()].id;
        let b = tiles[m.second()].id;
        assert_eq!(a % 2, 0);
        assert_eq!(b, a + 1);
        assert!(b < 144);
        assert!(seen.insert(a));
    }
}

#[test]
fn different_seeds_give_different_deals() {
    let mut first = pyramid();
    let mut second = pyramid();
    fill_random_ids(&mut first, &mut StdRng::seed_from_u64(1)).unwrap();
    fill_random_ids(&mut second, &mut StdRng::seed_from_u64(2)).unwrap();
    let ids1: Vec<usize> = first.iter().map(|t| t.id).collect();
    let ids2: Vec<usize> = second.iter().map(|t| t.id).collect();
    assert_ne!(ids1, ids2);
}

#[test]
fn pair_values_cycle_through_the_set() {
    let mut rng = StdRng::seed_from_u64(5);
    let pairs = random_pairs(150, &mut rng);
    assert_eq!(pairs.len(), 150);
    assert!(pairs.iter().all(|&p| p < PAIR_VALUES));
    for block in pairs.chunks(PAIR_VALUES) {
        let distinct: std::collections::HashSet<usize> = block.iter().copied().collect();
        assert_eq!(distinct.len(), block.len());
    }
    let mut full: Vec<usize> = pairs[..72].to_vec();
    full.sort();
    assert_eq!(full, (0..72).collect::<Vec<usize>>());
    assert!(random_pairs(0, &mut rng).is_empty());
}

#[test]
fn fresh_board_then_deal() {
    let slots = vec![Slot { x: 0, y: 0, z: 0 }, Slot { x: 2, y: 0, z: 0 }, Slot { x: 4, y: 0, z: 0 }, Slot { x: 6, y: 0, z: 0 }];
    let mut tiles = mahjongg::game::new_board(&slots);
    assert_eq!(tiles.len(), 4);
    assert!(tiles.iter().zip(slots.iter()).all(|(t, s)| t.id == 0 && t.visible && t.slot == *s));
    let order = fill_random_ids(&mut tiles, &mut StdRng::seed_from_u64(4)).unwrap();
    assert_eq!(order.len(), 2);
}
