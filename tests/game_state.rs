use mahjongg::game::Tile;
use mahjongg::map::Slot;
use mahjongg::play::GameState;

fn state() -> GameState {
    // 0 and 1 match; 2 is of another group; 3 lies on top of 4
    let tiles = vec![
        Tile { id: 0, slot: Slot { x: 0, y: 0, z: 0 }, visible: true },
        Tile { id: 3, slot: Slot { x: 10, y: 0, z: 0 }, visible: true },
        Tile { id: 4, slot: Slot { x: 20, y: 0, z: 0 }, visible: true },
        Tile { id: 1, slot: Slot { x: 30, y: 0, z: 1 }, visible: true },
        Tile { id: 2, slot: Slot { x: 30, y: 0, z: 0 }, visible: true },
    ];
    GameState::new(tiles)
}

#[test]
fn click_picks_then_removes_a_pair() {
    let mut g = state();
    g.on_left_click(Some(0));
    assert_eq!(g.selected, Some(0));
    g.on_left_click(Some(1));
    assert_eq!(g.selected, None);
    assert!(!g.tiles[0].visible && !g.tiles[1].visible);
    assert_eq!(g.history, vec![(0, 1)]);
}

#[test]
fn click_on_other_group_moves_the_pick() {
    let mut g = state();
    g.on_left_click(Some(0));
    g.on_left_click(Some(2));
    assert_eq!(g.selected, Some(2));
    assert!(g.tiles.iter().all(|t| t.visible));
    assert!(g.history.is_empty());
}

#[test]
fn click_twice_drops_the_pick() {
    let mut g = state();
    g.on_left_click(Some(2));
    g.on_left_click(Some(2));
    assert_eq!(g.selected, None);
}

#[test]
fn click_on_covered_tile_or_nothing_does_nothing() {
    let mut g = state();
    g.on_left_click(Some(4));
    assert_eq!(g.selected, None);
    g.on_left_click(Some(0));
    g.on_left_click(None);
    assert_eq!(g.selected, Some(0));
    g.on_left_click(Some(4));
    assert_eq!(g.selected, Some(0));
}

#[test]
fn right_click_undoes_last_pair() {
    let mut g = state();
    g.on_right_click();
    assert!(g.tiles.iter().all(|t| t.visible));
    g.on_left_click(Some(0));
    g.on_left_click(Some(3));
    assert_eq!(g.history, vec![(0, 3)]);
    assert!(!g.tiles[3].visible);
    g.on_left_click(Some(4));
    assert_eq!(g.selected, Some(4));
    g.on_right_click();
    assert_eq!(g.selected, None);
    assert!(g.history.is_empty());
    assert!(g.tiles.iter().all(|t| t.visible));
}

#[test]
fn undo_gives_back_the_board() {
    let mut g = state();
    let before = g.tiles.clone();
    g.on_left_click(Some(0));
    g.on_left_click(Some(1));
    assert_ne!(g.tiles, before);
    g.on_right_click();
    assert_eq!(g.tiles, before);
}
