use mahjongg::map::gnome_mahjongg::{self, Item, Layer, Mahjongg, MapElement};
use mahjongg::map::kmahjongg::{self, parse_desktop_file, parse_layout_file, DesktopEntry};
use mahjongg::map::xml::{self, maps_from_def, MapDef};
use mahjongg::map::{calc_size, load_map, map_of, parse_number, MapError, Slot};

fn lines(text: &[&str]) -> Vec<Vec<u8>> {
    text.iter().map(|l| l.as_bytes().to_vec()).collect()
}

fn slot(x: usize, y: usize, z: usize) -> Slot {
    Slot { x, y, z }
}

#[test]
fn layout_v11_grid() {
    let file = lines(&[
        "kmahjongg-layout-v1.1",
        "# a comment",
        "w4",
        "h2",
        "d2",
        "1100",
        "0000",
        "0011",
        "0000",
    ]);
    let slots = parse_layout_file(&file).unwrap();
    assert_eq!(slots, vec![slot(0, 0, 0), slot(1, 0, 0), slot(2, 0, 1), slot(3, 0, 1)]);
}

#[test]
fn layout_v11_last_size_counts() {
    let file = lines(&["kmahjongg-layout-v1.1", "w9", "ww2", "h+1", "d1", "1", "1"]);
    assert_eq!(parse_layout_file(&file).unwrap(), vec![slot(0, 0, 0), slot(1, 0, 0)]);
}

#[test]
fn layout_v10_counts_cells() {
    let mut text: Vec<Vec<u8>> = vec![b"kmahjongg-layout-v1.0".to_vec()];
    for i in 0..(32 * 16 * 5) / 32 {
        let mut line = vec![b'0'; 32];
        if i == 0 {
            line[0] = b'1';
            line[5] = b'1';
        }
        if i == 16 * 4 + 15 {
            line[31] = b'1';
            line[30] = b'1';
        }
        text.push(line);
    }
    let slots = parse_layout_file(&text).unwrap();
    assert_eq!(slots, vec![slot(0, 0, 0), slot(5, 0, 0), slot(30, 15, 4), slot(31, 15, 4)]);
}

#[test]
fn layout_without_tiles_is_refused() {
    let mut text: Vec<Vec<u8>> = vec![b"kmahjongg-layout-v1.0".to_vec()];
    for _ in 0..80 {
        text.push(vec![b'0'; 32]);
    }
    assert_eq!(parse_layout_file(&text), Err(MapError::InvalidLayout));
    assert_eq!(
        parse_layout_file(&lines(&["kmahjongg-layout-v1.1", "w2", "h1", "d1", "00"])),
        Err(MapError::InvalidLayout)
    );
}

#[test]
fn layout_errors() {
    assert_eq!(parse_layout_file(&Vec::new()), Err(MapError::EmptyLayoutFile));
    assert_eq!(
        parse_layout_file(&lines(&["kmahjongg-layout-v2.0", "11"])),
        Err(MapError::UnsupportedLayoutFormat)
    );
    assert_eq!(
        parse_layout_file(&lines(&["kmahjongg-layout-v1.1", "wx", "h1", "d1", "11"])),
        Err(MapError::InvalidNumber)
    );
    assert_eq!(
        parse_layout_file(&lines(&["kmahjongg-layout-v1.1", "w2", "h1", "d1", "111"])),
        Err(MapError::InvalidLayout)
    );
    assert_eq!(
        parse_layout_file(&lines(&["kmahjongg-layout-v1.1", "w0", "h1", "d1"])),
        Err(MapError::InvalidLayout)
    );
    assert_eq!(
        parse_layout_file(&lines(&["kmahjongg-layout-v1.1", "w3", "h1", "d1", "111"])),
        Err(MapError::InvalidLayout)
    );
    assert_eq!(
        parse_layout_file(&lines(&[
            "kmahjongg-layout-v1.1",
            "w18446744073709551615",
            "h18446744073709551615",
            "d2",
            "11"
        ])),
        Err(MapError::InvalidLayout)
    );
}

#[test]
fn kmahjongg_load_sizes_map() {
    let file = lines(&["kmahjongg-layout-v1.1", "w4", "h3", "d1", "0000", "0000", "0101"]);
    let maps = kmahjongg::load("Small".to_string(), &file).unwrap();
    assert_eq!(maps.len(), 1);
    assert_eq!(maps[0].name, "Small");
    assert_eq!(maps[0].slots, vec![slot(1, 2, 0), slot(3, 2, 0)]);
    assert_eq!((maps[0].width, maps[0].height), (5, 4));
    assert_eq!(
        kmahjongg::load("x".to_string(), &lines(&["nope"])).unwrap_err(),
        MapError::UnsupportedLayoutFormat
    );
}

fn entry(version: Option<&str>, name: Option<&str>, file: Option<&str>) -> DesktopEntry {
    DesktopEntry {
        version_format: version.map(|v| v.as_bytes().to_vec()),
        name: name.map(|n| n.to_string()),
        file_name: file.map(|f| f.to_string()),
    }
}

#[test]
fn desktop_file_checks() {
    assert_eq!(parse_desktop_file(None), Err(MapError::InvalidMapFormat));
    assert_eq!(
        parse_desktop_file(Some(entry(Some("2"), Some("A"), Some("a.layout")))),
        Err(MapError::UnsupportedVersion)
    );
    assert_eq!(
        parse_desktop_file(Some(entry(Some("1"), Some("A"), Some("a.layout")))),
        Ok(("A".to_string(), "a.layout".to_string()))
    );
    assert_eq!(
        parse_desktop_file(Some(entry(Some("abc"), Some("A"), Some("a.layout")))),
        Ok(("A".to_string(), "a.layout".to_string()))
    );
    assert_eq!(
        parse_desktop_file(Some(entry(Some("99999999999"), Some("A"), Some("a.layout")))),
        Ok(("A".to_string(), "a.layout".to_string()))
    );
    assert_eq!(
        parse_desktop_file(Some(entry(None, None, Some("a.layout")))),
        Err(MapError::NoMapName)
    );
    assert_eq!(parse_desktop_file(Some(entry(None, Some("A"), None))), Err(MapError::NoLayoutFileName));
}

#[test]
fn numbers() {
    assert_eq!(parse_number(b"0"), Some(0));
    assert_eq!(parse_number(b"+42"), Some(42));
    assert_eq!(parse_number(b"18446744073709551615"), Some(usize::MAX));
    assert_eq!(parse_number(b"18446744073709551616"), None);
    assert_eq!(parse_number(b""), None);
    assert_eq!(parse_number(b"+"), None);
    assert_eq!(parse_number(b"-1"), None);
    assert_eq!(parse_number(b"12a"), None);
}

fn gnome_map(name: &str, items: Vec<Item>) -> MapElement {
    MapElement { name: name.to_string(), items }
}

#[test]
fn gnome_items_expand() {
    let file = Mahjongg {
        maps: vec![gnome_map(
            "Cross",
            vec![
                Item::Row { left: 0, right: 4, y: 0, z: None },
                Item::Layer(Layer {
                    z: 1,
                    items: vec![
                        Item::Column { x: 2, top: 0, bottom: 3, z: None },
                        Item::Tile { x: 9, y: 9, z: Some(3) },
                        Item::Layer(Layer { z: 2, items: vec![Item::Tile { x: 1, y: 1, z: None }] }),
                    ],
                }),
                Item::Block { left: 10, right: 12, top: 0, bottom: 2, z: Some(0) },
                Item::Tile { x: 0, y: 4, z: None },
            ],
        )],
    };
    let maps = gnome_mahjongg::load(&file).unwrap();
    assert_eq!(maps[0].name, "Cross");
    assert_eq!(
        maps[0].slots,
        vec![
            slot(0, 0, 0),
            slot(2, 0, 0),
            slot(4, 0, 0),
            slot(2, 0, 1),
            slot(2, 2, 1),
            slot(9, 9, 3),
            slot(1, 1, 2),
            slot(10, 0, 0),
            slot(10, 2, 0),
            slot(12, 0, 0),
            slot(12, 2, 0),
            slot(0, 4, 0),
        ]
    );
    assert_eq!((maps[0].width, maps[0].height), (14, 11));
}

#[test]
fn gnome_odd_map_is_refused() {
    let file = Mahjongg {
        maps: vec![
            gnome_map("Pair", vec![Item::Row { left: 0, right: 2, y: 0, z: None }]),
            gnome_map("Odd", vec![Item::Tile { x: 0, y: 0, z: None }]),
        ],
    };
    assert_eq!(gnome_mahjongg::load(&file).unwrap_err(), MapError::InvalidMap);
    let empty = Mahjongg { maps: vec![gnome_map("Empty", vec![Item::Row { left: 4, right: 2, y: 0, z: None }])] };
    assert_eq!(gnome_mahjongg::load(&empty).unwrap_err(), MapError::InvalidMap);
}

#[test]
fn xml_layers_expand() {
    let def = MapDef {
        maps: vec![xml::MapElement {
            name: "Two".to_string(),
            scorename: "two".to_string(),
            layers: vec![
                xml::Layer { z: 0, items: vec![xml::Item::Row { left: 1, right: 5, y: 3 }] },
                xml::Layer {
                    z: 1,
                    items: vec![
                        xml::Item::Tile { x: 3, y: 3 },
                        xml::Item::Block { left: 0, right: 0, top: 0, bottom: 2 },
                        xml::Item::Column { x: 7, top: 1, bottom: 2 },
                        xml::Item::Tile { x: 9, y: 0 },
                    ],
                },
            ],
        }],
    };
    let maps = maps_from_def(&def).unwrap();
    assert_eq!(maps.len(), 1);
    assert_eq!(
        maps[0].slots,
        vec![
            slot(1, 3, 0),
            slot(3, 3, 0),
            slot(5, 3, 0),
            slot(3, 3, 1),
            slot(0, 0, 1),
            slot(0, 2, 1),
            slot(7, 1, 1),
            slot(9, 0, 1),
        ]
    );
    let far = MapDef {
        maps: vec![xml::MapElement {
            name: "Far".to_string(),
            scorename: String::new(),
            layers: vec![xml::Layer {
                z: 0,
                items: vec![xml::Item::Tile { x: usize::MAX, y: 0 }, xml::Item::Tile { x: 0, y: 0 }],
            }],
        }],
    };
    assert_eq!(maps_from_def(&far).unwrap_err(), MapError::InvalidMap);
    let odd = MapDef {
        maps: vec![xml::MapElement {
            name: "Odd".to_string(),
            scorename: String::new(),
            layers: vec![xml::Layer { z: 0, items: vec![xml::Item::Row { left: 0, right: 4, y: 0 }] }],
        }],
    };
    assert_eq!(maps_from_def(&odd).unwrap_err(), MapError::InvalidMap);
    let empty = MapDef {
        maps: vec![xml::MapElement { name: "Empty".to_string(), scorename: String::new(), layers: vec![] }],
    };
    assert_eq!(maps_from_def(&empty).unwrap_err(), MapError::InvalidMap);
}

#[test]
fn size_of_slots() {
    assert_eq!(calc_size(&[]), (2, 2));
    assert_eq!(calc_size(&[slot(4, 1, 0), slot(2, 7, 3)]), (6, 9));
}

#[test]
fn maps_are_found_by_name() {
    let maps = vec![
        map_of("Easy".to_string(), vec![slot(0, 0, 0)]),
        map_of("Hard".to_string(), vec![slot(2, 0, 0)]),
        map_of("Hard".to_string(), vec![slot(4, 0, 0)]),
    ];
    let found = load_map(maps.clone(), "Hard").unwrap();
    assert_eq!(found.slots, vec![slot(2, 0, 0)]);
    assert_eq!(load_map(maps, "Other").unwrap_err(), MapError::LayoutNotFound);
}
