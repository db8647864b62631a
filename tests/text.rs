use mahjongg::color::parse_color;
use mahjongg::generate::random_pairs;
use mahjongg::map::parse_pos;
use rand::rngs::StdRng;
use rand::SeedableRng;

fn color(s: &str) -> Option<(u8, u8, u8)> {
    parse_color(&s.chars().collect())
}

#[test]
fn colours_in_hex() {
    assert_eq!(color("#34385b"), Some((0x34, 0x38, 0x5b)));
    assert_eq!(color("#ABCDEF"), Some((0xab, 0xcd, 0xef)));
    assert_eq!(color("#f0a"), Some((0xff, 0x00, 0xaa)));
    assert_eq!(color("#+f+f+f"), Some((15, 15, 15)));
    assert_eq!(color("#ggg"), None);
    assert_eq!(color("#12345"), None);
    assert_eq!(color("#1,2"), None);
}

#[test]
fn colours_in_decimal() {
    assert_eq!(color("52, 56, 91"), Some((52, 56, 91)));
    assert_eq!(color(" 0,\t255 ,+7 "), Some((0, 255, 7)));
    assert_eq!(color("1,2"), None);
    assert_eq!(color("1,2,3,4"), None);
    assert_eq!(color("1,256,3"), None);
    assert_eq!(color("1,,3"), None);
    assert_eq!(color("a,b,c"), None);
    assert_eq!(color(""), None);
    assert_eq!(color("\u{a0}9,8,7\u{3000}"), Some((9, 8, 7)));
}

#[test]
fn positions_in_half_cells() {
    assert_eq!(parse_pos(b"0"), Some(0));
    assert_eq!(parse_pos(b"3"), Some(6));
    assert_eq!(parse_pos(b"3.5"), Some(7));
    assert_eq!(parse_pos(b"3.5.5"), Some(7));
    assert_eq!(parse_pos(b".5"), None);
    assert_eq!(parse_pos(b"3.25"), None);
    assert_eq!(parse_pos(b"-1"), None);
    assert_eq!(parse_pos(b"9223372036854775807.5"), Some(usize::MAX));
    assert_eq!(parse_pos(b"9223372036854775808"), None);
}

#[test]
fn pair_values_are_shuffled() {
    let mut rng = StdRng::seed_from_u64(9);
    let pairs = random_pairs(72, &mut rng);
    assert_ne!(pairs, (0..72).collect::<Vec<usize>>());
    let mut sorted = pairs.clone();
    sorted.sort();
    assert_eq!(sorted, (0..72).collect::<Vec<usize>>());
}
