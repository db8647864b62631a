//! The background colour as given on the command line: `#rgb`, `#rrggbb` or
//! `r, g, b` in decimal, read into its three components.

use vstd::prelude::*;

verus! {

/// The value of a hexadecimal digit.
pub open spec fn hex_digit(c: char) -> Option<u8> {
    let v = c as u32;
    if 48 <= v <= 57 {
        Some((v - 48) as u8)
    } else if 97 <= v <= 102 {
        Some((v - 87) as u8)
    } else if 65 <= v <= 70 {
        Some((v - 55) as u8)
    } else {
        None
    }
}

/// Two characters read as a hexadecimal byte; a leading `+` is a sign.
pub open spec fn hex_pair(a: char, b: char) -> Option<u8> {
    if a == '+' {
        hex_digit(b)
    } else {
        match (hex_digit(a), hex_digit(b)) {
            (Some(x), Some(y)) => Some((16 * x + y) as u8),
            _ => None,
        }
    }
}

/// White space in the sense of Unicode.
pub open spec fn is_space(c: char) -> bool {
    let v = c as u32;
    ||| 9 <= v <= 13
    ||| v == 32
    ||| v == 0x85
    ||| v == 0xa0
    ||| v == 0x1680
    ||| 0x2000 <= v <= 0x200a
    ||| v == 0x2028
    ||| v == 0x2029
    ||| v == 0x202f
    ||| v == 0x205f
    ||| v == 0x3000
}

pub open spec fn trim_start(s: Seq<char>) -> Seq<char>
    decreases s.len(),
{
    if s.len() > 0 && is_space(s[0]) {
        trim_start(s.drop_first())
    } else {
        s
    }
}

pub open spec fn trim_end(s: Seq<char>) -> Seq<char>
    decreases s.len(),
{
    if s.len() > 0 && is_space(s.last()) {
        trim_end(s.drop_last())
    } else {
        s
    }
}

/// The value of a string of decimal digits.
pub open spec fn decimal(s: Seq<char>) -> nat
    decreases s.len(),
{
    if s.len() == 0 {
        0
    } else {
        decimal(s.drop_last()) * 10 + (s.last() as u32 - 48) as nat
    }
}

pub open spec fn is_decimal_digit(c: char) -> bool {
    48 <= c as u32 <= 57
}

/// `s` without its leading `+`, if any.
pub open spec fn unsigned_digits(s: Seq<char>) -> Seq<char> {
    if s.len() > 0 && s[0] == '+' {
        s.drop_first()
    } else {
        s
    }
}

/// `s` read as a byte in decimal: an optional `+`, then digits only.
pub open spec fn byte_value(s: Seq<char>) -> Option<u8> {
    let d = unsigned_digits(s);
    if d.len() > 0 && (forall|i: int| 0 <= i < d.len() ==> is_decimal_digit(#[trigger] d[i]))
        && decimal(d) <= 255 {
        Some(decimal(d) as u8)
    } else {
        None
    }
}

/// The pieces of `s` between commas.
pub open spec fn fields(s: Seq<char>) -> Seq<Seq<char>>
    decreases s.len(),
{
    if s.len() == 0 {
        seq![Seq::empty()]
    } else {
        let f = fields(s.drop_last());
        if s.last() == ',' {
            f.push(Seq::empty())
        } else {
            f.update(f.len() - 1, f.last().push(s.last()))
        }
    }
}

pub open spec fn all_three(a: Option<u8>, b: Option<u8>, c: Option<u8>) -> Option<(u8, u8, u8)> {
    match (a, b, c) {
        (Some(x), Some(y), Some(z)) => Some((x, y, z)),
        _ => None,
    }
}

/// The components that the colour text `s` gives.
pub open spec fn color_value(s: Seq<char>) -> Option<(u8, u8, u8)> {
    if s.len() == 4 && s[0] == '#' {
        all_three(hex_pair(s[1], s[1]), hex_pair(s[2], s[2]), hex_pair(s[3], s[3]))
    } else if s.len() == 7 && s[0] == '#' {
        all_three(hex_pair(s[1], s[2]), hex_pair(s[3], s[4]), hex_pair(s[5], s[6]))
    } else {
        let f = fields(s);
        if f.len() == 3 {
            all_three(
                byte_value(trim_end(trim_start(f[0]))),
                byte_value(trim_end(trim_start(f[1]))),
                byte_value(trim_end(trim_start(f[2]))),
            )
        } else {
            None
        }
    }
}

fn hex_digit_of(c: char) -> (r: Option<u8>)
    ensures
        r == hex_digit(c),
{
    let v = c as u32;
    if 48 <= v && v <= 57 {
        Some((v - 48) as u8)
    } else if 97 <= v && v <= 102 {
        Some((v - 87) as u8)
    } else if 65 <= v && v <= 70 {
        Some((v - 55) as u8)
    } else {
        None
    }
}

fn hex_pair_of(a: char, b: char) -> (r: Option<u8>)
    ensures
        r == hex_pair(a, b),
{
    if a == '+' {
        hex_digit_of(b)
    } else {
        match (hex_digit_of(a), hex_digit_of(b)) {
            (Some(x), Some(y)) => Some(16 * x + y),
            _ => None,
        }
    }
}

fn space(c: char) -> (r: bool)
    ensures
        r == is_space(c),
{
    let v = c as u32;
    (9 <= v && v <= 13) || v == 32 || v == 0x85 || v == 0xa0 || v == 0x1680 || (0x2000 <= v && v
        <= 0x200a) || v == 0x2028 || v == 0x2029 || v == 0x202f || v == 0x205f || v == 0x3000
}

/// `s` without the white space at either end.
fn trimmed(s: &Vec<char>) -> (r: Vec<char>)
    ensures
        r@ == trim_end(trim_start(s@)),
{
    let mut a: usize = 0;
    assert(s@.skip(0) =~= s@);
    while a < s.len() && space(s[a])
        invariant
            a <= s@.len(),
            trim_start(s@) == trim_start(s@.skip(a as int)),
        decreases s@.len() - a,
    {
        assert(s@.skip(a as int).drop_first() =~= s@.skip(a + 1));
        a += 1;
    }
    let ghost t = s@.skip(a as int);
    assert(trim_start(t) == t);
    let mut b: usize = s.len();
    assert(t.subrange(0, (b - a) as int) =~= t);
    while b > a && space(s[b - 1])
        invariant
            a <= b <= s@.len(),
            t == s@.skip(a as int),
            trim_end(t) == trim_end(t.subrange(0, (b - a) as int)),
        decreases b,
    {
        let ghost u = t.subrange(0, (b - a) as int);
        assert(u.last() == s@[b - 1]);
        assert(u.drop_last() =~= t.subrange(0, (b - 1 - a) as int));
        b -= 1;
    }
    let mut r: Vec<char> = Vec::new();
    let mut i: usize = a;
    while i < b
        invariant
            a <= i <= b,
            b <= s@.len(),
            r@ == s@.subrange(a as int, i as int),
        decreases b - i,
    {
        r.push(s[i]);
        i += 1;
        assert(r@ =~= s@.subrange(a as int, i as int));
    }
    proof {
        let u = t.subrange(0, (b - a) as int);
        assert(u =~= r@);
        if u.len() > 0 {
            assert(u.last() == s@[b - 1]);
        }
    }
    r
}

/// Reads a byte in decimal, with an optional `+`.
fn byte_of(s: &Vec<char>) -> (r: Option<u8>)
    ensures
        r == byte_value(s@),
{
    let mut start: usize = 0;
    if s.len() > 0 && s[0] == '+' {
        start = 1;
    }
    let ghost d = unsigned_digits(s@);
    assert(d =~= s@.subrange(start as int, s@.len() as int));
    if start == s.len() {
        return None;
    }
    // the value read so far, or 256 once it is past a byte
    let mut value: u32 = 0;
    let mut i: usize = start;
    while i < s.len()
        invariant
            start <= i <= s@.len(),
            d == unsigned_digits(s@),
            d == s@.subrange(start as int, s@.len() as int),
            forall|j: int| start <= j < i ==> is_decimal_digit(#[trigger] s@[j]),
            value as nat == if decimal(s@.subrange(start as int, i as int)) > 256 {
                256
            } else {
                decimal(s@.subrange(start as int, i as int))
            },
        decreases s@.len() - i,
    {
        let c = s[i];
        let v = c as u32;
        if v < 48 || v > 57 {
            assert(d[i - start] == s@[i as int]);
            assert(!is_decimal_digit(d[i - start]));
            return None;
        }
        proof {
            let t = s@.subrange(start as int, i + 1);
            assert(t.drop_last() =~= s@.subrange(start as int, i as int));
            assert(t.last() == c);
        }
        value = value * 10 + (v - 48);
        if value > 256 {
            value = 256;
        }
        i += 1;
    }
    proof {
        assert(s@.subrange(start as int, s@.len() as int) == d);
        assert forall|j: int| 0 <= j < d.len() implies is_decimal_digit(#[trigger] d[j]) by {
            assert(d[j] == s@[start + j]);
        }
    }
    if value > 255 {
        None
    } else {
        Some(value as u8)
    }
}

/// Splits `s` at its commas.
fn split_fields(s: &Vec<char>) -> (r: Vec<Vec<char>>)
    ensures
        r@.map_values(|f: Vec<char>| f@) == fields(s@),
{
    let mut r: Vec<Vec<char>> = Vec::new();
    r.push(Vec::new());
    let mut i: usize = 0;
    assert(r@.map_values(|f: Vec<char>| f@) =~= fields(s@.subrange(0, 0)));
    while i < s.len()
        invariant
            i <= s@.len(),
            r@.len() >= 1,
            r@.map_values(|f: Vec<char>| f@) == fields(s@.subrange(0, i as int)),
        decreases s@.len() - i,
    {
        let ghost before = r@.map_values(|f: Vec<char>| f@);
        proof {
            let t = s@.subrange(0, i + 1);
            assert(t.drop_last() =~= s@.subrange(0, i as int));
            assert(t.last() == s@[i as int]);
        }
        if s[i] == ',' {
            r.push(Vec::new());
            assert(r@.map_values(|f: Vec<char>| f@) =~= before.push(Seq::empty()));
        } else {
            let mut last = r.pop().unwrap();
            last.push(s[i]);
            r.push(last);
            assert(r@.map_values(|f: Vec<char>| f@) =~= before.update(
                before.len() - 1,
                before.last().push(s@[i as int]),
            ));
        }
        i += 1;
    }
    assert(s@.subrange(0, s@.len() as int) =~= s@);
    r
}

/// Reads a colour: `#rgb` (each digit doubled), `#rrggbb` in hexadecimal,
/// or three decimal bytes separated by commas, with white space around
/// each allowed.
pub fn parse_color(s: &Vec<char>) -> (r: Option<(u8, u8, u8)>)
    ensures
        r == color_value(s@),
{
    if s.len() == 4 && s[0] == '#' {
        match (hex_pair_of(s[1], s[1]), hex_pair_of(s[2], s[2]), hex_pair_of(s[3], s[3])) {
            (Some(x), Some(y), Some(z)) => Some((x, y, z)),
            _ => None,
        }
    } else if s.len() == 7 && s[0] == '#' {
        match (hex_pair_of(s[1], s[2]), hex_pair_of(s[3], s[4]), hex_pair_of(s[5], s[6])) {
            (Some(x), Some(y), Some(z)) => Some((x, y, z)),
            _ => None,
        }
    } else {
        let parts = split_fields(s);
        let ghost views = parts@.map_values(|f: Vec<char>| f@);
        if parts.len() != 3 {
            return None;
        }
        assert(views[0] == parts@[0]@ && views[1] == parts@[1]@ && views[2] == parts@[2]@);
        let a = byte_of(&trimmed(&parts[0]));
        let b = byte_of(&trimmed(&parts[1]));
        let c = byte_of(&trimmed(&parts[2]));
        match (a, b, c) {
            (Some(x), Some(y), Some(z)) => Some((x, y, z)),
            _ => None,
        }
    }
}

} // verus!
