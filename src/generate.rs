//! The generator of solvable deals. It works backwards: starting from the
//! full board, it removes one removable pair after another and gives each
//! removed pair the next value of a shuffled list of pair values, so that the
//! order of removal it found is a solution of the deal it returns.

use crate::game::{
    blocks_left, blocks_right, covers, find_all_matches, is_covered, is_exposed, is_pinched,
    match_set, match_views, other_visible, same_group, Match, Tile,
};
use rand::rngs::StdRng;
use rand::seq::SliceRandom;
use vstd::prelude::*;

verus! {

/// Tiles in a full set.
pub const TILE_SET_SIZE: usize = 144;

/// Values a removed pair can carry: pair value `p` gives its two tiles the
/// identities `2 * p` and `2 * p + 1`, both of group `p / 2`.
pub const PAIR_VALUES: usize = TILE_SET_SIZE / 2;

/// rand's `StdRng`, the seedable generator the shuffles draw on; nothing in
/// it is looked at here.
#[verifier::external_type_specification]
#[verifier::external_body]
pub struct ExStdRng(StdRng);

/// Relies on rand's `SliceRandom::shuffle` for slices: it swaps items in
/// place, so the same items remain, in some order.
#[verifier::external_body]
fn shuffle<T>(v: &mut Vec<T>, rng: &mut StdRng)
    ensures
        final(v)@.len() == old(v)@.len(),
        final(v)@.to_multiset() == old(v)@.to_multiset(),
{
    v.as_mut_slice().shuffle(rng);
}

/// Why no deal was made.
#[derive(Debug, Clone, Copy, PartialEq, Eq, Structural)]
pub enum GenerateError {
    /// Tiles can only be removed in pairs.
    OddTileCount,
    /// The search tried every branch and none empties the board.
    NoSolvableConfiguration,
}

pub open spec fn visible_count(tiles: Seq<Tile>) -> nat
    decreases tiles.len(),
{
    if tiles.len() == 0 {
        0
    } else {
        visible_count(tiles.drop_last()) + if tiles.last().visible {
            1nat
        } else {
            0nat
        }
    }
}

/// `a` and `b` hold tiles at the same places with the same visibility.
pub open spec fn same_layout(a: Seq<Tile>, b: Seq<Tile>) -> bool {
    &&& a.len() == b.len()
    &&& forall|i: int| 0 <= i < a.len() ==> (#[trigger] a[i]).slot == b[i].slot && a[i].visible == b[i].visible
}

/// `tiles` with the two tiles of `p` taken off the board.
pub open spec fn remove_pair(tiles: Seq<Tile>, p: (usize, usize)) -> Seq<Tile> {
    tiles.update(p.0 as int, Tile { visible: false, ..tiles[p.0 as int] }).update(
        p.1 as int,
        Tile { visible: false, ..tiles[p.1 as int] },
    )
}

/// Removing the pairs of `order` one after another, each a pair that can be
/// removed at its turn, leaves no tile on the board.
pub open spec fn clears(tiles: Seq<Tile>, order: Seq<(usize, usize)>) -> bool
    decreases order.len(),
{
    if order.len() == 0 {
        forall|i: int| 0 <= i < tiles.len() ==> !(#[trigger] tiles[i]).visible
    } else {
        &&& match_set(tiles).contains(order[0])
        &&& clears(remove_pair(tiles, order[0]), order.drop_first())
    }
}

/// The tiles of `fin` with the visibility of those of `vis`.
pub open spec fn with_visibility(fin: Seq<Tile>, vis: Seq<Tile>) -> Seq<Tile> {
    Seq::new(fin.len(), |i: int| Tile { visible: vis[i].visible, ..fin[i] })
}

/// The `k`-th pair of `order` carries pair value `pairs[k]`.
pub open spec fn carries(tiles: Seq<Tile>, order: Seq<(usize, usize)>, pairs: Seq<usize>) -> bool {
    forall|k: int|
        0 <= k < order.len() ==> {
            &&& tiles[#[trigger] order[k].0 as int].id == 2 * pairs[k]
            &&& tiles[order[k].1 as int].id == 2 * pairs[k] + 1
        }
}

proof fn lemma_visible_count_update(tiles: Seq<Tile>, i: int, t: Tile)
    requires
        0 <= i < tiles.len(),
    ensures
        visible_count(tiles.update(i, t)) + (if tiles[i].visible {
            1int
        } else {
            0int
        }) == visible_count(tiles) + (if t.visible {
            1int
        } else {
            0int
        }),
    decreases tiles.len(),
{
    let u = tiles.update(i, t);
    if i < tiles.len() - 1 {
        assert(u.drop_last() =~= tiles.drop_last().update(i, t));
        lemma_visible_count_update(tiles.drop_last(), i, t);
    } else {
        assert(u.drop_last() =~= tiles.drop_last());
    }
}

proof fn lemma_visible_count_zero(tiles: Seq<Tile>)
    requires
        visible_count(tiles) == 0,
    ensures
        forall|i: int| 0 <= i < tiles.len() ==> !(#[trigger] tiles[i]).visible,
    decreases tiles.len(),
{
    if tiles.len() > 0 {
        lemma_visible_count_zero(tiles.drop_last());
        assert forall|i: int| 0 <= i < tiles.len() implies !(#[trigger] tiles[i]).visible by {
            if i < tiles.len() - 1 {
                assert(tiles[i] == tiles.drop_last()[i]);
            }
        }
    }
}

proof fn lemma_exposed_one_way(a: Seq<Tile>, b: Seq<Tile>, i: int)
    requires
        same_layout(a, b),
        0 <= i < a.len(),
        is_exposed(a, i),
    ensures
        is_exposed(b, i),
{
    assert(a[i].visible == b[i].visible);
    if is_covered(b, i) {
        let j = choose|j: int| other_visible(b, i, j) && #[trigger] covers(b[j].slot, b[i].slot);
        assert(a[j].visible == b[j].visible);
        assert(other_visible(a, i, j) && covers(a[j].slot, a[i].slot));
    }
    if is_pinched(b, i) {
        let j = choose|j: int| other_visible(b, i, j) && #[trigger] blocks_left(b[j].slot, b[i].slot);
        let k = choose|k: int| other_visible(b, i, k) && #[trigger] blocks_right(b[k].slot, b[i].slot);
        assert(a[j].visible == b[j].visible);
        assert(a[k].visible == b[k].visible);
        assert(other_visible(a, i, j) && blocks_left(a[j].slot, a[i].slot));
        assert(other_visible(a, i, k) && blocks_right(a[k].slot, a[i].slot));
    }
}

/// Exposure depends on where the tiles are and which are on the board, not
/// on their identities.
proof fn lemma_exposed_layout(a: Seq<Tile>, b: Seq<Tile>, i: int)
    requires
        same_layout(a, b),
        0 <= i < a.len(),
    ensures
        is_exposed(a, i) == is_exposed(b, i),
{
    if is_exposed(a, i) {
        lemma_exposed_one_way(a, b, i);
    }
    if is_exposed(b, i) {
        lemma_exposed_one_way(b, a, i);
    }
}

/// Some order of removal clears the board.
pub open spec fn solvable(tiles: Seq<Tile>) -> bool {
    exists|order: Seq<(usize, usize)>| clears(tiles, order)
}

/// A board as the search sees it: each tile still on the board has no
/// identity yet.
pub open spec fn unassigned(tiles: Seq<Tile>) -> bool {
    forall|i: int| 0 <= i < tiles.len() && (#[trigger] tiles[i]).visible ==> tiles[i].id == 0
}

/// `a` and `b` agree on where the tiles are, which are on the board, and
/// the identities of those on the board.
pub open spec fn same_play(a: Seq<Tile>, b: Seq<Tile>) -> bool {
    &&& same_layout(a, b)
    &&& forall|i: int| 0 <= i < a.len() && (#[trigger] a[i]).visible ==> a[i].id == b[i].id
}

proof fn lemma_match_set_same_play(a: Seq<Tile>, b: Seq<Tile>)
    requires
        same_play(a, b),
    ensures
        match_set(a) == match_set(b),
{
    assert forall|p: (usize, usize)| match_set(a).contains(p) == match_set(b).contains(p) by {
        if 0 <= p.0 < a.len() && 0 <= p.1 < a.len() {
            lemma_exposed_layout(a, b, p.0 as int);
            lemma_exposed_layout(a, b, p.1 as int);
            assert(a[p.0 as int].visible == b[p.0 as int].visible);
            assert(a[p.1 as int].visible == b[p.1 as int].visible);
        }
    }
    assert(match_set(a) =~= match_set(b));
}

/// Whether a board clears depends on where its tiles are, which are on the
/// board, and their identities, not on the identities of removed tiles.
proof fn lemma_clears_same_play(a: Seq<Tile>, b: Seq<Tile>, order: Seq<(usize, usize)>)
    requires
        same_play(a, b),
    ensures
        clears(a, order) == clears(b, order),
    decreases order.len(),
{
    lemma_match_set_same_play(a, b);
    if order.len() == 0 {
        if clears(a, order) {
            assert forall|i: int| 0 <= i < b.len() implies !(#[trigger] b[i]).visible by {
                assert(!a[i].visible);
            }
        }
        if clears(b, order) {
            assert forall|i: int| 0 <= i < a.len() implies !(#[trigger] a[i]).visible by {
                assert(!b[i].visible);
            }
        }
    } else {
        let p = order[0];
        if match_set(a).contains(p) {
            let ra = remove_pair(a, p);
            let rb = remove_pair(b, p);
            assert(same_layout(ra, rb)) by {
                assert forall|i: int| 0 <= i < ra.len() implies (#[trigger] ra[i]).slot == rb[i].slot
                    && ra[i].visible == rb[i].visible by {
                    assert(a[i].slot == b[i].slot && a[i].visible == b[i].visible);
                }
            }
            assert forall|i: int| 0 <= i < ra.len() && (#[trigger] ra[i]).visible implies ra[i].id
                == rb[i].id by {
                assert(a[i].visible);
            }
            lemma_clears_same_play(ra, rb, order.drop_first());
        }
    }
}

/// On a board without identities every removable pair matches, so an
/// order that clears a board laid out alike clears it too.
proof fn lemma_clears_unassigned(a: Seq<Tile>, b: Seq<Tile>, order: Seq<(usize, usize)>)
    requires
        same_layout(a, b),
        unassigned(b),
        clears(a, order),
    ensures
        clears(b, order),
    decreases order.len(),
{
    if order.len() == 0 {
        assert forall|i: int| 0 <= i < b.len() implies !(#[trigger] b[i]).visible by {
            assert(a[i].visible == b[i].visible);
        }
    } else {
        let p = order[0];
        assert(match_set(a).contains(p));
        lemma_exposed_layout(a, b, p.0 as int);
        lemma_exposed_layout(a, b, p.1 as int);
        assert(b[p.0 as int].visible && b[p.1 as int].visible);
        assert(match_set(b).contains(p));
        let ra = remove_pair(a, p);
        let rb = remove_pair(b, p);
        assert(same_layout(ra, rb)) by {
            assert forall|i: int| 0 <= i < ra.len() implies (#[trigger] ra[i]).slot == rb[i].slot
                && ra[i].visible == rb[i].visible by {
                assert(a[i].slot == b[i].slot && a[i].visible == b[i].visible);
            }
        }
        assert forall|i: int| 0 <= i < rb.len() && (#[trigger] rb[i]).visible implies rb[i].id == 0 by {
            assert(b[i].visible);
        }
        lemma_clears_unassigned(ra, rb, order.drop_first());
    }
}

proof fn lemma_visible_count_none(tiles: Seq<Tile>)
    requires
        forall|i: int| 0 <= i < tiles.len() ==> !(#[trigger] tiles[i]).visible,
    ensures
        visible_count(tiles) == 0,
    decreases tiles.len(),
{
    if tiles.len() > 0 {
        assert forall|i: int| 0 <= i < tiles.len() - 1 implies !(#[trigger] tiles.drop_last()[i]).visible by {
            assert(tiles.drop_last()[i] == tiles[i]);
        }
        lemma_visible_count_none(tiles.drop_last());
        assert(!tiles[tiles.len() - 1].visible);
    }
}

/// The outcome of a search step that started from `start` at `depth`, with
/// the board now `fin`.
pub open spec fn search_post(
    start: Seq<Tile>,
    fin: Seq<Tile>,
    pairs: Seq<usize>,
    depth: int,
    r: Option<Vec<Match>>,
) -> bool {
    &&& fin.len() == start.len()
    &&& forall|i: int| 0 <= i < start.len() ==> (#[trigger] fin[i]).slot == start[i].slot
    &&& forall|i: int| 0 <= i < start.len() && !start[i].visible ==> #[trigger] fin[i] == start[i]
    &&& match r {
        Some(order) => {
            &&& order@.len() == pairs.len() - depth
            &&& forall|i: int| 0 <= i < start.len() && start[i].visible ==> !(#[trigger] fin[i]).visible
            &&& clears(with_visibility(fin, start), match_views(order@))
            &&& carries(fin, match_views(order@), pairs.skip(depth))
        },
        None => fin == start && !solvable(start),
    }
}

/// One step of the backward search: at `depth`, pick a removable pair,
/// give it pair value `pairs[depth]`, take it off the board and search on;
/// the candidate pairs are tried in a shuffled order, each from the board
/// this step started from.
/// Gives back the pairs chosen from here on, in the order of removal, or
/// `None`, with the board as it was, once every choice has failed: then no
/// order of removal clears the board.
fn fill_random_ids_impl(
    tiles: &mut Vec<Tile>,
    pairs: &Vec<usize>,
    depth: usize,
    rng: &mut StdRng,
) -> (r: Option<Vec<Match>>)
    requires
        depth <= pairs@.len(),
        forall|k: int| 0 <= k < pairs@.len() ==> #[trigger] pairs@[k] < PAIR_VALUES,
        visible_count(old(tiles)@) == 2 * (pairs@.len() - depth),
        unassigned(old(tiles)@),
    ensures
        search_post(old(tiles)@, final(tiles)@, pairs@, depth as int, r),
    decreases pairs@.len() - depth,
{
    let ghost start = tiles@;
    if depth == pairs.len() {
        proof {
            lemma_visible_count_zero(start);
            let w = with_visibility(tiles@, start);
            assert(match_views(Seq::<Match>::empty()) =~= Seq::<(usize, usize)>::empty());
            assert forall|i: int| 0 <= i < w.len() implies !(#[trigger] w[i]).visible by {
                assert(!start[i].visible);
            }
        }
        return Some(Vec::new());
    }
    let mut matches = find_all_matches(tiles.as_slice());
    let ghost found = matches@;
    shuffle(&mut matches, rng);
    proof {
        broadcast use vstd::seq_lib::group_to_multiset_ensures;
        assert forall|q: int| 0 <= q < matches@.len() implies match_set(start).contains(
            (#[trigger] matches@[q])@,
        ) by {
            assert(matches@.to_multiset().count(matches@[q]) > 0);
            assert(found.contains(matches@[q]));
            let w = choose|w: int| 0 <= w < found.len() && found[w] == matches@[q];
            assert(match_views(found)[w] == matches@[q]@);
            assert(match_views(found).to_set().contains(matches@[q]@));
        }
        assert forall|p: (usize, usize)| match_set(start).contains(p) implies exists|q: int|
            0 <= q < matches@.len() && (#[trigger] matches@[q])@ == p by {
            assert(match_views(found).to_set().contains(p));
            let w = choose|w: int| 0 <= w < found.len() && match_views(found)[w] == p;
            assert(found[w]@ == p);
            assert(found.to_multiset().count(found[w]) > 0);
            assert(matches@.contains(found[w]));
        }
    }
    let n = pairs.len();
    let p = pairs[depth];
    let next = depth + 1;
    let mut k: usize = 0;
    while k < matches.len()
        invariant
            start == old(tiles)@,
            tiles@ == start,
            n == pairs@.len(),
            depth < n,
            next == depth + 1,
            p == pairs@[depth as int],
            forall|q: int| 0 <= q < pairs@.len() ==> #[trigger] pairs@[q] < PAIR_VALUES,
            visible_count(start) == 2 * (pairs@.len() - depth),
            unassigned(start),
            k <= matches@.len(),
            forall|q: int| 0 <= q < matches@.len() ==> match_set(start).contains(
                (#[trigger] matches@[q])@,
            ),
            forall|q: int| 0 <= q < k ==> !solvable(remove_pair(start, (#[trigger] matches@[q])@)),
        decreases matches@.len() - k,
    {
        let m = matches[k];
        assert(match_set(start).contains(matches@[k as int]@));
        let a = m.first();
        let b = m.second();
        let old_a = tiles[a];
        let old_b = tiles[b];
        tiles.set(a, Tile { id: 2 * p, slot: old_a.slot, visible: false });
        tiles.set(b, Tile { id: 2 * p + 1, slot: old_b.slot, visible: false });
        let ghost s1 = tiles@;
        proof {
            lemma_visible_count_update(start, a as int, s1[a as int]);
            lemma_visible_count_update(start.update(a as int, s1[a as int]), b as int, s1[b as int]);
            assert(s1 =~= start.update(a as int, s1[a as int]).update(b as int, s1[b as int]));
        }
        match fill_random_ids_impl(tiles, pairs, next, rng) {
            Some(rest) => {
                let mut order = rest;
                let ghost rest_views = match_views(order@);
                order.insert(0, m);
                proof {
                    let fin = tiles@;
                    let w = with_visibility(fin, start);
                    let views = match_views(order@);
                    assert(views =~= seq![m@] + rest_views);
                    assert(views.drop_first() =~= rest_views);
                    assert(fin[a as int] == s1[a as int]);
                    assert(fin[b as int] == s1[b as int]);
                    // the pair was removable on the board this step started from
                    assert(same_layout(w, start));
                    lemma_exposed_layout(w, start, a as int);
                    lemma_exposed_layout(w, start, b as int);
                    assert(same_group(w[b as int], w[a as int]));
                    assert(match_set(w).contains(views[0]));
                    // taking it off gives the board the rest was found on
                    assert(remove_pair(w, views[0]) =~= with_visibility(fin, s1));
                    assert(clears(w, views));
                    let rest_pairs = pairs@.skip(depth + 1);
                    assert forall|q: int| 0 <= q < views.len() implies {
                        &&& fin[#[trigger] views[q].0 as int].id == 2 * pairs@.skip(depth as int)[q]
                        &&& fin[views[q].1 as int].id == 2 * pairs@.skip(depth as int)[q] + 1
                    } by {
                        if q > 0 {
                            assert(views[q] == rest_views[q - 1]);
                            assert(pairs@.skip(depth as int)[q] == rest_pairs[q - 1]);
                            assert(fin[rest_views[q - 1].0 as int].id == 2 * rest_pairs[q - 1]);
                            assert(fin[rest_views[q - 1].1 as int].id == 2 * rest_pairs[q - 1] + 1);
                        } else {
                            assert(views[0] == m@);
                            assert(m@ == (a, b));
                            assert(pairs@.skip(depth as int)[0] == p);
                            assert(fin[a as int].id == 2 * p);
                            assert(fin[b as int].id == 2 * p + 1);
                        }
                    }
                    assert forall|i: int| 0 <= i < start.len() && !start[i].visible implies #[trigger] fin[i] == start[i] by {
                        assert(s1[i] == start[i]);
                    }
                    assert forall|i: int| 0 <= i < start.len() && start[i].visible implies !(#[trigger] fin[i]).visible by {
                        if i != a && i != b {
                            assert(s1[i] == start[i]);
                        }
                    }
                }
                return Some(order);
            },
            None => {},
        }
        proof {
            // the board this pair leads to does not clear, whatever identities
            // the removed pair carries
            let removed = remove_pair(start, m@);
            assert(same_play(s1, removed)) by {
                assert forall|i: int| 0 <= i < s1.len() implies (#[trigger] s1[i]).slot == removed[i].slot
                    && s1[i].visible == removed[i].visible by {}
                assert forall|i: int| 0 <= i < s1.len() && (#[trigger] s1[i]).visible implies s1[i].id
                    == removed[i].id by {}
            }
            assert forall|order: Seq<(usize, usize)>| !clears(removed, order) by {
                lemma_clears_same_play(s1, removed, order);
            }
        }
        tiles.set(a, old_a);
        tiles.set(b, old_b);
        proof {
            assert(tiles@ =~= start);
        }
        k += 1;
    }
    proof {
        lemma_no_solution_from_candidates(start, matches@, pairs@.len() - depth);
    }
    None
}

/// A board with tiles on it, none of whose removable pairs leads to a board
/// that clears, does not clear.
proof fn lemma_no_solution_from_candidates(start: Seq<Tile>, matches: Seq<Match>, left: int)
    requires
        left > 0,
        visible_count(start) == 2 * left,
        forall|p: (usize, usize)| match_set(start).contains(p) ==> exists|q: int|
            0 <= q < matches.len() && (#[trigger] matches[q])@ == p,
        forall|q: int| 0 <= q < matches.len() ==> !solvable(remove_pair(start, (#[trigger] matches[q])@)),
    ensures
        !solvable(start),
{
    if solvable(start) {
        let order = choose|order: Seq<(usize, usize)>| clears(start, order);
        if order.len() == 0 {
            lemma_visible_count_none(start);
        } else {
            let q = choose|q: int| 0 <= q < matches.len() && (#[trigger] matches[q])@ == order[0];
            assert(clears(remove_pair(start, matches[q]@), order.drop_first()));
            assert(solvable(remove_pair(start, matches[q]@)));
        }
    }
}

/// Every pair of an order that clears a board names two tiles of it.
pub proof fn lemma_clears_in_bounds(tiles: Seq<Tile>, order: Seq<(usize, usize)>)
    requires
        clears(tiles, order),
    ensures
        forall|k: int|
            0 <= k < order.len() ==> #[trigger] order[k].0 < order[k].1 && order[k].1 < tiles.len(),
    decreases order.len(),
{
    if order.len() > 0 {
        lemma_clears_in_bounds(remove_pair(tiles, order[0]), order.drop_first());
        assert forall|k: int| 0 <= k < order.len() implies #[trigger] order[k].0 < order[k].1
            && order[k].1 < tiles.len() by {
            if k > 0 {
                assert(order[k] == order.drop_first()[k - 1]);
            }
        }
    }
}

proof fn lemma_visible_count_all(tiles: Seq<Tile>)
    requires
        forall|i: int| 0 <= i < tiles.len() ==> (#[trigger] tiles[i]).visible,
    ensures
        visible_count(tiles) == tiles.len(),
    decreases tiles.len(),
{
    if tiles.len() > 0 {
        assert forall|i: int| 0 <= i < tiles.len() - 1 implies (#[trigger] tiles.drop_last()[i]).visible by {
            assert(tiles.drop_last()[i] == tiles[i]);
        }
        lemma_visible_count_all(tiles.drop_last());
        assert(tiles[tiles.len() - 1].visible);
    }
}

/// The list of pair values for `count` pairs: the values `0..PAIR_VALUES`
/// in a fresh random order, again and again, cut to `count`. Within each
/// run of `PAIR_VALUES` entries no value repeats.
pub fn random_pairs(count: usize, rng: &mut StdRng) -> (r: Vec<usize>)
    ensures
        r@.len() == count,
        forall|i: int| 0 <= i < r@.len() ==> #[trigger] r@[i] < PAIR_VALUES,
        forall|i: int, j: int|
            0 <= i < j < r@.len() && i / (PAIR_VALUES as int) == j / (PAIR_VALUES as int) ==> #[trigger] r@[i]
                != #[trigger] r@[j],
{
    let mut pairs: Vec<usize> = Vec::new();
    assert(PAIR_VALUES == 72);
    assert(pairs@.len() == 0);
    assert(0int % 72int == 0) by (nonlinear_arith);
    while pairs.len() < count
        invariant
            pairs@.len() <= count,
            pairs@.len() as int % (PAIR_VALUES as int) == 0 || pairs@.len() == count,
            forall|i: int| 0 <= i < pairs@.len() ==> #[trigger] pairs@[i] < PAIR_VALUES,
            forall|i: int, j: int|
                0 <= i < j < pairs@.len() && i / (PAIR_VALUES as int) == j / (PAIR_VALUES as int) ==> #[trigger] pairs@[i]
                    != #[trigger] pairs@[j],
        decreases count - pairs@.len(),
    {
        let mut cycle: Vec<usize> = Vec::new();
        let mut v: usize = 0;
        while v < PAIR_VALUES
            invariant
                v <= PAIR_VALUES,
                cycle@.len() == v,
                forall|q: int| 0 <= q < v ==> #[trigger] cycle@[q] == q,
            decreases PAIR_VALUES - v,
        {
            cycle.push(v);
            v += 1;
        }
        let ghost ordered = cycle@;
        shuffle(&mut cycle, rng);
        proof {
            broadcast use vstd::seq_lib::group_to_multiset_ensures;
            assert(ordered.no_duplicates());
            ordered.lemma_multiset_has_no_duplicates();
            cycle@.lemma_multiset_has_no_duplicates_conv();
            assert forall|q: int| 0 <= q < cycle@.len() implies #[trigger] cycle@[q] < PAIR_VALUES by {
                assert(cycle@.to_multiset().count(cycle@[q]) > 0);
                assert(ordered.contains(cycle@[q]));
            }
        }
        let ghost prefix = pairs@;
        let base = pairs.len();
        let mut k: usize = 0;
        while k < cycle.len() && pairs.len() < count
            invariant
                base == prefix.len(),
                base as int % (PAIR_VALUES as int) == 0,
                base < count,
                cycle@.len() == PAIR_VALUES,
                cycle@.no_duplicates(),
                forall|q: int| 0 <= q < cycle@.len() ==> #[trigger] cycle@[q] < PAIR_VALUES,
                k <= cycle@.len(),
                pairs@.len() == base + k,
                pairs@.len() <= count,
                pairs@.subrange(0, base as int) == prefix,
                forall|q: int| 0 <= q < k ==> #[trigger] pairs@[base + q] == cycle@[q],
                forall|i: int| 0 <= i < prefix.len() ==> #[trigger] prefix[i] < PAIR_VALUES,
                forall|i: int, j: int|
                    0 <= i < j < prefix.len() && i / (PAIR_VALUES as int) == j / (PAIR_VALUES as int) ==> #[trigger] prefix[i]
                        != #[trigger] prefix[j],
            decreases cycle@.len() - k,
        {
            pairs.push(cycle[k]);
            k += 1;
            proof {
                assert(pairs@.subrange(0, base as int) =~= prefix);
                assert(pairs@[base + k - 1] == cycle@[k - 1]);
            }
        }
        proof {
            assert forall|i: int| 0 <= i < pairs@.len() implies #[trigger] pairs@[i] < PAIR_VALUES by {
                if i < base {
                    assert(pairs@[i] == pairs@.subrange(0, base as int)[i]);
                } else {
                    assert(pairs@[base + (i - base)] == cycle@[i - base]);
                }
            }
            assert forall|i: int, j: int|
                0 <= i < j < pairs@.len() && i / (PAIR_VALUES as int) == j / (PAIR_VALUES as int) implies #[trigger] pairs@[i]
                    != #[trigger] pairs@[j] by {
                if j < base {
                    assert(pairs@[i] == pairs@.subrange(0, base as int)[i]);
                    assert(pairs@[j] == pairs@.subrange(0, base as int)[j]);
                } else if i < base {
                    assert(false);
                } else {
                    assert(pairs@[base + (i - base)] == cycle@[i - base]);
                    assert(pairs@[base + (j - base)] == cycle@[j - base]);
                }
            }
        }
    }
    pairs
}

/// The identities along `order` come in sibling pairs `2 * p`, `2 * p + 1`
/// of a full set, and within each run of `PAIR_VALUES` removals no pair
/// value is used twice.
pub open spec fn sibling_ids(tiles: Seq<Tile>, order: Seq<(usize, usize)>) -> bool {
    &&& forall|k: int|
        0 <= k < order.len() ==> {
            &&& tiles[#[trigger] order[k].0 as int].id % 2 == 0
            &&& tiles[order[k].1 as int].id == tiles[order[k].0 as int].id + 1
            &&& tiles[order[k].1 as int].id < TILE_SET_SIZE
        }
    &&& forall|k1: int, k2: int|
        0 <= k1 < k2 < order.len() && k1 / (PAIR_VALUES as int) == k2 / (PAIR_VALUES as int)
            ==> tiles[#[trigger] order[k1].0 as int].id != tiles[#[trigger] order[k2].0 as int].id
}

/// Gives every tile an identity such that the board can be cleared, and
/// returns an order of removal that clears it. A board with an odd number
/// of tiles is refused before anything else, whatever it holds; any other
/// board must be fresh: every tile on it, none with an identity yet. The
/// search tries every order of removal, so it fails only where no order
/// clears the board; then the board is left as it was. On success every
/// tile is on the board again.
pub fn fill_random_ids(tiles: &mut Vec<Tile>, rng: &mut StdRng) -> (r: Result<
    Vec<Match>,
    GenerateError,
>)
    requires
        old(tiles)@.len() % 2 == 0 ==> forall|i: int|
            0 <= i < old(tiles)@.len() ==> (#[trigger] old(tiles)@[i]).visible,
        old(tiles)@.len() % 2 == 0 ==> unassigned(old(tiles)@),
    ensures
        r is Ok <==> old(tiles)@.len() % 2 == 0 && solvable(old(tiles)@),
        final(tiles)@.len() == old(tiles)@.len(),
        forall|i: int|
            0 <= i < old(tiles)@.len() ==> (#[trigger] final(tiles)@[i]).slot == old(tiles)@[i].slot,
        old(tiles)@.len() % 2 == 0 ==> forall|i: int|
            0 <= i < old(tiles)@.len() ==> (#[trigger] final(tiles)@[i]).visible,
        old(tiles)@.len() % 2 == 1 <==> r == Err::<Vec<Match>, GenerateError>(
            GenerateError::OddTileCount,
        ),
        old(tiles)@.len() % 2 == 1 ==> final(tiles)@ == old(tiles)@,
        match r {
            Ok(order) => {
                &&& order@.len() == old(tiles)@.len() / 2
                &&& clears(final(tiles)@, match_views(order@))
                &&& sibling_ids(final(tiles)@, match_views(order@))
            },
            Err(GenerateError::NoSolvableConfiguration) => final(tiles)@ == old(tiles)@,
            Err(GenerateError::OddTileCount) => true,
        },
{
    if tiles.len() % 2 != 0 {
        return Err(GenerateError::OddTileCount);
    }
    let ghost start = tiles@;
    let pairs = random_pairs(tiles.len() / 2, rng);
    proof {
        lemma_visible_count_all(start);
    }
    let found = fill_random_ids_impl(tiles, &pairs, 0, rng);
    let ghost fin = tiles@;
    let mut i: usize = 0;
    while i < tiles.len()
        invariant
            tiles@.len() == fin.len(),
            i <= fin.len(),
            forall|j: int| 0 <= j < i ==> #[trigger] tiles@[j] == (Tile { visible: true, ..fin[j] }),
            forall|j: int| i <= j < fin.len() ==> #[trigger] tiles@[j] == fin[j],
        decreases fin.len() - i,
    {
        let t = tiles[i];
        tiles.set(i, Tile { visible: true, ..t });
        i += 1;
    }
    proof {
        assert(tiles@ =~= with_visibility(fin, start));
        if found is None {
            assert(tiles@ =~= start);
        }
    }
    match found {
        Some(order) => {
            proof {
                let views = match_views(order@);
                assert(pairs@.skip(0) =~= pairs@);
                lemma_clears_in_bounds(tiles@, views);
                assert forall|k: int| 0 <= k < views.len() implies {
                    &&& tiles@[#[trigger] views[k].0 as int].id % 2 == 0
                    &&& tiles@[views[k].1 as int].id == tiles@[views[k].0 as int].id + 1
                    &&& tiles@[views[k].1 as int].id < TILE_SET_SIZE
                } by {
                    assert(tiles@[views[k].0 as int].id == fin[views[k].0 as int].id);
                    assert(tiles@[views[k].1 as int].id == fin[views[k].1 as int].id);
                    assert(fin[views[k].0 as int].id == 2 * pairs@[k]);
                    assert(fin[views[k].1 as int].id == 2 * pairs@[k] + 1);
                    assert(pairs@[k] < PAIR_VALUES);
                }
                assert forall|k1: int, k2: int|
                    0 <= k1 < k2 < views.len() && k1 / (PAIR_VALUES as int) == k2 / (PAIR_VALUES as int)
                        implies tiles@[#[trigger] views[k1].0 as int].id != tiles@[#[trigger] views[k2].0 as int].id by {
                    assert(tiles@[views[k1].0 as int].id == fin[views[k1].0 as int].id);
                    assert(tiles@[views[k2].0 as int].id == fin[views[k2].0 as int].id);
                    assert(fin[views[k1].0 as int].id == 2 * pairs@[k1]);
                    assert(fin[views[k2].0 as int].id == 2 * pairs@[k2]);
                    assert(pairs@[k1] != pairs@[k2]);
                }
                lemma_clears_unassigned(tiles@, start, views);
            }
            Ok(order)
        },
        None => Err(GenerateError::NoSolvableConfiguration),
    }
}

/// The board after the first `k` pairs of `order` are taken off.
pub open spec fn replay(tiles: Seq<Tile>, order: Seq<(usize, usize)>, k: nat) -> Seq<Tile>
    decreases k,
{
    if k == 0 || k > order.len() {
        tiles
    } else {
        remove_pair(replay(tiles, order, (k - 1) as nat), order[k - 1])
    }
}

proof fn lemma_replay_shift(tiles: Seq<Tile>, order: Seq<(usize, usize)>, k: nat)
    requires
        0 < order.len(),
        k < order.len(),
    ensures
        replay(tiles, order, k + 1) == replay(
            remove_pair(tiles, order[0]),
            order.drop_first(),
            k,
        ),
    decreases k,
{
    let next = remove_pair(tiles, order[0]);
    let rest = order.drop_first();
    if k > 0 {
        lemma_replay_shift(tiles, order, (k - 1) as nat);
        assert(rest[k - 1] == order[k as int]);
        assert(replay(tiles, order, k + 1) == remove_pair(replay(tiles, order, k), order[k as int]));
        assert(replay(next, rest, k) == remove_pair(replay(next, rest, (k - 1) as nat), rest[k - 1]));
    } else {
        assert(replay(tiles, order, 0) == tiles);
        assert(replay(tiles, order, 1) == remove_pair(replay(tiles, order, 0), order[0]));
        assert(replay(next, rest, 0) == next);
    }
}

/// A board that `clears` (as every board the generator returns does, with
/// the order it returns) is emptied by replaying that order: at each turn
/// the next pair is one of the removable matches of the board as it then
/// stands, the set that `find_all_matches` lists, and after the last turn
/// no tile is left on the board.
pub proof fn lemma_replay_clears(tiles: Seq<Tile>, order: Seq<(usize, usize)>)
    requires
        clears(tiles, order),
    ensures
        forall|k: int|
            0 <= k < order.len() ==> match_set(#[trigger] replay(tiles, order, k as nat)).contains(
                order[k],
            ),
        forall|i: int|
            0 <= i < tiles.len() ==> !(#[trigger] replay(tiles, order, order.len())[i]).visible,
    decreases order.len(),
{
    if order.len() == 0 {
        assert(replay(tiles, order, 0) == tiles);
    } else {
        let rest = order.drop_first();
        let next = remove_pair(tiles, order[0]);
        lemma_replay_clears(next, rest);
        assert forall|k: int| 0 <= k < order.len() implies match_set(
            #[trigger] replay(tiles, order, k as nat),
        ).contains(order[k]) by {
            if k > 0 {
                lemma_replay_shift(tiles, order, (k - 1) as nat);
                assert(rest[k - 1] == order[k]);
            }
        }
        lemma_replay_shift(tiles, order, (order.len() - 1) as nat);
        assert(next.len() == tiles.len());
    }
}

} // verus!
