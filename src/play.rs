//! A game in progress: the board, the tile the player has picked, and the
//! pairs removed so far, which a step back puts again on the board.

use crate::game::{is_exposed, same_group, tile_is_exposed, Tile};
use vstd::prelude::*;

verus! {

pub struct GameState {
    pub tiles: Vec<Tile>,
    /// The first tile of a pair the player is choosing.
    pub selected: Option<usize>,
    /// The pairs removed, first removed first, each as (first pick, second pick).
    pub history: Vec<(usize, usize)>,
}

impl GameState {
    /// Every index the state holds names a tile, and the picked tile is on
    /// the board.
    pub open spec fn wf(&self) -> bool {
        &&& self.selected matches Some(s) ==> s < self.tiles@.len() && self.tiles@[s as int].visible
        &&& forall|k: int|
            0 <= k < self.history@.len() ==> (#[trigger] self.history@[k]).0 < self.tiles@.len()
                && self.history@[k].1 < self.tiles@.len()
    }

    /// `self` and `other` hold the same board, pick and history.
    pub open spec fn same_as(&self, other: &GameState) -> bool {
        &&& self.tiles@ == other.tiles@
        &&& self.selected == other.selected
        &&& self.history@ == other.history@
    }

    pub fn new(tiles: Vec<Tile>) -> (r: GameState)
        ensures
            r.wf(),
            r.tiles@ == tiles@,
            r.selected.is_none(),
            r.history@.len() == 0,
    {
        GameState { tiles, selected: None, history: Vec::new() }
    }

    /// The player clicks on tile `pointed`, or beside every tile (`None`).
    /// A click on a tile that cannot be removed does nothing; a first click
    /// picks the tile; a click on the picked tile drops it; a click on a tile
    /// that matches the picked one removes both; any other click picks the
    /// new tile instead.
    pub fn on_left_click(&mut self, pointed: Option<usize>)
        requires
            old(self).wf(),
            pointed matches Some(p) ==> p < old(self).tiles@.len(),
        ensures
            final(self).wf(),
            final(self).tiles@.len() == old(self).tiles@.len(),
            match pointed {
                None => final(self).same_as(old(self)),
                Some(p) => {
                    if !is_exposed(old(self).tiles@, p as int) {
                        final(self).same_as(old(self))
                    } else {
                        match old(self).selected {
                            None => {
                                &&& final(self).selected == Some(p)
                                &&& final(self).tiles@ == old(self).tiles@
                                &&& final(self).history@ == old(self).history@
                            },
                            Some(prev) => if prev == p {
                                &&& final(self).selected.is_none()
                                &&& final(self).tiles@ == old(self).tiles@
                                &&& final(self).history@ == old(self).history@
                            } else if same_group(old(self).tiles@[p as int], old(self).tiles@[prev as int]) {
                                &&& final(self).selected.is_none()
                                &&& final(self).tiles@ == take_off(old(self).tiles@, prev, p)
                                &&& final(self).history@ == old(self).history@.push((prev, p))
                            } else {
                                &&& final(self).selected == Some(p)
                                &&& final(self).tiles@ == old(self).tiles@
                                &&& final(self).history@ == old(self).history@
                            },
                        }
                    }
                },
            },
    {
        let pointed = match pointed {
            Some(p) => p,
            None => return ,
        };
        if !tile_is_exposed(pointed, self.tiles.as_slice()) {
            return ;
        }
        let prev = match self.selected {
            Some(prev) => prev,
            None => {
                self.selected = Some(pointed);
                return ;
            },
        };
        if pointed == prev {
            self.selected = None;
            return ;
        }
        if self.tiles[pointed].matches(&self.tiles[prev]) {
            let t = self.tiles[prev];
            self.tiles.set(prev, Tile { visible: false, ..t });
            let u = self.tiles[pointed];
            self.tiles.set(pointed, Tile { visible: false, ..u });
            self.history.push((prev, pointed));
            self.selected = None;
            proof {
                assert forall|k: int| 0 <= k < self.history@.len() implies (#[trigger] self.history@[k]).0
                    < self.tiles@.len() && self.history@[k].1 < self.tiles@.len() by {
                    if k < self.history@.len() - 1 {
                        assert(self.history@[k] == old(self).history@[k]);
                    }
                }
            }
            return ;
        }
        self.selected = Some(pointed);
    }

    /// A step back: the last pair removed goes back on the board and the pick
    /// is dropped. With nothing removed, nothing changes.
    pub fn on_right_click(&mut self)
        requires
            old(self).wf(),
        ensures
            final(self).wf(),
            final(self).tiles@.len() == old(self).tiles@.len(),
            if old(self).history@.len() == 0 {
                final(self).same_as(old(self))
            } else {
                let last = old(self).history@.last();
                &&& final(self).selected.is_none()
                &&& final(self).history@ == old(self).history@.drop_last()
                &&& final(self).tiles@ == put_back(old(self).tiles@, last.0, last.1)
            },
    {
        if let Some(last) = self.history.pop() {
            let t = self.tiles[last.0];
            self.tiles.set(last.0, Tile { visible: true, ..t });
            let u = self.tiles[last.1];
            self.tiles.set(last.1, Tile { visible: true, ..u });
            self.selected = None;
            proof {
                assert forall|k: int| 0 <= k < self.history@.len() implies (#[trigger] self.history@[k]).0
                    < self.tiles@.len() && self.history@[k].1 < self.tiles@.len() by {
                    assert(self.history@[k] == old(self).history@[k]);
                }
            }
        }
    }
}

/// `tiles` with tiles `a` and `b` taken off the board.
pub open spec fn take_off(tiles: Seq<Tile>, a: usize, b: usize) -> Seq<Tile> {
    tiles.update(a as int, Tile { visible: false, ..tiles[a as int] }).update(
        b as int,
        Tile { visible: false, ..tiles[b as int] },
    )
}

/// `tiles` with tiles `a` and `b` put back on the board.
pub open spec fn put_back(tiles: Seq<Tile>, a: usize, b: usize) -> Seq<Tile> {
    tiles.update(a as int, Tile { visible: true, ..tiles[a as int] }).update(
        b as int,
        Tile { visible: true, ..tiles[b as int] },
    )
}

/// A step back after a removal gives back the board as it was: the left
/// click that removes two tiles (both on the board) takes them off, and the
/// right click puts the same two back.
pub proof fn lemma_undo_restores(tiles: Seq<Tile>, a: usize, b: usize)
    requires
        a < tiles.len(),
        b < tiles.len(),
        tiles[a as int].visible,
        tiles[b as int].visible,
    ensures
        put_back(take_off(tiles, a, b), a, b) == tiles,
{
    assert(put_back(take_off(tiles, a, b), a, b) =~= tiles);
}

} // verus!
