//! The visibility engine: an 8-octant expanding scan seeded at the
//! player's cell. Each octant runs an independent flood that marks the
//! current cell Visible, stops at walls and at doors with no occupant,
//! and otherwise enqueues one step along the primary axis and one
//! further step along the secondary axis, each cell at most once. A
//! refresh never downgrades knowledge to Unknown; with `clear` it first
//! turns every Visible cell into a Remembered one. Without a placed
//! player the whole refresh is a no-op.

use crate::entity::PLAYER;
use crate::grid::{Direction, Position, Square, Tile, Visibility, MAP_HEIGHT, MAP_WIDTH};
use crate::level::{same_misc, Level};
use vstd::prelude::*;

verus! {

/// How many entries of the sequence are true.
spec fn count_true(s: Seq<bool>) -> nat
    decreases s.len(),
{
    if s.len() == 0 {
        0
    } else {
        count_true(s.drop_last()) + if s.last() {
            1nat
        } else {
            0nat
        }
    }
}

proof fn lemma_count_true_le_len(s: Seq<bool>)
    ensures
        count_true(s) <= s.len(),
    decreases s.len(),
{
    if s.len() > 0 {
        lemma_count_true_le_len(s.drop_last());
    }
}

proof fn lemma_count_true_update(s: Seq<bool>, i: int, b: bool)
    requires
        0 <= i < s.len(),
    ensures
        count_true(s.update(i, b)) + if s[i] {
            1nat
        } else {
            0nat
        } == count_true(s) + if b {
            1nat
        } else {
            0nat
        },
    decreases s.len(),
{
    if i == s.len() - 1 {
        assert(s.update(i, b).drop_last() =~= s.drop_last());
        assert(s.update(i, b).last() == b);
    } else {
        assert(s.update(i, b).drop_last() =~= s.drop_last().update(i, b));
        assert(s.update(i, b).last() == s.last());
        lemma_count_true_update(s.drop_last(), i, b);
    }
}

/// The two axes are orthogonal: one vertical, one horizontal.
pub open spec fn orthogonal(p: Direction, s: Direction) -> bool {
    ((p == Direction::Up || p == Direction::Down) && (s == Direction::Left || s
        == Direction::Right)) || ((p == Direction::Left || p == Direction::Right) && (s
        == Direction::Up || s == Direction::Down))
}

/// The primary and secondary axis of each of the 8 octants.
fn octant_dirs(i: usize) -> (r: (Direction, Direction))
    requires
        i < 8,
    ensures
        orthogonal(r.0, r.1),
{
    match i {
        0 => (Direction::Up, Direction::Left),
        1 => (Direction::Up, Direction::Right),
        2 => (Direction::Down, Direction::Left),
        3 => (Direction::Down, Direction::Right),
        4 => (Direction::Left, Direction::Up),
        5 => (Direction::Left, Direction::Down),
        6 => (Direction::Right, Direction::Up),
        7 => (Direction::Right, Direction::Down),
        _ => (Direction::Up, Direction::Left),
    }
}

/// From an interior cell, one primary step and one further diagonal
/// step along an orthogonal secondary axis both stay on the grid.
proof fn lemma_octant_step_in_bounds(pos: Position, p: Direction, s: Direction)
    requires
        pos.interior(),
        orthogonal(p, s),
    ensures
        pos.spec_step(p).in_bounds(),
        pos.spec_step(p).spec_step(s).in_bounds(),
{
    let fwd = pos.spec_step(p);
    let diag = fwd.spec_step(s);
    if p == Direction::Up || p == Direction::Down {
        assert(fwd.x == pos.x && (fwd.y == pos.y - 1 || fwd.y == pos.y + 1));
        assert(diag.y == fwd.y && (diag.x == pos.x - 1 || diag.x == pos.x + 1));
    } else {
        assert(fwd.y == pos.y && (fwd.x == pos.x - 1 || fwd.x == pos.x + 1));
        assert(diag.x == fwd.x && (diag.y == pos.y - 1 || diag.y == pos.y + 1));
    }
}


/// The expanding scan continues through `p`: it is not a wall, and not
/// a door with nothing standing in it.
pub open spec fn passes(g: crate::grid::Grid, p: Position) -> bool {
    !(g.at(p).tile == Tile::Wall || (g.at(p).tile == Tile::Door && g.at(p).entity is None))
}

/// A valid expansion trace of one octant: it starts at the origin, the
/// scan passes through every cell but the last, and each step moves one
/// cell along the primary axis, or that and one more along the
/// secondary axis.
pub open spec fn octant_path(
    g: crate::grid::Grid,
    origin: Position,
    p: Direction,
    s: Direction,
    path: Seq<Position>,
) -> bool {
    &&& path.len() >= 1
    &&& path[0] == origin
    &&& forall|k: int|
        0 <= k < path.len() - 1 ==> passes(g, #[trigger] path[k]) && (path[k + 1]
            == path[k].spec_step(p) || path[k + 1] == path[k].spec_step(p).spec_step(s))
}

/// The octant expansion seeded at `origin` can reach `c` without
/// crossing a wall or an unoccupied door.
pub open spec fn octant_reachable(
    g: crate::grid::Grid,
    origin: Position,
    p: Direction,
    s: Direction,
    c: Position,
) -> bool {
    exists|path: Seq<Position>|
        octant_path(g, origin, p, s, path) && path.last() == c
}

/// A reachable pass-through cell reaches its primary and diagonal
/// successors.
proof fn lemma_reach_extend(
    g: crate::grid::Grid,
    origin: Position,
    p: Direction,
    s: Direction,
    pos: Position,
    nxt: Position,
)
    requires
        octant_reachable(g, origin, p, s, pos),
        passes(g, pos),
        nxt == pos.spec_step(p) || nxt == pos.spec_step(p).spec_step(s),
    ensures
        octant_reachable(g, origin, p, s, nxt),
{
    let path = choose|path: Seq<Position>|
        octant_path(g, origin, p, s, path) && path.last() == pos;
    let path2 = path.push(nxt);
    assert(octant_path(g, origin, p, s, path2)) by {
        assert forall|k: int| 0 <= k < path2.len() - 1 implies passes(g, #[trigger] path2[k]) && (
        path2[k + 1] == path2[k].spec_step(p) || path2[k + 1] == path2[k].spec_step(p).spec_step(
            s,
        )) by {
            if k < path.len() - 1 {
                assert(path2[k] == path[k]);
                assert(path2[k + 1] == path[k + 1]);
            } else {
                assert(k == path.len() - 1);
                assert(path2[k] == path.last());
                assert(path2[k + 1] == nxt);
            }
        }
    }
    assert(path2.last() == nxt);
}

/// The origin reaches itself.
proof fn lemma_reach_origin(g: crate::grid::Grid, origin: Position, p: Direction, s: Direction)
    ensures
        octant_reachable(g, origin, p, s, origin),
{
    let path = seq![origin];
    assert(octant_path(g, origin, p, s, path));
    assert(path.last() == origin);
}


/// What the clearing pass leaves of a cell's knowledge: Visible drops
/// to Remembered, everything else stands.
pub open spec fn cleared_vis(v: Visibility) -> Visibility {
    if v == Visibility::Visible {
        Visibility::Remembered
    } else {
        v
    }
}

/// The exact per-cell knowledge transitions of one refresh: an Unknown
/// cell stays Unknown or is seen; a Remembered cell stays Remembered or
/// is seen; a Visible cell stays Visible, except that with `clear` it
/// may fall back to Remembered. A cell never reverts to Unknown and
/// never becomes Remembered without first having been seen.
pub open spec fn vision_transition(pre: Level, post: Level, clear: bool) -> bool {
    forall|x: int, y: int|
        0 <= x < MAP_WIDTH as int && 0 <= y < MAP_HEIGHT as int ==> {
            let v0 = (#[trigger] pre.grid.cell(x, y)).visibility;
            let v1 = post.grid.cell(x, y).visibility;
            match v0 {
                Visibility::Unknown => v1 == Visibility::Unknown || v1 == Visibility::Visible,
                Visibility::Remembered => v1 == Visibility::Remembered || v1
                    == Visibility::Visible,
                Visibility::Visible => v1 == Visibility::Visible || (clear && v1
                    == Visibility::Remembered),
            }
        }
}

/// Every cell Visible in `post` was already Visible before the refresh
/// (possible only without clearing) or is reachable from the player's
/// cell by the expansion of one of the octants.
pub open spec fn visibility_sound(pre: Level, post: Level, clear: bool) -> bool {
    pre.pos_of(PLAYER as int) is Some ==> forall|x: int, y: int|
        0 <= x < MAP_WIDTH as int && 0 <= y < MAP_HEIGHT as int && (#[trigger] post.grid.cell(
            x,
            y,
        )).visibility == Visibility::Visible && !(pre.grid.cell(x, y).visibility
            == Visibility::Visible && !clear) ==> exists|p: Direction, s: Direction|
            orthogonal(p, s) && octant_reachable(
                pre.grid,
                pre.pos_of(PLAYER as int).unwrap(),
                p,
                s,
                Position { x: x as i32, y: y as i32 },
            )
}

/// Between `pre` and `post` only per-cell visibility changed, and no
/// cell's knowledge fell back to Unknown.
pub open spec fn vision_rel(pre: Level, post: Level) -> bool {
    &&& post.entities == pre.entities
    &&& post.rng == pre.rng
    &&& same_misc(pre, post)
    &&& forall|x: int, y: int|
        0 <= x < MAP_WIDTH as int && 0 <= y < MAP_HEIGHT as int ==> (#[trigger] post.grid.cell(
            x,
            y,
        )).tile == pre.grid.cell(x, y).tile && post.grid.cell(x, y).entity == pre.grid.cell(
            x,
            y,
        ).entity
    &&& forall|x: int, y: int|
        0 <= x < MAP_WIDTH as int && 0 <= y < MAP_HEIGHT as int && (#[trigger] pre.grid.cell(
            x,
            y,
        )).visibility != Visibility::Unknown ==> post.grid.cell(x, y).visibility
            != Visibility::Unknown
}

impl Level {
    /// Recompute what the player currently sees. With `clear`, every
    /// Visible cell is first downgraded to Remembered. A Remembered
    /// cell never reverts to Unknown, an Unknown cell never turns
    /// Remembered without being seen, and every cell newly marked
    /// Visible is reachable from the player's cell by one octant's
    /// expansion. Without a placed player the whole operation is a
    /// no-op. Consumes no randomness: sight is a pure function of grid
    /// and player position.
    #[verifier::rlimit(50)]
    pub fn update_visibility(&mut self, clear: bool)
        requires
            old(self).wf(),
        ensures
            final(self).wf(),
            vision_rel(*old(self), *final(self)),
            vision_transition(*old(self), *final(self), clear),
            visibility_sound(*old(self), *final(self), clear),
            old(self).pos_of(PLAYER as int) is None ==> *final(self) == *old(self),
            old(self).pos_of(PLAYER as int) matches Some(pp) ==> final(self).grid.at(
                pp,
            ).visibility == Visibility::Visible,
    {
        let ppos = match self.get_pos(PLAYER) {
            None => {
                return ;
            },
            Some(p) => p,
        };
        proof {
            assert(ppos.in_bounds()) by {
                reveal(Level::positions_coherent);
                assert(self.entities@[PLAYER as int] is Some);
            }
        }
        if clear {
            let mut y: usize = 0;
            while y < MAP_HEIGHT
                invariant
                    self.wf(),
                    y <= MAP_HEIGHT,
                    self.entities == old(self).entities,
                    self.rng == old(self).rng,
                    same_misc(*old(self), *self),
                    forall|x2: int, y2: int|
                        0 <= x2 < MAP_WIDTH as int && 0 <= y2 < y as int ==> #[trigger] self.grid.cell(
                            x2,
                            y2,
                        ) == (Square {
                            tile: old(self).grid.cell(x2, y2).tile,
                            entity: old(self).grid.cell(x2, y2).entity,
                            visibility: cleared_vis(old(self).grid.cell(x2, y2).visibility),
                        }),
                    forall|x2: int, y2: int|
                        0 <= x2 < MAP_WIDTH as int && y as int <= y2 < MAP_HEIGHT as int
                            ==> #[trigger] self.grid.cell(x2, y2) == old(self).grid.cell(x2, y2),
                decreases MAP_HEIGHT - y,
            {
                let mut x: usize = 0;
                while x < MAP_WIDTH
                    invariant
                        self.wf(),
                        y < MAP_HEIGHT,
                        x <= MAP_WIDTH,
                        self.entities == old(self).entities,
                        self.rng == old(self).rng,
                        same_misc(*old(self), *self),
                        forall|x2: int, y2: int|
                            0 <= x2 < MAP_WIDTH as int && 0 <= y2 < y as int
                                ==> #[trigger] self.grid.cell(x2, y2) == (Square {
                                tile: old(self).grid.cell(x2, y2).tile,
                                entity: old(self).grid.cell(x2, y2).entity,
                                visibility: cleared_vis(old(self).grid.cell(x2, y2).visibility),
                            }),
                        forall|x2: int|
                            0 <= x2 < x as int ==> #[trigger] self.grid.cell(x2, y as int) == (
                            Square {
                                tile: old(self).grid.cell(x2, y as int).tile,
                                entity: old(self).grid.cell(x2, y as int).entity,
                                visibility: cleared_vis(
                                    old(self).grid.cell(x2, y as int).visibility,
                                ),
                            }),
                        forall|x2: int, y2: int|
                            0 <= x2 < MAP_WIDTH as int && y as int <= y2 < MAP_HEIGHT as int && !(
                            y2 == y as int && x2 < x as int) ==> #[trigger] self.grid.cell(x2, y2)
                                == old(self).grid.cell(x2, y2),
                    decreases MAP_WIDTH - x,
                {
                    let p = Position { x: x as i32, y: y as i32 };
                    let sq = self.get_sq(p);
                    if sq.visibility == Visibility::Visible {
                        self.set_visibility(p, Visibility::Remembered);
                    }
                    x = x + 1;
                }
                y = y + 1;
            }
        }
        proof {
            assert(old(self).pos_of(PLAYER as int) == Some(ppos));
            if !clear {
                assert(*self == *old(self));
            }
            assert(vision_rel(*old(self), *self));
            assert(vision_transition(*old(self), *self, clear));
            assert(visibility_sound(*old(self), *self, clear)) by {
                if clear {
                    assert forall|x: int, y: int|
                        0 <= x < MAP_WIDTH as int && 0 <= y < MAP_HEIGHT as int implies (
                    #[trigger] self.grid.cell(x, y)).visibility != Visibility::Visible by {
                        assert(self.grid.cell(x, y).visibility == cleared_vis(
                            old(self).grid.cell(x, y).visibility,
                        ));
                    }
                }
            }
        }
        let mut octant: usize = 0;
        while octant < 8
            invariant
                self.wf(),
                octant <= 8,
                vision_rel(*old(self), *self),
                vision_transition(*old(self), *self, clear),
                visibility_sound(*old(self), *self, clear),
                old(self).pos_of(PLAYER as int) == Some(ppos),
                ppos.in_bounds(),
                self.entities == old(self).entities,
                octant >= 1 ==> self.grid.cell(ppos.x as int, ppos.y as int).visibility
                    == Visibility::Visible,
            decreases 8 - octant,
        {
            let dirs = octant_dirs(octant);
            let pdir = dirs.0;
            let sdir = dirs.1;
            let mut visited: Vec<bool> = Vec::new();
            let mut k: usize = 0;
            while k < MAP_WIDTH * MAP_HEIGHT
                invariant
                    k == visited@.len(),
                    k <= MAP_WIDTH * MAP_HEIGHT,
                    forall|j: int| 0 <= j < k ==> !visited@[j],
                decreases MAP_WIDTH * MAP_HEIGHT - k,
            {
                visited.push(false);
                k = k + 1;
            }
            let mut pending: Vec<Position> = Vec::new();
            pending.push(ppos);
            proof {
                lemma_count_true_le_len(visited@);
                lemma_reach_origin(old(self).grid, ppos, pdir, sdir);
                assert(pending@[0] == ppos);
            }
            while pending.len() > 0
                invariant
                    self.wf(),
                    vision_rel(*old(self), *self),
                    vision_transition(*old(self), *self, clear),
                    visibility_sound(*old(self), *self, clear),
                    old(self).pos_of(PLAYER as int) == Some(ppos),
                    self.entities == old(self).entities,
                    orthogonal(pdir, sdir),
                    visited@.len() == MAP_WIDTH * MAP_HEIGHT,
                    count_true(visited@) <= MAP_WIDTH * MAP_HEIGHT,
                    forall|j: int| 0 <= j < pending@.len() ==> (#[trigger] pending@[j]).in_bounds(),
                    forall|j: int|
                        0 <= j < pending@.len() ==> octant_reachable(
                            old(self).grid,
                            ppos,
                            pdir,
                            sdir,
                            #[trigger] pending@[j],
                        ),
                    self.grid.cell(ppos.x as int, ppos.y as int).visibility == Visibility::Visible
                        || (pending@.len() > 0 && pending@[0] == ppos),
                decreases 3 * (MAP_WIDTH * MAP_HEIGHT - count_true(visited@)) + pending@.len(),
            {
                let ghost pending0 = pending@;
                let pos = match pending.pop() {
                    Some(p) => p,
                    None => {
                        return ;
                    },
                };
                proof {
                    assert(pos == pending0.last());
                    assert(octant_reachable(old(self).grid, ppos, pdir, sdir, pos));
                }
                let ghost before_mark = *self;
                self.set_visibility(pos, Visibility::Visible);
                proof {
                    assert(visibility_sound(*old(self), *self, clear)) by {
                        assert forall|x: int, y: int|
                            0 <= x < MAP_WIDTH as int && 0 <= y < MAP_HEIGHT as int && (
                            #[trigger] self.grid.cell(x, y)).visibility == Visibility::Visible && !(
                            old(self).grid.cell(x, y).visibility == Visibility::Visible
                                && !clear) implies old(self).pos_of(PLAYER as int) is Some
                            && exists|p: Direction, s: Direction|
                            orthogonal(p, s) && octant_reachable(
                                old(self).grid,
                                old(self).pos_of(PLAYER as int).unwrap(),
                                p,
                                s,
                                Position { x: x as i32, y: y as i32 },
                            ) by {
                            if x == pos.x as int && y == pos.y as int {
                                assert((Position { x: x as i32, y: y as i32 }) == pos);
                                assert(orthogonal(pdir, sdir) && octant_reachable(
                                    old(self).grid,
                                    ppos,
                                    pdir,
                                    sdir,
                                    pos,
                                ));
                            } else {
                                assert(self.grid.cell(x, y) == before_mark.grid.cell(x, y));
                            }
                        }
                    }
                }
                proof {
                    if self.grid.cell(ppos.x as int, ppos.y as int).visibility
                        != Visibility::Visible {
                        assert(pending0.len() > 1);
                        assert(pending@[0] == ppos);
                    }
                }
                let sq = self.get_sq(pos);
                if !(sq.tile == Tile::Wall || (sq.tile == Tile::Door && sq.entity.is_none())) {
                    proof {
                        assert(pos.interior()) by {
                            reveal(Level::border_walled);
                        }
                        assert(passes(old(self).grid, pos)) by {
                            assert(old(self).grid.cell(pos.x as int, pos.y as int).tile
                                == self.grid.cell(pos.x as int, pos.y as int).tile);
                            assert(old(self).grid.cell(pos.x as int, pos.y as int).entity
                                == self.grid.cell(pos.x as int, pos.y as int).entity);
                        }
                    }
                    let fwd = pos.step(pdir);
                    let diag = fwd.step(sdir);
                    proof {
                        lemma_octant_step_in_bounds(pos, pdir, sdir);
                        assert(fwd.in_bounds() && diag.in_bounds());
                        lemma_reach_extend(old(self).grid, ppos, pdir, sdir, pos, fwd);
                        lemma_reach_extend(old(self).grid, ppos, pdir, sdir, pos, diag);
                    }
                    let fi = (fwd.y as usize) * MAP_WIDTH + (fwd.x as usize);
                    if !visited[fi] {
                        proof {
                            lemma_count_true_update(visited@, fi as int, true);
                        }
                        visited.set(fi, true);
                        proof {
                            lemma_count_true_le_len(visited@);
                        }
                        pending.push(fwd);
                    }
                    let di = (diag.y as usize) * MAP_WIDTH + (diag.x as usize);
                    if !visited[di] {
                        proof {
                            lemma_count_true_update(visited@, di as int, true);
                        }
                        visited.set(di, true);
                        proof {
                            lemma_count_true_le_len(visited@);
                        }
                        pending.push(diag);
                    }
                }
            }
            octant = octant + 1;
        }
    }
}

} // verus!
