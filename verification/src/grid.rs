//! The sparse live-cell store and the generation stepper. A grid holds each
//! live cell once; one `compute` expands every live cell to its eight
//! neighbors, reduces the expansion to a per-position count, and keeps
//! exactly the positions that the B3/S23 rule makes live.

use crate::rules::{
    expand, in_margin, live_neighbor_count, neighbors_of, next_live, occ, step, step_n, toggled,
    Pos,
};
use crate::rules::{
    lemma_expand_count, lemma_live_neighbor_count_le_8, lemma_occ_take_le, lemma_step_margin,
};
use vstd::prelude::*;

verus! {

broadcast use {vstd::set::group_set_axioms, vstd::seq_lib::seq_to_set_is_finite};

/// A cell location on the plane: a pair of `i32` coordinates.
pub type Cell = (i32, i32);

/// The mathematical position of a cell.
pub open spec fn cell_pos(c: Cell) -> Pos {
    (c.0 as int, c.1 as int)
}

/// The positions of a sequence of cells, in order.
pub open spec fn poses(s: Seq<Cell>) -> Seq<Pos> {
    s.map_values(|c: Cell| cell_pos(c))
}

/// The sparse store of live cells.
pub struct Grid {
    cells: Vec<Cell>,
}

impl View for Grid {
    type V = Set<Pos>;

    /// A grid is modelled by the set of positions of its live cells.
    closed spec fn view(&self) -> Set<Pos> {
        poses(self.cells@).to_set()
    }
}

/// Membership in the position set of a cell list is witnessed by an index.
pub proof fn lemma_poses_to_set(s: Seq<Cell>, p: Pos)
    ensures
        poses(s).to_set().contains(p) <==> exists|i: int|
            0 <= i < s.len() && cell_pos(s[i]) == p,
{
    if poses(s).contains(p) {
        let i = choose|i: int| 0 <= i < poses(s).len() && poses(s)[i] == p;
        assert(cell_pos(s[i]) == p);
    }
    if exists|i: int| 0 <= i < s.len() && cell_pos(s[i]) == p {
        let i = choose|i: int| 0 <= i < s.len() && cell_pos(s[i]) == p;
        assert(poses(s)[i] == p);
        assert(poses(s).contains(p));
    }
}

impl Grid {
    /// No live cell is stored twice.
    pub closed spec fn wf(&self) -> bool {
        forall|i: int, j: int|
            0 <= i < j < self.cells@.len() ==> cell_pos(self.cells@[i]) != cell_pos(
                self.cells@[j],
            )
    }

    /// Creates an empty grid.
    pub fn new() -> (g: Grid)
        ensures
            g.wf(),
            g@ == Set::<Pos>::empty(),
    {
        let g = Grid { cells: Vec::new() };
        proof {
            assert(g@ =~= Set::<Pos>::empty());
        }
        g
    }

    /// Creates a grid holding exactly the given cells. The argument plays
    /// the role of a set: no cell may be listed twice.
    pub fn from_b_tree_set(cells: Vec<Cell>) -> (g: Grid)
        requires
            forall|i: int, j: int|
                0 <= i < j < cells@.len() ==> cell_pos(cells@[i]) != cell_pos(cells@[j]),
        ensures
            g.wf(),
            g@ == poses(cells@).to_set(),
    {
        Grid { cells }
    }

    /// An immutable snapshot of the live cells: one entry per live cell, in
    /// unspecified order.
    pub fn get_cells(&self) -> (r: Vec<Cell>)
        requires
            self.wf(),
        ensures
            poses(r@).to_set() == self@,
            forall|i: int, j: int|
                0 <= i < j < r@.len() ==> cell_pos(r@[i]) != cell_pos(r@[j]),
    {
        let mut r: Vec<Cell> = Vec::new();
        let mut i: usize = 0;
        while i < self.cells.len()
            invariant
                i <= self.cells@.len(),
                r@ == self.cells@.take(i as int),
            decreases self.cells@.len() - i,
        {
            let c = self.cells[i];
            r.push(c);
            proof {
                assert(r@ =~= self.cells@.take(i + 1));
            }
            i = i + 1;
        }
        proof {
            assert(r@ =~= self.cells@);
        }
        r
    }

    /// Removes every live cell; idempotent.
    pub fn clear_cells(&mut self)
        requires
            old(self).wf(),
        ensures
            final(self).wf(),
            final(self)@ == Set::<Pos>::empty(),
    {
        self.cells.clear();
        proof {
            assert(self@ =~= Set::<Pos>::empty());
        }
    }

    /// The index of the cell at the position of `cell`, if that position is
    /// live.
    fn find_cell(cells: &Vec<Cell>, cell: Cell) -> (r: Option<usize>)
        ensures
            match r {
                Some(i) => i < cells@.len() && cell_pos(cells@[i as int]) == cell_pos(cell),
                None => forall|j: int|
                    0 <= j < cells@.len() ==> cell_pos(cells@[j]) != cell_pos(cell),
            },
    {
        let mut i: usize = 0;
        while i < cells.len()
            invariant
                i <= cells@.len(),
                forall|j: int| 0 <= j < i ==> cell_pos(cells@[j]) != cell_pos(cell),
            decreases cells@.len() - i,
        {
            if cells[i].0 == cell.0 && cells[i].1 == cell.1 {
                return Some(i);
            }
            i = i + 1;
        }
        None
    }

    /// Flips the liveness of `cell`: a live cell becomes dead, a dead cell
    /// becomes live.
    pub fn toggle_cell(&mut self, cell: Cell)
        requires
            old(self).wf(),
        ensures
            final(self).wf(),
            final(self)@ == toggled(old(self)@, cell_pos(cell)),
    {
        let ghost s0 = self.cells@;
        let ghost p = cell_pos(cell);
        match Self::find_cell(&self.cells, cell) {
            Some(i) => {
                self.cells.remove(i);
                proof {
                    let s1 = self.cells@;
                    assert(s1 =~= s0.remove(i as int));
                    assert forall|a: int, b: int|
                        0 <= a < b < s1.len() implies cell_pos(s1[a]) != cell_pos(s1[b]) by {
                        if a < i && b < i {
                            assert(s1[a] == s0[a] && s1[b] == s0[b]);
                        } else if a < i {
                            assert(s1[a] == s0[a] && s1[b] == s0[b + 1]);
                        } else {
                            assert(s1[a] == s0[a + 1] && s1[b] == s0[b + 1]);
                        }
                    };
                    assert(old(self)@.contains(p)) by {
                        lemma_poses_to_set(s0, p);
                    };
                    assert(self@ =~= old(self)@.remove(p)) by {
                        assert forall|q: Pos| self@.contains(q) implies old(self)@.remove(
                            p,
                        ).contains(q) by {
                            lemma_poses_to_set(s1, q);
                            let a = choose|a: int| 0 <= a < s1.len() && cell_pos(s1[a]) == q;
                            let b = if a < i { a } else { a + 1 };
                            assert(s0[b] == s1[a]);
                            lemma_poses_to_set(s0, q);
                            assert(q != p) by {
                                assert(cell_pos(s0[i as int]) == p);
                            };
                        };
                        assert forall|q: Pos| old(self)@.remove(p).contains(q) implies self@
                            .contains(q) by {
                            lemma_poses_to_set(s0, q);
                            let b = choose|b: int| 0 <= b < s0.len() && cell_pos(s0[b]) == q;
                            assert(b != i) by {
                                assert(cell_pos(s0[i as int]) == p);
                            };
                            let a = if b < i { b } else { b - 1 };
                            assert(s1[a] == s0[b]);
                            lemma_poses_to_set(s1, q);
                        };
                    };
                }
            },
            None => {
                self.cells.push(cell);
                proof {
                    let s1 = self.cells@;
                    assert forall|a: int, b: int|
                        0 <= a < b < s1.len() implies cell_pos(s1[a]) != cell_pos(s1[b]) by {
                        if b < s0.len() {
                            assert(s1[a] == s0[a] && s1[b] == s0[b]);
                        } else {
                            assert(s1[a] == s0[a] && s1[b] == cell);
                        }
                    };
                    assert(!old(self)@.contains(p)) by {
                        lemma_poses_to_set(s0, p);
                    };
                    assert(self@ =~= old(self)@.insert(p)) by {
                        assert forall|q: Pos| self@.contains(q) implies old(self)@.insert(
                            p,
                        ).contains(q) by {
                            lemma_poses_to_set(s1, q);
                            let a = choose|a: int| 0 <= a < s1.len() && cell_pos(s1[a]) == q;
                            if a < s0.len() {
                                assert(s0[a] == s1[a]);
                                lemma_poses_to_set(s0, q);
                            } else {
                                assert(q == p);
                            }
                        };
                        assert forall|q: Pos| old(self)@.insert(p).contains(q) implies self@
                            .contains(q) by {
                            if q == p {
                                assert(cell_pos(s1[s1.len() - 1]) == q);
                                lemma_poses_to_set(s1, q);
                            } else {
                                lemma_poses_to_set(s0, q);
                                let b = choose|b: int| 0 <= b < s0.len() && cell_pos(s0[b]) == q;
                                assert(s1[b] == s0[b]);
                                lemma_poses_to_set(s1, q);
                            }
                        };
                    };
                }
            },
        }
    }

    /// The eight cells surrounding `cell`, in a fixed order.
    fn get_neighbors(&self, cell: Cell) -> (r: [Cell; 8])
        requires
            in_margin(cell_pos(cell), 1),
        ensures
            poses(r@) == neighbors_of(cell_pos(cell)),
    {
        let r: [Cell; 8] = [
            (cell.0 - 1, cell.1 - 1),
            (cell.0 - 1, cell.1),
            (cell.0 - 1, cell.1 + 1),
            (cell.0, cell.1 - 1),
            (cell.0, cell.1 + 1),
            (cell.0 + 1, cell.1 - 1),
            (cell.0 + 1, cell.1),
            (cell.0 + 1, cell.1 + 1),
        ];
        proof {
            assert(poses(r@) =~= neighbors_of(cell_pos(cell)));
        }
        r
    }

    /// One coordinate per live neighbor: each live cell contributes its
    /// eight neighbor coordinates, so a position occurs in the result once
    /// per live cell adjacent to it.
    fn count_live_neighbors(&self) -> (r: Vec<Cell>)
        requires
            self.wf(),
            forall|p: Pos| self@.contains(p) ==> in_margin(p, 1),
        ensures
            forall|p: Pos| occ(poses(r@), p) == live_neighbor_count(self@, p),
    {
        let mut r: Vec<Cell> = Vec::new();
        let mut i: usize = 0;
        while i < self.cells.len()
            invariant
                i <= self.cells@.len(),
                self.wf(),
                forall|p: Pos| self@.contains(p) ==> in_margin(p, 1),
                poses(r@) == expand(poses(self.cells@.take(i as int))),
            decreases self.cells@.len() - i,
        {
            let c = self.cells[i];
            proof {
                lemma_poses_to_set(self.cells@, cell_pos(c));
                assert(self@.contains(cell_pos(c)));
            }
            let ns = self.get_neighbors(c);
            let ghost before = poses(r@);
            let mut k: usize = 0;
            while k < 8
                invariant
                    k <= 8,
                    ns@.len() == 8,
                    poses(ns@) == neighbors_of(cell_pos(c)),
                    poses(r@) == before + neighbors_of(cell_pos(c)).take(k as int),
                decreases 8 - k,
            {
                let ghost prev = poses(r@);
                r.push(ns[k]);
                proof {
                    let nb = neighbors_of(cell_pos(c));
                    assert(poses(r@) =~= prev.push(cell_pos(ns@[k as int])));
                    assert(poses(ns@)[k as int] == cell_pos(ns@[k as int]));
                    assert(nb.take(k + 1) =~= nb.take(k as int).push(nb[k as int]));
                    assert(poses(r@) =~= before + nb.take(k + 1));
                }
                k = k + 1;
            }
            proof {
                let t0 = poses(self.cells@.take(i as int));
                let t1 = poses(self.cells@.take(i + 1));
                assert(t1.drop_last() =~= t0);
                assert(t1.last() == cell_pos(self.cells@[i as int]));
                assert(neighbors_of(cell_pos(c)).take(8) =~= neighbors_of(cell_pos(c)));
                assert(expand(t1) == expand(t0) + neighbors_of(cell_pos(c)));
            }
            i = i + 1;
        }
        proof {
            assert(self.cells@.take(self.cells@.len() as int) =~= self.cells@);
            assert forall|p: Pos| occ(poses(r@), p) == live_neighbor_count(self@, p) by {
                assert forall|a: int, b: int|
                    0 <= a < b < poses(self.cells@).len() implies poses(self.cells@)[a] != poses(
                    self.cells@,
                )[b] by {
                    assert(poses(self.cells@)[a] == cell_pos(self.cells@[a]));
                    assert(poses(self.cells@)[b] == cell_pos(self.cells@[b]));
                };
                lemma_expand_count(poses(self.cells@), p);
            };
        }
        r
    }

    /// The index of the entry keyed by the position of `cell`, if any.
    fn find_key(entries: &Vec<(Cell, i8)>, cell: Cell) -> (r: Option<usize>)
        ensures
            match r {
                Some(i) => i < entries@.len() && cell_pos(entries@[i as int].0) == cell_pos(cell),
                None => forall|j: int|
                    0 <= j < entries@.len() ==> cell_pos(entries@[j].0) != cell_pos(cell),
            },
    {
        let mut i: usize = 0;
        while i < entries.len()
            invariant
                i <= entries@.len(),
                forall|j: int| 0 <= j < i ==> cell_pos(entries@[j].0) != cell_pos(cell),
            decreases entries@.len() - i,
        {
            let (key, _count) = entries[i];
            if key.0 == cell.0 && key.1 == cell.1 {
                return Some(i);
            }
            i = i + 1;
        }
        None
    }

    /// Aggregates the neighbor list into one entry per position, counting
    /// how often the position occurs: the number of its live neighbors.
    /// Positions with no live neighbor get no entry.
    fn reducer(&self, neighbor_counter: Vec<Cell>) -> (r: Vec<(Cell, i8)>)
        requires
            forall|p: Pos| occ(poses(neighbor_counter@), p) <= 127,
        ensures
            forall|a: int, b: int|
                0 <= a < b < r@.len() ==> cell_pos(r@[a].0) != cell_pos(r@[b].0),
            forall|a: int|
                0 <= a < r@.len() ==> 1 <= r@[a].1 && r@[a].1 as int == occ(
                    poses(neighbor_counter@),
                    cell_pos(r@[a].0),
                ),
            forall|p: Pos|
                occ(poses(neighbor_counter@), p) > 0 ==> exists|a: int|
                    0 <= a < r@.len() && cell_pos(r@[a].0) == p,
    {
        let ghost nc = poses(neighbor_counter@);
        let mut reduced: Vec<(Cell, i8)> = Vec::new();
        let mut t: usize = 0;
        while t < neighbor_counter.len()
            invariant
                t <= neighbor_counter@.len(),
                nc == poses(neighbor_counter@),
                forall|p: Pos| occ(nc, p) <= 127,
                forall|a: int, b: int|
                    0 <= a < b < reduced@.len() ==> cell_pos(reduced@[a].0) != cell_pos(
                        reduced@[b].0,
                    ),
                forall|a: int|
                    0 <= a < reduced@.len() ==> 1 <= reduced@[a].1 && reduced@[a].1 as int == occ(
                        nc.take(t as int),
                        cell_pos(reduced@[a].0),
                    ),
                forall|p: Pos|
                    occ(nc.take(t as int), p) > 0 ==> exists|a: int|
                        0 <= a < reduced@.len() && cell_pos(reduced@[a].0) == p,
            decreases neighbor_counter@.len() - t,
        {
            let c = neighbor_counter[t];
            let ghost p = cell_pos(c);
            let ghost tk0 = nc.take(t as int);
            let ghost tk1 = nc.take(t + 1);
            proof {
                assert(tk1.drop_last() =~= tk0);
                assert(tk1.last() == p) by {
                    assert(nc[t as int] == cell_pos(neighbor_counter@[t as int]));
                };
                assert(occ(tk1, p) == occ(tk0, p) + 1);
                assert forall|q: Pos| q != p implies #[trigger] occ(tk1, q) == occ(tk0, q) by {};
                lemma_occ_take_le(nc, t + 1, p);
            }
            match Self::find_key(&reduced, c) {
                Some(i) => {
                    let e = reduced[i];
                    let ghost before = reduced@;
                    proof {
                        assert(cell_pos(e.0) == p);
                        assert(e.1 as int == occ(tk0, p));
                        assert(occ(tk1, p) <= 127);
                    }
                    reduced[i] = (e.0, e.1 + 1);
                    proof {
                        let after = reduced@;
                        assert(after.len() == before.len());
                        assert(cell_pos(after[i as int].0) == p);
                        assert(after[i as int].1 == e.1 + 1);
                        assert(forall|a: int|
                            0 <= a < after.len() && a != i ==> after[a] == before[a]);
                        assert forall|q: Pos|
                            #[trigger] occ(tk1, q) > 0 implies exists|a: int|
                                0 <= a < after.len() && cell_pos(after[a].0) == q by {
                            if q == p {
                                assert(cell_pos(after[i as int].0) == q);
                            } else {
                                let a = choose|a: int|
                                    0 <= a < before.len() && cell_pos(before[a].0) == q;
                                assert(cell_pos(after[a].0) == q);
                            }
                        };
                    }
                },
                None => {
                    proof {
                        assert(occ(tk0, p) == 0) by {
                            if occ(tk0, p) > 0 {
                                let a = choose|a: int|
                                    0 <= a < reduced@.len() && cell_pos(reduced@[a].0) == p;
                            }
                        };
                    }
                    let ghost before = reduced@;
                    reduced.push((c, 1));
                    proof {
                        let after = reduced@;
                        assert(cell_pos(after[after.len() - 1].0) == p);
                        assert forall|q: Pos|
                            #[trigger] occ(tk1, q) > 0 implies exists|a: int|
                                0 <= a < after.len() && cell_pos(after[a].0) == q by {
                            if q != p {
                                assert(occ(nc.take(t as int), q) > 0);
                                let a = choose|a: int|
                                    0 <= a < before.len() && cell_pos(before[a].0) == q;
                                assert(cell_pos(after[a].0) == q);
                            }
                        };
                    }
                },
            }
            t = t + 1;
        }
        proof {
            assert(nc.take(nc.len() as int) =~= nc);
        }
        reduced
    }

    /// Advances the grid one generation: the live set becomes exactly the
    /// set that the B3/S23 rule makes live.
    pub fn compute(&mut self)
        requires
            old(self).wf(),
            forall|p: Pos| old(self)@.contains(p) ==> in_margin(p, 1),
        ensures
            final(self).wf(),
            final(self)@ == step(old(self)@),
    {
        let ghost old_view = self@;
        let neighbor_counter = self.count_live_neighbors();
        let ghost nc = poses(neighbor_counter@);
        proof {
            assert forall|p: Pos| occ(nc, p) <= 127 by {
                lemma_live_neighbor_count_le_8(old_view, p);
            };
        }
        let reduced = self.reducer(neighbor_counter);

        let mut next: Vec<Cell> = Vec::new();
        let mut t: usize = 0;
        while t < reduced.len()
            invariant
                t <= reduced@.len(),
                self == old(self),
                old_view == self@,
                nc == poses(neighbor_counter@),
                forall|p: Pos| occ(nc, p) == live_neighbor_count(old_view, p),
                forall|a: int, b: int|
                    0 <= a < b < reduced@.len() ==> cell_pos(reduced@[a].0) != cell_pos(
                        reduced@[b].0,
                    ),
                forall|a: int|
                    0 <= a < reduced@.len() ==> 1 <= reduced@[a].1 && reduced@[a].1 as int == occ(
                        nc,
                        cell_pos(reduced@[a].0),
                    ),
                forall|p: Pos|
                    occ(nc, p) > 0 ==> exists|a: int|
                        0 <= a < reduced@.len() && cell_pos(reduced@[a].0) == p,
                forall|i: int, j: int|
                    0 <= i < j < next@.len() ==> cell_pos(next@[i]) != cell_pos(next@[j]),
                forall|q: Pos|
                    poses(next@).to_set().contains(q) <==> exists|a: int|
                        0 <= a < t && cell_pos(reduced@[a].0) == q && next_live(old_view, q),
            decreases reduced@.len() - t,
        {
            let e = reduced[t];
            let ghost p = cell_pos(e.0);
            let found = Self::find_cell(&self.cells, e.0);
            let live = found.is_some();
            proof {
                lemma_poses_to_set(self.cells@, p);
                match found {
                    Some(i) => {
                        assert(cell_pos(self.cells@[i as int]) == p);
                        assert(old_view.contains(p));
                    },
                    None => {
                        assert(!old_view.contains(p));
                    },
                }
                assert(live == old_view.contains(p));
                assert(e.1 as int == occ(nc, p));
                assert(occ(nc, p) == live_neighbor_count(old_view, p));
            }
            let ghost before = next@;
            if (e.1 == 2 && live) || e.1 == 3 {
                next.push(e.0);
                proof {
                    assert(next_live(old_view, p));
                    assert(!poses(before).to_set().contains(p)) by {
                        if poses(before).to_set().contains(p) {
                            let a = choose|a: int|
                                0 <= a < t && cell_pos(reduced@[a].0) == p && next_live(
                                    old_view,
                                    p,
                                );
                            assert(cell_pos(reduced@[t as int].0) == p);
                        }
                    };
                    lemma_poses_to_set(before, p);
                    assert forall|i: int, j: int|
                        0 <= i < j < next@.len() implies cell_pos(next@[i]) != cell_pos(
                        next@[j],
                    ) by {
                        if j < before.len() {
                            assert(next@[i] == before[i] && next@[j] == before[j]);
                        } else {
                            assert(next@[i] == before[i] && next@[j] == e.0);
                            lemma_poses_to_set(before, cell_pos(before[i]));
                        }
                    };
                    assert forall|q: Pos| poses(next@).to_set().contains(q) implies (exists|a: int|
                        0 <= a < t + 1 && cell_pos(reduced@[a].0) == q && next_live(
                            old_view,
                            q,
                        )) by {
                        lemma_poses_to_set(next@, q);
                        let x = choose|x: int| 0 <= x < next@.len() && cell_pos(next@[x]) == q;
                        if x < before.len() {
                            assert(before[x] == next@[x]);
                            lemma_poses_to_set(before, q);
                        } else {
                            assert(q == p);
                            assert(cell_pos(reduced@[t as int].0) == q);
                        }
                    };
                    assert forall|q: Pos|
                        (exists|a: int|
                            0 <= a < t + 1 && cell_pos(reduced@[a].0) == q && next_live(
                                old_view,
                                q,
                            )) implies poses(next@).to_set().contains(q) by {
                        let a = choose|a: int|
                            0 <= a < t + 1 && cell_pos(reduced@[a].0) == q && next_live(
                                old_view,
                                q,
                            );
                        if a < t {
                            lemma_poses_to_set(before, q);
                            let x = choose|x: int|
                                0 <= x < before.len() && cell_pos(before[x]) == q;
                            assert(next@[x] == before[x]);
                            lemma_poses_to_set(next@, q);
                        } else {
                            assert(q == p);
                            assert(cell_pos(next@[next@.len() - 1]) == q);
                            lemma_poses_to_set(next@, q);
                        }
                    };
                }
            } else {
                proof {
                    assert(!next_live(old_view, p));
                    assert forall|q: Pos|
                        (exists|a: int|
                            0 <= a < t + 1 && cell_pos(reduced@[a].0) == q && next_live(
                                old_view,
                                q,
                            )) implies poses(next@).to_set().contains(q) by {
                        let a = choose|a: int|
                            0 <= a < t + 1 && cell_pos(reduced@[a].0) == q && next_live(
                                old_view,
                                q,
                            );
                        assert(a < t);
                    };
                }
            }
            t = t + 1;
        }
        self.cells = next;
        proof {
            assert(self@ =~= step(old_view)) by {
                assert forall|q: Pos| self@.contains(q) implies step(old_view).contains(q) by {};
                assert forall|q: Pos| step(old_view).contains(q) implies self@.contains(q) by {
                    assert(next_live(old_view, q));
                    assert(occ(nc, q) > 0);
                    let a = choose|a: int|
                        0 <= a < reduced@.len() && cell_pos(reduced@[a].0) == q;
                };
            };
        }
    }

    /// Advances the grid `iterations` generations in sequence; a
    /// non-positive count is a no-op.
    pub fn iterative_compute(&mut self, iterations: i32)
        requires
            old(self).wf(),
            forall|p: Pos| old(self)@.contains(p) ==> in_margin(p, iterations as int),
        ensures
            final(self).wf(),
            final(self)@ == step_n(
                old(self)@,
                (if iterations >= 0 {
                    iterations as int
                } else {
                    0
                }) as nat,
            ),
    {
        let mut k: i32 = 0;
        while k < iterations
            invariant
                0 <= k,
                k <= iterations || k == 0,
                self.wf(),
                self@ == step_n(old(self)@, k as nat),
                forall|p: Pos| self@.contains(p) ==> in_margin(p, iterations - k),
            decreases iterations - k,
        {
            proof {
                assert forall|p: Pos| self@.contains(p) implies in_margin(p, 1) by {};
                lemma_step_margin(self@, iterations - k);
            }
            self.compute();
            proof {
                assert(self@ == step(step_n(old(self)@, k as nat)));
                assert(step_n(old(self)@, (k + 1) as nat) == step(step_n(old(self)@, k as nat)));
            }
            k = k + 1;
        }
    }
}

} // verus!
