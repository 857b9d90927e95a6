//! The mathematical model of the simulation: positions on the unbounded
//! plane, the neighborhood relation, the B3/S23 rule, and the laws that the
//! engine is proved against.

use vstd::prelude::*;

verus! {

broadcast use vstd::set::group_set_axioms;

/// A position on the unbounded plane: a pair of mathematical integers.
pub type Pos = (int, int);

/// Two positions are adjacent when they are distinct and each coordinate
/// differs by at most one (Chebyshev distance one).
pub open spec fn is_neighbor(a: Pos, b: Pos) -> bool {
    &&& a != b
    &&& -1 <= a.0 - b.0 <= 1
    &&& -1 <= a.1 - b.1 <= 1
}

/// The eight positions at Chebyshev distance one from `c`, in a fixed order.
pub open spec fn neighbors_of(c: Pos) -> Seq<Pos> {
    seq![
        (c.0 - 1, c.1 - 1),
        (c.0 - 1, c.1),
        (c.0 - 1, c.1 + 1),
        (c.0, c.1 - 1),
        (c.0, c.1 + 1),
        (c.0 + 1, c.1 - 1),
        (c.0 + 1, c.1),
        (c.0 + 1, c.1 + 1),
    ]
}

/// The cells of the live set `s` adjacent to `c`.
pub open spec fn live_neighbors(s: Set<Pos>, c: Pos) -> Set<Pos> {
    s.filter(|b: Pos| is_neighbor(c, b))
}

/// How many cells of the live set `s` are adjacent to `c`.
pub open spec fn live_neighbor_count(s: Set<Pos>, c: Pos) -> nat {
    live_neighbors(s, c).len()
}

/// The B3/S23 rule: three live neighbors make a cell live unconditionally;
/// two live neighbors keep it live only if it is live already.
pub open spec fn next_live(s: Set<Pos>, c: Pos) -> bool {
    ||| live_neighbor_count(s, c) == 3
    ||| (live_neighbor_count(s, c) == 2 && s.contains(c))
}

/// One generation applied to the whole plane.
pub open spec fn step(s: Set<Pos>) -> Set<Pos> {
    Set::new(|c: Pos| next_live(s, c))
}

/// `n` generations in sequence.
pub open spec fn step_n(s: Set<Pos>, n: nat) -> Set<Pos>
    decreases n,
{
    if n == 0 {
        s
    } else {
        step(step_n(s, (n - 1) as nat))
    }
}

/// The liveness of `c` flipped: the effect of toggling a single cell.
pub open spec fn toggled(s: Set<Pos>, c: Pos) -> Set<Pos> {
    if s.contains(c) {
        s.remove(c)
    } else {
        s.insert(c)
    }
}

/// Both coordinates of `p` lie at least `m` inside the `i32` range, so that
/// `m` rounds of neighbor expansion stay representable.
pub open spec fn in_margin(p: Pos, m: int) -> bool {
    &&& i32::MIN + m <= p.0 <= i32::MAX - m
    &&& i32::MIN + m <= p.1 <= i32::MAX - m
}

/// A position occurs among `neighbors_of(c)` exactly when it is adjacent
/// to `c`.
pub proof fn lemma_neighbors_iff(c: Pos, p: Pos)
    ensures
        neighbors_of(c).contains(p) <==> is_neighbor(p, c),
{
    if is_neighbor(p, c) {
        let dx = p.0 - c.0;
        let dy = p.1 - c.1;
        if dx == -1 && dy == -1 {
            assert(neighbors_of(c)[0] == p);
        } else if dx == -1 && dy == 0 {
            assert(neighbors_of(c)[1] == p);
        } else if dx == -1 && dy == 1 {
            assert(neighbors_of(c)[2] == p);
        } else if dx == 0 && dy == -1 {
            assert(neighbors_of(c)[3] == p);
        } else if dx == 0 && dy == 1 {
            assert(neighbors_of(c)[4] == p);
        } else if dx == 1 && dy == -1 {
            assert(neighbors_of(c)[5] == p);
        } else if dx == 1 && dy == 0 {
            assert(neighbors_of(c)[6] == p);
        } else {
            assert(neighbors_of(c)[7] == p);
        }
        assert(neighbors_of(c).contains(p));
    }
    if neighbors_of(c).contains(p) {
        let i = choose|i: int| 0 <= i < neighbors_of(c).len() && neighbors_of(c)[i] == p;
        assert(is_neighbor(p, c));
    }
}

/// The eight neighbor positions of a cell are pairwise distinct.
pub proof fn lemma_neighbors_distinct(c: Pos)
    ensures
        forall|i: int, j: int|
            0 <= i < j < neighbors_of(c).len() ==> neighbors_of(c)[i] != neighbors_of(c)[j],
{
}

/// A cell has at most eight live neighbors.
pub proof fn lemma_live_neighbor_count_le_8(s: Set<Pos>, c: Pos)
    requires
        s.finite(),
    ensures
        live_neighbor_count(s, c) <= 8,
{
    broadcast use vstd::seq_lib::seq_to_set_is_finite;

    let ln = live_neighbors(s, c);
    s.lemma_len_filter(|b: Pos| is_neighbor(c, b));
    let ns = neighbors_of(c).to_set();
    assert forall|b: Pos| ln.contains(b) implies ns.contains(b) by {
        lemma_neighbors_iff(c, b);
    };
    vstd::set_lib::lemma_len_subset(ln, ns);
    neighbors_of(c).lemma_cardinality_of_set();
}

/// How many times `p` occurs in the sequence `s`.
pub open spec fn occ(s: Seq<Pos>, p: Pos) -> nat
    decreases s.len(),
{
    if s.len() == 0 {
        0
    } else {
        occ(s.drop_last(), p) + (if s.last() == p {
            1nat
        } else {
            0nat
        })
    }
}

/// Occurrence counts add up over concatenation.
pub proof fn lemma_occ_concat(a: Seq<Pos>, b: Seq<Pos>, p: Pos)
    ensures
        occ(a + b, p) == occ(a, p) + occ(b, p),
    decreases b.len(),
{
    if b.len() == 0 {
        assert(a + b =~= a);
    } else {
        lemma_occ_concat(a, b.drop_last(), p);
        assert((a + b).drop_last() =~= a + b.drop_last());
        assert((a + b).last() == b.last());
    }
}

/// In a sequence without repetitions, every element occurs at most once.
pub proof fn lemma_occ_distinct(s: Seq<Pos>, p: Pos)
    requires
        forall|i: int, j: int| 0 <= i < j < s.len() ==> s[i] != s[j],
    ensures
        occ(s, p) == (if s.contains(p) {
            1nat
        } else {
            0nat
        }),
    decreases s.len(),
{
    if s.len() == 0 {
        assert(!s.contains(p));
    } else {
        let d = s.drop_last();
        assert forall|i: int, j: int| 0 <= i < j < d.len() implies d[i] != d[j] by {
            assert(d[i] == s[i]);
            assert(d[j] == s[j]);
        };
        lemma_occ_distinct(d, p);
        if s.last() == p {
            assert(s.contains(p)) by {
                assert(s[s.len() - 1] == p);
            };
            assert(!d.contains(p)) by {
                if d.contains(p) {
                    let i = choose|i: int| 0 <= i < d.len() && d[i] == p;
                    assert(s[i] == p);
                    assert(s[s.len() - 1] == p);
                }
            };
        } else {
            assert(s.contains(p) <==> d.contains(p)) by {
                if s.contains(p) {
                    let i = choose|i: int| 0 <= i < s.len() && s[i] == p;
                    assert(i != s.len() - 1);
                    assert(d[i] == p);
                }
                if d.contains(p) {
                    let i = choose|i: int| 0 <= i < d.len() && d[i] == p;
                    assert(s[i] == p);
                }
            };
        }
    }
}

/// A prefix of a sequence has no more occurrences than the whole.
pub proof fn lemma_occ_take_le(s: Seq<Pos>, k: int, p: Pos)
    requires
        0 <= k <= s.len(),
    ensures
        occ(s.take(k), p) <= occ(s, p),
    decreases s.len(),
{
    if k == s.len() {
        assert(s.take(k) =~= s);
    } else {
        let d = s.drop_last();
        lemma_occ_take_le(d, k, p);
        assert(s.take(k) =~= d.take(k));
    }
}

/// The flattened neighbor expansion of the live cells listed in `s`: the
/// eight neighbors of each listed cell, in listing order.
pub open spec fn expand(s: Seq<Pos>) -> Seq<Pos>
    decreases s.len(),
{
    if s.len() == 0 {
        Seq::empty()
    } else {
        expand(s.drop_last()) + neighbors_of(s.last())
    }
}

/// The neighbor expansion of a repetition-free list of live cells mentions
/// each position exactly as often as that position has live neighbors.
pub proof fn lemma_expand_count(s: Seq<Pos>, p: Pos)
    requires
        forall|i: int, j: int| 0 <= i < j < s.len() ==> s[i] != s[j],
    ensures
        occ(expand(s), p) == live_neighbor_count(s.to_set(), p),
    decreases s.len(),
{
    broadcast use vstd::seq_lib::seq_to_set_is_finite;

    if s.len() == 0 {
        assert(live_neighbors(s.to_set(), p) =~= Set::<Pos>::empty());
    } else {
        let d = s.drop_last();
        let b = s.last();
        assert forall|i: int, j: int| 0 <= i < j < d.len() implies d[i] != d[j] by {
            assert(d[i] == s[i]);
            assert(d[j] == s[j]);
        };
        lemma_expand_count(d, p);
        lemma_occ_concat(expand(d), neighbors_of(b), p);
        lemma_neighbors_distinct(b);
        lemma_occ_distinct(neighbors_of(b), p);
        lemma_neighbors_iff(b, p);
        d.lemma_cardinality_of_set();
        let dset = d.to_set();
        let bn = is_neighbor(p, b);
        assert(occ(neighbors_of(b), p) == (if bn {
            1nat
        } else {
            0nat
        })) by {
            assert(is_neighbor(p, b) <==> is_neighbor(b, p));
        };
        assert(!dset.contains(b)) by {
            if dset.contains(b) {
                let i = choose|i: int| 0 <= i < d.len() && d[i] == b;
                assert(s[i] == b);
                assert(s[s.len() - 1] == b);
            }
        };
        assert(s.to_set() =~= dset.insert(b)) by {
            assert forall|q: Pos| s.to_set().contains(q) implies dset.insert(b).contains(q) by {
                let i = choose|i: int| 0 <= i < s.len() && s[i] == q;
                if i < d.len() {
                    assert(d[i] == q);
                }
            };
            assert forall|q: Pos| dset.insert(b).contains(q) implies s.to_set().contains(q) by {
                if dset.contains(q) {
                    let i = choose|i: int| 0 <= i < d.len() && d[i] == q;
                    assert(s[i] == q);
                } else {
                    assert(s[s.len() - 1] == q);
                }
            };
        };
        s.lemma_cardinality_of_set();
        let lnd = live_neighbors(dset, p);
        dset.lemma_len_filter(|q: Pos| is_neighbor(p, q));
        if bn {
            assert(live_neighbors(s.to_set(), p) =~= lnd.insert(b));
            assert(!lnd.contains(b));
            assert(lnd.insert(b).len() == lnd.len() + 1);
        } else {
            assert(live_neighbors(s.to_set(), p) =~= lnd);
        }
    }
}

/// On a finite live set, every cell of the next generation lies within one
/// unit of some current live cell, so a coordinate margin shrinks by at most
/// one per generation.
pub proof fn lemma_step_margin(s: Set<Pos>, m: int)
    requires
        s.finite(),
        m >= 1,
        forall|p: Pos| s.contains(p) ==> in_margin(p, m),
    ensures
        forall|p: Pos| step(s).contains(p) ==> in_margin(p, m - 1),
{
    assert forall|p: Pos| step(s).contains(p) implies in_margin(p, m - 1) by {
        let ln = live_neighbors(s, p);
        s.lemma_len_filter(|b: Pos| is_neighbor(p, b));
        assert(ln.len() != 0);
        let b = ln.choose();
        assert(ln.contains(b));
        assert(s.contains(b) && is_neighbor(p, b));
    };
}

/// An empty plane stays empty for any number of generations.
pub proof fn lemma_empty_stays_empty(n: nat)
    ensures
        step_n(Set::<Pos>::empty(), n) == Set::<Pos>::empty(),
    decreases n,
{
    if n > 0 {
        lemma_empty_stays_empty((n - 1) as nat);
        assert(step(Set::<Pos>::empty()) =~= Set::<Pos>::empty()) by {
            assert forall|c: Pos| !step(Set::<Pos>::empty()).contains(c) by {
                assert(live_neighbors(Set::<Pos>::empty(), c) =~= Set::<Pos>::empty());
            };
        };
    }
}

/// Birth: a dead cell with exactly three live neighbors is live in the
/// next generation.
pub proof fn lemma_birth(s: Set<Pos>, c: Pos)
    requires
        !s.contains(c),
        live_neighbor_count(s, c) == 3,
    ensures
        step(s).contains(c),
{
}

/// Death: a live cell with no live neighbors is dead in the next
/// generation.
pub proof fn lemma_death(s: Set<Pos>, c: Pos)
    requires
        s.contains(c),
        live_neighbor_count(s, c) == 0,
    ensures
        !step(s).contains(c),
{
}

/// Generations compose: running `m + k` generations equals running `m`
/// generations and then `k` more.
pub proof fn lemma_step_n_composes(s: Set<Pos>, m: nat, k: nat)
    ensures
        step_n(s, m + k) == step_n(step_n(s, m), k),
    decreases k,
{
    if k > 0 {
        lemma_step_n_composes(s, m, (k - 1) as nat);
        assert(m + k == (m + k - 1) + 1);
        assert(step_n(s, m + k) == step(step_n(s, (m + k - 1) as nat)));
    }
}

/// Toggling the same cell twice restores the original live set.
pub proof fn lemma_toggle_involution(s: Set<Pos>, c: Pos)
    ensures
        toggled(toggled(s, c), c) == s,
{
    assert(toggled(toggled(s, c), c) =~= s);
}

/// One generation is a pure function of the live set: equal inputs give
/// equal outputs.
pub proof fn lemma_step_deterministic(s1: Set<Pos>, s2: Set<Pos>)
    requires
        s1 == s2,
    ensures
        step(s1) == step(s2),
{
}

} // verus!
