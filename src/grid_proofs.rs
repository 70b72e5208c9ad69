//! Proofs about the collapse engine: the facts its functions rest on, and
//! what holds of a run as a whole.
use vstd::prelude::*;
use crate::tile::{Tile, compatible};
use crate::wave::{
    CellState, CollapseError, adjacent, all_collapsed, allowed, allowed_kinds, collapse_at, consistent,
    entropy, index_of, is_open, kind_of, lowest_cells, min_open_entropy, near, open_count,
    open_with_entropy, pair_ok, propagate, refines, refines_all, retain, run_picks, step_result,
};

verus! {

/// The cell index of an in-bounds coordinate is in bounds.
pub(crate) proof fn lemma_index_bound(n: int, x: int, y: int)
    requires
        0 <= x < n,
        0 <= y < n,
    ensures
        0 <= x * n + y < n * n,
{
    assert(x * n + y < n * n) by (nonlinear_arith)
        requires
            0 <= x < n,
            0 <= y < n,
    ;
    assert(0 <= x * n) by (nonlinear_arith)
        requires
            0 <= x,
            0 <= n,
    ;
}

/// A sequence that holds exactly the kinds compatible with some candidate of
/// `q` holds, as a set, the kinds allowed next to the superposition `q`.
pub(crate) proof fn lemma_union_set(q: Seq<Tile>, o: Seq<Tile>)
    requires
        forall|t: Tile| o.contains(t) <==> exists|m: int| 0 <= m < q.len() && compatible(#[trigger] q[m], t),
    ensures
        o.to_set() == allowed_kinds(CellState::Superposition(q)),
{
    let src = CellState::Superposition(q);
    assert(src->Superposition_0 == q);
    assert forall|t: Tile| o.to_set().contains(t) == allowed_kinds(src).contains(t) by {
        assert(o.to_set().contains(t) == o.contains(t));
        assert(allowed_kinds(src).contains(t) == allowed(src, t));
        if o.contains(t) {
            let m = choose|m: int| 0 <= m < q.len() && compatible(#[trigger] q[m], t);
            assert(allowed(src, t));
        }
        if allowed(src, t) {
            let m = choose|m: int| 0 <= m < q.len() && compatible(#[trigger] q[m], t);
            assert(o.contains(t));
        }
    }
    assert(o.to_set() =~= allowed_kinds(src));
}

/// A cell index and its coordinate name each other.
pub(crate) proof fn lemma_coord(n: int, i: int)
    requires
        n > 0,
        0 <= i < n * n,
    ensures
        0 <= i / n < n,
        0 <= i % n < n,
        index_of(n as nat, i / n, i % n) == i,
{
    vstd::arithmetic::div_mod::lemma_fundamental_div_mod(i, n);
    vstd::arithmetic::div_mod::lemma_div_pos_is_pos(i, n);
    vstd::arithmetic::div_mod::lemma_mod_pos_bound(i, n);
    vstd::arithmetic::div_mod::lemma_div_by_multiple_is_strongly_ordered(i, n * n, n, n);
    assert((n * n) / n == n) by {
        vstd::arithmetic::div_mod::lemma_div_by_multiple(n, n);
    }
    assert(n * (i / n) == (i / n) * n) by (nonlinear_arith);
}

/// The kinds kept by `retain` are kinds of `s` that lie in `a`, and no more of them.
proof fn lemma_retain(s: Seq<Tile>, a: Set<Tile>)
    ensures
        retain(s, a).len() <= s.len(),
        forall|p: int| 0 <= p < retain(s, a).len() ==> s.contains(#[trigger] retain(s, a)[p]) && a.contains(retain(s, a)[p]),
    decreases s.len(),
{
    if s.len() > 0 {
        let d = s.drop_last();
        lemma_retain(d, a);
        let r = retain(s, a);
        assert forall|p: int| 0 <= p < r.len() implies s.contains(#[trigger] r[p]) && a.contains(r[p]) by {
            if p < retain(d, a).len() {
                let q = choose|q: int| 0 <= q < d.len() && d[q] == retain(d, a)[p];
                assert(s[q] == r[p]);
            } else {
                assert(s[s.len() - 1] == r[p]);
            }
        }
    }
}

/// Propagation only tightens cells, and leaves each cell open or collapsed as it was.
pub(crate) proof fn lemma_propagate_refines(n: nat, g: Seq<CellState>, x: int, y: int)
    requires
        0 <= index_of(n, x, y) < g.len(),
    ensures
        refines_all(g, propagate(n, g, x, y)),
        forall|j: int| 0 <= j < g.len() ==> is_open(#[trigger] propagate(n, g, x, y)[j]) == is_open(g[j]),
{
    let h = propagate(n, g, x, y);
    let src = g[index_of(n, x, y)];
    assert forall|j: int| 0 <= j < g.len() implies refines(#[trigger] g[j], h[j]) && is_open(h[j]) == is_open(g[j]) by {
        match g[j] {
            CellState::Superposition(sj) => {
                lemma_retain(sj, allowed_kinds(src));
            },
            CellState::Collapsed(_) => {},
        }
    }
}

/// Every cell refines itself.
pub(crate) proof fn lemma_refines_self(g: Seq<CellState>)
    ensures
        refines_all(g, g),
{
    assert forall|k: int| 0 <= k < g.len() implies refines(#[trigger] g[k], g[k]) by {
        match g[k] {
            CellState::Superposition(s) => {
                assert forall|p: int| 0 <= p < s.len() implies s.contains(#[trigger] s[p]) by {}
            },
            CellState::Collapsed(_) => {},
        }
    }
}

/// `refines` chains.
pub(crate) proof fn lemma_refines_trans(a: CellState, b: CellState, c: CellState)
    requires
        refines(a, b),
        refines(b, c),
    ensures
        refines(a, c),
{
}

/// Pointwise fewer open cells give no larger count, and a strictly smaller one
/// where some cell was closed.
proof fn lemma_open_count_le(a: Seq<CellState>, b: Seq<CellState>)
    requires
        a.len() == b.len(),
        forall|j: int| 0 <= j < b.len() && is_open(#[trigger] b[j]) ==> is_open(a[j]),
    ensures
        open_count(b) <= open_count(a),
        (exists|j: int| 0 <= j < a.len() && is_open(#[trigger] a[j]) && !is_open(b[j])) ==> open_count(b) < open_count(a),
    decreases a.len(),
{
    if a.len() > 0 {
        let da = a.drop_last();
        let db = b.drop_last();
        assert forall|j: int| 0 <= j < db.len() && is_open(#[trigger] db[j]) implies is_open(da[j]) by {
            assert(db[j] == b[j]);
            assert(da[j] == a[j]);
        }
        lemma_open_count_le(da, db);
        if exists|j: int| 0 <= j < a.len() && is_open(#[trigger] a[j]) && !is_open(b[j]) {
            let j = choose|j: int| 0 <= j < a.len() && is_open(#[trigger] a[j]) && !is_open(b[j]);
            if j < a.len() - 1 {
                assert(da[j] == a[j] && db[j] == b[j]);
            }
        }
    }
}

/// The lowest cells are open cells of the grid.
pub(crate) proof fn lemma_lowest_members(g: Seq<CellState>, k: int, m: int)
    requires
        0 <= k <= g.len(),
    ensures
        forall|a: int| 0 <= a < open_with_entropy(g, k, m).len() ==> 0 <= #[trigger] open_with_entropy(g, k, m)[a] < k
            && is_open(g[open_with_entropy(g, k, m)[a]]) && entropy(g[open_with_entropy(g, k, m)[a]]) == m,
    decreases k,
{
    if k > 0 {
        lemma_lowest_members(g, k - 1, m);
        let rest = open_with_entropy(g, k - 1, m);
        let all = open_with_entropy(g, k, m);
        assert forall|a: int| 0 <= a < all.len() implies 0 <= #[trigger] all[a] < k && is_open(g[all[a]]) && entropy(g[all[a]]) == m by {
            if a < rest.len() {
                assert(all[a] == rest[a]);
            }
        }
    }
}

/// One round of the driver, collapsing open cell `i` to one of its candidates
/// and constraining its neighbours, tightens every cell, closes cell `i`, and
/// keeps neighbouring cells in agreement.
pub(crate) proof fn lemma_round(n: nat, g: Seq<CellState>, i: int, choice: int)
    requires
        n > 0,
        g.len() == n * n,
        0 <= i < g.len(),
        is_open(g[i]),
        entropy(g[i]) > 0,
    ensures
        ({
            let h = propagate(n, collapse_at(n, g, i / n as int, i % n as int, choice), i / n as int, i % n as int);
            &&& refines_all(g, h)
            &&& open_count(h) < open_count(g)
            &&& consistent(n, g) ==> consistent(n, h)
        }),
{
    let x = i / n as int;
    let y = i % n as int;
    lemma_coord(n as int, i);
    let s = g[i]->Superposition_0;
    let t = s[choice % s.len() as int];
    let g1 = collapse_at(n, g, x, y, choice);
    assert(g1 == g.update(i, CellState::Collapsed(t)));
    let h = propagate(n, g1, x, y);
    lemma_propagate_refines(n, g1, x, y);
    assert forall|j: int| 0 <= j < g.len() implies refines(#[trigger] g[j], h[j]) by {
        if j != i {
            assert(g1[j] == g[j]);
        } else {
            assert(s.contains(t));
        }
        lemma_refines_trans(g[j], g1[j], h[j]);
    }
    assert forall|j: int| 0 <= j < h.len() && is_open(#[trigger] h[j]) implies is_open(g[j]) by {
        assert(refines(g[j], h[j]));
    }
    assert(!is_open(h[i]));
    lemma_open_count_le(g, h);
    if consistent(n, g) {
        assert forall|a: int, b: int| 0 <= a < h.len() && 0 <= b < h.len() && #[trigger] adjacent(n, a, b) implies pair_ok(#[trigger] h[a], #[trigger] h[b]) by {
            assert(pair_ok(g[a], g[b]));
            assert(refines(g[a], h[a]));
            assert(refines(g[b], h[b]));
            if a == i {
                assert(near(n, x, y, b));
                match g[b] {
                    CellState::Collapsed(m) => {
                        assert(adjacent(n, b, a));
                        assert(pair_ok(g[b], g[a]));
                        assert(compatible(m, t));
                    },
                    CellState::Superposition(sb) => {
                        lemma_retain(sb, allowed_kinds(CellState::Collapsed(t)));
                        let r = retain(sb, allowed_kinds(CellState::Collapsed(t)));
                        assert(h[b] == CellState::Superposition(r));
                        assert forall|p: int| 0 <= p < r.len() implies compatible(t, #[trigger] r[p]) by {
                            assert(allowed_kinds(CellState::Collapsed(t)).contains(r[p]));
                        }
                    },
                }
            } else if b == i {
                match h[a] {
                    CellState::Collapsed(m) => {
                        assert(g[a] == CellState::Collapsed(m));
                        assert(compatible(m, t));
                    },
                    CellState::Superposition(_) => {},
                }
            } else {
                match h[a] {
                    CellState::Collapsed(m) => {
                        assert(g[a] == CellState::Collapsed(m));
                        match h[b] {
                            CellState::Collapsed(m2) => {},
                            CellState::Superposition(sb2) => {
                                let sb = g[b]->Superposition_0;
                                assert forall|p: int| 0 <= p < sb2.len() implies compatible(m, #[trigger] sb2[p]) by {
                                    assert(sb.contains(sb2[p]));
                                    let q = choose|q: int| 0 <= q < sb.len() && sb[q] == sb2[p];
                                    assert(compatible(m, sb[q]));
                                }
                            },
                        }
                    },
                    CellState::Superposition(_) => {},
                }
            }
        }
    }
}

/// In a finished grid whose neighbouring cells agree, every kind may stand
/// next to the kind of each of its eight neighbours.
pub proof fn lemma_finished_grid_adjacency(n: nat, g: Seq<CellState>)
    requires
        consistent(n, g),
        all_collapsed(g),
    ensures
        forall|i: int, j: int|
            0 <= i < g.len() && 0 <= j < g.len() && #[trigger] adjacent(n, i, j) ==> compatible(kind_of(#[trigger] g[i]), kind_of(#[trigger] g[j])),
{
    assert forall|i: int, j: int| 0 <= i < g.len() && 0 <= j < g.len() && #[trigger] adjacent(n, i, j) implies compatible(kind_of(#[trigger] g[i]), kind_of(#[trigger] g[j])) by {
        assert(pair_ok(g[i], g[j]));
        assert(!is_open(g[i]) && !is_open(g[j]));
    }
}

/// Where exactly one cell is open, the lowest-entropy scan gives that cell alone.
pub proof fn lemma_single_open_cell(g: Seq<CellState>, i: int)
    requires
        0 <= i < g.len(),
        is_open(g[i]),
        entropy(g[i]) <= usize::MAX,
        forall|j: int| 0 <= j < g.len() && j != i ==> !is_open(#[trigger] g[j]),
    ensures
        lowest_cells(g) == seq![i],
{
    lemma_single_open_prefix(g, i, g.len() as int);
}

/// The scan over `g[0..k]` where cell `i` alone is open.
proof fn lemma_single_open_prefix(g: Seq<CellState>, i: int, k: int)
    requires
        0 <= i < g.len(),
        0 <= k <= g.len(),
        is_open(g[i]),
        entropy(g[i]) <= usize::MAX,
        forall|j: int| 0 <= j < g.len() && j != i ==> !is_open(#[trigger] g[j]),
    ensures
        k <= i ==> min_open_entropy(g, k) == usize::MAX && open_with_entropy(g, k, entropy(g[i]) as int) == Seq::<int>::empty(),
        k > i ==> min_open_entropy(g, k) == entropy(g[i]) && open_with_entropy(g, k, entropy(g[i]) as int) == seq![i],
    decreases k,
{
    if k > 0 {
        lemma_single_open_prefix(g, i, k - 1);
        if k - 1 == i {
            assert(Seq::<int>::empty().push(i) =~= seq![i]);
        } else {
            assert(!is_open(g[k - 1]));
        }
    }
}

/// Two runs of the driver on the same grid with the same picks end in the same
/// grid with the same outcome: the picks are its only source of choice.
pub proof fn lemma_reproducible(n: nat, g1: Seq<CellState>, g2: Seq<CellState>, picks: Seq<(usize, usize)>)
    requires
        g1 == g2,
    ensures
        run_picks(n, g1, picks) == run_picks(n, g2, picks),
{
}

/// A grid of one cell with at least one candidate is finished by one round,
/// which collapses that cell and constrains nothing, whatever the picks; the
/// next round finds no open cell.
pub proof fn lemma_single_cell_grid(s: Seq<Tile>, first: (usize, usize), second: (usize, usize))
    requires
        0 < s.len() <= usize::MAX,
    ensures
        ({
            let g = seq![CellState::Superposition(s)];
            let done = seq![CellState::Collapsed(s[first.1 as int % s.len() as int])];
            &&& step_result(1, g, first.0 as int, first.1 as int) == (Ok::<bool, CollapseError>(true), done)
            &&& step_result(1, done, second.0 as int, second.1 as int) == (Ok::<bool, CollapseError>(false), done)
            &&& run_picks(1, g, seq![first, second]) == (Ok::<bool, CollapseError>(true), done)
        }),
{
    let g = seq![CellState::Superposition(s)];
    let t = s[first.1 as int % s.len() as int];
    let done = seq![CellState::Collapsed(t)];
    lemma_single_open_cell(g, 0);
    assert(first.0 as int % 1 == 0);
    assert(lowest_cells(g)[0] == 0);
    assert(0int / 1 == 0 && 0int % 1 == 0);
    assert(index_of(1, 0, 0) == 0);
    let g1 = collapse_at(1, g, 0, 0, first.1 as int);
    assert(g1 =~= done);
    assert(!near(1, 0, 0, 0));
    assert(propagate(1, g1, 0, 0) =~= done);
    assert(lowest_cells(done).len() == 0) by {
        lemma_lowest_empty(done);
    }
    let ps = seq![first, second];
    assert(ps.drop_last() =~= seq![first]);
    assert(seq![first].drop_last() =~= Seq::<(usize, usize)>::empty());
    assert(step_result(1, g, first.0 as int, first.1 as int) == (Ok::<bool, CollapseError>(true), done));
    assert(step_result(1, done, second.0 as int, second.1 as int) == (Ok::<bool, CollapseError>(false), done));
    assert(run_picks(1, g, Seq::<(usize, usize)>::empty()) == (Ok::<bool, CollapseError>(false), g));
    assert(seq![first].last() == first);
    assert(ps.last() == second);
    assert(run_picks(1, g, seq![first]) == (Ok::<bool, CollapseError>(false), done));
}

/// No cell of `g[0..k]` is open with entropy `m` where `m` is below the lowest open entropy there.
pub(crate) proof fn lemma_none_with_entropy(g: Seq<CellState>, k: int, m: int)
    requires
        0 <= k <= g.len(),
        m < min_open_entropy(g, k),
    ensures
        open_with_entropy(g, k, m).len() == 0,
    decreases k,
{
    if k > 0 {
        lemma_none_with_entropy(g, k - 1, m);
    }
}

/// The lowest open entropy of a prefix bounds every open cell in it, and is
/// never above `usize::MAX`.
pub(crate) proof fn lemma_min_open_entropy_bound(g: Seq<CellState>, k: int)
    requires
        0 <= k <= g.len(),
    ensures
        min_open_entropy(g, k) <= usize::MAX,
        forall|i: int| 0 <= i < k && is_open(g[i]) ==> min_open_entropy(g, k) <= entropy(#[trigger] g[i]),
        (forall|i: int| 0 <= i < k ==> !is_open(#[trigger] g[i])) ==> min_open_entropy(g, k) == usize::MAX,
    decreases k,
{
    if k > 0 {
        lemma_min_open_entropy_bound(g, k - 1);
    }
}

/// The lowest cells are none exactly when no cell is open.
pub(crate) proof fn lemma_lowest_empty(g: Seq<CellState>)
    requires
        forall|i: int| 0 <= i < g.len() ==> entropy(#[trigger] g[i]) <= usize::MAX,
    ensures
        lowest_cells(g).len() == 0 <==> forall|i: int| 0 <= i < g.len() ==> !is_open(#[trigger] g[i]),
{
    lemma_lowest_empty_prefix(g, g.len() as int);
}

/// The scan over `g[0..k]` finds a cell exactly when one of them is open.
proof fn lemma_lowest_empty_prefix(g: Seq<CellState>, k: int)
    requires
        0 <= k <= g.len(),
        forall|i: int| 0 <= i < k ==> entropy(#[trigger] g[i]) <= usize::MAX,
    ensures
        open_with_entropy(g, k, min_open_entropy(g, k)).len() == 0 <==> forall|i: int| 0 <= i < k ==> !is_open(#[trigger] g[i]),
    decreases k,
{
    if k > 0 {
        lemma_lowest_empty_prefix(g, k - 1);
        lemma_min_open_entropy_bound(g, k - 1);
        let m = min_open_entropy(g, k - 1);
        let last = g[k - 1];
        if is_open(last) && entropy(last) < m {
            lemma_none_with_entropy(g, k - 1, entropy(last) as int);
        }
    }
}

} // verus!
