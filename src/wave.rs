//! The collapse engine: a square grid of per-cell candidate sets, the entropy
//! scan, the collapse of one cell and the propagation to its neighbours.
use vstd::prelude::*;
use crate::tile::{Tile, compatible};
use crate::grid_proofs::{
    lemma_coord, lemma_index_bound, lemma_lowest_empty, lemma_lowest_members, lemma_min_open_entropy_bound,
    lemma_none_with_entropy, lemma_propagate_refines, lemma_refines_self, lemma_refines_trans, lemma_round,
    lemma_union_set,
};

verus! {

/// The state of one cell as the contracts see it.
pub enum CellState {
    Collapsed(Tile),
    Superposition(Seq<Tile>),
}

/// The state of one cell of the grid.
#[derive(Clone, Debug)]
pub enum WaveState {
    Collapsed(Tile),
    Superposition(Vec<Tile>),
}

impl View for WaveState {
    type V = CellState;

    open spec fn view(&self) -> CellState {
        match self {
            WaveState::Collapsed(k) => CellState::Collapsed(*k),
            WaveState::Superposition(s) => CellState::Superposition(s@),
        }
    }
}

impl Default for WaveState {
    /// A cell on which every kind is still possible.
    fn default() -> (r: WaveState)
        ensures
            r@ == all_kinds(),
    {
        WaveState::Superposition(vec![Tile::River, Tile::Wasteland, Tile::Farmland])
    }
}

/// A cell on which every kind is still possible.
pub open spec fn all_kinds() -> CellState {
    CellState::Superposition(seq![Tile::River, Tile::Wasteland, Tile::Farmland])
}

/// Whether a cell is still open (not yet collapsed).
pub open spec fn is_open(c: CellState) -> bool {
    c is Superposition
}

/// The entropy of a cell: 0 once collapsed, else the number of its candidates.
pub open spec fn entropy(c: CellState) -> nat {
    match c {
        CellState::Collapsed(_) => 0,
        CellState::Superposition(s) => s.len(),
    }
}

/// The lowest entropy among the open cells of `g[0..k]`, or `usize::MAX` where none is open.
pub open spec fn min_open_entropy(g: Seq<CellState>, k: int) -> int
    decreases k,
{
    if k <= 0 {
        usize::MAX as int
    } else {
        let m = min_open_entropy(g, k - 1);
        if is_open(g[k - 1]) && entropy(g[k - 1]) < m {
            entropy(g[k - 1]) as int
        } else {
            m
        }
    }
}

/// The indices in `0..k`, in increasing order, of the open cells of entropy `m`.
pub open spec fn open_with_entropy(g: Seq<CellState>, k: int, m: int) -> Seq<int>
    decreases k,
{
    if k <= 0 {
        Seq::empty()
    } else {
        let rest = open_with_entropy(g, k - 1, m);
        if is_open(g[k - 1]) && entropy(g[k - 1]) == m {
            rest.push(k - 1)
        } else {
            rest
        }
    }
}

/// The indices, in increasing order, of the open cells of lowest entropy.
pub open spec fn lowest_cells(g: Seq<CellState>) -> Seq<int> {
    open_with_entropy(g, g.len() as int, min_open_entropy(g, g.len() as int))
}

/// The coordinate `(x, y)` of cell index `i` on a grid of side `n`.
pub open spec fn coord_of(n: nat, i: int) -> (usize, usize) {
    ((i / n as int) as usize, (i % n as int) as usize)
}

/// The cell index of coordinate `(x, y)` on a grid of side `n`.
pub open spec fn index_of(n: nat, x: int, y: int) -> int {
    x * n + y
}

/// Whether kind `t` may stand next to a cell in state `src`: next to some
/// kind that `src` still allows.
pub open spec fn allowed(src: CellState, t: Tile) -> bool {
    match src {
        CellState::Collapsed(k) => compatible(k, t),
        CellState::Superposition(s) => exists|p: int| 0 <= p < s.len() && compatible(#[trigger] s[p], t),
    }
}

/// The kinds that may stand next to a cell in state `src`.
pub open spec fn allowed_kinds(src: CellState) -> Set<Tile> {
    Set::new(|t: Tile| allowed(src, t))
}

/// The candidates of `s` that lie in `a`, in their order.
pub open spec fn retain(s: Seq<Tile>, a: Set<Tile>) -> Seq<Tile>
    decreases s.len(),
{
    if s.len() == 0 {
        s
    } else {
        let rest = retain(s.drop_last(), a);
        if a.contains(s.last()) {
            rest.push(s.last())
        } else {
            rest
        }
    }
}

/// The state of cell `c` once constrained by a neighbour in state `src`.
pub open spec fn propagated(src: CellState, c: CellState) -> CellState {
    match c {
        CellState::Collapsed(k) => CellState::Collapsed(k),
        CellState::Superposition(s) => CellState::Superposition(retain(s, allowed_kinds(src))),
    }
}

/// Whether cell index `j` lies in the 3x3 block around `(x, y)` on a grid of
/// side `n`, other than `(x, y)` itself.
pub open spec fn near(n: nat, x: int, y: int, j: int) -> bool {
    let jx = j / n as int;
    let jy = j % n as int;
    &&& (jx != x || jy != y)
    &&& x - 1 <= jx <= x + 1
    &&& y - 1 <= jy <= y + 1
}

/// The grid `g` of side `n` once every neighbour of `(x, y)` is constrained by that cell.
pub open spec fn propagate(n: nat, g: Seq<CellState>, x: int, y: int) -> Seq<CellState> {
    let src = g[index_of(n, x, y)];
    Seq::new(g.len(), |j: int| if near(n, x, y, j) { propagated(src, g[j]) } else { g[j] })
}

/// Cell index `j` is one of the eight neighbours of cell index `i` on a grid of side `n`.
pub open spec fn adjacent(n: nat, i: int, j: int) -> bool {
    near(n, i / n as int, i % n as int, j)
}

/// Cell `b` agrees with its neighbour `a`: where `a` is collapsed, every kind
/// still possible at `b` may stand next to it.
pub open spec fn pair_ok(a: CellState, b: CellState) -> bool {
    match a {
        CellState::Collapsed(k) => match b {
            CellState::Collapsed(m) => compatible(k, m),
            CellState::Superposition(s) => forall|p: int| 0 <= p < s.len() ==> compatible(k, #[trigger] s[p]),
        },
        CellState::Superposition(_) => true,
    }
}

/// Every pair of neighbouring cells of `g` agrees.
pub open spec fn consistent(n: nat, g: Seq<CellState>) -> bool {
    forall|i: int, j: int|
        0 <= i < g.len() && 0 <= j < g.len() && #[trigger] adjacent(n, i, j) ==> pair_ok(#[trigger] g[i], #[trigger] g[j])
}

/// No cell of `g` is open.
pub open spec fn all_collapsed(g: Seq<CellState>) -> bool {
    forall|i: int| 0 <= i < g.len() ==> !is_open(#[trigger] g[i])
}

/// The kind of a collapsed cell.
pub open spec fn kind_of(c: CellState) -> Tile {
    match c {
        CellState::Collapsed(k) => k,
        CellState::Superposition(_) => Tile::Wasteland,
    }
}

/// Cell state `b` is `a` or a tightening of it: a collapsed cell stays as it
/// is; an open one keeps a subset of its candidates, never more of them, or
/// collapses to one of them.
pub open spec fn refines(a: CellState, b: CellState) -> bool {
    match a {
        CellState::Collapsed(k) => b == CellState::Collapsed(k),
        CellState::Superposition(s) => match b {
            CellState::Collapsed(t) => s.contains(t),
            CellState::Superposition(s2) => s2.len() <= s.len() && forall|p: int| 0 <= p < s2.len() ==> s.contains(#[trigger] s2[p]),
        },
    }
}

/// Each cell of `h` refines the same cell of `g`.
pub open spec fn refines_all(g: Seq<CellState>, h: Seq<CellState>) -> bool {
    &&& g.len() == h.len()
    &&& forall|i: int| 0 <= i < g.len() ==> refines(#[trigger] g[i], h[i])
}

/// The number of open cells of `g`.
pub open spec fn open_count(g: Seq<CellState>) -> nat
    decreases g.len(),
{
    if g.len() == 0 {
        0
    } else {
        open_count(g.drop_last()) + if is_open(g.last()) { 1nat } else { 0nat }
    }
}

/// The grid `g` once cell `(x, y)` is collapsed to candidate `choice` (taken
/// modulo the number of candidates); unchanged where the cell is collapsed
/// already or has no candidate left.
pub open spec fn collapse_at(n: nat, g: Seq<CellState>, x: int, y: int, choice: int) -> Seq<CellState> {
    let i = index_of(n, x, y);
    match g[i] {
        CellState::Superposition(s) => if s.len() > 0 {
            g.update(i, CellState::Collapsed(s[choice % s.len() as int]))
        } else {
            g
        },
        CellState::Collapsed(_) => g,
    }
}

/// Whether cell `(x, y)` of `g` is open with no candidate left.
pub open spec fn contradiction_at(n: nat, g: Seq<CellState>, x: int, y: int) -> bool {
    let c = g[index_of(n, x, y)];
    is_open(c) && entropy(c) == 0
}

/// One round of the driver on grid `g`: the open cell of lowest entropy at
/// position `cell_pick` (modulo their number) is collapsed to its candidate at
/// `kind_pick` (modulo their number) and constrains its neighbours. Gives
/// whether a cell was collapsed, or the contradiction, and the new grid.
pub open spec fn step_result(n: nat, g: Seq<CellState>, cell_pick: int, kind_pick: int) -> (Result<bool, CollapseError>, Seq<CellState>) {
    let low = lowest_cells(g);
    if low.len() == 0 {
        (Ok(false), g)
    } else {
        let i = low[cell_pick % low.len() as int];
        let x = i / n as int;
        let y = i % n as int;
        if contradiction_at(n, g, x, y) {
            (Err(CollapseError::Contradiction), g)
        } else {
            (Ok(true), propagate(n, collapse_at(n, g, x, y, kind_pick), x, y))
        }
    }
}

/// The failures of a run.
#[derive(Clone, Copy, PartialEq, Eq, Structural, Debug)]
pub enum CollapseError {
    /// A cell chosen for collapse has no candidate left.
    Contradiction,
    /// A cell is still open where every cell should be collapsed.
    InvariantViolation,
}

/// Relies on rand's `Rng::gen_range` over `thread_rng()`: a value drawn from `0..n`,
/// which panics on an empty range.
#[verifier::external_body]
fn random_below(n: usize) -> (r: usize)
    requires
        n > 0,
    ensures
        r < n,
{
    rand::Rng::gen_range(&mut rand::thread_rng(), 0..n)
}

/// The driver run on grid `g` with one pair of picks per round, as `step_result`
/// takes them: `Ok(true)` where a round found no open cell (the grid is
/// finished), `Ok(false)` where the picks ran out first, or the contradiction;
/// and the grid at that point.
pub open spec fn run_picks(n: nat, g: Seq<CellState>, picks: Seq<(usize, usize)>) -> (Result<bool, CollapseError>, Seq<CellState>)
    decreases picks.len(),
{
    if picks.len() == 0 {
        (Ok(false), g)
    } else {
        let (r0, g0) = run_picks(n, g, picks.drop_last());
        if r0 == Ok::<bool, CollapseError>(false) {
            let (r1, g1) = step_result(n, g0, picks.last().0 as int, picks.last().1 as int);
            match r1 {
                Ok(b) => (Ok(!b), g1),
                Err(e) => (Err(e), g1),
            }
        } else {
            (r0, g0)
        }
    }
}

/// A finished grid of kinds.
#[derive(Debug)]
pub struct Plot {
    size: usize,
    tiles: Vec<Tile>,
}

impl View for Plot {
    type V = Seq<Tile>;

    closed spec fn view(&self) -> Seq<Tile> {
        self.tiles@
    }
}

impl Plot {
    /// The side length of the plot.
    pub closed spec fn side(&self) -> nat {
        self.size as nat
    }

    /// The side length of the plot.
    pub fn size(&self) -> (r: usize)
        ensures
            r == self.side(),
    {
        self.size
    }

    /// The kind at `(x, y)`.
    pub fn tile(&self, x: usize, y: usize) -> (r: Tile)
        requires
            self.side() > 0,
            self@.len() == self.side() * self.side(),
            x < self.side(),
            y < self.side(),
        ensures
            r == self@[index_of(self.side(), x as int, y as int)],
    {
        let len = self.tiles.len();
        proof {
            lemma_index_bound(self.size as int, x as int, y as int);
        }
        assert(x * self.size + y < len);
        self.tiles[x * self.size + y]
    }
}

impl Default for PlotGenerator {
    /// The standard grid: 16 by 16, every kind possible everywhere.
    fn default() -> (r: PlotGenerator)
        ensures
            r.wf(),
            r.side() == 16,
            forall|i: int| 0 <= i < r@.len() ==> #[trigger] r@[i] == all_kinds(),
    {
        PlotGenerator::new(16)
    }
}

/// A grid of cells and the candidate kinds of each.
pub struct PlotGenerator {
    size: usize,
    cells: Vec<WaveState>,
}

impl View for PlotGenerator {
    type V = Seq<CellState>;

    closed spec fn view(&self) -> Seq<CellState> {
        self.cells@.map_values(|c: WaveState| c@)
    }
}

impl PlotGenerator {
    /// The side length of the grid.
    pub closed spec fn side(&self) -> nat {
        self.size as nat
    }

    /// The grid is square, non-empty, and its cell count fits a `usize`.
    pub open spec fn wf(&self) -> bool {
        &&& self.side() > 0
        &&& self.side() * self.side() <= usize::MAX
        &&& self@.len() == self.side() * self.side()
    }

    /// Constrains each open neighbour of `(x, y)` in the 8-connected
    /// neighbourhood to the kinds that `(x, y)` still allows next to it.
    /// One hop only: the neighbours' own neighbours are left as they are.
    pub fn update_neighbours(&mut self, pos: (usize, usize))
        requires
            old(self).wf(),
            pos.0 < old(self).side(),
            pos.1 < old(self).side(),
        ensures
            final(self).wf(),
            final(self).side() == old(self).side(),
            final(self)@ == propagate(old(self).side(), old(self)@, pos.0 as int, pos.1 as int),
            refines_all(old(self)@, final(self)@),
    {
        let (x, y) = pos;
        let ghost g = self@;
        let n = self.size;
        let total = self.cells.len();
        assert forall|k: int| 0 <= k < total implies #[trigger] self.cells@[k]@ == g[k] by {}
        proof {
            lemma_index_bound(n as int, x as int, y as int);
        }
        let src_idx = x * n + y;
        let possibilities = match &self.cells[src_idx] {
            WaveState::Superposition(s) => union_of_neighbours(s),
            WaveState::Collapsed(c) => {
                proof {
                    crate::tile::lemma_neighbour_table(*c);
                }
                c.valid_neighbours()
            },
        };
        let ghost src = g[src_idx as int];
        assert(possibilities@.to_set() =~= allowed_kinds(src));
        let mut j: usize = 0;
        while j < total
            invariant
                n == self.side(),
                n == old(self).side(),
                g == old(self)@,
                total == g.len(),
                total == n * n,
                n > 0,
                n * n <= usize::MAX,
                x < n,
                y < n,
                0 <= index_of(n as nat, x as int, y as int) < total,
                src == g[index_of(n as nat, x as int, y as int)],
                possibilities@.to_set() == allowed_kinds(src),
                0 <= j <= total,
                self.cells@.len() == total,
                forall|k: int| 0 <= k < j ==> #[trigger] self.cells@[k]@ == propagate(n as nat, g, x as int, y as int)[k],
                forall|k: int| j <= k < total ==> #[trigger] self.cells@[k]@ == g[k],
            decreases total - j,
        {
            let jx = j / n;
            let jy = j % n;
            let is_near = (jx != x || jy != y) && jx + 1 >= x && jx <= x + 1 && jy + 1 >= y && jy <= y + 1;
            assert(self.cells@[j as int]@ == g[j as int]);
            if is_near {
                let narrowed = match &self.cells[j] {
                    WaveState::Superposition(poss) => Some(keep_allowed(poss, &possibilities)),
                    WaveState::Collapsed(_) => None,
                };
                match narrowed {
                    Some(v) => {
                        self.cells.set(j, WaveState::Superposition(v));
                        assert(self.cells@[j as int]@ == propagate(n as nat, g, x as int, y as int)[j as int]);
                    },
                    None => {},
                }
            }
            j += 1;
        }
        assert(self@ =~= propagate(n as nat, g, x as int, y as int));
        proof {
            lemma_propagate_refines(n as nat, g, x as int, y as int);
        }
    }

    /// A grid of side `size` on which every kind is still possible at every cell.
    pub fn new(size: usize) -> (r: PlotGenerator)
        requires
            size > 0,
            size * size <= usize::MAX,
        ensures
            r.wf(),
            r.side() == size,
            forall|i: int| 0 <= i < r@.len() ==> #[trigger] r@[i] == all_kinds(),
            consistent(r.side(), r@),
    {
        let total = size * size;
        let mut cells: Vec<WaveState> = Vec::new();
        let mut i: usize = 0;
        while i < total
            invariant
                0 <= i <= total,
                cells@.len() == i,
                forall|k: int| 0 <= k < i ==> #[trigger] cells@[k]@ == all_kinds(),
            decreases total - i,
        {
            cells.push(WaveState::default());
            i += 1;
        }
        let r = PlotGenerator { size, cells };
        assert(r@.len() == total);
        r
    }

    /// A grid of side `size` with the given cells, `x * size + y` being the
    /// index of cell `(x, y)`; `None` unless `size` is positive and `cells`
    /// holds `size * size` cells.
    pub fn from_cells(size: usize, cells: Vec<WaveState>) -> (r: Option<PlotGenerator>)
        ensures
            r is Some <==> (size > 0 && size * size == cells@.len()),
            r matches Some(p) ==> p.wf() && p.side() == size && p@ == cells@.map_values(|c: WaveState| c@),
    {
        let len = cells.len();
        if size == 0 {
            return None;
        }
        match size.checked_mul(size) {
            Some(total) => {
                if total == len {
                    Some(PlotGenerator { size, cells })
                } else {
                    None
                }
            },
            None => {
                None
            },
        }
    }

    /// The side length of the grid.
    pub fn size(&self) -> (r: usize)
        ensures
            r == self.side(),
    {
        self.size
    }

    /// The state of cell `(x, y)`.
    pub fn cell(&self, x: usize, y: usize) -> (r: &WaveState)
        requires
            self.wf(),
            x < self.side(),
            y < self.side(),
        ensures
            r@ == self@[index_of(self.side(), x as int, y as int)],
    {
        proof {
            lemma_index_bound(self.size as int, x as int, y as int);
        }
        &self.cells[x * self.size + y]
    }

    /// Collapses cell `(x, y)` to its candidate at `choice` (modulo their
    /// number). A cell with no candidate left is a contradiction and stays as
    /// it is; a collapsed cell stays as it is.
    pub fn collapse_cell(&mut self, pos: (usize, usize), choice: usize) -> (r: Result<(), CollapseError>)
        requires
            old(self).wf(),
            pos.0 < old(self).side(),
            pos.1 < old(self).side(),
        ensures
            final(self).wf(),
            final(self).side() == old(self).side(),
            contradiction_at(old(self).side(), old(self)@, pos.0 as int, pos.1 as int) ==> r == Err::<(), CollapseError>(CollapseError::Contradiction) && final(self)@ == old(self)@,
            !contradiction_at(old(self).side(), old(self)@, pos.0 as int, pos.1 as int) ==> r == Ok::<(), CollapseError>(()) && final(self)@ == collapse_at(old(self).side(), old(self)@, pos.0 as int, pos.1 as int, choice as int),
            refines_all(old(self)@, final(self)@),
    {
        let (x, y) = pos;
        let ghost g = self@;
        proof {
            lemma_index_bound(self.size as int, x as int, y as int);
        }
        let idx = x * self.size + y;
        assert(self.cells@[idx as int]@ == g[idx as int]);
        proof {
            lemma_refines_self(g);
        }
        let chosen = match &self.cells[idx] {
            WaveState::Superposition(states) => {
                if states.len() == 0 {
                    return Err(CollapseError::Contradiction);
                }
                Some(states[choice % states.len()])
            },
            WaveState::Collapsed(_) => None,
        };
        match chosen {
            Some(t) => {
                self.cells.set(idx, WaveState::Collapsed(t));
                assert(self@ =~= g.update(idx as int, CellState::Collapsed(t)));
                assert(g[idx as int]->Superposition_0.contains(t));
            },
            None => {},
        }
        Ok(())
    }

    /// Runs the driver until no cell is open: each round picks uniformly at
    /// random one of the open cells of lowest entropy, collapses it to one of
    /// its candidates picked uniformly at random, and constrains its
    /// neighbours. Fails with the contradiction where the picked cell has no
    /// candidate left; no round is undone.
    pub fn collapse(&mut self) -> (r: Result<(), CollapseError>)
        requires
            old(self).wf(),
        ensures
            final(self).wf(),
            final(self).side() == old(self).side(),
            refines_all(old(self)@, final(self)@),
            r is Ok ==> all_collapsed(final(self)@),
            r is Err ==> r == Err::<(), CollapseError>(CollapseError::Contradiction)
                && exists|i: int| 0 <= i < final(self)@.len() && is_open(#[trigger] final(self)@[i]) && entropy(final(self)@[i]) == 0,
            consistent(old(self).side(), old(self)@) ==> consistent(final(self).side(), final(self)@),
            exists|picks: Seq<(usize, usize)>| #[trigger] run_picks(old(self).side(), old(self)@, picks) == (
                match r {
                    Ok(()) => Ok::<bool, CollapseError>(true),
                    Err(e) => Err::<bool, CollapseError>(e),
                },
                final(self)@,
            ),
    {
        let n = self.size;
        let ghost picks: Seq<(usize, usize)> = Seq::empty();
        loop
            invariant
                self.wf(),
                self.side() == n,
                n == old(self).side(),
                refines_all(old(self)@, self@),
                consistent(n as nat, old(self)@) ==> consistent(n as nat, self@),
                run_picks(n as nat, old(self)@, picks) == (Ok::<bool, CollapseError>(false), self@),
            decreases open_count(self@),
        {
            let ghost g = self@;
            let lowest = self.find_lowest_entropy();
            if lowest.len() == 0 {
                proof {
                    let ps = picks.push((0usize, 0usize));
                    assert(ps.drop_last() =~= picks);
                    assert(run_picks(n as nat, old(self)@, ps) == (Ok::<bool, CollapseError>(true), self@));
                }
                return Ok(());
            }
            let pick = random_below(lowest.len());
            let (x, y) = lowest[pick];
            let ghost i = lowest_cells(g)[pick as int];
            proof {
                lemma_lowest_members(g, g.len() as int, min_open_entropy(g, g.len() as int));
                lemma_coord(n as int, i);
                lemma_index_bound(n as int, x as int, y as int);
            }
            let idx = x * n + y;
            assert(self.cells@[idx as int]@ == g[idx as int]);
            let count = match &self.cells[idx] {
                WaveState::Superposition(states) => states.len(),
                WaveState::Collapsed(_) => 0,
            };
            assert(pick as int % lowest@.len() as int == pick as int) by {
                vstd::arithmetic::div_mod::lemma_small_mod(pick as nat, lowest@.len() as nat);
            }
            if count == 0 {
                proof {
                    let ps = picks.push((pick, 0usize));
                    assert(ps.drop_last() =~= picks);
                    assert(run_picks(n as nat, old(self)@, ps) == (Err::<bool, CollapseError>(CollapseError::Contradiction), self@));
                }
                return Err(CollapseError::Contradiction);
            }
            let choice = random_below(count);
            match self.collapse_cell((x, y), choice) {
                Err(e) => {
                    return Err(e);
                },
                Ok(()) => {},
            }
            self.update_neighbours((x, y));
            proof {
                let ps = picks.push((pick, choice));
                assert(ps.drop_last() =~= picks);
                assert(run_picks(n as nat, old(self)@, ps) == (Ok::<bool, CollapseError>(false), self@));
                picks = ps;
                lemma_round(n as nat, g, i, choice as int);
                assert forall|k: int| 0 <= k < g.len() implies refines(#[trigger] old(self)@[k], self@[k]) by {
                    lemma_refines_trans(old(self)@[k], g[k], self@[k]);
                }
            }
        }
    }

    /// One round of the driver with the random picks given: `Ok(false)` where no
    /// cell is open; else the open cell of lowest entropy at `cell_pick` (modulo
    /// their number, in index order) is collapsed to its candidate at
    /// `kind_pick` (modulo their number) and constrains its neighbours, giving
    /// `Ok(true)`, or the contradiction where that cell has no candidate left.
    pub fn step(&mut self, cell_pick: usize, kind_pick: usize) -> (r: Result<bool, CollapseError>)
        requires
            old(self).wf(),
        ensures
            final(self).wf(),
            final(self).side() == old(self).side(),
            (r, final(self)@) == step_result(old(self).side(), old(self)@, cell_pick as int, kind_pick as int),
            refines_all(old(self)@, final(self)@),
            consistent(old(self).side(), old(self)@) ==> consistent(final(self).side(), final(self)@),
    {
        let n = self.size;
        let ghost g = self@;
        let lowest = self.find_lowest_entropy();
        if lowest.len() == 0 {
            proof {
                lemma_refines_self(g);
            }
            return Ok(false);
        }
        let a = cell_pick % lowest.len();
        let (x, y) = lowest[a];
        let ghost i = lowest_cells(g)[a as int];
        proof {
            lemma_lowest_members(g, g.len() as int, min_open_entropy(g, g.len() as int));
            lemma_coord(n as int, i);
        }
        match self.collapse_cell((x, y), kind_pick) {
            Err(e) => {
                proof {
                    lemma_refines_self(g);
                }
                return Err(e);
            },
            Ok(()) => {},
        }
        self.update_neighbours((x, y));
        proof {
            lemma_round(n as nat, g, i, kind_pick as int);
        }
        Ok(true)
    }

    /// Runs the driver with the random picks given, one pair per round, as
    /// `step` takes them, until a round finds no open cell, a contradiction
    /// comes, or the picks run out. Gives `Ok(true)` where the grid is
    /// finished and `Ok(false)` where the picks ran out first.
    pub fn collapse_with_picks(&mut self, picks: &Vec<(usize, usize)>) -> (r: Result<bool, CollapseError>)
        requires
            old(self).wf(),
        ensures
            final(self).wf(),
            final(self).side() == old(self).side(),
            (r, final(self)@) == run_picks(old(self).side(), old(self)@, picks@),
    {
        let ghost g = self@;
        let mut status: Result<bool, CollapseError> = Ok(false);
        let mut k: usize = 0;
        while k < picks.len()
            invariant
                self.wf(),
                self.side() == old(self).side(),
                g == old(self)@,
                0 <= k <= picks@.len(),
                (status, self@) == run_picks(self.side(), g, picks@.take(k as int)),
            decreases picks@.len() - k,
        {
            assert(picks@.take(k + 1).drop_last() =~= picks@.take(k as int));
            if matches!(status, Ok(false)) {
                let (cell_pick, kind_pick) = picks[k];
                status = match self.step(cell_pick, kind_pick) {
                    Ok(b) => Ok(!b),
                    Err(e) => Err(e),
                };
            }
            k += 1;
        }
        assert(picks@.take(picks@.len() as int) =~= picks@);
        status
    }

    /// The finished plot: the kind of every cell, or the invariant violation
    /// where a cell is still open.
    pub fn into_plot(self) -> (r: Result<Plot, CollapseError>)
        requires
            self.wf(),
        ensures
            r is Ok <==> all_collapsed(self@),
            r is Err ==> r == Err::<Plot, CollapseError>(CollapseError::InvariantViolation),
            r matches Ok(p) ==> p.side() == self.side() && p@ == self@.map_values(|c: CellState| kind_of(c)),
    {
        let ghost g = self@;
        let total = self.cells.len();
        let mut tiles: Vec<Tile> = Vec::new();
        let mut i: usize = 0;
        while i < total
            invariant
                g == self@,
                total == g.len(),
                0 <= i <= total,
                tiles@.len() == i,
                forall|k: int| 0 <= k < i ==> !is_open(#[trigger] g[k]) && tiles@[k] == kind_of(g[k]),
            decreases total - i,
        {
            assert(self.cells@[i as int]@ == g[i as int]);
            match &self.cells[i] {
                WaveState::Collapsed(t) => tiles.push(*t),
                WaveState::Superposition(_) => {
                    return Err(CollapseError::InvariantViolation);
                },
            }
            i += 1;
        }
        let p = Plot { size: self.size, tiles };
        assert(p@ =~= g.map_values(|c: CellState| kind_of(c)));
        Ok(p)
    }

    /// Iterates over every cell in index order and gives the coordinates of
    /// the open cells whose entropy is the lowest among the open cells.
    /// The result is empty exactly when no cell is open.
    pub fn find_lowest_entropy(&self) -> (r: Vec<(usize, usize)>)
        requires
            self.wf(),
        ensures
            r@.len() == lowest_cells(self@).len(),
            forall|a: int| 0 <= a < r@.len() ==> #[trigger] r@[a] == coord_of(self.side(), lowest_cells(self@)[a]),
            r@.len() == 0 <==> forall|i: int| 0 <= i < self@.len() ==> !is_open(#[trigger] self@[i]),
    {
        let ghost g = self@;
        let n = self.size;
        let total = self.cells.len();
        let mut lowest: Vec<(usize, usize)> = Vec::new();
        let mut lowest_entropy: usize = usize::MAX;
        let mut i: usize = 0;
        while i < total
            invariant
                g == self@,
                total == g.len(),
                n == self.side(),
                n > 0,
                0 <= i <= total,
                forall|j: int| 0 <= j < i ==> entropy(#[trigger] g[j]) <= usize::MAX,
                lowest_entropy as int == min_open_entropy(g, i as int),
                lowest@.len() == open_with_entropy(g, i as int, lowest_entropy as int).len(),
                forall|a: int| 0 <= a < lowest@.len() ==> #[trigger] lowest@[a] == coord_of(n as nat, open_with_entropy(g, i as int, lowest_entropy as int)[a]),
            decreases total - i,
        {
            proof {
                lemma_min_open_entropy_bound(g, i as int);
            }
            assert(g[i as int] == self.cells@[i as int]@);
            match &self.cells[i] {
                WaveState::Collapsed(_) => {},
                WaveState::Superposition(pos) => {
                    if pos.len() < lowest_entropy {
                        proof {
                            lemma_none_with_entropy(g, i as int, pos.len() as int);
                        }
                        lowest_entropy = pos.len();
                        lowest = vec![(i / n, i % n)];
                    } else if pos.len() == lowest_entropy {
                        lowest.push((i / n, i % n));
                    }
                },
            }
            i += 1;
        }
        proof {
            lemma_lowest_empty(g);
        }
        lowest
    }
}

/// Whether `v` holds kind `t`.
fn holds_kind(v: &Vec<Tile>, t: Tile) -> (r: bool)
    ensures
        r == v@.contains(t),
{
    let mut i: usize = 0;
    while i < v.len()
        invariant
            0 <= i <= v@.len(),
            forall|k: int| 0 <= k < i ==> v@[k] != t,
        decreases v@.len() - i,
    {
        if v[i] == t {
            return true;
        }
        i += 1;
    }
    false
}

/// The candidates of `poss`, in order, that `possibilities` holds.
fn keep_allowed(poss: &Vec<Tile>, possibilities: &Vec<Tile>) -> (r: Vec<Tile>)
    ensures
        r@ == retain(poss@, possibilities@.to_set()),
{
    let ghost a = possibilities@.to_set();
    let mut out: Vec<Tile> = Vec::new();
    let mut i: usize = 0;
    while i < poss.len()
        invariant
            0 <= i <= poss@.len(),
            a == possibilities@.to_set(),
            out@ == retain(poss@.take(i as int), a),
        decreases poss@.len() - i,
    {
        let t = poss[i];
        assert(poss@.take(i + 1).drop_last() =~= poss@.take(i as int));
        if holds_kind(possibilities, t) {
            out.push(t);
        }
        i += 1;
    }
    assert(poss@.take(poss@.len() as int) =~= poss@);
    out
}

/// Every kind that may stand next to some candidate of `s`, with repeats.
fn union_of_neighbours(s: &Vec<Tile>) -> (r: Vec<Tile>)
    ensures
        r@.to_set() == allowed_kinds(CellState::Superposition(s@)),
{
    let mut out: Vec<Tile> = Vec::new();
    let mut i: usize = 0;
    while i < s.len()
        invariant
            0 <= i <= s@.len(),
            forall|t: Tile| out@.contains(t) <==> exists|k: int| 0 <= k < i && compatible(#[trigger] s@[k], t),
        decreases s@.len() - i,
    {
        let k = s[i];
        let mut nb = k.valid_neighbours();
        proof {
            crate::tile::lemma_neighbour_table(k);
        }
        let ghost before = out@;
        out.append(&mut nb);
        assert forall|t: Tile| out@.contains(t) <==> exists|m: int| 0 <= m < i + 1 && compatible(#[trigger] s@[m], t) by {
            let nt = crate::tile::neighbour_table(k);
            assert(out@ == before + nt);
            if out@.contains(t) {
                let p = choose|p: int| 0 <= p < out@.len() && out@[p] == t;
                if p < before.len() {
                    assert(before[p] == t);
                    assert(before.contains(t));
                } else {
                    assert(nt[p - before.len()] == t);
                    assert(nt.contains(t));
                    assert(compatible(s@[i as int], t));
                }
            }
            if exists|m: int| 0 <= m < i + 1 && compatible(#[trigger] s@[m], t) {
                let m = choose|m: int| 0 <= m < i + 1 && compatible(#[trigger] s@[m], t);
                if m < i {
                    assert(before.contains(t));
                    let p = choose|p: int| 0 <= p < before.len() && before[p] == t;
                    assert(out@[p] == t);
                } else {
                    assert(nt.contains(t));
                    let p = choose|p: int| 0 <= p < nt.len() && nt[p] == t;
                    assert(out@[before.len() + p] == t);
                }
            }
        }
        i += 1;
    }
    proof {
        lemma_union_set(s@, out@);
    }
    out
}

} // verus!
