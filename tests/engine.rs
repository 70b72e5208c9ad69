use terrain_wfc::tile::Tile;
use terrain_wfc::tile::Tile::{Farmland, River, Wasteland};
use terrain_wfc::wave::{CollapseError, Plot, PlotGenerator, WaveState};

fn compatible(a: Tile, b: Tile) -> bool {
    !matches!((a, b), (Tile::River, Tile::Farmland) | (Tile::Farmland, Tile::River))
}

fn open(kinds: &[Tile]) -> WaveState {
    WaveState::Superposition(kinds.to_vec())
}

fn grid(size: usize, cells: Vec<WaveState>) -> PlotGenerator {
    PlotGenerator::from_cells(size, cells).expect("square grid")
}

fn assert_adjacency(plot: &Plot) {
    let n = plot.size() as isize;
    for x in 0..n {
        for y in 0..n {
            for dx in -1..=1isize {
                for dy in -1..=1isize {
                    if dx == 0 && dy == 0 {
                        continue;
                    }
                    let (nx, ny) = (x + dx, y + dy);
                    if nx < 0 || ny < 0 || nx >= n || ny >= n {
                        continue;
                    }
                    let a = plot.tile(x as usize, y as usize);
                    let b = plot.tile(nx as usize, ny as usize);
                    assert!(a.valid_neighbours().contains(&b), "{:?} beside {:?}", a, b);
                }
            }
        }
    }
}

#[test]
fn neighbour_table_is_exact() {
    assert_eq!(River.valid_neighbours(), vec![River, Wasteland]);
    assert_eq!(Wasteland.valid_neighbours(), vec![River, Wasteland, Farmland]);
    assert_eq!(Farmland.valid_neighbours(), vec![Farmland, Wasteland]);
    for k in [River, Wasteland, Farmland] {
        let v = k.valid_neighbours();
        assert!(!v.is_empty());
        assert!(v.contains(&k));
        for t in [River, Wasteland, Farmland] {
            assert_eq!(v.contains(&t), compatible(k, t));
            assert_eq!(v.contains(&t), t.valid_neighbours().contains(&k));
        }
    }
}

#[test]
fn glyphs_and_default_kind() {
    assert_eq!(Tile::River.as_str(), "░░");
    assert_eq!(Tile::Wasteland.as_str(), "▓▓");
    assert_eq!(Tile::Farmland.as_str(), "██");
    assert_eq!(Tile::default(), Tile::Wasteland);
}

#[test]
fn fresh_grid_is_all_open() {
    let gen = PlotGenerator::default();
    assert_eq!(gen.size(), 16);
    let lowest = gen.find_lowest_entropy();
    assert_eq!(lowest.len(), 256);
    assert_eq!(lowest[0], (0, 0));
    assert_eq!(lowest[1], (0, 1));
    assert_eq!(lowest[16], (1, 0));
    assert!(matches!(gen.cell(3, 4), WaveState::Superposition(s) if s.len() == 3));
}

#[test]
fn lowest_entropy_on_collapsed_grid_is_empty() {
    let cells = (0..9).map(|_| WaveState::Collapsed(Tile::Wasteland)).collect();
    let gen = grid(3, cells);
    assert!(gen.find_lowest_entropy().is_empty());
}

#[test]
fn lowest_entropy_with_one_open_cell() {
    let mut cells: Vec<WaveState> = (0..9).map(|_| WaveState::Collapsed(Tile::Wasteland)).collect();
    cells[1 * 3 + 2] = open(&[Tile::River, Tile::Wasteland]);
    let gen = grid(3, cells);
    assert_eq!(gen.find_lowest_entropy(), vec![(1, 2)]);
}

#[test]
fn lowest_entropy_keeps_ties_in_index_order() {
    let cells = vec![
        open(&[River, Wasteland, Farmland]),
        open(&[River, Wasteland]),
        WaveState::Collapsed(River),
        open(&[Wasteland, Farmland]),
    ];
    let gen = grid(2, cells);
    assert_eq!(gen.find_lowest_entropy(), vec![(0, 1), (1, 1)]);
}

#[test]
fn lowest_entropy_counts_an_empty_candidate_set() {
    let cells = vec![open(&[River]), open(&[]), open(&[River, Wasteland]), WaveState::Collapsed(Farmland)];
    let gen = grid(2, cells);
    assert_eq!(gen.find_lowest_entropy(), vec![(0, 1)]);
}

#[test]
fn collapse_finishes_standard_grid() {
    for _ in 0..20 {
        let mut gen = PlotGenerator::default();
        assert_eq!(gen.collapse(), Ok(()));
        for x in 0..16 {
            for y in 0..16 {
                assert!(matches!(gen.cell(x, y), WaveState::Collapsed(_)));
            }
        }
        assert!(gen.find_lowest_entropy().is_empty());
        let plot = gen.into_plot().expect("finished");
        assert_eq!(plot.size(), 16);
        assert_adjacency(&plot);
    }
}

#[test]
fn propagation_from_collapsed_cell() {
    let mut gen = PlotGenerator::new(3);
    assert_eq!(gen.collapse_cell((0, 0), 0), Ok(()));
    assert!(matches!(gen.cell(0, 0), WaveState::Collapsed(River)));
    gen.update_neighbours((0, 0));
    for (x, y) in [(0, 1), (1, 0), (1, 1)] {
        assert!(matches!(gen.cell(x, y), WaveState::Superposition(s) if *s == vec![River, Wasteland]));
    }
    for (x, y) in [(0, 2), (2, 0), (2, 2), (1, 2), (2, 1)] {
        assert!(matches!(gen.cell(x, y), WaveState::Superposition(s) if s.len() == 3));
    }
}

#[test]
fn propagation_from_open_cell_uses_union() {
    let cells = vec![
        open(&[River]),
        open(&[River, Wasteland, Farmland]),
        WaveState::Collapsed(Farmland),
        open(&[Farmland]),
    ];
    let mut gen = grid(2, cells);
    gen.update_neighbours((0, 0));
    assert!(matches!(gen.cell(0, 1), WaveState::Superposition(s) if *s == vec![River, Wasteland]));
    assert!(matches!(gen.cell(1, 0), WaveState::Collapsed(Farmland)));
    assert!(matches!(gen.cell(1, 1), WaveState::Superposition(s) if s.is_empty()));
}

#[test]
fn entropy_never_grows_across_propagation() {
    let mut gen = PlotGenerator::new(4);
    let mut before = 3;
    let sources = [((0, 0), 0usize), ((2, 2), 2), ((1, 2), 0), ((2, 0), 1)];
    for ((x, y), choice) in sources {
        if gen.collapse_cell((x, y), choice).is_ok() {
            gen.update_neighbours((x, y));
        }
        let now = match gen.cell(1, 1) {
            WaveState::Superposition(s) => s.len(),
            WaveState::Collapsed(_) => 0,
        };
        assert!(now <= before);
        before = now;
    }
    assert!(matches!(gen.cell(1, 1), WaveState::Superposition(s) if *s == vec![Wasteland]));
}

fn tiles_of(plot: &Plot) -> Vec<Tile> {
    let n = plot.size();
    let mut out = Vec::new();
    for x in 0..n {
        for y in 0..n {
            out.push(plot.tile(x, y));
        }
    }
    out
}

#[test]
fn same_picks_give_same_grid() {
    let picks: Vec<(usize, usize)> = (0..300).map(|i| (i * 7 + 3, i * 5 + 1)).collect();
    let mut a = PlotGenerator::new(8);
    let mut b = PlotGenerator::new(8);
    assert_eq!(a.collapse_with_picks(&picks), Ok(true));
    assert_eq!(b.collapse_with_picks(&picks), Ok(true));
    let pa = a.into_plot().expect("finished");
    let pb = b.into_plot().expect("finished");
    assert_eq!(tiles_of(&pa), tiles_of(&pb));
    assert_adjacency(&pa);
}

#[test]
fn picks_that_run_out_leave_grid_open() {
    let mut gen = PlotGenerator::new(3);
    assert_eq!(gen.collapse_with_picks(&vec![(0, 0), (0, 0)]), Ok(false));
    let mut collapsed = 0;
    for x in 0..3 {
        for y in 0..3 {
            if matches!(gen.cell(x, y), WaveState::Collapsed(_)) {
                collapsed += 1;
            }
        }
    }
    assert_eq!(collapsed, 2);
    assert_eq!(gen.into_plot().err(), Some(CollapseError::InvariantViolation));
}

#[test]
fn first_step_follows_the_picks() {
    let mut gen = PlotGenerator::new(3);
    assert_eq!(gen.step(4, 5), Ok(true));
    assert!(matches!(gen.cell(1, 1), WaveState::Collapsed(Farmland)));
    for (x, y) in [(0, 0), (0, 1), (0, 2), (1, 0), (1, 2), (2, 0), (2, 1), (2, 2)] {
        assert!(matches!(gen.cell(x, y), WaveState::Superposition(s) if *s == vec![Wasteland, Farmland]));
    }
}

#[test]
fn single_cell_grid_finishes_in_one_round() {
    for kinds in [vec![Farmland], vec![River, Wasteland, Farmland]] {
        let mut gen = grid(1, vec![open(&kinds)]);
        assert_eq!(gen.step(9, 1), Ok(true));
        assert!(matches!(gen.cell(0, 0), WaveState::Collapsed(t) if *t == kinds[1 % kinds.len()]));
        assert_eq!(gen.step(0, 0), Ok(false));

        let mut gen = grid(1, vec![open(&kinds)]);
        assert_eq!(gen.collapse(), Ok(()));
        let plot = gen.into_plot().expect("finished");
        assert!(kinds.contains(&plot.tile(0, 0)));
    }
}

#[test]
fn contradiction_surfaces_as_error() {
    let cells = vec![
        WaveState::Collapsed(River),
        open(&[River, Farmland]),
        WaveState::Collapsed(Farmland),
        WaveState::Collapsed(Wasteland),
    ];
    let mut gen = grid(2, cells);
    gen.update_neighbours((0, 0));
    gen.update_neighbours((1, 0));
    assert!(matches!(gen.cell(0, 1), WaveState::Superposition(s) if s.is_empty()));
    assert_eq!(gen.collapse(), Err(CollapseError::Contradiction));
    assert!(matches!(gen.cell(0, 1), WaveState::Superposition(s) if s.is_empty()));
    assert_eq!(gen.collapse_cell((0, 1), 0), Err(CollapseError::Contradiction));
    assert_eq!(gen.step(0, 0), Err(CollapseError::Contradiction));
}

#[test]
fn from_cells_checks_the_shape() {
    assert!(PlotGenerator::from_cells(0, vec![]).is_none());
    assert!(PlotGenerator::from_cells(2, vec![WaveState::default(); 3]).is_none());
    assert!(PlotGenerator::from_cells(2, vec![WaveState::default(); 4]).is_some());
}

#[test]
fn finished_grid_into_plot() {
    let cells = vec![
        WaveState::Collapsed(River),
        WaveState::Collapsed(Wasteland),
        WaveState::Collapsed(Farmland),
        WaveState::Collapsed(Wasteland),
    ];
    let plot = grid(2, cells).into_plot().expect("finished");
    assert_eq!(tiles_of(&plot), vec![River, Wasteland, Farmland, Wasteland]);
    assert_eq!(plot.tile(1, 0), Farmland);
}
