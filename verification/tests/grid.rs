use viv::{Grid, Index};

fn idx(x: isize, y: isize) -> Index {
    Index { x, y }
}

#[test]
fn empty_grid_stays_empty() {
    let g = Grid::new(vec![]);
    let next = g.tick();
    assert!(!next.is_living(&Index::origin()));
    for x in -3..4 {
        for y in -3..4 {
            assert!(!next.is_living(&idx(x, y)));
        }
    }
}

#[test]
fn lone_cell_dies_of_underpopulation() {
    let g = Grid::new(vec![idx(0, 0)]);
    let next = g.tick();
    assert!(!next.is_living(&idx(0, 0)));
    for x in -2..3 {
        for y in -2..3 {
            assert!(!next.is_living(&idx(x, y)));
        }
    }
}

#[test]
fn block_is_stable() {
    let cells = vec![idx(0, 0), idx(1, 0), idx(0, 1), idx(1, 1)];
    let mut g = Grid::new(cells.clone());
    for _ in 0..3 {
        g = g.tick();
        for c in &cells {
            assert!(g.is_living(c));
        }
        for x in -2..4 {
            for y in -2..4 {
                let i = idx(x, y);
                if !cells.contains(&i) {
                    assert!(!g.is_living(&i));
                }
            }
        }
    }
}

#[test]
fn blinker_oscillates_with_period_two() {
    let row = vec![idx(-1, 0), idx(0, 0), idx(1, 0)];
    let column = vec![idx(0, -1), idx(0, 0), idx(0, 1)];
    let g = Grid::new(row.clone());

    let after_one = g.tick();
    for x in -3..4 {
        for y in -3..4 {
            let i = idx(x, y);
            assert_eq!(after_one.is_living(&i), column.contains(&i));
        }
    }

    let after_two = after_one.tick();
    for x in -3..4 {
        for y in -3..4 {
            let i = idx(x, y);
            assert_eq!(after_two.is_living(&i), row.contains(&i));
        }
    }
}

#[test]
fn living_neighbors_matches_manual_count() {
    let g = Grid::new(vec![idx(0, 0), idx(1, 1), idx(-1, -1), idx(2, 0), idx(1, 0)]);
    for x in -3..4 {
        for y in -3..4 {
            let i = idx(x, y);
            let mut manual = 0;
            for n in i.neighbors() {
                if g.is_living(&n) {
                    manual += 1;
                }
            }
            assert_eq!(g.living_neighbors(i), manual);
        }
    }
}

#[test]
fn living_neighbors_counts_diagonals() {
    let g = Grid::new(vec![idx(-1, 1), idx(1, 1), idx(-1, -1), idx(1, -1)]);
    assert_eq!(g.living_neighbors(idx(0, 0)), 4);
    assert_eq!(g.living_neighbors(idx(2, 2)), 1);
    assert_eq!(g.living_neighbors(idx(0, 2)), 2);
}

#[test]
fn new_reads_back_exactly_the_seed() {
    let seed = vec![idx(2, 3), idx(-4, 0), idx(2, 3), idx(7, -9)];
    let g = Grid::new(seed.clone());
    for i in &seed {
        assert!(g.is_living(i));
    }
    assert!(!g.is_living(&idx(0, 0)));
    assert!(!g.is_living(&idx(3, 2)));
    assert!(!g.is_living(&idx(-7, 9)));
}

#[test]
fn tick_leaves_receiver_unchanged() {
    let g = Grid::new(vec![idx(-1, 0), idx(0, 0), idx(1, 0)]);
    let mut before = Vec::new();
    for x in -3..4 {
        for y in -3..4 {
            before.push(g.is_living(&idx(x, y)));
        }
    }
    let _next = g.tick();
    let mut k = 0;
    for x in -3..4 {
        for y in -3..4 {
            assert_eq!(g.is_living(&idx(x, y)), before[k]);
            k += 1;
        }
    }
}

#[test]
fn kill_and_unkill_toggle_one_cell() {
    let mut g = Grid::new(vec![]);
    let i = idx(4, -5);
    assert!(!g.is_living(&i));

    g.unkill(i);
    assert!(g.is_living(&i));
    g.unkill(i);
    assert!(g.is_living(&i));

    g.kill(i);
    assert!(!g.is_living(&i));
    g.kill(i);
    assert!(!g.is_living(&i));

    assert!(!g.is_living(&idx(0, 0)));
}

#[test]
fn generate_stays_within_its_box() {
    let g = Grid::generate();
    assert!(!g.is_living(&idx(50, 0)));
    assert!(!g.is_living(&idx(-51, 0)));
    assert!(!g.is_living(&idx(0, 20)));
    assert!(!g.is_living(&idx(0, -21)));
    assert!(!g.is_living(&idx(100, 100)));
}

#[test]
fn grid_origin_is_index_origin() {
    assert_eq!(Grid::origin(), Index::origin());
}
