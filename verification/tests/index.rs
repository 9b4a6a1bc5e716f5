use viv::Index;

#[test]
fn origin_is_zero() {
    let o = Index::origin();
    assert_eq!(o, Index { x: 0, y: 0 });
}

#[test]
fn moves_shift_by_one_unit() {
    let i = Index { x: 3, y: -7 };
    assert_eq!(i.up(), Index { x: 3, y: -6 });
    assert_eq!(i.down(), Index { x: 3, y: -8 });
    assert_eq!(i.left(), Index { x: 2, y: -7 });
    assert_eq!(i.right(), Index { x: 4, y: -7 });
}

#[test]
fn moves_round_trip() {
    let samples = vec![
        Index { x: 0, y: 0 },
        Index { x: 5, y: 9 },
        Index { x: -13, y: 4 },
        Index { x: 1000, y: -1000 },
    ];
    for i in samples {
        assert_eq!(i.up().down(), i);
        assert_eq!(i.down().up(), i);
        assert_eq!(i.left().right(), i);
        assert_eq!(i.right().left(), i);
    }
}

#[test]
fn neighbors_are_eight_distinct_adjacent_cells() {
    let i = Index { x: 3, y: -2 };
    let nbrs = i.neighbors();
    assert_eq!(nbrs.len(), 8);
    for a in 0..8 {
        assert_ne!(nbrs[a], i);
        let dx = (nbrs[a].x - i.x).abs();
        let dy = (nbrs[a].y - i.y).abs();
        assert_eq!(dx.max(dy), 1);
        for b in 0..8 {
            if a != b {
                assert_ne!(nbrs[a], nbrs[b]);
            }
        }
    }
}

#[test]
fn neighbors_come_in_fixed_order() {
    let nbrs = Index::origin().neighbors();
    let expected = [
        Index { x: -1, y: 1 },
        Index { x: 0, y: 1 },
        Index { x: 1, y: 1 },
        Index { x: 1, y: 0 },
        Index { x: 1, y: -1 },
        Index { x: 0, y: -1 },
        Index { x: -1, y: -1 },
        Index { x: -1, y: 0 },
    ];
    assert_eq!(nbrs, expected);
}

#[test]
fn to_text_renders_coordinates() {
    assert_eq!(Index::origin().to_text(), "(0, 0)");
    assert_eq!(Index { x: 3, y: -7 }.to_text(), "(3, -7)");
    assert_eq!(Index { x: -120, y: 45 }.to_text(), "(-120, 45)");
    assert_eq!(Index { x: 9070, y: 10 }.to_text(), "(9070, 10)");
}

#[test]
fn to_text_matches_standard_formatting_at_the_extremes() {
    let i = Index { x: isize::MIN, y: isize::MAX };
    assert_eq!(i.to_text(), format!("({}, {})", isize::MIN, isize::MAX));
}

#[test]
fn neighbors_vec_matches_neighbors() {
    let i = Index { x: -4, y: 11 };
    let arr = i.neighbors();
    let v = i.neighbors_vec();
    assert_eq!(v.len(), 8);
    for k in 0..8 {
        assert_eq!(v[k], arr[k]);
    }
}
