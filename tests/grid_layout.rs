use grid_layout::CellSize::{Auto, Percent};
use grid_layout::{resolve_tracks, CellSize, Fraction, Layout};

fn is_value(f: &Fraction, v: i128) -> bool {
    f.den > 0 && f.num == v * f.den as i128
}

fn values(t: &[CellSize], len: u32) -> Vec<f64> {
    resolve_tracks(t, len)
        .iter()
        .map(|f| f.num as f64 / f.den as f64)
        .collect()
}

fn demo_layout() -> Layout {
    Layout::new()
        .with_columns(&[Percent(20), Auto, Auto, Percent(20)])
        .with_rows(&[Percent(15), Auto])
        .with_viewport(800, 600)
        .build()
        .unwrap()
}

#[test]
fn scenario_base_sizes() {
    let cols = resolve_tracks(&[Percent(20), Auto, Auto, Percent(20)], 800);
    let expected = [160, 240, 240, 160];
    assert_eq!(cols.len(), 4);
    for (f, v) in cols.iter().zip(expected.iter()) {
        assert!(is_value(f, *v), "{:?} is not {}", f, v);
    }
    let rows = resolve_tracks(&[Percent(15), Auto], 600);
    assert_eq!(rows.len(), 2);
    assert!(is_value(&rows[0], 90));
    assert!(is_value(&rows[1], 510));
}

#[test]
fn scenario_first_and_last_rectangle() {
    let grid = demo_layout().get_grid();
    assert_eq!(grid.len(), 8);
    let (x1, y1, x2, y2) = grid[0];
    assert!(is_value(&x1, 0) && is_value(&y1, 0) && is_value(&x2, 160) && is_value(&y2, 90));
    let (x1, y1, x2, y2) = grid[7];
    assert!(is_value(&x1, 640) && is_value(&y1, 90) && is_value(&x2, 800) && is_value(&y2, 600));
}

#[test]
fn full_coverage_with_auto_tracks() {
    for (t, len) in [
        (vec![Percent(20), Auto, Auto, Percent(20)], 800u32),
        (vec![Auto, Auto, Auto], 100),
        (vec![Percent(33), Auto, Percent(10)], 7),
        (vec![Percent(150), Auto], 50),
    ] {
        let r = resolve_tracks(&t, len);
        let sum: i128 = r.iter().map(|f| f.num).sum();
        assert!(r.iter().all(|f| f.den == r[0].den));
        assert_eq!(sum, len as i128 * r[0].den as i128);
    }
}

#[test]
fn full_coverage_percentages_of_one_hundred() {
    let r = resolve_tracks(&[Percent(25), Percent(75)], 400);
    assert!(is_value(&r[0], 100));
    assert!(is_value(&r[1], 300));
}

#[test]
fn percentages_below_one_hundred_leave_space() {
    let r = resolve_tracks(&[Percent(50)], 800);
    assert!(is_value(&r[0], 400));
}

#[test]
fn rectangles_tile_the_viewport() {
    let layout = Layout::new()
        .with_columns(&[Auto, Percent(30), Auto])
        .with_rows(&[Auto, Auto])
        .with_viewport(300, 200)
        .build()
        .unwrap();
    let grid = layout.get_grid();
    let v = |f: &Fraction| f.num as f64 / f.den as f64;
    let area: f64 = grid.iter().map(|(a, b, c, d)| (v(c) - v(a)) * (v(d) - v(b))).sum();
    assert!((area - 300.0 * 200.0).abs() < 1e-6);
    for r in 0..2 {
        for c in 0..3 {
            let cell = grid[r * 3 + c];
            if c + 1 < 3 {
                assert_eq!(v(&cell.2), v(&grid[r * 3 + c + 1].0));
            } else {
                assert!(is_value(&cell.2, 300));
            }
            if r + 1 < 2 {
                assert_eq!(v(&cell.3), v(&grid[(r + 1) * 3 + c].1));
            } else {
                assert!(is_value(&cell.3, 200));
            }
        }
    }
}

#[test]
fn row_major_order() {
    let grid = demo_layout().get_grid();
    let n_cols = 4;
    for r in 0..2 {
        for c in 0..n_cols {
            let cell = grid[r * n_cols + c];
            assert_eq!(cell.1, grid[r * n_cols].1);
            assert_eq!(cell.3, grid[r * n_cols].3);
            assert_eq!(cell.0, grid[c].0);
            assert_eq!(cell.2, grid[c].2);
        }
    }
    assert!(is_value(&grid[1].0, 160));
    assert!(is_value(&grid[4].1, 90));
}

#[test]
fn percent_track_ignores_other_tracks() {
    for others in [vec![], vec![Auto], vec![Percent(90), Auto, Auto], vec![Percent(10)]] {
        let mut t = vec![Percent(25)];
        t.extend(others);
        let r = resolve_tracks(&t, 400);
        assert!(is_value(&r[0], 100));
    }
    let r = resolve_tracks(&[Percent(1)], 250);
    assert_eq!(r[0].num * 2, 5 * r[0].den as i128);
}

#[test]
fn auto_tracks_split_evenly() {
    assert_eq!(values(&[Auto, Auto, Auto], 900), vec![300.0, 300.0, 300.0]);
    let r = resolve_tracks(&[Auto, Auto, Auto], 100);
    for f in &r {
        assert_eq!(f.num * 3, 100 * f.den as i128);
    }
}

#[test]
fn default_tracks_give_one_cell() {
    let layout = Layout::new().with_viewport(640, 480).build().unwrap();
    assert_eq!(layout.columns, vec![Auto]);
    assert_eq!(layout.rows, vec![Auto]);
    let grid = layout.get_grid();
    assert_eq!(grid.len(), 1);
    let (x1, y1, x2, y2) = grid[0];
    assert!(is_value(&x1, 0) && is_value(&y1, 0) && is_value(&x2, 640) && is_value(&y2, 480));
}

#[test]
fn missing_viewport_is_an_error() {
    let r = Layout::new().with_columns(&[Auto]).with_rows(&[Auto]).build();
    assert_eq!(r.unwrap_err(), "ViewPort size not defined.");
    assert!(Layout::new().build().is_err());
}

#[test]
fn setters_replace_earlier_values() {
    let layout = Layout::new()
        .with_columns(&[Auto, Auto])
        .with_columns(&[Percent(40)])
        .with_viewport(1, 1)
        .with_viewport(10, 20)
        .build()
        .unwrap();
    assert_eq!(layout.columns, vec![Percent(40)]);
    assert_eq!(layout.viewport, (10, 20));
}

#[test]
fn oversized_percentages_give_negative_auto_track() {
    let r = resolve_tracks(&[Percent(80), Percent(40), Auto], 100);
    assert!(is_value(&r[0], 80));
    assert!(is_value(&r[1], 40));
    assert!(is_value(&r[2], -20));
}

#[test]
fn negative_percentage_is_accepted() {
    let r = resolve_tracks(&[Percent(-10), Auto], 100);
    assert!(is_value(&r[0], -10));
    assert!(is_value(&r[1], 110));
}

#[test]
fn empty_track_list_gives_no_cells() {
    let layout = Layout::new().with_columns(&[]).with_viewport(100, 100).build().unwrap();
    assert!(layout.columns.is_empty());
    assert!(layout.get_grid().is_empty());
    assert!(resolve_tracks(&[], 100).is_empty());
}

#[test]
fn zero_viewport_gives_empty_cells() {
    let layout = Layout::new().with_viewport(0, 0).build().unwrap();
    let grid = layout.get_grid();
    assert_eq!(grid.len(), 1);
    assert!(is_value(&grid[0].2, 0) && is_value(&grid[0].3, 0));
}

#[test]
fn largest_viewport_and_percentages() {
    let r = resolve_tracks(&[Percent(i32::MAX), Percent(i32::MIN), Auto], u32::MAX);
    let sum: i128 = r.iter().map(|f| f.num).sum();
    assert_eq!(sum, u32::MAX as i128 * r[0].den as i128);
    assert_eq!(r[0].num * 100, i32::MAX as i128 * u32::MAX as i128 * r[0].den as i128);
}
