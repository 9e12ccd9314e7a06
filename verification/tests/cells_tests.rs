use catalog::cells::{covering_from_intersecting, expand_cell_parents, get_children_at_base};
use geo::{BooleanOps, BoundingRect, GeodesicArea, LineString, MultiPolygon, Polygon};
use s2::cellid::CellID;

fn token(id: u64) -> String {
    CellID(id).to_token()
}

fn cell(t: &str) -> u64 {
    CellID::from_token(t).0
}

fn ring(points: &[(f64, f64)]) -> Polygon<f64> {
    Polygon::new(LineString::from(points.to_vec()), vec![])
}

/// The share of a cell that the outline covers (floating point, as the
/// updater computes it).
fn coverage_of_cell(polygon: &MultiPolygon<f64>, cell_id: u64) -> f64 {
    let cell: s2::cell::Cell = CellID(cell_id).into();
    let corner = |i, j| (cell.longitude(i, j).deg(), cell.latitude(i, j).deg());
    let cell_polygon = ring(&[corner(0, 0), corner(0, 1), corner(1, 1), corner(1, 0), corner(0, 0)]);
    let cell_area = cell_polygon.geodesic_area_signed().abs();
    polygon.intersection(&cell_polygon).geodesic_area_signed().abs() / cell_area
}

/// The covering as the updater computes it: the floating-point steps here,
/// the cell steps in the library.
fn covering_s2_cells(polygon: &MultiPolygon<f64>) -> Vec<u64> {
    let rect = polygon.bounding_rect().unwrap();
    let coverer = s2::region::RegionCoverer { min_level: 0, max_level: 12, level_mod: 1, max_cells: usize::MAX };
    let s2_rect = s2::rect::Rect::from_degrees(rect.min().y, rect.min().x, rect.max().y, rect.max().x);
    let bbox_cells: Vec<u64> = coverer.covering(&s2_rect).0.into_iter().map(|c| c.0).collect();
    let children = get_children_at_base(bbox_cells);
    let intersecting: Vec<u64> = children.into_iter().filter(|c| coverage_of_cell(polygon, *c) > 0.0).collect();
    covering_from_intersecting(intersecting)
}

#[test]
fn test_covering_s2_cells() {
    let polygon = ring(&[
        (130.59011515516988, 30.338085913448012),
        (130.58451092777312, 30.33241331762953),
        (130.58856924351488, 30.328005163515115),
        (130.5965268876003, 30.332905838105475),
        (130.59470078699604, 30.33793038867809),
        (130.59011515516988, 30.338085913448012),
    ]);
    let cells = covering_s2_cells(&polygon.into()).into_iter().map(token).collect::<Vec<String>>();
    let expected_cells = vec![
        "3", "34", "35", "353", "353c", "353d", "353d204", "353d21", "353d21c", "353d24", "353d3", "353d4", "354",
    ];
    assert_eq!(expected_cells, cells);
}

#[test]
fn children_at_base_keeps_base_cells_and_splits_others() {
    let base = CellID(cell("353d204")).child_begin_at_level(12).0;
    assert_eq!(CellID(base).level(), 12);
    let upper = cell("353d24");
    assert!(CellID(upper).level() < 12);
    let mut got = get_children_at_base(vec![base, upper, base]);
    got.sort();
    let mut want: Vec<u64> = CellID(upper).children().iter().map(|c| c.0).collect();
    want.push(base);
    want.sort();
    assert_eq!(got, want);
    assert_eq!(get_children_at_base(vec![]), Vec::<u64>::new());
}

#[test]
fn parents_are_listed_once_in_rising_order() {
    let a = cell("353d204");
    let b = cell("353d21c");
    let got = expand_cell_parents(vec![a, b]);
    let mut want: Vec<u64> = Vec::new();
    for c in [a, b] {
        for level in 0..CellID(c).level() {
            want.push(CellID(c).parent(level).0);
        }
    }
    want.sort();
    want.dedup();
    assert_eq!(got, want);
    // a face cell has no ancestors
    assert_eq!(expand_cell_parents(vec![cell("3")]), Vec::<u64>::new());
}

#[test]
fn covering_normalizes_siblings_first() {
    let parent = cell("353d24");
    let children: Vec<u64> = CellID(parent).children().iter().map(|c| c.0).collect();
    // the four children merge into their parent, whose ancestors are listed
    let got = covering_from_intersecting(children);
    let mut want: Vec<u64> = (0..CellID(parent).level()).map(|l| CellID(parent).parent(l).0).collect();
    want.sort();
    assert_eq!(got, want);
    assert!(!got.contains(&parent));
}

#[test]
fn a_covering_lists_every_cell_above_each_of_its_cells() {
    let a = CellID(cell("353d204")).child_begin_at_level(12).0;
    let b = CellID(cell("354")).child_begin_at_level(12).0;
    let got = covering_from_intersecting(vec![a, b]);
    for x in &got {
        for level in 0..CellID(*x).level() {
            assert!(got.contains(&CellID(*x).parent(level).0));
        }
    }
    assert!(got.windows(2).all(|w| w[0] < w[1]));
}

#[test]
fn no_cells_give_no_covering() {
    assert_eq!(covering_from_intersecting(vec![]), Vec::<u64>::new());
}

#[test]
fn every_covering_cell_contains_a_given_cell() {
    let a = CellID(cell("353d204")).child_begin_at_level(12).0;
    let b = CellID(cell("354")).child_begin_at_level(12).0;
    let given = vec![a, b];
    let got = covering_from_intersecting(given.clone());
    assert!(!got.is_empty());
    for x in &got {
        assert!(CellID(*x).level() < 12);
        assert!(given.iter().any(|g| CellID(*x).contains(&CellID(*g)) && *x != *g));
    }
}

#[test]
fn parents_are_listed_for_any_id_with_a_level() {
    // an id whose level bit is at an odd position still has a level (30 - 1/2 = 30)
    let got = expand_cell_parents(vec![0b10]);
    assert_eq!(got.len(), 30);
    assert!(got.windows(2).all(|w| w[0] < w[1]));
}
