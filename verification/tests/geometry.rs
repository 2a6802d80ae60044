use bluenoise::bb::{HasBB, BB};
use bluenoise::grid::Grid;
use bluenoise::point::Point;

fn boxed(x0: i64, y0: i64, x1: i64, y1: i64) -> BB {
    BB { min: Point::xy(x0, y0), max: Point::xy(x1, y1) }
}

#[test]
fn bb_of_point_and_pair() {
    let p = Point::xy(3, -4);
    assert_eq!(p.bb().min(), p);
    assert_eq!(p.bb().max(), p);
    let pair = (Point::xy(1, 9), Point::xy(5, 2));
    let bb = pair.bb();
    assert_eq!(bb.min(), Point::xy(1, 2));
    assert_eq!(bb.max(), Point::xy(5, 9));
    let triple = (Point::xy(0, 0), Point::xy(-7, 4), Point::xy(3, -1));
    let bb3 = triple.bb();
    assert_eq!(bb3.min(), Point::xy(-7, -1));
    assert_eq!(bb3.max(), Point::xy(3, 4));
}

#[test]
fn bb_merge_and_empty() {
    let a = boxed(0, 0, 10, 10);
    let b = boxed(5, -5, 20, 8);
    let m = a.merge(b);
    assert_eq!(m, boxed(0, -5, 20, 10));
    // the empty box is neutral under merge
    assert_eq!(BB::empty().merge(a), a);
    assert_eq!(a.merge(BB::empty()), a);
}

#[test]
fn bb_center() {
    assert_eq!(boxed(10, 10, 90, 90).center(), Point::xy(50, 50));
    assert_eq!(boxed(-10, 0, 10, 5).center(), Point::xy(0, 2));
    assert_eq!(boxed(3, 3, 3, 3).center(), Point::xy(3, 3));
}

#[test]
fn bb_is_inside() {
    let outer = boxed(0, 0, 100, 100);
    assert!(boxed(10, 10, 20, 20).is_inside(outer));
    assert!(outer.is_inside(outer));
    assert!(!boxed(-1, 10, 20, 20).is_inside(outer));
    assert!(!boxed(10, 10, 20, 101).is_inside(outer));
    // a point's box against a region box, as the sampler tests candidates
    let p = Point::xy(50, 100);
    assert!(p.bb().is_inside(outer));
    let q = Point::xy(50, 101);
    assert!(!q.bb().is_inside(outer));
}

#[test]
fn grid_size_matches_cell_count() {
    // an 80 x 80 box with cell side 14 gives 6 columns and 6 rows
    let g = Grid::new(14, boxed(10, 10, 90, 90));
    assert_eq!(g.size(), 36);
    // a box narrower than one cell still gets one column
    let g2 = Grid::new(50, boxed(0, 0, 10, 200));
    assert_eq!(g2.size(), 5);
}

/// Points exactly `1.01 * radius` apart land within each other's 5x5 cell
/// neighbourhood; points far outside the block are not reported.
#[test]
fn grid_neighbourhood() {
    // radius 100 gives cell side floor(100 / sqrt(2)) = 70
    let mut g = Grid::new(70, boxed(0, 0, 500, 500));
    let p1 = Point::xy(200, 200);
    let p2 = Point::xy(301, 200);
    let p3 = Point::xy(480, 20);
    g.insert(p1);
    g.insert(p2);
    g.insert(p3);
    let near = g.neighbouring_points(p1);
    assert!(near.contains(&p2), "nearby point missing from neighbourhood");
    assert!(!near.contains(&p3), "distant point reported as neighbour");
    assert!(near.contains(&p1), "the query point's own cell is part of the block");
}

/// Inserting into an occupied cell overwrites the slot.
#[test]
fn grid_insert_overwrites() {
    let mut g = Grid::new(70, boxed(0, 0, 500, 500));
    let p1 = Point::xy(200, 200);
    let p1b = Point::xy(205, 203);
    g.insert(p1);
    g.insert(p1b);
    let near = g.neighbouring_points(p1);
    assert!(near.contains(&p1b));
    assert!(!near.contains(&p1));
}
