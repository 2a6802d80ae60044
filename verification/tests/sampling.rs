use bluenoise::bb::HasBB;
use bluenoise::point::Point;
use bluenoise::poisson_disc::poisson_disc;
use bluenoise::rng::RandomSource;

fn dist_sq(a: Point, b: Point) -> i64 {
    let dx = a.x - b.x;
    let dy = a.y - b.y;
    dx * dx + dy * dy
}

fn square_region(x0: i64, y0: i64, x1: i64, y1: i64) -> Vec<Point> {
    vec![Point::xy(x0, y0), Point::xy(x1, y1)]
}

/// Fixed-seed scenario: a moderate box, radius 20, k = 5. The result is a
/// small set of points, pairwise more than 20 apart, all inside the box.
#[test]
fn scenario_rectangle() {
    let mut rng = RandomSource::from_seed(1);
    let points = poisson_disc(&mut rng, square_region(10, 10, 90, 90), 20, 5);
    assert!(
        points.len() >= 8 && points.len() <= 20,
        "unexpected number of points: {}",
        points.len()
    );
    for p in &points {
        assert!(10 <= p.x && p.x <= 90, "x out of box: {}", p.x);
        assert!(10 <= p.y && p.y <= 90, "y out of box: {}", p.y);
    }
    for (i, &p) in points.iter().enumerate() {
        for (j, &q) in points.iter().enumerate() {
            if i != j {
                assert!(dist_sq(p, q) > 20 * 20, "too close: {:?} {:?}", p, q);
            }
        }
    }
}

/// The separation invariant also holds for a denser configuration.
#[test]
fn separation_invariant_dense() {
    let mut rng = RandomSource::from_seed(99);
    let points = poisson_disc(&mut rng, square_region(0, 0, 200, 120), 7, 12);
    assert!(points.len() > 20);
    for (i, &p) in points.iter().enumerate() {
        for (j, &q) in points.iter().enumerate() {
            if i != j {
                assert!(dist_sq(p, q) > 7 * 7, "too close: {:?} {:?}", p, q);
            }
        }
    }
    for p in &points {
        assert!(0 <= p.x && p.x <= 200);
        assert!(0 <= p.y && p.y <= 120);
    }
}

/// The same seed gives the same output, call after call.
#[test]
fn deterministic_for_fixed_seed() {
    let mut rng1 = RandomSource::from_seed(42);
    let a = poisson_disc(&mut rng1, square_region(10, 10, 90, 90), 20, 5);
    let mut rng2 = RandomSource::from_seed(42);
    let b = poisson_disc(&mut rng2, square_region(10, 10, 90, 90), 20, 5);
    assert_eq!(a, b);
    let mut rng3 = RandomSource::from_seed(43);
    let c = poisson_disc(&mut rng3, square_region(10, 10, 90, 90), 20, 5);
    // a different seed is allowed to differ, and here it does
    assert_ne!(a, c);
}

/// A zero-width region yields an empty result, not a crash.
#[test]
fn degenerate_zero_width() {
    let mut rng = RandomSource::from_seed(0);
    let points = poisson_disc(&mut rng, square_region(5, 5, 5, 80), 10, 5);
    assert!(points.is_empty());
}

/// A zero-height region yields an empty result.
#[test]
fn degenerate_zero_height() {
    let mut rng = RandomSource::from_seed(0);
    let points = poisson_disc(&mut rng, square_region(5, 80, 90, 80), 10, 5);
    assert!(points.is_empty());
}

/// A single point has a zero-extent bounding box: empty result.
#[test]
fn degenerate_single_point() {
    let mut rng = RandomSource::from_seed(0);
    let points = poisson_disc(&mut rng, Point::xy(30, 40), 10, 5);
    assert!(points.is_empty());
}

/// The empty region (its box is the inverted neutral box) yields nothing.
#[test]
fn degenerate_empty_collection() {
    let mut rng = RandomSource::from_seed(0);
    let empty_region: Vec<Point> = Vec::new();
    let points = poisson_disc(&mut rng, empty_region, 10, 5);
    assert!(points.is_empty());
}

/// With no candidate attempts allowed, every active sample retires at once:
/// the result is exactly the seed point, the box's centre.
#[test]
fn zero_attempts_yields_centre() {
    let mut rng = RandomSource::from_seed(0);
    let points = poisson_disc(&mut rng, square_region(10, 10, 90, 90), 20, 0);
    assert_eq!(points, vec![Point::xy(50, 50)]);
}

/// The centre seed is always part of a non-degenerate result.
#[test]
fn result_contains_centre() {
    let mut rng = RandomSource::from_seed(7);
    let points = poisson_disc(&mut rng, square_region(0, 0, 64, 64), 16, 6);
    assert!(points.contains(&Point::xy(32, 32)));
}

/// The region capability unions bounding boxes, so scattered points span
/// their hull box and sampling covers it.
#[test]
fn region_from_many_points() {
    let region = vec![
        Point::xy(40, 70),
        Point::xy(0, 10),
        Point::xy(80, 30),
        Point::xy(20, 0),
    ];
    let bb = region.bb();
    assert_eq!(bb.min(), Point::xy(0, 0));
    assert_eq!(bb.max(), Point::xy(80, 70));
    let mut rng = RandomSource::from_seed(5);
    let points = poisson_disc(&mut rng, region, 15, 5);
    assert!(!points.is_empty());
    for p in &points {
        assert!(0 <= p.x && p.x <= 80);
        assert!(0 <= p.y && p.y <= 70);
    }
}

/// The random source respects its bounds and is reproducible.
#[test]
fn random_source_bounds() {
    let mut rng = RandomSource::from_seed(11);
    let mut seen = [false; 10];
    for _ in 0..200 {
        let i = rng.next_index(10);
        assert!(i < 10);
        seen[i] = true;
    }
    // a real generator hits more than one value in 200 draws
    assert!(seen.iter().filter(|&&s| s).count() > 1);
    for _ in 0..200 {
        let v = rng.next_between(-3, 7);
        assert!(-3 <= v && v <= 7);
    }
    let mut r1 = RandomSource::from_seed(8);
    let mut r2 = RandomSource::from_seed(8);
    for _ in 0..50 {
        assert_eq!(r1.next_between(0, 1000), r2.next_between(0, 1000));
        assert_eq!(r1.next_index(17), r2.next_index(17));
    }
}
