use hoydedata::coord::Coord;
use hoydedata::errors::Error;
use hoydedata::tile::{Stencil, Tile};

/// A 10 x 10 tile with its north-west corner at `nw` and 1 m pixels; sample
/// at column x, row y is 100 * y + x.
fn grid_tile(name: &str, nw: Coord) -> Tile {
    let mut t = Tile::new(name, "", 10, 10, Coord::new(100, 100), nw).unwrap();
    let data: Vec<u32> = (0..100u32).map(|i| (i / 10) * 100 + i % 10).collect();
    t.load_image(data).unwrap();
    t
}

#[test]
fn coord_to_hash() {
    assert_eq!(Tile::coord_to_hash(&Coord::new(10000, 678974500)), 7790240);
}

#[test]
fn bucket_is_repeatable() {
    let c = Coord::new(-4_200_000, 700_000_000);
    assert_eq!(Tile::coord_to_hash(&c), Tile::coord_to_hash(&c.clone()));
    assert_eq!(Tile::coord_to_hash(&Coord::new(0, 640_000_000)), 240);
    assert_eq!(Tile::coord_to_hash(&Coord::new(-12_049_999, 639_950_001)), 0);
}

#[test]
fn new_derives_south_east_corner() {
    let t = Tile::new("a.tif", "z.zip", 200, 100, Coord::new(1000, 1000), Coord::new(50_000, 700_000_000)).unwrap();
    assert_eq!(t.se, Coord::new(250_000, 699_900_000));
    assert_eq!(t.resolution(), 1000);
    assert!(!t.is_loaded());
}

#[test]
fn new_rejects_bad_geometry() {
    let r = Tile::new("a.tif", "", 10, 10, Coord::new(0, 100), Coord::new(0, 0));
    assert!(matches!(r, Err(Error::Generic(_))));
    let r = Tile::new("a.tif", "", 10, 10, Coord::new(100, -100), Coord::new(0, 0));
    assert!(matches!(r, Err(Error::Generic(_))));
    let r = Tile::new("a.tif", "", 30_000_000, 10, Coord::new(100, 100), Coord::new(0, 0));
    assert!(matches!(r, Err(Error::Generic(_))));
    let r = Tile::new("a.tif", "", 10, 10, Coord::new(100, 100), Coord::new(0, -1_999_999_500));
    assert!(matches!(r, Err(Error::Generic(_))));
}

#[test]
fn new_accepts_wide_tiles() {
    let t = Tile::new("w.tif", "", 70_000, 20, Coord::new(100, 100), Coord::new(0, 700_000_000)).unwrap();
    assert_eq!(t.se, Coord::new(7_000_000, 699_998_000));
}

#[test]
fn hashes_contain_corner_buckets() {
    let t = Tile::new("a.tif", "", 100, 100, Coord::new(1000, 1000), Coord::new(50_000, 700_000_000)).unwrap();
    let h = t.hashes();
    assert!(h.contains(&Tile::coord_to_hash(&t.nw)));
    assert!(h.contains(&Tile::coord_to_hash(&t.se)));
    assert_eq!(h.len(), 9);
    let mut s = h.clone();
    s.sort();
    s.dedup();
    assert_eq!(s.len(), h.len());
}

#[test]
fn lookup_interior_and_border() {
    let t = grid_tile("g.tif", Coord::new(0, 0));
    assert_eq!(t.lookup(&Coord::new(550, -550)), Ok(505));
    assert_eq!(t.lookup(&Coord::new(150, -150)), Ok(101));
    assert_eq!(t.lookup(&Coord::new(850, -850)), Ok(808));
    for c in [Coord::new(50, -550), Coord::new(950, -550), Coord::new(550, -50), Coord::new(550, -950)] {
        assert_eq!(t.lookup(&c), Err(Error::LookupError(c, String::from("g.tif"))));
    }
}

#[test]
fn lookup_at_corner_fails() {
    let t = grid_tile("g.tif", Coord::new(0, 0));
    let c = Coord::new(0, 0);
    assert_eq!(t.lookup(&c), Err(Error::LookupError(c, String::from("g.tif"))));
    let north = Coord::new(500, 500);
    assert_eq!(t.lookup(&north), Err(Error::LookupError(north, String::from("g.tif"))));
}

#[test]
fn lookup_not_loaded() {
    let t = Tile::new("n.tif", "", 10, 10, Coord::new(100, 100), Coord::new(0, 0)).unwrap();
    assert_eq!(t.lookup(&Coord::new(550, -550)), Err(Error::MapNotLoaded(String::from("n.tif"))));
    assert_eq!(t.lookup(&Coord::new(50, -550)), Err(Error::LookupError(Coord::new(50, -550), String::from("n.tif"))));
}

#[test]
fn load_image_checks_count() {
    let mut t = Tile::new("n.tif", "", 10, 10, Coord::new(100, 100), Coord::new(0, 0)).unwrap();
    assert!(matches!(t.load_image(vec![1, 2, 3]), Err(Error::Generic(_))));
    assert!(!t.is_loaded());
    assert_eq!(t.load_image(vec![7; 100]), Ok(()));
    assert!(t.is_loaded());
}

#[test]
fn stencil_neighbours() {
    let t = grid_tile("g.tif", Coord::new(0, 0));
    assert_eq!(
        t.lookup_with_gradient(&Coord::new(350, -450)),
        Ok(Stencil { h: 403, west: 402, east: 404, north: 303, south: 503 })
    );
    let c = Coord::new(950, -450);
    assert_eq!(t.lookup_with_gradient(&c), Err(Error::LookupError(c, String::from("g.tif"))));
}
