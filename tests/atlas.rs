use hoydedata::atlas::{Atlas, Probe, TileHeader};
use hoydedata::coord::Coord;
use hoydedata::errors::Error;
use hoydedata::tile::{Stencil, Tile};

/// A 10 x 10 tile with 1 m pixels and its north-west corner at `nw`, not loaded.
fn tile(name: &str, nw: Coord, delta_n: i32) -> Tile {
    Tile::new(name, "", 10, 10, Coord::new(100, delta_n), nw).unwrap()
}

fn samples() -> Vec<u32> {
    (0..100u32).map(|i| (i / 10) * 100 + i % 10).collect()
}

/// Runs a point lookup to its end, loading tiles with `samples()` on demand.
fn lookup_loading(a: &mut Atlas, c: &Coord) -> Probe<u32> {
    loop {
        match a.lookup(c) {
            Probe::Load(i) => a.load_tile(i, samples()).unwrap(),
            other => return other,
        }
    }
}

#[test]
fn end_to_end_single_tile() {
    let mut a = Atlas::from_tiles(vec![tile("t.tif", Coord::new(0, 0), 100)]);
    let c = Coord::new(550, -550);
    assert_eq!(a.lookup(&c), Probe::Load(0));
    assert_eq!(lookup_loading(&mut a, &c), Probe::Found(505));
    assert_eq!(a.lookup(&Coord::new(500, -500)), Probe::Found(505));
    // North of the corner lies outside the tile.
    assert_eq!(a.lookup(&Coord::new(500, 500)), Probe::NotFound);
    assert_eq!(a.lookup(&Coord::new(0, 0)), Probe::NotFound);
    assert_eq!(a.tiles[0].lookup(&Coord::new(0, 0)), Err(Error::LookupError(Coord::new(0, 0), String::from("t.tif"))));
}

#[test]
fn first_candidate_wins_and_border_skips() {
    let first = tile("a.tif", Coord::new(0, 0), 100);
    // Narrow pixels, in the same bucket cell as the first tile.
    let second = Tile::new("b.tif", "", 10, 10, Coord::new(30, 100), Coord::new(0, 500)).unwrap();
    let mut a = Atlas::from_tiles(vec![first, second]);
    a.load_tile(0, samples()).unwrap();
    a.load_tile(1, vec![9; 100]).unwrap();
    assert_eq!(a.lookup(&Coord::new(550, -250)), Probe::Found(205));
    // Column 0 of the first tile: it is skipped, the second answers.
    assert_eq!(a.lookup(&Coord::new(50, -250)), Probe::Found(9));
}

#[test]
fn gradient_probe() {
    let mut a = Atlas::from_tiles(vec![tile("t.tif", Coord::new(0, 0), 100)]);
    let c = Coord::new(350, -450);
    assert_eq!(a.lookup_with_gradient(&c), Probe::Load(0));
    a.load_tile(0, samples()).unwrap();
    assert_eq!(a.lookup_with_gradient(&c), Probe::Found(Stencil { h: 403, west: 402, east: 404, north: 303, south: 503 }));
}

#[test]
fn mockup_answers_synthetically() {
    let a = Atlas::new_mockup();
    assert_eq!(a.lookup(&Coord::new(1, 2)), Probe::Synthetic);
    assert_eq!(a.lookup_with_gradient(&Coord::new(1, 2)), Probe::Synthetic);
    assert!(a.is_empty());
}

#[test]
fn existence_queries() {
    let mut a = Atlas::from_tiles(vec![tile("t.tif", Coord::new(0, 0), 100)]);
    let inside = Coord::new(550, -550);
    let far = Coord::new(10_000_000, 10_000_000);
    assert!(a.has_maps(&inside));
    assert!(!a.has_maps(&far));
    assert!(!a.has_images(&inside));
    assert_eq!(a.unloaded(&inside), vec![0]);
    assert_eq!(a.lookup_maps(&inside), Ok(&vec![0]));
    assert_eq!(a.lookup_maps(&far), Err(Error::MapNotFound(far)));
    a.load_tile(0, samples()).unwrap();
    assert!(a.has_images(&inside));
    assert!(!a.has_images(&far));
    assert_eq!(a.unloaded(&inside), Vec::<usize>::new());
    assert!(!a.is_empty());
}

#[test]
fn load_tile_rejects_wrong_count() {
    let mut a = Atlas::from_tiles(vec![tile("t.tif", Coord::new(0, 0), 100)]);
    assert!(matches!(a.load_tile(0, vec![1; 99]), Err(Error::Generic(_))));
    assert_eq!(a.lookup(&Coord::new(550, -550)), Probe::Load(0));
}

#[test]
fn shared_tile_is_one_record() {
    // 2 km wide: the tile lies under several buckets.
    let big = Tile::new("big.tif", "", 200, 200, Coord::new(1000, 1000), Coord::new(0, 700_000_000)).unwrap();
    let a = Atlas::from_tiles(vec![big]);
    assert!(a.index.len() > 1);
    assert_eq!(a.records(), vec![0]);
}

#[test]
fn records_one_per_file_name() {
    let mut a = Atlas::from_tiles(vec![tile("x.tif", Coord::new(0, 0), 100), tile("y.tif", Coord::new(0, 0), 100)]);
    a.append(Atlas::from_tiles(vec![tile("x.tif", Coord::new(0, 0), 100), tile("z.tif", Coord::new(0, 0), 100)]));
    assert_eq!(a.tiles.len(), 4);
    assert_eq!(a.records(), vec![0, 1, 3]);
}

#[test]
fn rebuilt_index_answers_alike() {
    let mut a = Atlas::new_empty();
    a.add_tile(tile("a.tif", Coord::new(0, 0), 100));
    a.add_tile(tile("b.tif", Coord::new(-500, 500), 100));
    let kept: Vec<Tile> = a.records().iter().map(|&i| {
        let t = &a.tiles[i];
        Tile::new(&t.fname, &t.zipfile, t.width, t.height, t.delta, t.nw).unwrap()
    }).collect();
    let mut b = Atlas::from_tiles(kept);
    for c in [Coord::new(550, -250), Coord::new(50, -250), Coord::new(-300, 300), Coord::new(5000, 5000)] {
        assert_eq!(lookup_loading(&mut a, &c), lookup_loading(&mut b, &c));
    }
}

#[test]
fn merge_keeps_requested_resolution() {
    let ten = Atlas::from_tiles(vec![tile("a.tif", Coord::new(0, 0), 100), tile("b.tif", Coord::new(0, 0), 100)]);
    let one = Atlas::from_tiles(vec![tile("c.tif", Coord::new(0, 0), 1000)]);
    let empty = Atlas::new_empty();
    assert_eq!(ten.resolution(), Some(100));
    assert_eq!(empty.resolution(), None);
    let (m, n) = Atlas::new(100, vec![ten, one, empty]);
    assert_eq!(n, 1);
    let names: Vec<&str> = m.tiles.iter().map(|t| t.fname.as_str()).collect();
    assert_eq!(names, vec!["a.tif", "b.tif"]);
    assert!(m.tiles.iter().all(|t| t.delta.n == 100));
}

fn header(name: &str, nw: Coord) -> TileHeader {
    TileHeader { fname: String::from(name), zipfile: String::new(), width: 10, height: 10, delta: Coord::new(100, 100), nw }
}

#[test]
fn from_headers_builds_unloaded_index() {
    let a = Atlas::from_headers(&vec![header("a.tif", Coord::new(0, 0)), header("b.tif", Coord::new(0, 0))]).unwrap();
    assert!(!a.mockup);
    assert_eq!(a.tiles.len(), 2);
    assert!(a.tiles.iter().all(|t| !t.is_loaded()));
    assert_eq!(a.tiles[1].fname, "b.tif");
    assert_eq!(a.lookup(&Coord::new(550, -550)), Probe::Load(0));
}

#[test]
fn from_headers_fails_on_bad_header() {
    let mut bad = header("bad.tif", Coord::new(0, 0));
    bad.delta = Coord::new(0, 100);
    let r = Atlas::from_headers(&vec![header("a.tif", Coord::new(0, 0)), bad]);
    assert!(matches!(r, Err(Error::Generic(_))));
}

#[test]
fn stored_headers_rebuild_same_buckets() {
    let a = Atlas::from_tiles(vec![tile("a.tif", Coord::new(0, 0), 100), tile("b.tif", Coord::new(0, 0), 100)]);
    let headers: Vec<TileHeader> = a.records().iter().map(|&i| {
        let t = &a.tiles[i];
        TileHeader { fname: t.fname.clone(), zipfile: t.zipfile.clone(), width: t.width, height: t.height, delta: t.delta, nw: t.nw }
    }).collect();
    let b = Atlas::from_headers(&headers).unwrap();
    assert_eq!(a.index, b.index);
}
