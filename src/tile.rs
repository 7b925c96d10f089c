use vstd::prelude::*;
use crate::coord::{Coord, COORD_LIMIT, in_range};
use crate::errors::{Error, ErrorView, result_view};

verus! {

/// Side of a bucket cell, in centimetres (500 m).
pub const CELL: i64 = 50_000;
/// Northing of the grid origin, in centimetres.
pub const GRID_NORTH: i64 = 640_000_000;
/// Easting offset of the grid origin, in centimetres.
pub const GRID_EAST: i64 = 12_000_000;
/// Largest width or height, in pixels, of a tile whose corners are in range:
/// pixels are at least a centimetre, and corners at most `2 * COORD_LIMIT` apart.
pub const SIDE_LIMIT: u64 = 4_000_000_000;

/// Integer division rounding toward zero, for a positive divisor.
pub open spec fn trunc_div(a: int, b: int) -> int {
    if a >= 0 { a / b } else { -((-a) / b) }
}

/// Bucket id of the 500 m cell that holds the point (`e`, `n`).
pub open spec fn bucket(e: int, n: int) -> int {
    trunc_div(n - GRID_NORTH, CELL as int) * 10_000 + trunc_div(e + GRID_EAST, CELL as int)
}

/// The cover enumeration samples bucket `h` at row step `i`, column step `j`:
/// `i` cells north of the south-east northing, `j` cells east of the north-west
/// easting, both within the tile.
pub open spec fn hit(nw: Coord, se: Coord, h: int, i: int, j: int) -> bool {
    &&& 0 <= i
    &&& 0 <= j
    &&& se.n + CELL * i <= nw.n
    &&& nw.e + CELL * j <= se.e
    &&& h == bucket(nw.e + CELL * j, se.n + CELL * i)
}

/// Bucket `h` is sampled before step (`i0`, `j0`) of the enumeration.
pub open spec fn seen(nw: Coord, se: Coord, h: int, i0: int, j0: int) -> bool {
    exists|i: int, j: int| #[trigger] hit(nw, se, h, i, j) && (i < i0 || (i == i0 && j < j0))
}

/// The bucket ids that a tile's cover enumeration samples: steps of one cell up
/// from the south-east northing and east from the north-west easting.
pub open spec fn cover(nw: Coord, se: Coord) -> Set<int> {
    Set::new(|h: int| exists|i: int, j: int| #[trigger] hit(nw, se, h, i, j))
}

proof fn lemma_seen_next(nw: Coord, se: Coord, i: int, j: int)
    requires
        0 <= i,
        0 <= j,
    ensures
        forall|h: int| #[trigger] seen(nw, se, h, i, j + 1)
            <==> (seen(nw, se, h, i, j) || hit(nw, se, h, i, j)),
{
    assert forall|h: int| #[trigger] seen(nw, se, h, i, j + 1)
        implies (seen(nw, se, h, i, j) || hit(nw, se, h, i, j)) by {
        let (a, b) = choose|a: int, b: int| #[trigger] hit(nw, se, h, a, b)
            && (a < i || (a == i && b < j + 1));
        if !(a == i && b == j) {
            assert(hit(nw, se, h, a, b));
        }
    }
    assert forall|h: int| (seen(nw, se, h, i, j) || hit(nw, se, h, i, j))
        implies #[trigger] seen(nw, se, h, i, j + 1) by {
        if hit(nw, se, h, i, j) {
            assert(hit(nw, se, h, i, j));
        } else {
            let (a, b) = choose|a: int, b: int| #[trigger] hit(nw, se, h, a, b)
                && (a < i || (a == i && b < j));
            assert(hit(nw, se, h, a, b));
        }
    }
}

proof fn lemma_seen_row_end(nw: Coord, se: Coord, i: int, j: int)
    requires
        0 <= i,
        nw.e + CELL * j > se.e,
    ensures
        forall|h: int| #[trigger] seen(nw, se, h, i + 1, 0) <==> seen(nw, se, h, i, j),
{
    assert forall|h: int| #[trigger] seen(nw, se, h, i + 1, 0) implies seen(nw, se, h, i, j) by {
        let (a, b) = choose|a: int, b: int| #[trigger] hit(nw, se, h, a, b) && (a < i + 1 || (a == i + 1 && b < 0));
        if a == i {
            assert(CELL * b <= CELL * j - 1) by (nonlinear_arith)
                requires nw.e + CELL * b <= se.e, nw.e + CELL * j > se.e;
            assert(b < j) by (nonlinear_arith) requires CELL * b <= CELL * j - 1;
        }
        assert(hit(nw, se, h, a, b));
    }
    assert forall|h: int| seen(nw, se, h, i, j) implies #[trigger] seen(nw, se, h, i + 1, 0) by {
        let (a, b) = choose|a: int, b: int| #[trigger] hit(nw, se, h, a, b) && (a < i || (a == i && b < j));
        assert(hit(nw, se, h, a, b));
    }
}

proof fn lemma_seen_all(nw: Coord, se: Coord, i: int)
    requires
        se.n + CELL * i > nw.n,
    ensures
        forall|h: int| #[trigger] seen(nw, se, h, i, 0) <==> cover(nw, se).contains(h),
{
    assert forall|h: int| cover(nw, se).contains(h) implies #[trigger] seen(nw, se, h, i, 0) by {
        let (a, b) = choose|a: int, b: int| #[trigger] hit(nw, se, h, a, b);
        assert(CELL * a <= CELL * i - 1) by (nonlinear_arith)
            requires se.n + CELL * a <= nw.n, se.n + CELL * i > nw.n;
        assert(a < i) by (nonlinear_arith) requires CELL * a <= CELL * i - 1;
        assert(hit(nw, se, h, a, b));
    }
    assert forall|h: int| #[trigger] seen(nw, se, h, i, 0) implies cover(nw, se).contains(h) by {
        let (a, b) = choose|a: int, b: int| #[trigger] hit(nw, se, h, a, b) && (a < i || (a == i && b < 0));
        assert(hit(nw, se, h, a, b));
    }
}

/// Buckets of points whose components fit in 32 bits fit in 32 bits.
proof fn lemma_bucket_fits(e: int, n: int)
    requires
        -0x8000_0000 <= e < 0x8000_0000,
        -0x8000_0000 <= n < 0x8000_0000,
    ensures
        i32::MIN <= bucket(e, n) <= i32::MAX,
{
}

proof fn lemma_cover_fits(nw: Coord, se: Coord)
    ensures
        forall|h: int| cover(nw, se).contains(h) ==> i32::MIN <= h <= i32::MAX,
{
    assert forall|h: int| cover(nw, se).contains(h) implies i32::MIN <= h <= i32::MAX by {
        let (a, b) = choose|a: int, b: int| #[trigger] hit(nw, se, h, a, b);
        lemma_bucket_fits(nw.e + CELL * b, se.n + CELL * a);
    }
}

fn contains_id(v: &Vec<i32>, h: i32) -> (r: bool)
    ensures
        r == v@.contains(h),
{
    let mut k: usize = 0;
    while k < v.len()
        invariant
            k <= v.len(),
            forall|m: int| 0 <= m < k ==> v@[m] != h,
        decreases v.len() - k,
    {
        if v[k] == h {
            return true;
        }
        k = k + 1;
    }
    false
}

/// Five samples around a pixel: the pixel itself and its four neighbours.
#[derive(Clone, Copy, Debug, PartialEq, Eq, Structural)]
pub struct Stencil {
    pub h: u32,
    pub west: u32,
    pub east: u32,
    pub north: u32,
    pub south: u32,
}

/// One elevation tile: where it lies and, once loaded, its samples.
///
/// Samples are 32-bit words in row-major order, rows from north to south; the
/// library never does arithmetic on them.
pub struct Tile {
    pub fname: String,
    pub zipfile: String,
    pub width: usize,
    pub height: usize,
    pub nw: Coord,
    pub se: Coord,
    pub delta: Coord,
    pub im: Option<Vec<u32>>,
}

/// Integer division rounding toward zero, for a positive divisor.
pub fn trunc_div_exec(a: i64, b: i64) -> (r: i64)
    requires
        b > 0,
        a > i64::MIN,
    ensures
        r == trunc_div(a as int, b as int),
{
    if a >= 0 {
        a / b
    } else {
        let q = (-a) / b;
        -q
    }
}

impl Tile {
    /// Geometry that the lookups rely on.
    pub open spec fn wf(&self) -> bool {
        &&& self.delta.e > 0
        &&& self.delta.n > 0
        &&& self.width <= SIDE_LIMIT
        &&& self.height <= SIDE_LIMIT
        &&& self.width * self.height <= usize::MAX
        &&& self.delta.valid()
        &&& self.nw.valid()
        &&& self.se.valid()
        &&& self.se.e == self.nw.e + self.width * self.delta.e
        &&& self.se.n == self.nw.n - self.height * self.delta.n
        &&& (self.im matches Some(v) ==> v@.len() == self.width * self.height)
    }

    pub open spec fn loaded(&self) -> bool {
        self.im matches Some(v) && v@.len() > 0
    }

    /// Bucket id of the cell that holds `c`.
    pub open spec fn bucket_id(c: Coord) -> i32 {
        bucket(c.e as int, c.n as int) as i32
    }

    /// Header values from which a tile can be built.
    pub open spec fn usable(width: usize, height: usize, delta: Coord, nw: Coord) -> bool {
        delta.e > 0 && delta.n > 0 && width * height <= usize::MAX && delta.valid() && nw.valid()
            && in_range(nw.e + width * delta.e) && in_range(nw.n - height * delta.n)
    }

    /// Pixel column that a coordinate falls in.
    pub open spec fn col(&self, c: Coord) -> int {
        trunc_div(c.e - self.nw.e, self.delta.e as int)
    }

    /// Pixel row that a coordinate falls in.
    pub open spec fn row(&self, c: Coord) -> int {
        trunc_div(self.nw.n - c.n, self.delta.n as int)
    }

    /// The pixel of `c` is off the outermost ring of the tile.
    pub open spec fn interior(&self, c: Coord) -> bool {
        1 <= self.col(c) < self.width - 1 && 1 <= self.row(c) < self.height - 1
    }

    pub open spec fn index(&self, c: Coord) -> int {
        self.col(c) + self.row(c) * self.width
    }

    pub open spec fn sample(&self, i: int) -> u32 {
        self.im.unwrap()@[i]
    }

    /// What a point lookup answers.
    pub open spec fn lookup_spec(&self, c: Coord) -> Result<u32, ErrorView> {
        if !self.interior(c) {
            Err(ErrorView::LookupError(c, self.fname@))
        } else if !self.loaded() {
            Err(ErrorView::MapNotLoaded(self.fname@))
        } else {
            Ok(self.sample(self.index(c)))
        }
    }

    /// What a lookup with neighbours answers.
    pub open spec fn stencil_spec(&self, c: Coord) -> Result<Stencil, ErrorView> {
        if !self.interior(c) {
            Err(ErrorView::LookupError(c, self.fname@))
        } else if !self.loaded() {
            Err(ErrorView::MapNotLoaded(self.fname@))
        } else {
            let i = self.index(c);
            Ok(Stencil {
                h: self.sample(i),
                west: self.sample(i - 1),
                east: self.sample(i + 1),
                north: self.sample(i - self.width),
                south: self.sample(i + self.width),
            })
        }
    }

    /// A tile from its header: file name, archive name (empty when none), size in
    /// pixels, pixel size (`delta.n` positive, counted southward) and north-west
    /// corner. The south-east corner is derived. Fails when the geometry is not
    /// usable: a non-positive pixel size, a corner out of range, or more
    /// samples than a buffer can index.
    pub fn new(fname: &str, zipfile: &str, width: usize, height: usize, delta: Coord, nw: Coord)
        -> (r: Result<Tile, Error>)
        ensures
            match r {
                Ok(m) => m.wf() && m.fname@ == fname@ && m.zipfile@ == zipfile@ && m.width == width
                    && m.height == height && m.delta == delta && m.nw == nw && m.im.is_none(),
                Err(e) => e@ is Generic,
            },
            r is Ok <==> Tile::usable(width, height, delta, nw),
    {
        if delta.e <= 0 || delta.n <= 0 || width.checked_mul(height).is_none()
            || delta.e < -COORD_LIMIT || delta.e > COORD_LIMIT || delta.n < -COORD_LIMIT
            || delta.n > COORD_LIMIT || nw.e < -COORD_LIMIT || nw.e > COORD_LIMIT
            || nw.n < -COORD_LIMIT || nw.n > COORD_LIMIT {
            return Err(Error::Generic(String::from_str("unusable tile geometry")));
        }
        if width as u64 > SIDE_LIMIT || height as u64 > SIDE_LIMIT {
            assert(width * delta.e >= width && height * delta.n >= height) by (nonlinear_arith)
                requires width >= 0, height >= 0, delta.e >= 1, delta.n >= 1;
            return Err(Error::Generic(String::from_str("unusable tile geometry")));
        }
        assert(0 <= width * delta.e <= SIDE_LIMIT * COORD_LIMIT) by (nonlinear_arith)
            requires 0 <= width <= SIDE_LIMIT, 0 < delta.e <= COORD_LIMIT;
        assert(0 <= height * delta.n <= SIDE_LIMIT * COORD_LIMIT) by (nonlinear_arith)
            requires 0 <= height <= SIDE_LIMIT, 0 < delta.n <= COORD_LIMIT;
        let se_e = nw.e as i64 + width as i64 * delta.e as i64;
        let se_n = nw.n as i64 - height as i64 * delta.n as i64;
        if se_e > COORD_LIMIT as i64 || se_n < -COORD_LIMIT as i64 {
            return Err(Error::Generic(String::from_str("unusable tile geometry")));
        }
        Ok(Tile {
            fname: String::from_str(fname),
            zipfile: String::from_str(zipfile),
            width,
            height,
            nw,
            se: Coord { e: se_e as i32, n: se_n as i32 },
            delta,
            im: None,
        })
    }

    /// Pixel size along the north axis: the tile's resolution.
    pub fn resolution(&self) -> (r: i32)
        ensures
            r == self.delta.n,
    {
        self.delta.n
    }

    /// Bucket id of the 500 m grid cell that holds `c`.
    pub fn coord_to_hash(c: &Coord) -> (r: i32)
        ensures
            r == bucket(c.e as int, c.n as int),
    {
        Self::bucket_of(c.e as i64, c.n as i64)
    }

    fn bucket_of(e: i64, n: i64) -> (r: i32)
        requires
            -0x8000_0000 <= e < 0x8000_0000,
            -0x8000_0000 <= n < 0x8000_0000,
        ensures
            r == bucket(e as int, n as int),
    {
        let a = trunc_div_exec(n - GRID_NORTH, CELL);
        let b = trunc_div_exec(e + GRID_EAST, CELL);
        (a * 10_000 + b) as i32
    }

    /// The distinct bucket ids that the tile's cover enumeration samples.
    pub fn hashes(&self) -> (r: Vec<i32>)
        requires
            self.wf(),
        ensures
            r@.no_duplicates(),
            forall|h: i32| r@.contains(h) <==> cover(self.nw, self.se).contains(h as int),
            forall|h: int| cover(self.nw, self.se).contains(h) ==> i32::MIN <= h <= i32::MAX,
    {
        let ghost (nw, se) = (self.nw, self.se);
        let mut ret: Vec<i32> = Vec::new();
        let mut y: i64 = self.se.n as i64;
        let ghost mut i: int = 0;
        while y <= self.nw.n as i64
            invariant
                self.wf(),
                nw == self.nw,
                se == self.se,
                0 <= i,
                y == se.n + CELL * i,
                y <= nw.n + CELL,
                ret@.no_duplicates(),
                forall|h: i32| ret@.contains(h) <==> seen(nw, se, h as int, i, 0),
            decreases nw.n + CELL - y,
        {
            let mut x: i64 = self.nw.e as i64;
            let ghost mut j: int = 0;
            while x <= self.se.e as i64
                invariant
                    self.wf(),
                    nw == self.nw,
                    se == self.se,
                    0 <= i,
                    0 <= j,
                    y == se.n + CELL * i,
                    y <= nw.n,
                    x == nw.e + CELL * j,
                    x <= se.e + CELL,
                    ret@.no_duplicates(),
                    forall|h: i32| ret@.contains(h) <==> seen(nw, se, h as int, i, j),
                decreases se.e + CELL - x,
            {
                let h = Self::bucket_of(x, y);
                proof {
                    lemma_seen_next(nw, se, i, j);
                    assert(hit(nw, se, h as int, i, j));
                }
                let ghost prev = ret@;
                assert(forall|g: i32| prev.contains(g) <==> seen(nw, se, g as int, i, j));
                if !contains_id(&ret, h) {
                    ret.push(h);
                    proof {
                        assert(ret@[prev.len() as int] == h);
                    }
                }
                proof {
                    assert forall|g: i32| ret@.contains(g) <==> (prev.contains(g) || g == h) by {
                        if ret@ != prev {
                            if prev.contains(g) {
                                let k = choose|k: int| 0 <= k < prev.len() && prev[k] == g;
                                assert(ret@[k] == g);
                            }
                            if ret@.contains(g) && g != h {
                                let k = choose|k: int| 0 <= k < ret@.len() && ret@[k] == g;
                                assert(prev[k] == g);
                            }
                        }
                    }
                    assert forall|g: i32| ret@.contains(g) <==> #[trigger] seen(nw, se, g as int, i, j + 1) by {
                        assert(hit(nw, se, g as int, i, j) <==> g == h);
                        assert(prev.contains(g) <==> seen(nw, se, g as int, i, j));
                        assert(ret@.contains(g) <==> (prev.contains(g) || g == h));
                        assert(seen(nw, se, g as int, i, j + 1) <==> (seen(nw, se, g as int, i, j)
                            || hit(nw, se, g as int, i, j)));
                    }
                    j = j + 1;
                }
                x = x + CELL;
            }
            proof {
                lemma_seen_row_end(nw, se, i, j);
                i = i + 1;
            }
            y = y + CELL;
        }
        proof {
            lemma_seen_all(nw, se, i);
            lemma_cover_fits(nw, se);
        }
        ret
    }

    pub fn is_loaded(&self) -> (r: bool)
        ensures
            r == self.loaded(),
    {
        match &self.im {
            Some(v) => v.len() > 0,
            None => false,
        }
    }

    /// Stores decoded samples, `width * height` of them in row-major order,
    /// replacing any held before. Fails, leaving the tile as it was, when the
    /// count is wrong.
    pub fn load_image(&mut self, data: Vec<u32>) -> (r: Result<(), Error>)
        requires
            old(self).wf(),
        ensures
            final(self).wf(),
            r is Ok <==> data@.len() == old(self).width * old(self).height,
            r is Ok ==> *final(self) == (Tile { im: Some(data), ..*old(self) }),
            r is Err ==> *final(self) == *old(self) && r->Err_0@ is Generic,
    {
        if data.len() != self.width * self.height {
            return Err(Error::Generic(String::from_str("decoded sample count does not match the tile")));
        }
        self.im = Some(data);
        Ok(())
    }

    /// Column, row and sample index of `c`, when `c` is in the interior.
    fn locate(&self, c: &Coord) -> (r: Option<usize>)
        requires
            self.wf(),
        ensures
            r is Some <==> self.interior(*c),
            r matches Some(i) ==> i == self.index(*c) && self.width <= i
                && i + self.width < self.width * self.height && self.width >= 3
                && self.width * self.height <= usize::MAX,
    {
        let x = trunc_div_exec(c.e as i64 - self.nw.e as i64, self.delta.e as i64);
        let y = trunc_div_exec(self.nw.n as i64 - c.n as i64, self.delta.n as i64);
        if x < 1 || x >= self.width as i64 - 1 || y < 1 || y >= self.height as i64 - 1 {
            return None;
        }
        let (xu, yu, w, h) = (x as usize, y as usize, self.width, self.height);
        assert(w <= yu * w && yu * w + xu + w < w * h)
            by (nonlinear_arith)
            requires 1 <= xu < w - 1, 1 <= yu < h - 1;
        Some(xu + yu * w)
    }

    /// Height sample at `c`: fails with `LookupError` off the interior, then
    /// with `MapNotLoaded` while the tile has no samples.
    pub fn lookup(&self, c: &Coord) -> (r: Result<u32, Error>)
        requires
            self.wf(),
        ensures
            result_view(r) == self.lookup_spec(*c),
    {
        match self.locate(c) {
            None => Err(Error::LookupError(*c, self.fname.clone())),
            Some(i) => {
                if !self.is_loaded() {
                    return Err(Error::MapNotLoaded(self.fname.clone()));
                }
                let v = self.im.as_ref().unwrap();
                Ok(v[i])
            },
        }
    }

    /// The sample at `c` with its four neighbours, from which a caller forms
    /// the gradient; fails as `lookup` does.
    pub fn lookup_with_gradient(&self, c: &Coord) -> (r: Result<Stencil, Error>)
        requires
            self.wf(),
        ensures
            result_view(r) == self.stencil_spec(*c),
    {
        match self.locate(c) {
            None => Err(Error::LookupError(*c, self.fname.clone())),
            Some(i) => {
                if !self.is_loaded() {
                    return Err(Error::MapNotLoaded(self.fname.clone()));
                }
                let v = self.im.as_ref().unwrap();
                let w = self.width;
                Ok(Stencil { h: v[i], west: v[i - 1], east: v[i + 1], north: v[i - w], south: v[i + w] })
            },
        }
    }
}

} // verus!

verus! {

/// When the tile's extent is a whole number of cells in each direction, its
/// cover contains the buckets of both its north-west and south-east corners.
pub proof fn lemma_cover_has_corners(t: Tile)
    requires
        t.wf(),
        (t.nw.n - t.se.n) % (CELL as int) == 0,
        (t.se.e - t.nw.e) % (CELL as int) == 0,
    ensures
        cover(t.nw, t.se).contains(bucket(t.nw.e as int, t.nw.n as int)),
        cover(t.nw, t.se).contains(bucket(t.se.e as int, t.se.n as int)),
{
    let rows = (t.nw.n - t.se.n) / (CELL as int);
    let cols = (t.se.e - t.nw.e) / (CELL as int);
    assert(t.nw.n - t.se.n >= 0) by (nonlinear_arith)
        requires t.nw.n - t.se.n == t.height * t.delta.n, t.height >= 0, t.delta.n > 0;
    assert(t.se.e - t.nw.e >= 0) by (nonlinear_arith)
        requires t.se.e - t.nw.e == t.width * t.delta.e, t.width >= 0, t.delta.e > 0;
    assert(t.se.n + CELL * rows == t.nw.n);
    assert(t.nw.e + CELL * cols == t.se.e);
    assert(hit(t.nw, t.se, bucket(t.nw.e as int, t.nw.n as int), rows, 0));
    assert(hit(t.nw, t.se, bucket(t.se.e as int, t.se.n as int), 0, cols));
}

/// On a loaded tile at least three pixels wide and high, a lookup whose pixel is one step inside every edge
/// succeeds, and one whose pixel is on the outermost ring fails with
/// `LookupError`.
pub proof fn lemma_border_ring(t: Tile, c: Coord)
    requires
        t.wf(),
        t.loaded(),
        t.width >= 3,
        t.height >= 3,
        0 <= t.col(c) < t.width,
        0 <= t.row(c) < t.height,
    ensures
        (t.col(c) == 1 || t.col(c) == t.width - 2) && 1 <= t.row(c) <= t.height - 2
            ==> t.lookup_spec(c) is Ok,
        (t.row(c) == 1 || t.row(c) == t.height - 2) && 1 <= t.col(c) <= t.width - 2
            ==> t.lookup_spec(c) is Ok,
        t.col(c) == 0 || t.col(c) == t.width - 1 || t.row(c) == 0 || t.row(c) == t.height - 1
            ==> t.lookup_spec(c) == Err::<u32, ErrorView>(ErrorView::LookupError(c, t.fname@)),
{
}

/// The bucket of a coordinate depends on its easting and northing alone:
/// coordinates with equal components share a bucket.
pub proof fn lemma_bucket_pure(c1: Coord, c2: Coord)
    requires
        c1.e == c2.e,
        c1.n == c2.n,
    ensures
        Tile::bucket_id(c1) == Tile::bucket_id(c2),
        bucket(c1.e as int, c1.n as int) == bucket(c2.e as int, c2.n as int),
{
}

} // verus!
