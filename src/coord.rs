use vstd::prelude::*;

verus! {

/// Largest magnitude, in centimetres, that either component of a coordinate may hold.
pub const COORD_LIMIT: i32 = 2_000_000_000;

/// A point in the planar projection, easting and northing in centimetres.
#[derive(Clone, Copy, Debug, PartialEq, Eq, Structural)]
pub struct Coord {
    pub e: i32,
    pub n: i32,
}

/// A component is in range when its magnitude does not exceed `COORD_LIMIT`.
pub open spec fn in_range(v: int) -> bool {
    -COORD_LIMIT <= v <= COORD_LIMIT
}

impl Coord {
    pub open spec fn valid(self) -> bool {
        in_range(self.e as int) && in_range(self.n as int)
    }

    pub fn new(e: i32, n: i32) -> (r: Coord)
        ensures
            r.e == e,
            r.n == n,
    {
        Coord { e, n }
    }

    /// Componentwise sum.
    pub fn add(self, o: Coord) -> (r: Coord)
        requires
            in_range(self.e + o.e),
            in_range(self.n + o.n),
        ensures
            r.e == self.e + o.e,
            r.n == self.n + o.n,
    {
        Coord { e: self.e + o.e, n: self.n + o.n }
    }

    /// Componentwise difference.
    pub fn sub(self, o: Coord) -> (r: Coord)
        requires
            in_range(self.e - o.e),
            in_range(self.n - o.n),
        ensures
            r.e == self.e - o.e,
            r.n == self.n - o.n,
    {
        Coord { e: self.e - o.e, n: self.n - o.n }
    }

    /// Adds `o` in place.
    pub fn add_assign(&mut self, o: Coord)
        requires
            in_range(old(self).e + o.e),
            in_range(old(self).n + o.n),
        ensures
            final(self).e == old(self).e + o.e,
            final(self).n == old(self).n + o.n,
    {
        self.e = self.e + o.e;
        self.n = self.n + o.n;
    }

    /// Scales both components by an integer factor.
    pub fn mul(self, k: i32) -> (r: Coord)
        requires
            in_range(self.e * k),
            in_range(self.n * k),
        ensures
            r.e == self.e * k,
            r.n == self.n * k,
    {
        Coord { e: self.e * k, n: self.n * k }
    }

    /// Quarter turn counter-clockwise: (e, n) becomes (-n, e).
    pub fn rot90(&self) -> (r: Coord)
        requires
            self.valid(),
        ensures
            r.e == -self.n,
            r.n == self.e,
    {
        Coord { e: -self.n, n: self.e }
    }

    /// Squared length, in square centimetres.
    pub fn abs_sq(&self) -> (r: i128)
        ensures
            r == self.e * self.e + self.n * self.n,
    {
        let e = self.e as i128;
        let n = self.n as i128;
        assert(e * e <= 0x4000_0000_0000_0000) by (nonlinear_arith)
            requires e * e == self.e * self.e, -0x8000_0000 <= self.e < 0x8000_0000;
        assert(n * n <= 0x4000_0000_0000_0000) by (nonlinear_arith)
            requires n * n == self.n * self.n, -0x8000_0000 <= self.n < 0x8000_0000;
        assert(e * e >= 0 && n * n >= 0) by (nonlinear_arith);
        e * e + n * n
    }

    /// Scalar product, in square centimetres.
    pub fn dot(&self, o: &Coord) -> (r: i128)
        ensures
            r == self.e * o.e + self.n * o.n,
    {
        let (se, oe, sn, on) = (self.e as i128, o.e as i128, self.n as i128, o.n as i128);
        assert(-0x4000_0000_0000_0000 <= se * oe <= 0x4000_0000_0000_0000) by (nonlinear_arith)
            requires -0x8000_0000 <= se < 0x8000_0000, -0x8000_0000 <= oe < 0x8000_0000;
        assert(-0x4000_0000_0000_0000 <= sn * on <= 0x4000_0000_0000_0000) by (nonlinear_arith)
            requires -0x8000_0000 <= sn < 0x8000_0000, -0x8000_0000 <= on < 0x8000_0000;
        let a = se * oe;
        let b = sn * on;
        a + b
    }
}

} // verus!
