use vstd::prelude::*;
use std::collections::HashMap;
use crate::coord::Coord;
use crate::errors::{Error, ErrorView, result_view};
use crate::tile::{Tile, Stencil, bucket, cover};

verus! {

broadcast use vstd::std_specs::hash::group_hash_axioms;

/// What the index answers for a coordinate, one step at a time: a value, a
/// tile that must be loaded before the answer is known, no tile, or the
/// synthetic surface.
#[derive(Clone, Copy, Debug, PartialEq, Eq)]
pub enum Probe<T> {
    Found(T),
    Load(usize),
    NotFound,
    Synthetic,
}

/// Spatial index over elevation tiles. Tiles sit in an arena; each bucket id
/// maps to the arena indices of the tiles whose cover holds it, in insertion
/// order.
pub struct Atlas {
    pub tiles: Vec<Tile>,
    pub index: HashMap<i32, Vec<usize>>,
    pub mockup: bool,
}

/// The stored description of a tile: everything but its samples.
pub struct TileHeader {
    pub fname: String,
    pub zipfile: String,
    pub width: usize,
    pub height: usize,
    pub delta: Coord,
    pub nw: Coord,
}

/// Tile `t` is the unloaded tile that header `h` describes.
pub open spec fn from_header(t: Tile, h: TileHeader) -> bool {
    &&& t.fname@ == h.fname@
    &&& t.zipfile@ == h.zipfile@
    &&& t.width == h.width
    &&& t.height == h.height
    &&& t.delta == h.delta
    &&& t.nw == h.nw
    &&& t.im.is_none()
}

/// No two tiles share a file name.
pub open spec fn distinct_names(tiles: Seq<Tile>) -> bool {
    forall|i: int, j: int| 0 <= i < j < tiles.len() ==> tiles[i].fname@ != tiles[j].fname@
}

/// Strictly increasing.
pub open spec fn increasing(s: Seq<usize>) -> bool {
    forall|a: int, b: int| 0 <= a < b < s.len() ==> s[a] < s[b]
}

/// The tiles of the fragments whose resolution is `res`, in order.
pub open spec fn matching_tiles(frags: Seq<Atlas>, res: i32) -> Seq<Tile>
    decreases frags.len(),
{
    if frags.len() == 0 {
        Seq::empty()
    } else {
        let head = if frags[0].resolution_spec() == Some(res) {
            frags[0].tiles@
        } else {
            Seq::empty()
        };
        head + matching_tiles(frags.drop_first(), res)
    }
}

/// How many of the fragments have resolution `res`.
pub open spec fn n_matching(frags: Seq<Atlas>, res: i32) -> nat
    decreases frags.len(),
{
    if frags.len() == 0 {
        0
    } else {
        (if frags[0].resolution_spec() == Some(res) { 1nat } else { 0nat }) + n_matching(frags.drop_first(), res)
    }
}

/// First answer of a point lookup among candidates `k..` of a bucket.
pub open spec fn probe_height(tiles: Seq<Tile>, cands: Seq<usize>, c: Coord, k: int) -> Probe<u32>
    decreases cands.len() - k,
{
    if k >= cands.len() || k < 0 {
        Probe::NotFound
    } else {
        let t = tiles[cands[k] as int];
        if !t.interior(c) {
            probe_height(tiles, cands, c, k + 1)
        } else if !t.loaded() {
            Probe::Load(cands[k])
        } else {
            Probe::Found(t.sample(t.index(c)))
        }
    }
}

/// First answer of a lookup with neighbours among candidates `k..` of a bucket.
pub open spec fn probe_stencil(tiles: Seq<Tile>, cands: Seq<usize>, c: Coord, k: int) -> Probe<Stencil>
    decreases cands.len() - k,
{
    if k >= cands.len() || k < 0 {
        Probe::NotFound
    } else {
        let t = tiles[cands[k] as int];
        if !t.interior(c) {
            probe_stencil(tiles, cands, c, k + 1)
        } else if !t.loaded() {
            Probe::Load(cands[k])
        } else {
            Probe::Found(t.stencil_spec(c)->Ok_0)
        }
    }
}

impl Atlas {
    /// The candidate tiles of bucket `h`, empty when there is no such bucket.
    pub open spec fn cands(&self, h: i32) -> Seq<usize> {
        if self.index@.contains_key(h) {
            self.index@[h]@
        } else {
            Seq::empty()
        }
    }

    /// Every tile is well formed; every bucket is non-empty and lists valid
    /// indices; a tile is listed under bucket `h` exactly when `h` is in its cover.
    pub open spec fn wf(&self) -> bool {
        &&& forall|k: int| 0 <= k < self.tiles@.len() ==> (#[trigger] self.tiles@[k]).wf()
        &&& forall|h: i32| #[trigger] self.index@.contains_key(h) ==> self.index@[h]@.len() > 0
        &&& forall|h: i32, k: int| #![trigger self.cands(h)[k]] 0 <= k < self.cands(h).len()
            ==> self.cands(h)[k] < self.tiles@.len()
                && cover(self.tiles@[self.cands(h)[k] as int].nw, self.tiles@[self.cands(h)[k] as int].se)
                    .contains(h as int)
        &&& forall|h: i32, t: int| 0 <= t < self.tiles@.len()
            && #[trigger] cover(self.tiles@[t].nw, self.tiles@[t].se).contains(h as int)
            ==> self.cands(h).contains(t as usize)
        &&& forall|h: i32| increasing(#[trigger] self.cands(h))
    }

    pub open spec fn resolution_spec(&self) -> Option<i32> {
        if self.tiles@.len() > 0 {
            Some(self.tiles@[0].delta.n)
        } else {
            None
        }
    }

    /// An index with no tiles.
    pub fn new_empty() -> (r: Atlas)
        ensures
            r.wf(),
            r.tiles@.len() == 0,
            r.index@.is_empty(),
            !r.mockup,
    {
        Atlas { tiles: Vec::new(), index: HashMap::new(), mockup: false }
    }

    /// An index with no tiles that answers from the synthetic surface.
    pub fn new_mockup() -> (r: Atlas)
        ensures
            r.wf(),
            r.tiles@.len() == 0,
            r.index@.is_empty(),
            r.mockup,
    {
        Atlas { tiles: Vec::new(), index: HashMap::new(), mockup: true }
    }

    pub fn is_empty(&self) -> (r: bool)
        ensures
            r == self.index@.is_empty(),
    {
        self.index.len() == 0
    }

    /// Adds a tile to the arena and lists it under every bucket of its cover.
    pub fn add_tile(&mut self, t: Tile)
        requires
            old(self).wf(),
            t.wf(),
        ensures
            final(self).wf(),
            final(self).tiles@ == old(self).tiles@.push(t),
            final(self).mockup == old(self).mockup,
            forall|h: i32| #[trigger] final(self).cands(h) == if cover(t.nw, t.se).contains(h as int) {
                old(self).cands(h).push(old(self).tiles@.len() as usize)
            } else {
                old(self).cands(h)
            },
    {
        let idx = self.tiles.len();
        let hs = t.hashes();
        let ghost old_self = *self;
        self.tiles.push(t);
        let mut k: usize = 0;
        while k < hs.len()
            invariant
                0 <= k <= hs@.len(),
                hs@.no_duplicates(),
                forall|h: i32| hs@.contains(h) <==> cover(t.nw, t.se).contains(h as int),
                self.tiles@ == old_self.tiles@.push(t),
                idx == old_self.tiles@.len(),
                self.mockup == old_self.mockup,
                forall|h: i32| #[trigger] self.index@.contains_key(h) ==> self.index@[h]@.len() > 0,
                forall|h: i32| #[trigger] self.cands(h) == if hs@.subrange(0, k as int).contains(h) {
                    old_self.cands(h).push(idx)
                } else {
                    old_self.cands(h)
                },
            decreases hs@.len() - k,
        {
            let h = hs[k];
            proof {
                assert(!hs@.subrange(0, k as int).contains(h)) by {
                    if hs@.subrange(0, k as int).contains(h) {
                        let j = choose|j: int| 0 <= j < k && hs@.subrange(0, k as int)[j] == h;
                        assert(hs@[j] == hs@[k as int]);
                    }
                }
            }
            let ghost pre = *self;
            let mut v = match self.index.remove(&h) {
                Some(v) => v,
                None => Vec::new(),
            };
            v.push(idx);
            let ghost vv = v@;
            assert(vv == pre.cands(h).push(idx));
            self.index.insert(h, v);
            assert(self.index@ == pre.index@.insert(h, v));
            proof {
                let k1: int = k + 1;
                assert forall|g: i32| #[trigger] self.cands(g) == if hs@.subrange(0, k1).contains(g) {
                    old_self.cands(g).push(idx)
                } else {
                    old_self.cands(g)
                } by {
                    assert(pre.cands(g) == if hs@.subrange(0, k as int).contains(g) {
                        old_self.cands(g).push(idx)
                    } else {
                        old_self.cands(g)
                    });
                    if g != h {
                        assert(hs@.subrange(0, k1).contains(g) <==> hs@.subrange(0, k as int).contains(g)) by {
                            if hs@.subrange(0, k1).contains(g) {
                                let j = choose|j: int| 0 <= j < k1 && hs@.subrange(0, k1)[j] == g;
                                assert(hs@.subrange(0, k as int)[j] == g);
                            }
                            if hs@.subrange(0, k as int).contains(g) {
                                let j = choose|j: int| 0 <= j < k && hs@.subrange(0, k as int)[j] == g;
                                assert(hs@.subrange(0, k1)[j] == g);
                            }
                        }
                    } else {
                        assert(hs@.subrange(0, k1)[k as int] == h);
                    }
                }
            }
            k = k + 1;
        }
        proof {
            assert(hs@.subrange(0, hs@.len() as int) == hs@);
            let s = *self;
            assert forall|h: i32, j: int| #![trigger s.cands(h)[j]] 0 <= j < s.cands(h).len()
                implies s.cands(h)[j] < s.tiles@.len()
                && cover(s.tiles@[s.cands(h)[j] as int].nw, s.tiles@[s.cands(h)[j] as int].se)
                    .contains(h as int) by {
                if j < old_self.cands(h).len() {
                    assert(s.cands(h)[j] == old_self.cands(h)[j]);
                }
            }
            assert forall|h: i32, u: int| 0 <= u < s.tiles@.len()
                && #[trigger] cover(s.tiles@[u].nw, s.tiles@[u].se).contains(h as int)
                implies s.cands(h).contains(u as usize) by {
                if u < old_self.tiles@.len() {
                    assert(old_self.cands(h).contains(u as usize));
                    let j = choose|j: int| 0 <= j < old_self.cands(h).len() && old_self.cands(h)[j] == u as usize;
                    assert(s.cands(h)[j] == u as usize);
                } else {
                    assert(s.cands(h)[old_self.cands(h).len() as int] == u as usize);
                }
            }
            assert forall|u: int| 0 <= u < s.tiles@.len() implies (#[trigger] s.tiles@[u]).wf() by {
                if u < old_self.tiles@.len() {
                    assert(s.tiles@[u] == old_self.tiles@[u]);
                }
            }
        }
    }

    /// The next step of a point lookup at `c`: the first candidate of `c`'s
    /// bucket, in insertion order, whose interior holds `c` answers, or names
    /// itself for loading when it has no samples yet.
    pub fn lookup(&self, c: &Coord) -> (r: Probe<u32>)
        requires
            self.wf(),
        ensures
            r == if self.mockup {
                Probe::Synthetic
            } else {
                probe_height(self.tiles@, self.cands(Tile::bucket_id(*c)), *c, 0)
            },
    {
        if self.mockup {
            return Probe::Synthetic;
        }
        let h = Tile::coord_to_hash(c);
        assert(h == Tile::bucket_id(*c));
        let cands = match self.index.get(&h) {
            Some(v) => v,
            None => return Probe::NotFound,
        };
        let mut k: usize = 0;
        while k < cands.len()
            invariant
                self.wf(),
                cands@ == self.cands(h),
                h == Tile::bucket_id(*c),
                !self.mockup,
                k <= cands@.len(),
                probe_height(self.tiles@, cands@, *c, 0) == probe_height(self.tiles@, cands@, *c, k as int),
            decreases cands@.len() - k,
        {
            let i = cands[k];
            proof {
                assert(self.cands(h)[k as int] == i);
                assert(i < self.tiles@.len());
            }
            let t = &self.tiles[i];
            proof {
                assert(*t == self.tiles@[i as int]);
            }
            match t.lookup(c) {
                Ok(v) => return Probe::Found(v),
                Err(Error::MapNotLoaded(_)) => return Probe::Load(i),
                Err(_) => {},
            }
            k = k + 1;
        }
        Probe::NotFound
    }

    /// The next step of a lookup with neighbours at `c`, as `lookup`.
    pub fn lookup_with_gradient(&self, c: &Coord) -> (r: Probe<Stencil>)
        requires
            self.wf(),
        ensures
            r == if self.mockup {
                Probe::Synthetic
            } else {
                probe_stencil(self.tiles@, self.cands(Tile::bucket_id(*c)), *c, 0)
            },
    {
        if self.mockup {
            return Probe::Synthetic;
        }
        let h = Tile::coord_to_hash(c);
        assert(h == Tile::bucket_id(*c));
        let cands = match self.index.get(&h) {
            Some(v) => v,
            None => return Probe::NotFound,
        };
        let mut k: usize = 0;
        while k < cands.len()
            invariant
                self.wf(),
                cands@ == self.cands(h),
                h == Tile::bucket_id(*c),
                !self.mockup,
                k <= cands@.len(),
                probe_stencil(self.tiles@, cands@, *c, 0) == probe_stencil(self.tiles@, cands@, *c, k as int),
            decreases cands@.len() - k,
        {
            let i = cands[k];
            proof {
                assert(self.cands(h)[k as int] == i);
                assert(i < self.tiles@.len());
            }
            let t = &self.tiles[i];
            proof {
                assert(*t == self.tiles@[i as int]);
            }
            match t.lookup_with_gradient(c) {
                Ok(v) => return Probe::Found(v),
                Err(Error::MapNotLoaded(_)) => return Probe::Load(i),
                Err(_) => {},
            }
            k = k + 1;
        }
        Probe::NotFound
    }

    /// Some tile is listed under the bucket of `c`.
    pub fn has_maps(&self, c: &Coord) -> (r: bool)
        requires
            self.wf(),
        ensures
            r == (self.cands(Tile::bucket_id(*c)).len() > 0),
    {
        let h = Tile::coord_to_hash(c);
        assert(h == Tile::bucket_id(*c));
        self.index.contains_key(&h)
    }

    /// Some tile is listed under the bucket of `c`, and every tile listed there
    /// is loaded.
    pub fn has_images(&self, c: &Coord) -> (r: bool)
        requires
            self.wf(),
        ensures
            r == (self.cands(Tile::bucket_id(*c)).len() > 0 && forall|k: int|
                0 <= k < self.cands(Tile::bucket_id(*c)).len()
                    ==> #[trigger] self.tiles@[self.cands(Tile::bucket_id(*c))[k] as int].loaded()),
    {
        let h = Tile::coord_to_hash(c);
        assert(h == Tile::bucket_id(*c));
        let cands = match self.index.get(&h) {
            Some(v) => v,
            None => return false,
        };
        let mut k: usize = 0;
        while k < cands.len()
            invariant
                self.wf(),
                cands@ == self.cands(h),
                h == Tile::bucket_id(*c),
                k <= cands@.len(),
                forall|j: int| 0 <= j < k ==> #[trigger] self.tiles@[cands@[j] as int].loaded(),
            decreases cands@.len() - k,
        {
            proof {
                assert(self.cands(h)[k as int] < self.tiles@.len());
            }
            if !self.tiles[cands[k]].is_loaded() {
                assert(!self.tiles@[self.cands(h)[k as int] as int].loaded());
                return false;
            }
            k = k + 1;
        }
        true
    }

    /// The candidate tiles of the bucket of `c`; `MapNotFound` when there are none.
    pub fn lookup_maps(&self, c: &Coord) -> (r: Result<&Vec<usize>, Error>)
        requires
            self.wf(),
        ensures
            match r {
                Ok(v) => v@ == self.cands(Tile::bucket_id(*c)) && v@.len() > 0,
                Err(e) => e@ == ErrorView::MapNotFound(*c) && self.cands(Tile::bucket_id(*c)).len() == 0,
            },
    {
        let h = Tile::coord_to_hash(c);
        assert(h == Tile::bucket_id(*c));
        match self.index.get(&h) {
            Some(v) => Ok(v),
            None => Err(Error::MapNotFound(*c)),
        }
    }

    /// The candidate tiles of the bucket of `c` that are not loaded yet, in order.
    pub fn unloaded(&self, c: &Coord) -> (r: Vec<usize>)
        requires
            self.wf(),
        ensures
            r@ == self.cands(Tile::bucket_id(*c)).filter(|i: usize| !self.tiles@[i as int].loaded()),
    {
        let h = Tile::coord_to_hash(c);
        assert(h == Tile::bucket_id(*c));
        let mut out: Vec<usize> = Vec::new();
        let cands = match self.index.get(&h) {
            Some(v) => v,
            None => return out,
        };
        let mut k: usize = 0;
        while k < cands.len()
            invariant
                self.wf(),
                cands@ == self.cands(h),
                h == Tile::bucket_id(*c),
                k <= cands@.len(),
                out@ == cands@.subrange(0, k as int).filter(|i: usize| !self.tiles@[i as int].loaded()),
            decreases cands@.len() - k,
        {
            let i = cands[k];
            proof {
                reveal_with_fuel(Seq::filter, 1);
                assert(cands@.subrange(0, k + 1).drop_last() == cands@.subrange(0, k as int));
            }
            if !self.tiles[i].is_loaded() {
                out.push(i);
            }
            k = k + 1;
        }
        proof {
            assert(cands@.subrange(0, cands@.len() as int) == cands@);
        }
        out
    }

    /// Hands decoded samples to tile `i`; fails as `Tile::load_image` does.
    pub fn load_tile(&mut self, i: usize, data: Vec<u32>) -> (r: Result<(), Error>)
        requires
            old(self).wf(),
            i < old(self).tiles@.len(),
        ensures
            final(self).wf(),
            final(self).index@ == old(self).index@,
            final(self).mockup == old(self).mockup,
            final(self).tiles@.len() == old(self).tiles@.len(),
            r is Ok <==> data@.len() == old(self).tiles@[i as int].width * old(self).tiles@[i as int].height,
            r is Ok ==> final(self).tiles@ == old(self).tiles@.update(i as int,
                Tile { im: Some(data), ..old(self).tiles@[i as int] }),
            r is Err ==> final(self).tiles@ == old(self).tiles@ && r->Err_0@ is Generic,
    {
        let ghost old_self = *self;
        let mut t = self.tiles.remove(i);
        let r = t.load_image(data);
        self.tiles.insert(i, t);
        proof {
            if r is Err {
                assert(self.tiles@ =~= old_self.tiles@);
            } else {
                assert(self.tiles@ =~= old_self.tiles@.update(i as int,
                    Tile { im: Some(data), ..old_self.tiles@[i as int] }));
            }
            let s = *self;
            assert forall|u: int| 0 <= u < s.tiles@.len() implies (#[trigger] s.tiles@[u]).nw == old_self.tiles@[u].nw
                && s.tiles@[u].se == old_self.tiles@[u].se by {}
            assert forall|h: i32, j: int| #![trigger s.cands(h)[j]] 0 <= j < s.cands(h).len()
                implies s.cands(h)[j] < s.tiles@.len()
                && cover(s.tiles@[s.cands(h)[j] as int].nw, s.tiles@[s.cands(h)[j] as int].se).contains(h as int) by {
                assert(old_self.cands(h)[j] == s.cands(h)[j]);
                assert(s.tiles@[s.cands(h)[j] as int].nw == old_self.tiles@[s.cands(h)[j] as int].nw);
            }
            assert forall|k: int| 0 <= k < s.tiles@.len() implies (#[trigger] s.tiles@[k]).wf() by {
                if k != i {
                    assert(s.tiles@[k] == old_self.tiles@[k]);
                }
            }
            assert forall|h: i32, t: int| 0 <= t < s.tiles@.len()
                && #[trigger] cover(s.tiles@[t].nw, s.tiles@[t].se).contains(h as int)
                implies s.cands(h).contains(t as usize) by {
                assert(cover(old_self.tiles@[t].nw, old_self.tiles@[t].se).contains(h as int));
            }
        }
        r
    }

    /// An index over `tiles`, each listed under every bucket of its cover.
    pub fn from_tiles(tiles: Vec<Tile>) -> (r: Atlas)
        requires
            forall|k: int| 0 <= k < tiles@.len() ==> (#[trigger] tiles@[k]).wf(),
        ensures
            r.wf(),
            r.tiles@ == tiles@,
            !r.mockup,
    {
        let mut a = Atlas::new_empty();
        a.append_tiles(tiles);
        proof {
            assert(a.tiles@ =~= tiles@);
        }
        a
    }

    /// An index over the tiles that stored headers describe, in order, none of
    /// them loaded. Fails with the error of the first header that describes no
    /// usable tile.
    pub fn from_headers(headers: &Vec<TileHeader>) -> (r: Result<Atlas, Error>)
        ensures
            r is Ok <==> forall|k: int| 0 <= k < headers@.len() ==> #[trigger] Tile::usable(
                headers@[k].width, headers@[k].height, headers@[k].delta, headers@[k].nw),
            match r {
                Ok(a) => a.wf() && !a.mockup && a.tiles@.len() == headers@.len()
                    && forall|k: int| 0 <= k < headers@.len() ==> from_header(#[trigger] a.tiles@[k], headers@[k]),
                Err(e) => e@ is Generic,
            },
    {
        let mut a = Atlas::new_empty();
        let mut k: usize = 0;
        while k < headers.len()
            invariant
                k <= headers@.len(),
                a.wf(),
                !a.mockup,
                a.tiles@.len() == k,
                forall|j: int| 0 <= j < k ==> from_header(#[trigger] a.tiles@[j], headers@[j]),
                forall|j: int| 0 <= j < k ==> #[trigger] Tile::usable(
                    headers@[j].width, headers@[j].height, headers@[j].delta, headers@[j].nw),
            decreases headers@.len() - k,
        {
            let h = &headers[k];
            match Tile::new(h.fname.as_str(), h.zipfile.as_str(), h.width, h.height, h.delta, h.nw) {
                Ok(t) => {
                    let ghost prev = a.tiles@;
                    a.add_tile(t);
                    proof {
                        assert forall|j: int| 0 <= j < k + 1 implies from_header(#[trigger] a.tiles@[j], headers@[j]) by {
                            if j < k {
                                assert(a.tiles@[j] == prev[j]);
                            }
                        }
                    }
                },
                Err(e) => return Err(e),
            }
            k = k + 1;
        }
        Ok(a)
    }

    /// Adds `tiles` in order, as `add_tile` does one.
    pub fn append_tiles(&mut self, tiles: Vec<Tile>)
        requires
            old(self).wf(),
            forall|k: int| 0 <= k < tiles@.len() ==> (#[trigger] tiles@[k]).wf(),
        ensures
            final(self).wf(),
            final(self).tiles@ == old(self).tiles@ + tiles@,
            final(self).mockup == old(self).mockup,
    {
        let ghost start = self.tiles@;
        let mut rest = tiles;
        let ghost all = rest@;
        let ghost mut k: int = 0;
        while rest.len() > 0
            invariant
                self.wf(),
                self.mockup == old(self).mockup,
                0 <= k <= all.len(),
                rest@ == all.subrange(k as int, all.len() as int),
                self.tiles@ == start + all.subrange(0, k as int),
                forall|j: int| 0 <= j < all.len() ==> (#[trigger] all[j]).wf(),
            decreases rest@.len(),
        {
            let t = rest.remove(0);
            proof {
                assert(t == all[k as int]);
            }
            self.add_tile(t);
            proof {
                assert(all.subrange(0, k + 1) =~= all.subrange(0, k as int).push(t));
                assert(rest@ =~= all.subrange(k + 1, all.len() as int));
                k = k + 1;
            }
        }
        proof {
            assert(all.subrange(0, k as int) =~= all);
        }
    }

    /// Merges the tiles of `other` into this index.
    pub fn append(&mut self, other: Atlas)
        requires
            old(self).wf(),
            other.wf(),
        ensures
            final(self).wf(),
            final(self).tiles@ == old(self).tiles@ + other.tiles@,
            final(self).mockup == old(self).mockup,
    {
        self.append_tiles(other.tiles);
    }

    /// Resolution of the index: the north pixel size of its first tile, when it
    /// has one.
    pub fn resolution(&self) -> (r: Option<i32>)
        ensures
            r == self.resolution_spec(),
    {
        if self.tiles.len() > 0 {
            Some(self.tiles[0].resolution())
        } else {
            None
        }
    }

    /// Merges the fragments whose resolution is `resolution`, skipping the
    /// others and the empty ones; also returns how many were merged.
    pub fn new(resolution: i32, fragments: Vec<Atlas>) -> (r: (Atlas, usize))
        requires
            forall|k: int| 0 <= k < fragments@.len() ==> (#[trigger] fragments@[k]).wf(),
        ensures
            r.0.wf(),
            !r.0.mockup,
            r.0.tiles@ == matching_tiles(fragments@, resolution),
            r.1 == n_matching(fragments@, resolution),
    {
        let mut s = Atlas::new_empty();
        let mut merged: usize = 0;
        let mut rest = fragments;
        let total = rest.len();
        let ghost all = rest@;
        let ghost mut k: int = 0;
        while rest.len() > 0
            invariant
                s.wf(),
                !s.mockup,
                0 <= k <= all.len(),
                rest@ == all.subrange(k, all.len() as int),
                s.tiles@ + matching_tiles(rest@, resolution) == matching_tiles(all, resolution),
                merged <= k,
                merged + n_matching(rest@, resolution) == n_matching(all, resolution),
                all.len() == total,
                forall|j: int| 0 <= j < all.len() ==> (#[trigger] all[j]).wf(),
            decreases rest@.len(),
        {
            let ghost before = rest@;
            let a = rest.remove(0);
            proof {
                assert(a == all[k]);
                assert(rest@ =~= before.drop_first());
            }
            let ghost stiles = s.tiles@;
            if a.resolution() == Some(resolution) {
                s.append(a);
                merged = merged + 1;
            }
            proof {
                assert(stiles + matching_tiles(before, resolution)
                    == s.tiles@ + matching_tiles(rest@, resolution)) by {
                    assert(matching_tiles(before, resolution) == (if before[0].resolution_spec() == Some(resolution) {
                        before[0].tiles@
                    } else {
                        Seq::empty()
                    }) + matching_tiles(before.drop_first(), resolution));
                    assert(stiles + (a.tiles@ + matching_tiles(rest@, resolution))
                        =~= (stiles + a.tiles@) + matching_tiles(rest@, resolution));
                    assert(stiles + Seq::<Tile>::empty() =~= stiles);
                    assert(Seq::<Tile>::empty() + matching_tiles(rest@, resolution) =~= matching_tiles(rest@, resolution));
                }
                assert(rest@ =~= all.subrange(k + 1, all.len() as int));
                k = k + 1;
            }
        }
        proof {
            assert(s.tiles@ + Seq::<Tile>::empty() =~= s.tiles@);
        }
        (s, merged)
    }

    /// The tiles to write when the index is stored: arena indices in increasing
    /// order, one per distinct file name, the first tile of each name. Samples
    /// are never part of a record, and bucket lists are rebuilt on reading.
    pub fn records(&self) -> (r: Vec<usize>)
        ensures
            forall|a: int| 0 <= a < r@.len() ==> r@[a] < self.tiles@.len(),
            forall|a: int, b: int| 0 <= a < b < r@.len() ==> r@[a] < r@[b],
            forall|a: int, b: int| 0 <= a < b < r@.len()
                ==> self.tiles@[r@[a] as int].fname@ != self.tiles@[r@[b] as int].fname@,
            forall|k: int| 0 <= k < self.tiles@.len() ==> exists|a: int| 0 <= a < r@.len()
                && self.tiles@[r@[a] as int].fname@ == (#[trigger] self.tiles@[k]).fname@,
            distinct_names(self.tiles@) ==> r@ == Seq::new(self.tiles@.len(), |i: int| i as usize),
    {
        let mut out: Vec<usize> = Vec::new();
        let mut k: usize = 0;
        while k < self.tiles.len()
            invariant
                k <= self.tiles@.len(),
                forall|a: int| 0 <= a < out@.len() ==> out@[a] < k,
                forall|a: int, b: int| 0 <= a < b < out@.len() ==> out@[a] < out@[b],
                forall|a: int, b: int| 0 <= a < b < out@.len()
                    ==> self.tiles@[out@[a] as int].fname@ != self.tiles@[out@[b] as int].fname@,
                forall|u: int| 0 <= u < k ==> exists|a: int| 0 <= a < out@.len()
                    && self.tiles@[out@[a] as int].fname@ == (#[trigger] self.tiles@[u]).fname@,
            decreases self.tiles@.len() - k,
        {
            let mut seen = false;
            let mut j: usize = 0;
            while j < out.len()
                invariant
                    k < self.tiles@.len(),
                    j <= out@.len(),
                    forall|a: int| 0 <= a < out@.len() ==> out@[a] < k,
                    !seen ==> forall|a: int| 0 <= a < j
                        ==> self.tiles@[out@[a] as int].fname@ != self.tiles@[k as int].fname@,
                    seen ==> exists|a: int| 0 <= a < out@.len()
                        && self.tiles@[out@[a] as int].fname@ == self.tiles@[k as int].fname@,
                decreases out@.len() - j,
            {
                if self.tiles[out[j]].fname == self.tiles[k].fname {
                    seen = true;
                }
                j = j + 1;
            }
            let ghost prev = out@;
            if !seen {
                out.push(k);
                proof {
                    assert(out@[prev.len() as int] == k);
                    assert forall|u: int| 0 <= u < k + 1 implies exists|a: int| 0 <= a < out@.len()
                        && self.tiles@[out@[a] as int].fname@ == (#[trigger] self.tiles@[u]).fname@ by {
                        if u < k {
                            let a = choose|a: int| 0 <= a < prev.len()
                                && self.tiles@[prev[a] as int].fname@ == self.tiles@[u].fname@;
                            assert(out@[a] == prev[a]);
                        } else {
                            assert(out@[prev.len() as int] == k);
                        }
                    }
                }
            }
            k = k + 1;
        }
        proof {
            if distinct_names(self.tiles@) {
                let all = Seq::new(self.tiles@.len(), |i: int| i as usize);
                assert forall|x: usize| out@.contains(x) <==> all.contains(x) by {
                    if out@.contains(x) {
                        let a = choose|a: int| 0 <= a < out@.len() && out@[a] == x;
                        assert(all[x as int] == x);
                    }
                    if all.contains(x) {
                        let i = choose|i: int| 0 <= i < all.len() && all[i] == x;
                        assert(self.tiles@[i] == self.tiles@[i]);
                        let a = choose|a: int| 0 <= a < out@.len()
                            && self.tiles@[out@[a] as int].fname@ == self.tiles@[i].fname@;
                        assert(out@[a] == x);
                    }
                }
                lemma_increasing_unique(out@, all);
            }
        }
        out
    }
}

/// Each fragment is homogeneous in resolution: every tile has the north pixel
/// size of its first.
pub open spec fn homogeneous(a: Atlas) -> bool {
    forall|k: int| 0 <= k < a.tiles@.len() ==> (#[trigger] a.tiles@[k]).delta.n == a.tiles@[0].delta.n
}

/// Merging homogeneous fragments for resolution `res` keeps only tiles of
/// that resolution, and every tile of each fragment of that resolution.
pub proof fn lemma_merge_resolution(frags: Seq<Atlas>, res: i32)
    requires
        forall|f: int| 0 <= f < frags.len() ==> homogeneous(#[trigger] frags[f]),
    ensures
        forall|k: int| 0 <= k < matching_tiles(frags, res).len()
            ==> (#[trigger] matching_tiles(frags, res)[k]).delta.n == res,
        forall|f: int, k: int| 0 <= f < frags.len() && frags[f].resolution_spec() == Some(res)
            && 0 <= k < frags[f].tiles@.len() ==> matching_tiles(frags, res).contains(#[trigger] frags[f].tiles@[k]),
    decreases frags.len(),
{
    if frags.len() > 0 {
        let rest = frags.drop_first();
        assert forall|f: int| 0 <= f < rest.len() implies homogeneous(#[trigger] rest[f]) by {
            assert(rest[f] == frags[f + 1]);
        }
        lemma_merge_resolution(rest, res);
        let head = if frags[0].resolution_spec() == Some(res) { frags[0].tiles@ } else { Seq::empty() };
        let m = matching_tiles(frags, res);
        assert(m == head + matching_tiles(rest, res));
        assert forall|k: int| 0 <= k < m.len() implies (#[trigger] m[k]).delta.n == res by {
            if k >= head.len() {
                assert(m[k] == matching_tiles(rest, res)[k - head.len()]);
            } else {
                assert(homogeneous(frags[0]));
            }
        }
        assert forall|f: int, k: int| 0 <= f < frags.len() && frags[f].resolution_spec() == Some(res)
            && 0 <= k < frags[f].tiles@.len() implies m.contains(#[trigger] frags[f].tiles@[k]) by {
            if f == 0 {
                assert(m[k] == frags[0].tiles@[k]);
            } else {
                assert(rest[f - 1] == frags[f]);
                assert(matching_tiles(rest, res).contains(rest[f - 1].tiles@[k]));
                let j = choose|j: int| 0 <= j < matching_tiles(rest, res).len()
                    && matching_tiles(rest, res)[j] == frags[f].tiles@[k];
                assert(m[head.len() + j] == frags[f].tiles@[k]);
            }
        }
    }
}

/// Two strictly increasing sequences with the same elements are equal.
proof fn lemma_increasing_unique(s1: Seq<usize>, s2: Seq<usize>)
    requires
        increasing(s1),
        increasing(s2),
        forall|x: usize| s1.contains(x) <==> s2.contains(x),
    ensures
        s1 == s2,
    decreases s1.len(),
{
    if s1.len() == 0 {
        if s2.len() > 0 {
            assert(s2.contains(s2[0]));
        }
        assert(s1 =~= s2);
    } else {
        assert(s1.contains(s1[0]));
        let j = choose|j: int| 0 <= j < s2.len() && s2[j] == s1[0];
        assert(s2.contains(s2[0]));
        let i = choose|i: int| 0 <= i < s1.len() && s1[i] == s2[0];
        assert(s1[0] == s2[0]) by {
            if j > 0 {
                assert(s2[0] < s2[j]);
            }
            if i > 0 {
                assert(s1[0] < s1[i]);
            }
        }
        let (r1, r2) = (s1.drop_first(), s2.drop_first());
        assert forall|x: usize| r1.contains(x) <==> r2.contains(x) by {
            if r1.contains(x) {
                let a = choose|a: int| 0 <= a < r1.len() && r1[a] == x;
                assert(s1[a + 1] == x && s1[0] < x);
                assert(s1.contains(x));
                let b = choose|b: int| 0 <= b < s2.len() && s2[b] == x;
                assert(b > 0);
                assert(r2[b - 1] == x);
            }
            if r2.contains(x) {
                let a = choose|a: int| 0 <= a < r2.len() && r2[a] == x;
                assert(s2[a + 1] == x && s2[0] < x);
                assert(s2.contains(x));
                let b = choose|b: int| 0 <= b < s1.len() && s1[b] == x;
                assert(b > 0);
                assert(r1[b - 1] == x);
            }
        }
        lemma_increasing_unique(r1, r2);
        assert(s1 =~= s2) by {
            assert forall|k: int| 0 <= k < s1.len() implies s1[k] == s2[k] by {
                if k > 0 {
                    assert(s1[k] == r1[k - 1]);
                    assert(s2[k] == r2[k - 1]);
                }
            }
        }
    }
}

/// The bucket lists of an index are fixed by the positions of its tiles: two
/// indexes over tiles with the same corners, in the same order, list the same
/// candidates under every bucket, so an index rebuilt from stored tile records
/// answers every lookup as the first does once it holds the same samples.
pub proof fn lemma_rebuilt_index_agrees(a: Atlas, b: Atlas)
    requires
        a.wf(),
        b.wf(),
        a.tiles@.len() == b.tiles@.len(),
        forall|k: int| 0 <= k < a.tiles@.len()
            ==> (#[trigger] a.tiles@[k]).nw == b.tiles@[k].nw && a.tiles@[k].se == b.tiles@[k].se,
    ensures
        forall|h: i32| #[trigger] a.cands(h) == b.cands(h),
        a.tiles@ == b.tiles@ && a.mockup == b.mockup ==> forall|c: Coord| !a.mockup ==>
            #[trigger] probe_height(a.tiles@, a.cands(Tile::bucket_id(c)), c, 0)
                == probe_height(b.tiles@, b.cands(Tile::bucket_id(c)), c, 0),
{
    assert forall|h: i32| #[trigger] a.cands(h) == b.cands(h) by {
        assert forall|x: usize| a.cands(h).contains(x) <==> b.cands(h).contains(x) by {
            if a.cands(h).contains(x) {
                let j = choose|j: int| 0 <= j < a.cands(h).len() && a.cands(h)[j] == x;
                assert(a.cands(h)[j] < a.tiles@.len());
                assert(a.tiles@[x as int].nw == b.tiles@[x as int].nw);
                assert(cover(b.tiles@[x as int].nw, b.tiles@[x as int].se).contains(h as int));
            }
            if b.cands(h).contains(x) {
                let j = choose|j: int| 0 <= j < b.cands(h).len() && b.cands(h)[j] == x;
                assert(b.cands(h)[j] < b.tiles@.len());
                assert(a.tiles@[x as int].nw == b.tiles@[x as int].nw);
                assert(cover(a.tiles@[x as int].nw, a.tiles@[x as int].se).contains(h as int));
            }
        }
        lemma_increasing_unique(a.cands(h), b.cands(h));
    }
}

/// Storing an index as tile headers and reading it back: an index whose tiles
/// have the same sizes, pixel sizes and north-west corners, in the same order,
/// lists the same candidates under every bucket.
pub proof fn lemma_headers_round_trip(a: Atlas, b: Atlas)
    requires
        a.wf(),
        b.wf(),
        a.tiles@.len() == b.tiles@.len(),
        forall|k: int| 0 <= k < a.tiles@.len() ==> (#[trigger] a.tiles@[k]).width == b.tiles@[k].width
            && a.tiles@[k].height == b.tiles@[k].height && a.tiles@[k].delta == b.tiles@[k].delta
            && a.tiles@[k].nw == b.tiles@[k].nw,
    ensures
        forall|h: i32| #[trigger] a.cands(h) == b.cands(h),
{
    assert forall|k: int| 0 <= k < a.tiles@.len() implies (#[trigger] a.tiles@[k]).nw == b.tiles@[k].nw
        && a.tiles@[k].se == b.tiles@[k].se by {
        assert(a.tiles@[k].wf() && b.tiles@[k].wf());
    }
    lemma_rebuilt_index_agrees(a, b);
}

} // verus!
