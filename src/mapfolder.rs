use vstd::prelude::*;
use crate::text::str_eq;

verus! {

/// Where tiles and archives live, and which archives are mounted.
pub struct MapFolder {
    pub mounts: Vec<String>,
    pub map_dir: Option<String>,
}

/// An archive mounted, or to be mounted, under the tile root.
pub struct ZipMount {
    /// Directory of the archive's contents, relative to the tile root.
    pub directory: String,
    /// Path of the archive itself.
    pub archive: String,
    /// Absolute directory where the archive's contents appear.
    pub mount_point: String,
    /// The archive was not mounted before: the caller mounts it now.
    pub fresh: bool,
}

pub open spec fn names(v: Seq<String>) -> Seq<Seq<char>> {
    v.map_values(|s: String| s@)
}

/// Mount point of archive `name` under the tile root `dir`.
pub open spec fn mount_dir(dir: Seq<char>, name: Seq<char>) -> Seq<char> {
    dir + name + ".dir"@
}

impl MapFolder {
    /// Registered archives, each named once.
    pub open spec fn mounted(&self) -> Seq<Seq<char>> {
        names(self.mounts@)
    }

    pub open spec fn wf(&self) -> bool {
        self.mounted().no_duplicates()
    }

    pub fn new() -> (r: MapFolder)
        ensures
            r.wf(),
            r.mounted().len() == 0,
            r.map_dir.is_none(),
    {
        MapFolder { mounts: Vec::new(), map_dir: None }
    }

    /// Sets the tile root.
    pub fn set_dir(&mut self, dir: &str)
        ensures
            final(self).map_dir matches Some(d) && d@ == dir@,
            final(self).mounts == old(self).mounts,
    {
        self.map_dir = Some(String::from_str(dir));
    }

    /// The tile root; it must have been set.
    pub fn get_map_dir(&self) -> (r: String)
        requires
            self.map_dir.is_some(),
        ensures
            r@ == self.map_dir->Some_0@,
    {
        match &self.map_dir {
            Some(d) => d.clone(),
            None => String::new(),
        }
    }

    pub fn is_mounted(&self, filename: &str) -> (r: bool)
        ensures
            r == self.mounted().contains(filename@),
    {
        let mut k: usize = 0;
        while k < self.mounts.len()
            invariant
                k <= self.mounts@.len(),
                forall|j: int| 0 <= j < k ==> self.mounted()[j] != filename@,
            decreases self.mounts@.len() - k,
        {
            if str_eq(self.mounts[k].as_str(), filename) {
                assert(self.mounted()[k as int] == filename@);
                return true;
            }
            k = k + 1;
        }
        false
    }

    /// Records archive `filename` as mounted; a name already there stays once.
    pub fn register(&mut self, filename: &str)
        requires
            old(self).wf(),
        ensures
            final(self).wf(),
            final(self).map_dir == old(self).map_dir,
            final(self).mounted() == if old(self).mounted().contains(filename@) {
                old(self).mounted()
            } else {
                old(self).mounted().push(filename@)
            },
    {
        if !self.is_mounted(filename) {
            let ghost prev = self.mounted();
            self.mounts.push(String::from_str(filename));
            proof {
                assert(self.mounted() =~= prev.push(filename@));
            }
        }
    }

    /// Forgets every registered archive and returns their mount points, in
    /// registration order, for the caller to unmount and remove.
    pub fn unmount_all(&mut self) -> (r: Vec<String>)
        requires
            old(self).mounted().len() == 0 || old(self).map_dir.is_some(),
        ensures
            final(self).mounted().len() == 0,
            final(self).map_dir == old(self).map_dir,
            r@.len() == old(self).mounted().len(),
            forall|k: int| 0 <= k < r@.len()
                ==> (#[trigger] r@[k])@ == mount_dir(old(self).map_dir->Some_0@, old(self).mounted()[k]),
    {
        let mut out: Vec<String> = Vec::new();
        let mut k: usize = 0;
        while k < self.mounts.len()
            invariant
                self.mounted().len() == 0 || self.map_dir.is_some(),
                k <= self.mounts@.len(),
                out@.len() == k,
                forall|j: int| 0 <= j < k
                    ==> (#[trigger] out@[j])@ == mount_dir(self.map_dir->Some_0@, self.mounted()[j]),
            decreases self.mounts@.len() - k,
        {
            let d = self.get_map_dir();
            proof { reveal_strlit(".dir"); }
            let p = d.concat(self.mounts[k].as_str()).concat(".dir");
            out.push(p);
            k = k + 1;
        }
        self.mounts = Vec::new();
        proof {
            assert(self.mounted() =~= Seq::<Seq<char>>::empty());
        }
        out
    }
}

/// Sets the tile root of `folder`.
pub fn set_map_dir(folder: &mut MapFolder, dir: &str)
    ensures
        final(folder).map_dir matches Some(d) && d@ == dir@,
        final(folder).mounts == old(folder).mounts,
{
    folder.set_dir(dir)
}

/// The tile root of `folder`; it must have been set.
pub fn map_dir(folder: &MapFolder) -> (r: String)
    requires
        folder.map_dir.is_some(),
    ensures
        r@ == folder.map_dir->Some_0@,
{
    folder.get_map_dir()
}

/// Forgets every archive of `folder`; returns the mount points to release.
pub fn unmount_all_maps(folder: &mut MapFolder) -> (r: Vec<String>)
    requires
        old(folder).mounted().len() == 0 || old(folder).map_dir.is_some(),
    ensures
        final(folder).mounted().len() == 0,
        final(folder).map_dir == old(folder).map_dir,
        r@.len() == old(folder).mounted().len(),
        forall|k: int| 0 <= k < r@.len()
            ==> (#[trigger] r@[k])@ == mount_dir(old(folder).map_dir->Some_0@, old(folder).mounted()[k]),
{
    folder.unmount_all()
}

/// The name ends in ".zip".
pub open spec fn is_zip(s: Seq<char>) -> bool {
    s.len() >= 4 && s.subrange(s.len() - 4, s.len() as int) == ".zip"@
}

pub fn is_zip_name(s: &str) -> (r: bool)
    ensures
        r == is_zip(s@),
{
    proof { reveal_strlit(".zip"); }
    let n = s.unicode_len();
    if n < 4 {
        return false;
    }
    let r = s.get_char(n - 4) == '.' && s.get_char(n - 3) == 'z' && s.get_char(n - 2) == 'i'
        && s.get_char(n - 1) == 'p';
    proof {
        if r {
            assert(s@.subrange(n - 4, n as int) =~= ".zip"@);
        } else {
            let t = s@.subrange(n - 4, n as int);
            assert(t.len() == 4);
            if t == ".zip"@ {
                assert(t[0] == s@[n - 4]);
                assert(t[1] == s@[n - 3]);
                assert(t[2] == s@[n - 2]);
                assert(t[3] == s@[n - 1]);
            }
        }
    }
    r
}

impl ZipMount {
    /// The mount of archive `filename` (a name ending in ".zip", relative to the
    /// tile root): its contents appear under "<filename>.dir/". The archive is
    /// registered in `folder`; `fresh` tells whether it was not registered before.
    pub fn new(folder: &mut MapFolder, filename: &str) -> (r: ZipMount)
        requires
            old(folder).wf(),
            old(folder).map_dir.is_some(),
            is_zip(filename@),
        ensures
            final(folder).wf(),
            final(folder).map_dir == old(folder).map_dir,
            r.fresh == !old(folder).mounted().contains(filename@),
            final(folder).mounted() == if r.fresh {
                old(folder).mounted().push(filename@)
            } else {
                old(folder).mounted()
            },
            r.directory@ == filename@ + ".dir/"@,
            r.archive@ == old(folder).map_dir->Some_0@ + filename@,
            r.mount_point@ == mount_dir(old(folder).map_dir->Some_0@, filename@),
    {
        let dir = folder.get_map_dir();
        let directory = String::from_str(filename).concat(".dir/");
        let archive = dir.clone().concat(filename);
        let mount_point = dir.concat(filename).concat(".dir");
        let fresh = !folder.is_mounted(filename);
        folder.register(filename);
        ZipMount { directory, archive, mount_point, fresh }
    }
}

} // verus!
