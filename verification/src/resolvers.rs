use vstd::prelude::*;
use vstd::string::*;
use crate::errors::CassetError;
use crate::paths::str_eq;

verus! {

/// The byte-source capability: resolves a logical path to bytes, and
/// optionally names a root directory that a watcher may observe for hot
/// reload (`None` disables hot reload).
///
/// `resolve` takes the source exclusively so that a recording wrapper can
/// note which paths were read during one load.
pub trait AssetResolver: Sized {
    fn resolve(&mut self, path: &str) -> Result<Vec<u8>, CassetError>;

    fn hot_swap_path(&self) -> Option<String>;
}

/// A byte source rooted at a directory of the file system. It owns the
/// path arithmetic: the base directory, the full path of a logical path,
/// and the root to watch. Reading a file is I/O and stays with the
/// caller that wraps this type.
pub struct FileSystemResolver {
    pub base: String,
}

impl Default for FileSystemResolver {
    /// A source rooted at the current directory.
    fn default() -> (r: Self)
        ensures
            r.base@ == "."@,
    {
        FileSystemResolver { base: ".".to_owned() }
    }
}

impl FileSystemResolver {
    pub fn new(base: &str) -> (r: Self)
        ensures
            r.base@ == base@,
    {
        FileSystemResolver { base: base.to_owned() }
    }

    /// The directory a watcher should observe for this source.
    pub fn hot_swap_path(&self) -> (r: Option<String>)
        ensures
            r matches Some(b) && b@ == self.base@,
    {
        Some(self.base.clone())
    }

    /// The location of a logical path under the base directory.
    pub fn full_path(&self, path: &str) -> (r: String)
        ensures
            r@ == self.base@ + "/"@ + path@,
    {
        let mut s = self.base.clone();
        s.append("/");
        s.append(path);
        proof {
            assert(s@ =~= self.base@ + "/"@ + path@);
        }
        s
    }
}

/// Copies a byte vector element by element.
fn clone_bytes(v: &Vec<u8>) -> (r: Vec<u8>)
    ensures
        r@ == v@,
{
    let mut out: Vec<u8> = Vec::new();
    let mut i: usize = 0;
    while i < v.len()
        invariant
            i <= v@.len(),
            out@ == v@.subrange(0, i as int),
        decreases v@.len() - i,
    {
        out.push(v[i]);
        proof {
            assert(out@ =~= v@.subrange(0, i + 1 as int));
        }
        i += 1;
    }
    proof {
        assert(out@ =~= v@);
    }
    out
}

/// A byte source backed by an in-memory table of path / bytes pairs.
pub struct EmbeddedResolver {
    pub assets: Vec<(String, Vec<u8>)>,
}

impl Default for EmbeddedResolver {
    /// An empty table.
    fn default() -> (r: Self)
        ensures
            r.wf(),
            forall|p: Seq<char>| !r.has_path(p),
    {
        EmbeddedResolver { assets: Vec::new() }
    }
}

impl EmbeddedResolver {
    /// Distinct paths: one table row per path.
    pub open spec fn wf(self) -> bool {
        forall|i: int, j: int|
            0 <= i < j < self.assets@.len() ==> self.assets@[i].0@ != self.assets@[j].0@
    }

    pub open spec fn has_path(self, p: Seq<char>) -> bool {
        exists|i: int| 0 <= i < self.assets@.len() && self.assets@[i].0@ == p
    }

    pub open spec fn bytes_of(self, p: Seq<char>) -> Seq<u8> {
        self.assets@[choose|i: int| 0 <= i < self.assets@.len() && self.assets@[i].0@ == p].1@
    }

    pub fn new() -> (r: Self)
        ensures
            r.wf(),
            forall|p: Seq<char>| !r.has_path(p),
    {
        EmbeddedResolver { assets: Vec::new() }
    }

    /// Adds a path with its bytes to the table; the table keeps its first
    /// row for a path that is already present.
    pub fn insert(&mut self, path: &str, bytes: Vec<u8>)
        requires
            old(self).wf(),
        ensures
            final(self).wf(),
            forall|p: Seq<char>| final(self).has_path(p) <==> old(self).has_path(p) || p == path@,
            forall|p: Seq<char>|
                old(self).has_path(p) ==> final(self).bytes_of(p) == old(self).bytes_of(p),
            !old(self).has_path(path@) ==> final(self).bytes_of(path@) == bytes@,
    {
        let found = self.find(path);
        if found.is_none() {
            proof {
                assert(!old(self).has_path(path@));
            }
            self.assets.push((path.to_owned(), bytes));
            proof {
                let pre = old(self).assets@;
                let n = pre.len() as int;
                assert(self.assets@.len() == n + 1);
                assert forall|p: Seq<char>| self.has_path(p) implies (old(self).has_path(p) || p
                    == path@) by {
                    let i = choose|i: int|
                        0 <= i < self.assets@.len() && self.assets@[i].0@ == p;
                    if i < n {
                        assert(pre[i].0@ == p);
                    }
                }
                assert forall|p: Seq<char>| old(self).has_path(p) || p == path@ implies self.has_path(
                    p,
                ) by {
                    if old(self).has_path(p) {
                        let i = choose|i: int| 0 <= i < pre.len() && pre[i].0@ == p;
                        assert(self.assets@[i].0@ == p);
                    } else {
                        assert(self.assets@[n].0@ == p);
                    }
                }
                assert forall|p: Seq<char>| old(self).has_path(p) implies self.bytes_of(p) == old(
                    self,
                ).bytes_of(p) by {
                    let i = choose|i: int| 0 <= i < pre.len() && pre[i].0@ == p;
                    assert(self.assets@[i].0@ == p);
                    let j = choose|j: int|
                        0 <= j < self.assets@.len() && self.assets@[j].0@ == p;
                    if j == n {
                        assert(old(self).has_path(path@));
                        assert(false);
                    }
                    assert(j == i);
                }
                assert forall|i: int, j: int|
                    0 <= i < j < self.assets@.len() implies self.assets@[i].0@
                    != self.assets@[j].0@ by {
                    if j == n {
                        if self.assets@[i].0@ == self.assets@[j].0@ {
                            assert(pre[i].0@ == path@);
                            assert(old(self).has_path(path@));
                        }
                    } else {
                        assert(pre[i].0@ != pre[j].0@);
                    }
                }
                assert(self.bytes_of(path@) == bytes@);
            }
        }
    }

    fn find(&self, path: &str) -> (r: Option<usize>)
        ensures
            match r {
                Some(i) => i < self.assets@.len() && self.assets@[i as int].0@ == path@,
                None => !self.has_path(path@),
            },
    {
        let mut i: usize = 0;
        while i < self.assets.len()
            invariant
                i <= self.assets@.len(),
                forall|j: int| 0 <= j < i ==> self.assets@[j].0@ != path@,
            decreases self.assets@.len() - i,
        {
            if str_eq(self.assets[i].0.as_str(), path) {
                return Some(i);
            }
            i += 1;
        }
        None
    }

    /// The bytes stored for a path, if any.
    pub fn lookup(&self, path: &str) -> (r: Option<&Vec<u8>>)
        requires
            self.wf(),
        ensures
            match r {
                Some(b) => self.has_path(path@) && b@ == self.bytes_of(path@),
                None => !self.has_path(path@),
            },
    {
        match self.find(path) {
            Some(i) => {
                proof {
                    let j = choose|j: int|
                        0 <= j < self.assets@.len() && self.assets@[j].0@ == path@;
                    assert(j == i as int);
                }
                Some(&self.assets[i].1)
            },
            None => None,
        }
    }
}

impl AssetResolver for EmbeddedResolver {
    fn resolve(&mut self, path: &str) -> (r: Result<Vec<u8>, CassetError>)
        ensures
            *final(self) == *old(self),
            r is Ok <==> old(self).has_path(path@),
            r matches Err(e) ==> e == CassetError::NotFound,
            old(self).wf() ==> (r matches Ok(b) ==> b@ == old(self).bytes_of(path@)),
    {
        match self.find(path) {
            Some(i) => {
                proof {
                    if self.wf() {
                        let j = choose|j: int|
                            0 <= j < self.assets@.len() && self.assets@[j].0@ == path@;
                        assert(j == i as int);
                    }
                }
                Ok(clone_bytes(&self.assets[i].1))
            },
            None => Err(CassetError::NotFound),
        }
    }

    fn hot_swap_path(&self) -> Option<String> {
        None
    }
}

} // verus!
