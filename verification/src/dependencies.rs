use vstd::prelude::*;
use vstd::string::*;
use crate::errors::CassetError;
use crate::paths::str_eq;
use crate::resolvers::AssetResolver;

verus! {

/// Membership of a character sequence among the views of a vector of strings.
pub open spec fn has_str(s: Seq<String>, x: Seq<char>) -> bool {
    exists|i: int| 0 <= i < s.len() && s[i]@ == x
}

/// No two strings of the vector have the same view.
pub open spec fn nodup_str(s: Seq<String>) -> bool {
    forall|i: int, j: int| 0 <= i < j < s.len() ==> s[i]@ != s[j]@
}

/// True of the vector whose string views are exactly `s` with `x` added.
fn vec_has_str(v: &Vec<String>, x: &str) -> (r: bool)
    ensures
        r == has_str(v@, x@),
{
    let mut i: usize = 0;
    while i < v.len()
        invariant
            i <= v@.len(),
            forall|j: int| 0 <= j < i ==> v@[j]@ != x@,
        decreases v@.len() - i,
    {
        if str_eq(v[i].as_str(), x) {
            return true;
        }
        i += 1;
    }
    false
}

/// Adds `x` to the vector unless a string with its view is already there.
fn vec_insert_str(v: &mut Vec<String>, x: &str)
    ensures
        forall|y: Seq<char>| has_str(final(v)@, y) <==> has_str(old(v)@, y) || y == x@,
        nodup_str(old(v)@) ==> nodup_str(final(v)@),
{
    let present = vec_has_str(v, x);
    if !present {
        let ghost pre = v@;
        v.push(x.to_owned());
        proof {
            let n = pre.len() as int;
            assert forall|y: Seq<char>| has_str(v@, y) implies (has_str(pre, y) || y == x@) by {
                let i = choose|i: int| 0 <= i < v@.len() && v@[i]@ == y;
                if i < n {
                    assert(pre[i]@ == y);
                }
            }
            assert forall|y: Seq<char>| has_str(pre, y) || y == x@ implies has_str(v@, y) by {
                if has_str(pre, y) {
                    let i = choose|i: int| 0 <= i < pre.len() && pre[i]@ == y;
                    assert(v@[i]@ == y);
                } else {
                    assert(v@[n]@ == y);
                }
            }
            if nodup_str(pre) {
                assert forall|i: int, j: int| 0 <= i < j < v@.len() implies v@[i]@ != v@[j]@ by {
                    if j == n {
                        if v@[i]@ == v@[j]@ {
                            assert(pre[i]@ == x@);
                            assert(has_str(pre, x@));
                        }
                    } else {
                        assert(pre[i]@ != pre[j]@);
                    }
                }
            }
        }
    }
}

/// Removes the string whose view is `x`, if any.
fn vec_remove_str(v: &mut Vec<String>, x: &str)
    requires
        nodup_str(old(v)@),
    ensures
        nodup_str(final(v)@),
        forall|y: Seq<char>| has_str(final(v)@, y) <==> has_str(old(v)@, y) && y != x@,
{
    let mut i: usize = 0;
    while i < v.len()
        invariant
            i <= v@.len(),
            v@ == old(v)@,
            nodup_str(v@),
            forall|j: int| 0 <= j < i ==> v@[j]@ != x@,
        decreases v@.len() - i,
    {
        if str_eq(v[i].as_str(), x) {
            let ghost pre = v@;
            v.remove(i);
            proof {
                let k = i as int;
                pre.remove_ensures(k);
                assert(pre[k]@ == x@);
                assert forall|y: Seq<char>| has_str(v@, y) implies (has_str(pre, y) && y
                    != x@) by {
                    let j = choose|j: int| 0 <= j < v@.len() && v@[j]@ == y;
                    if j < k {
                        assert(pre[j]@ == y);
                        assert(j != k);
                        if y == x@ {
                            assert(pre[j]@ == pre[k]@);
                            assert(false);
                        }
                    } else {
                        assert(v@ == pre.remove(k));
                        assert(pre.remove(k)[j] == pre[j + 1]);
                        assert(pre[j + 1]@ == y);
                        if y == x@ {
                            assert(k < j + 1);
                            assert(pre[k]@ != pre[j + 1]@);
                            assert(false);
                        }
                    }
                }
                assert forall|y: Seq<char>| has_str(pre, y) && y != x@ implies has_str(
                    v@,
                    y,
                ) by {
                    let j = choose|j: int| 0 <= j < pre.len() && pre[j]@ == y;
                    assert(j != k);
                    assert(v@ == pre.remove(k));
                    if j < k {
                        assert(pre.remove(k)[j] == pre[j]);
                    } else {
                        assert(pre.remove(k)[j - 1] == pre[j]);
                    }
                }
                assert forall|a: int, b: int| 0 <= a < b < v@.len() implies v@[a]@ != v@[b]@ by {
                    let pa = if a < k {
                        a
                    } else {
                        a + 1
                    };
                    let pb = if b < k {
                        b
                    } else {
                        b + 1
                    };
                    assert(v@ == pre.remove(k));
                    assert(pre.remove(k)[a] == pre[pa]);
                    assert(pre.remove(k)[b] == pre[pb]);
                    assert(pa < pb);
                    assert(pre[pa]@ != pre[pb]@);
                }
            }
            return ;
        }
        i += 1;
    }
    proof {
        assert forall|y: Seq<char>| has_str(v@, y) implies y != x@ by {
            let j = choose|j: int| 0 <= j < v@.len() && v@[j]@ == y;
        }
    }
}

/// Copies a vector of strings element by element.
pub fn clone_string_vec(v: &Vec<String>) -> (r: Vec<String>)
    ensures
        r@.len() == v@.len(),
        forall|j: int| 0 <= j < v@.len() ==> r@[j]@ == v@[j]@,
{
    let mut out: Vec<String> = Vec::new();
    let mut i: usize = 0;
    while i < v.len()
        invariant
            i <= v@.len(),
            out@.len() == i,
            forall|j: int| 0 <= j < i ==> out@[j]@ == v@[j]@,
        decreases v@.len() - i,
    {
        out.push(v[i].clone());
        i += 1;
    }
    out
}

/// One node of the dependency graph: a registered path, the paths its
/// content reads, and the paths whose content reads it.
#[derive(Debug)]
pub struct Dependency {
    pub path: String,
    pub reads: Vec<String>,
    pub read_by: Vec<String>,
}

/// The bidirectional dependency index: one node per registered path.
#[derive(Debug)]
pub struct Dependencies {
    pub entries: Vec<Dependency>,
}

impl Dependencies {
    /// One node per path.
    pub open spec fn paths_distinct(self) -> bool {
        forall|i: int, j: int|
            0 <= i < j < self.entries@.len() ==> self.entries@[i].path@ != self.entries@[j].path@
    }

    pub open spec fn registered(self, p: Seq<char>) -> bool {
        exists|i: int| 0 <= i < self.entries@.len() && self.entries@[i].path@ == p
    }

    pub open spec fn idx_of(self, p: Seq<char>) -> int {
        choose|i: int| 0 <= i < self.entries@.len() && self.entries@[i].path@ == p
    }

    pub open spec fn node(self, p: Seq<char>) -> Dependency {
        self.entries@[self.idx_of(p)]
    }

    /// Path `p` is registered and its load read `d`.
    pub open spec fn reads_has(self, p: Seq<char>, d: Seq<char>) -> bool {
        self.registered(p) && has_str(self.node(p).reads@, d)
    }

    /// Path `p` is registered and the load of `d` read `p`.
    pub open spec fn read_by_has(self, p: Seq<char>, d: Seq<char>) -> bool {
        self.registered(p) && has_str(self.node(p).read_by@, d)
    }

    /// Every node's two edge sets are duplicate-free.
    pub open spec fn sets_nodup(self) -> bool {
        forall|i: int|
            #![trigger self.entries@[i]]
            0 <= i < self.entries@.len() ==> nodup_str(self.entries@[i].reads@) && nodup_str(
                self.entries@[i].read_by@,
            )
    }

    /// An edge points only at registered paths: no dangling edges.
    pub open spec fn edges_closed(self) -> bool {
        forall|p: Seq<char>, d: Seq<char>| #[trigger] self.reads_has(p, d) ==> self.registered(d)
    }

    /// The two directions index the same edges.
    pub open spec fn symmetric(self) -> bool {
        forall|p: Seq<char>, d: Seq<char>|
            #![trigger self.reads_has(p, d)]
            #![trigger self.read_by_has(d, p)]
            self.reads_has(p, d) <==> self.read_by_has(d, p)
    }

    pub open spec fn wf(self) -> bool {
        self.paths_distinct() && self.sets_nodup() && self.edges_closed() && self.symmetric()
    }

    /// The index of a registered path is the index of any node that carries it.
    pub proof fn lemma_at_idx(self, i: int)
        requires
            self.paths_distinct(),
            0 <= i < self.entries@.len(),
        ensures
            self.registered(self.entries@[i].path@),
            self.idx_of(self.entries@[i].path@) == i,
            self.node(self.entries@[i].path@) == self.entries@[i],
    {
        let p = self.entries@[i].path@;
        assert(self.registered(p));
        let j = self.idx_of(p);
        if j != i {
            if j < i {
                assert(self.entries@[j].path@ != self.entries@[i].path@);
            } else {
                assert(self.entries@[i].path@ != self.entries@[j].path@);
            }
        }
    }

    pub fn new() -> (r: Self)
        ensures
            r.wf(),
            forall|q: Seq<char>| !r.registered(q),
    {
        let r = Dependencies { entries: Vec::new() };
        proof {
            assert forall|p: Seq<char>, d: Seq<char>| !#[trigger] r.reads_has(p, d) by {}
            assert forall|p: Seq<char>, d: Seq<char>| !#[trigger] r.read_by_has(p, d) by {}
        }
        r
    }

    fn find(&self, path: &str) -> (r: Option<usize>)
        ensures
            match r {
                Some(i) => i < self.entries@.len() && self.entries@[i as int].path@ == path@,
                None => !self.registered(path@),
            },
    {
        let mut i: usize = 0;
        while i < self.entries.len()
            invariant
                i <= self.entries@.len(),
                forall|j: int| 0 <= j < i ==> self.entries@[j].path@ != path@,
            decreases self.entries@.len() - i,
        {
            if str_eq(self.entries[i].path.as_str(), path) {
                return Some(i);
            }
            i += 1;
        }
        None
    }

    pub fn is_registered(&self, path: &str) -> (r: bool)
        ensures
            r == self.registered(path@),
    {
        self.find(path).is_some()
    }

    /// Creates a node for the path; a later registration of the same path
    /// is a no-op.
    pub fn register(&mut self, path: &str)
        requires
            old(self).wf(),
        ensures
            final(self).wf(),
            forall|q: Seq<char>|
                #[trigger] final(self).registered(q) <==> old(self).registered(q) || q == path@,
            forall|q: Seq<char>, d: Seq<char>|
                #[trigger] final(self).reads_has(q, d) == old(self).reads_has(q, d),
            forall|q: Seq<char>, d: Seq<char>|
                #[trigger] final(self).read_by_has(q, d) == old(self).read_by_has(q, d),
            old(self).registered(path@) ==> *final(self) == *old(self),
    {
        let found = self.find(path);
        if found.is_none() {
            self.entries.push(
                Dependency { path: path.to_owned(), reads: Vec::new(), read_by: Vec::new() },
            );
            proof {
                let pre = *old(self);
                let n = pre.entries@.len() as int;
                assert forall|q: Seq<char>| self.registered(q) implies (pre.registered(q) || q
                    == path@) by {
                    let i = choose|i: int|
                        0 <= i < self.entries@.len() && self.entries@[i].path@ == q;
                    if i < n {
                        assert(pre.entries@[i].path@ == q);
                    }
                }
                assert forall|q: Seq<char>| pre.registered(q) || q == path@ implies self.registered(
                    q,
                ) by {
                    if pre.registered(q) {
                        let i = choose|i: int|
                            0 <= i < pre.entries@.len() && pre.entries@[i].path@ == q;
                        assert(self.entries@[i].path@ == q);
                    } else {
                        assert(self.entries@[n].path@ == q);
                    }
                }
                assert forall|i: int, j: int|
                    0 <= i < j < self.entries@.len() implies self.entries@[i].path@
                    != self.entries@[j].path@ by {
                    if j == n {
                        if self.entries@[i].path@ == self.entries@[j].path@ {
                            assert(pre.entries@[i].path@ == path@);
                            assert(pre.registered(path@));
                        }
                    } else {
                        assert(pre.entries@[i].path@ != pre.entries@[j].path@);
                    }
                }
                assert forall|q: Seq<char>| self.registered(q) && q != path@ implies self.node(q)
                    == pre.node(q) && self.idx_of(q) == pre.idx_of(q) by {
                    let i = choose|i: int|
                        0 <= i < pre.entries@.len() && pre.entries@[i].path@ == q;
                    pre.lemma_at_idx(i);
                    self.lemma_at_idx(i);
                }
                assert(self.node(path@).reads@.len() == 0 && self.node(path@).read_by@.len() == 0)
                    by {
                    self.lemma_at_idx(n);
                }
                assert forall|q: Seq<char>, d: Seq<char>| #[trigger] self.reads_has(q, d)
                    == pre.reads_has(q, d) by {
                    if q == path@ {
                        assert(!pre.reads_has(q, d));
                        assert(!has_str(self.node(q).reads@, d));
                    }
                }
                assert forall|q: Seq<char>, d: Seq<char>| #[trigger] self.read_by_has(q, d)
                    == pre.read_by_has(q, d) by {
                    if q == path@ {
                        assert(!pre.read_by_has(q, d));
                        assert(!has_str(self.node(q).read_by@, d));
                    }
                }
                assert forall|i: int|
                    #![trigger self.entries@[i]]
                    0 <= i < self.entries@.len() implies nodup_str(self.entries@[i].reads@)
                    && nodup_str(self.entries@[i].read_by@) by {
                    if i < n {
                        assert(pre.entries@[i] == self.entries@[i]);
                        assert(nodup_str(pre.entries@[i].reads@));
                    }
                }
            }
        }
    }

    /// Records the edge "`path` reads `dependency`", in both directions;
    /// a no-op unless both endpoints are registered.
    pub fn add(&mut self, path: &str, dependency: &str)
        requires
            old(self).wf(),
        ensures
            final(self).wf(),
            forall|q: Seq<char>|
                #[trigger] final(self).registered(q) == old(self).registered(q),
            old(self).registered(path@) && old(self).registered(dependency@) ==> forall|
                q: Seq<char>,
                d: Seq<char>,
            |
                #[trigger] final(self).reads_has(q, d) <==> (old(self).reads_has(q, d) || (q
                    == path@ && d == dependency@)),
            old(self).registered(path@) && old(self).registered(dependency@) ==> forall|
                q: Seq<char>,
                d: Seq<char>,
            |
                #[trigger] final(self).read_by_has(q, d) <==> (old(self).read_by_has(q, d) || (q
                    == dependency@ && d == path@)),
            !(old(self).registered(path@) && old(self).registered(dependency@)) ==> *final(self)
                == *old(self),
    {
        let pf = self.find(path);
        let df = self.find(dependency);
        if pf.is_none() || df.is_none() {
            return ;
        }
        let pi = pf.unwrap();
        let di = df.unwrap();
        let ghost g0 = *old(self);
        proof {
            g0.lemma_at_idx(pi as int);
            g0.lemma_at_idx(di as int);
            assert(nodup_str(g0.entries@[pi as int].reads@) && nodup_str(
                g0.entries@[pi as int].read_by@,
            ));
            assert(nodup_str(g0.entries@[di as int].reads@) && nodup_str(
                g0.entries@[di as int].read_by@,
            ));
        }
        let same = pi == di;
        let mut e = self.entries.remove(pi);
        vec_insert_str(&mut e.reads, dependency);
        if same {
            vec_insert_str(&mut e.read_by, path);
        }
        let ghost e1 = e;
        self.entries.insert(pi, e);
        let ghost g1 = *self;
        proof {
            assert(g1.entries@ =~= g0.entries@.update(pi as int, e1)) by {
                g0.entries@.remove(pi as int).insert_ensures(pi as int, e1);
                g0.entries@.remove_ensures(pi as int);
            }
            lemma_update_entry(g0, g1, pi as int, e1);
        }
        if !same {
            proof {
                assert(self.entries@[di as int].path@ == dependency@);
                g1.lemma_at_idx(di as int);
            }
            let mut f = self.entries.remove(di);
            vec_insert_str(&mut f.read_by, path);
            let ghost f1 = f;
            self.entries.insert(di, f);
            proof {
                assert(self.entries@ =~= g1.entries@.update(di as int, f1)) by {
                    g1.entries@.remove(di as int).insert_ensures(di as int, f1);
                    g1.entries@.remove_ensures(di as int);
                }
                lemma_update_entry(g1, *self, di as int, f1);
            }
        }
        proof {
            let g2 = *self;
            assert forall|q: Seq<char>, d: Seq<char>| #[trigger] g2.reads_has(q, d) <==> (
            g0.reads_has(q, d) || (q == path@ && d == dependency@)) by {
                if q == path@ {
                    assert(g2.node(q).reads@ == e1.reads@);
                    assert(g0.node(q) == g0.entries@[pi as int]);
                } else if g2.registered(q) {
                    if same || q != dependency@ {
                        assert(g2.node(q) == g0.node(q));
                    } else {
                        assert(g2.node(q).reads@ == g1.node(q).reads@);
                        assert(g1.node(q) == g0.node(q));
                    }
                }
            }
            assert forall|q: Seq<char>, d: Seq<char>| #[trigger] g2.read_by_has(q, d) <==> (
            g0.read_by_has(q, d) || (q == dependency@ && d == path@)) by {
                if q == dependency@ {
                    if same {
                        assert(g2.node(q).read_by@ == e1.read_by@);
                        assert(g0.node(q) == g0.entries@[pi as int]);
                    } else {
                        assert(g2.node(q).read_by@ == self.node(q).read_by@);
                        assert(g1.node(q) == g0.node(q));
                    }
                } else if g2.registered(q) {
                    if q == path@ && !same {
                        assert(g2.node(q) == g1.node(q));
                        assert(g1.node(q).read_by@ == e1.read_by@);
                        assert(e1.read_by@ == g0.node(q).read_by@);
                    } else if q != path@ {
                        assert(g2.node(q) == g0.node(q));
                    }
                }
            }
            assert(g2.sets_nodup()) by {
                assert forall|i: int|
                    #![trigger g2.entries@[i]]
                    0 <= i < g2.entries@.len() implies nodup_str(g2.entries@[i].reads@)
                    && nodup_str(g2.entries@[i].read_by@) by {
                    g2.lemma_at_idx(i);
                    let q = g2.entries@[i].path@;
                    if q == path@ || q == dependency@ {
                        assert(g0.node(q) == g0.entries@[g0.idx_of(q)]);
                    } else {
                        assert(g2.entries@[i] == g0.node(q));
                    }
                }
            }
            assert(g2.edges_closed()) by {
                assert forall|p: Seq<char>, d: Seq<char>| #[trigger] g2.reads_has(p, d) implies
                    g2.registered(d) by {
                    if !(p == path@ && d == dependency@) {
                        assert(g0.reads_has(p, d));
                    }
                }
            }
            assert(g2.symmetric()) by {
                assert forall|p: Seq<char>, d: Seq<char>|
                    #![trigger g2.reads_has(p, d)]
                    #![trigger g2.read_by_has(d, p)]
                    g2.reads_has(p, d) <==> g2.read_by_has(d, p) by {
                    assert(g0.reads_has(p, d) <==> g0.read_by_has(d, p));
                }
            }
        }
    }

    /// Severs the edge "`path` reads `dependency`" in both directions;
    /// a no-op unless both endpoints are registered.
    pub fn remove(&mut self, path: &str, dependency: &str)
        requires
            old(self).wf(),
        ensures
            final(self).wf(),
            forall|q: Seq<char>|
                #[trigger] final(self).registered(q) == old(self).registered(q),
            old(self).registered(path@) && old(self).registered(dependency@) ==> forall|
                q: Seq<char>,
                d: Seq<char>,
            |
                #[trigger] final(self).reads_has(q, d) <==> (old(self).reads_has(q, d) && !(q
                    == path@ && d == dependency@)),
            old(self).registered(path@) && old(self).registered(dependency@) ==> forall|
                q: Seq<char>,
                d: Seq<char>,
            |
                #[trigger] final(self).read_by_has(q, d) <==> (old(self).read_by_has(q, d) && !(q
                    == dependency@ && d == path@)),
            !(old(self).registered(path@) && old(self).registered(dependency@)) ==> *final(self)
                == *old(self),
    {
        let pf = self.find(path);
        let df = self.find(dependency);
        if pf.is_none() || df.is_none() {
            return ;
        }
        let pi = pf.unwrap();
        let di = df.unwrap();
        let ghost g0 = *old(self);
        proof {
            g0.lemma_at_idx(pi as int);
            g0.lemma_at_idx(di as int);
            assert(nodup_str(g0.entries@[pi as int].reads@) && nodup_str(
                g0.entries@[pi as int].read_by@,
            ));
            assert(nodup_str(g0.entries@[di as int].reads@) && nodup_str(
                g0.entries@[di as int].read_by@,
            ));
        }
        let same = pi == di;
        let mut e = self.entries.remove(pi);
        vec_remove_str(&mut e.reads, dependency);
        if same {
            vec_remove_str(&mut e.read_by, path);
        }
        let ghost e1 = e;
        self.entries.insert(pi, e);
        let ghost g1 = *self;
        proof {
            assert(g1.entries@ =~= g0.entries@.update(pi as int, e1)) by {
                g0.entries@.remove(pi as int).insert_ensures(pi as int, e1);
                g0.entries@.remove_ensures(pi as int);
            }
            lemma_update_entry(g0, g1, pi as int, e1);
        }
        if !same {
            proof {
                assert(self.entries@[di as int].path@ == dependency@);
                g1.lemma_at_idx(di as int);
            }
            let mut f = self.entries.remove(di);
            vec_remove_str(&mut f.read_by, path);
            let ghost f1 = f;
            self.entries.insert(di, f);
            proof {
                assert(self.entries@ =~= g1.entries@.update(di as int, f1)) by {
                    g1.entries@.remove(di as int).insert_ensures(di as int, f1);
                    g1.entries@.remove_ensures(di as int);
                }
                lemma_update_entry(g1, *self, di as int, f1);
            }
        }
        proof {
            let g2 = *self;
            assert forall|q: Seq<char>, d: Seq<char>| #[trigger] g2.reads_has(q, d) <==> (
            g0.reads_has(q, d) && !(q == path@ && d == dependency@)) by {
                if q == path@ {
                    assert(g2.node(q).reads@ == e1.reads@);
                    assert(g0.node(q) == g0.entries@[pi as int]);
                } else if g2.registered(q) {
                    if same || q != dependency@ {
                        assert(g2.node(q) == g0.node(q));
                    } else {
                        assert(g2.node(q).reads@ == g1.node(q).reads@);
                        assert(g1.node(q) == g0.node(q));
                    }
                }
            }
            assert forall|q: Seq<char>, d: Seq<char>| #[trigger] g2.read_by_has(q, d) <==> (
            g0.read_by_has(q, d) && !(q == dependency@ && d == path@)) by {
                if q == dependency@ {
                    if same {
                        assert(g2.node(q).read_by@ == e1.read_by@);
                        assert(g0.node(q) == g0.entries@[pi as int]);
                    } else {
                        assert(g2.node(q).read_by@ == self.node(q).read_by@);
                        assert(g1.node(q) == g0.node(q));
                    }
                } else if g2.registered(q) {
                    if q == path@ && !same {
                        assert(g2.node(q) == g1.node(q));
                        assert(g1.node(q).read_by@ == e1.read_by@);
                        assert(e1.read_by@ == g0.node(q).read_by@);
                    } else if q != path@ {
                        assert(g2.node(q) == g0.node(q));
                    }
                }
            }
            assert(g2.sets_nodup()) by {
                assert forall|i: int|
                    #![trigger g2.entries@[i]]
                    0 <= i < g2.entries@.len() implies nodup_str(g2.entries@[i].reads@)
                    && nodup_str(g2.entries@[i].read_by@) by {
                    g2.lemma_at_idx(i);
                    let q = g2.entries@[i].path@;
                    if q == path@ || q == dependency@ {
                        assert(g0.node(q) == g0.entries@[g0.idx_of(q)]);
                    } else {
                        assert(g2.entries@[i] == g0.node(q));
                    }
                }
            }
            assert(g2.edges_closed()) by {
                assert forall|p: Seq<char>, d: Seq<char>| #[trigger] g2.reads_has(p, d) implies
                    g2.registered(d) by {
                    assert(g0.reads_has(p, d));
                }
            }
            assert(g2.symmetric()) by {
                assert forall|p: Seq<char>, d: Seq<char>|
                    #![trigger g2.reads_has(p, d)]
                    #![trigger g2.read_by_has(d, p)]
                    g2.reads_has(p, d) <==> g2.read_by_has(d, p) by {
                    assert(g0.reads_has(p, d) <==> g0.read_by_has(d, p));
                }
            }
        }
    }
}


/// Characterizes the graph after one node is replaced by a node carrying
/// the same path.
proof fn lemma_update_entry(g0: Dependencies, g1: Dependencies, k: int, e: Dependency)
    requires
        g0.paths_distinct(),
        0 <= k < g0.entries@.len(),
        g1.entries@ == g0.entries@.update(k, e),
        e.path@ == g0.entries@[k].path@,
    ensures
        g1.paths_distinct(),
        forall|q: Seq<char>| #[trigger] g1.registered(q) <==> g0.registered(q),
        forall|q: Seq<char>| g1.registered(q) ==> #[trigger] g1.idx_of(q) == g0.idx_of(q),
        forall|q: Seq<char>|
            g1.registered(q) && q != e.path@ ==> #[trigger] g1.node(q) == g0.node(q),
        g1.registered(e.path@),
        g1.idx_of(e.path@) == k,
        g1.node(e.path@) == e,
{
    assert(g1.entries@.len() == g0.entries@.len());
    assert forall|i: int|
        0 <= i < g1.entries@.len() implies #[trigger] g1.entries@[i].path@
        == g0.entries@[i].path@ by {}
    assert forall|q: Seq<char>| #[trigger] g1.registered(q) <==> g0.registered(q) by {
        if g1.registered(q) {
            let i = choose|i: int| 0 <= i < g1.entries@.len() && g1.entries@[i].path@ == q;
            assert(g0.entries@[i].path@ == q);
        }
        if g0.registered(q) {
            let i = choose|i: int| 0 <= i < g0.entries@.len() && g0.entries@[i].path@ == q;
            assert(g1.entries@[i].path@ == q);
        }
    }
    assert forall|q: Seq<char>| g1.registered(q) implies #[trigger] g1.idx_of(q) == g0.idx_of(
        q,
    ) by {
        let i = choose|i: int| 0 <= i < g0.entries@.len() && g0.entries@[i].path@ == q;
        g0.lemma_at_idx(i);
        assert(g1.entries@[i].path@ == q);
        g1.lemma_at_idx(i);
    }
    assert forall|q: Seq<char>|
        g1.registered(q) && q != e.path@ implies #[trigger] g1.node(q) == g0.node(q) by {
        let i = g1.idx_of(q);
        assert(g1.entries@[i].path@ == q);
        assert(i != k);
    }
    g0.lemma_at_idx(k);
    g1.lemma_at_idx(k);
}

/// Characterizes the graph after one node is removed.
proof fn lemma_remove_entry(g0: Dependencies, g1: Dependencies, k: int)
    requires
        g0.paths_distinct(),
        0 <= k < g0.entries@.len(),
        g1.entries@ == g0.entries@.remove(k),
    ensures
        g1.paths_distinct(),
        forall|q: Seq<char>|
            #[trigger] g1.registered(q) <==> g0.registered(q) && q != g0.entries@[k].path@,
        forall|q: Seq<char>| g1.registered(q) ==> #[trigger] g1.node(q) == g0.node(q),
{
    g0.entries@.remove_ensures(k);
    let p = g0.entries@[k].path@;
    assert forall|a: int, b: int|
        0 <= a < b < g1.entries@.len() implies g1.entries@[a].path@ != g1.entries@[b].path@ by {
        let pa = if a < k {
            a
        } else {
            a + 1
        };
        let pb = if b < k {
            b
        } else {
            b + 1
        };
        assert(g1.entries@[a] == g0.entries@[pa]);
        assert(g1.entries@[b] == g0.entries@[pb]);
        assert(g0.entries@[pa].path@ != g0.entries@[pb].path@);
    }
    assert forall|q: Seq<char>| #[trigger] g1.registered(q) implies (g0.registered(q) && q
        != p) by {
        let i = choose|i: int| 0 <= i < g1.entries@.len() && g1.entries@[i].path@ == q;
        let pi = if i < k {
            i
        } else {
            i + 1
        };
        assert(g1.entries@[i] == g0.entries@[pi]);
        assert(g0.entries@[pi].path@ == q);
        if q == p {
            assert(pi != k);
            if pi < k {
                assert(g0.entries@[pi].path@ != g0.entries@[k].path@);
            } else {
                assert(g0.entries@[k].path@ != g0.entries@[pi].path@);
            }
            assert(false);
        }
    }
    assert forall|q: Seq<char>| g0.registered(q) && q != p implies #[trigger] g1.registered(
        q,
    ) && g1.node(q) == g0.node(q) by {
        let i = choose|i: int| 0 <= i < g0.entries@.len() && g0.entries@[i].path@ == q;
        g0.lemma_at_idx(i);
        assert(i != k);
        let ni = if i < k {
            i
        } else {
            i - 1
        };
        assert(g1.entries@[ni] == g0.entries@[i]);
        assert(g1.registered(q));
        g1.lemma_at_idx(ni);
    }
}

/// Dependency edge symmetry: the load of `a` read `b` exactly when `a`
/// is among the dependents of `b`.
pub proof fn lemma_edge_symmetry(g: Dependencies, a: Seq<char>, b: Seq<char>)
    requires
        g.wf(),
    ensures
        g.reads_has(a, b) <==> g.read_by_has(b, a),
{
}

/// The graph after a load of `p` that read the paths `ds`: `p` and every
/// read path registered, an edge from `p` to each read path, everything
/// else as before.
pub open spec fn graph_after_load(
    g0: Dependencies,
    g1: Dependencies,
    p: Seq<char>,
    ds: Seq<Seq<char>>,
) -> bool {
    &&& forall|q: Seq<char>|
        #[trigger] g1.registered(q) <==> g0.registered(q) || q == p || ds.contains(q)
    &&& forall|q: Seq<char>, d: Seq<char>|
        #[trigger] g1.reads_has(q, d) <==> g0.reads_has(q, d) || (q == p && ds.contains(d))
    &&& forall|q: Seq<char>, d: Seq<char>|
        #[trigger] g1.read_by_has(q, d) <==> g0.read_by_has(q, d) || (ds.contains(q) && d == p)
}

impl Dependencies {
    /// Removes the path's node and severs, in both directions, every edge
    /// that names the path; a second call is a no-op.
    pub fn unregister(&mut self, path: &str)
        requires
            old(self).wf(),
        ensures
            final(self).wf(),
            forall|q: Seq<char>|
                #[trigger] final(self).registered(q) <==> old(self).registered(q) && q != path@,
            forall|q: Seq<char>, d: Seq<char>|
                #[trigger] final(self).reads_has(q, d) <==> old(self).reads_has(q, d) && q != path@
                    && d != path@,
            forall|q: Seq<char>, d: Seq<char>|
                #[trigger] final(self).read_by_has(q, d) <==> old(self).read_by_has(q, d) && q
                    != path@ && d != path@,
            !old(self).registered(path@) ==> *final(self) == *old(self),
    {
        let found = self.find(path);
        if found.is_none() {
            return ;
        }
        let pi = found.unwrap();
        let ghost g0 = *old(self);
        proof {
            g0.lemma_at_idx(pi as int);
        }
        self.entries.remove(pi);
        let ghost g1 = *self;
        proof {
            lemma_remove_entry(g0, g1, pi as int);
        }
        let n = self.entries.len();
        let mut k: usize = 0;
        while k < n
            invariant
                n == self.entries@.len(),
                k <= n,
                g1.entries@.len() == n,
                g1.paths_distinct(),
                forall|i: int|
                    0 <= i < n ==> #[trigger] self.entries@[i].path@ == g1.entries@[i].path@,
                forall|i: int| k <= i < n ==> #[trigger] self.entries@[i] == g1.entries@[i],
                forall|i: int, y: Seq<char>|
                    0 <= i < k ==> (#[trigger] has_str(self.entries@[i].reads@, y) <==> has_str(
                        g1.entries@[i].reads@,
                        y,
                    ) && y != path@),
                forall|i: int, y: Seq<char>|
                    0 <= i < k ==> (#[trigger] has_str(self.entries@[i].read_by@, y) <==> has_str(
                        g1.entries@[i].read_by@,
                        y,
                    ) && y != path@),
                forall|i: int|
                    #![trigger self.entries@[i]]
                    0 <= i < k ==> nodup_str(self.entries@[i].reads@) && nodup_str(
                        self.entries@[i].read_by@,
                    ),
                forall|i: int|
                    #![trigger g1.entries@[i]]
                    0 <= i < n ==> nodup_str(g1.entries@[i].reads@) && nodup_str(
                        g1.entries@[i].read_by@,
                    ),
            decreases n - k,
        {
            let ghost gpre = *self;
            proof {
                assert(self.entries@[k as int] == g1.entries@[k as int]);
                assert(nodup_str(g1.entries@[k as int].reads@) && nodup_str(
                    g1.entries@[k as int].read_by@,
                ));
            }
            let mut e = self.entries.remove(k);
            vec_remove_str(&mut e.reads, path);
            vec_remove_str(&mut e.read_by, path);
            let ghost e1 = e;
            self.entries.insert(k, e);
            proof {
                assert(self.entries@ =~= gpre.entries@.update(k as int, e1)) by {
                    gpre.entries@.remove(k as int).insert_ensures(k as int, e1);
                    gpre.entries@.remove_ensures(k as int);
                }
            }
            k += 1;
        }
        proof {
            let g2 = *self;
            assert forall|q: Seq<char>| #[trigger] g2.registered(q) <==> (g0.registered(q) && q
                != path@) by {
                if g2.registered(q) {
                    let i = choose|i: int|
                        0 <= i < g2.entries@.len() && g2.entries@[i].path@ == q;
                    assert(g1.entries@[i].path@ == q);
                    assert(g1.registered(q));
                }
                if g1.registered(q) {
                    let i = choose|i: int|
                        0 <= i < g1.entries@.len() && g1.entries@[i].path@ == q;
                    assert(g2.entries@[i].path@ == q);
                    assert(g2.registered(q));
                }
            }
            assert(g2.paths_distinct()) by {
                assert forall|a: int, b: int|
                    0 <= a < b < g2.entries@.len() implies g2.entries@[a].path@
                    != g2.entries@[b].path@ by {
                    assert(g1.entries@[a].path@ != g1.entries@[b].path@);
                }
            }
            assert forall|q: Seq<char>|
                g2.registered(q) implies #[trigger] g2.idx_of(q) == g1.idx_of(q) && g1.registered(
                q,
            ) by {
                let i = choose|i: int| 0 <= i < g1.entries@.len() && g1.entries@[i].path@ == q;
                g1.lemma_at_idx(i);
                assert(g2.entries@[i].path@ == q);
                g2.lemma_at_idx(i);
            }
            assert forall|q: Seq<char>, d: Seq<char>| #[trigger] g2.reads_has(q, d) <==> (
            g0.reads_has(q, d) && q != path@ && d != path@) by {
                if g2.registered(q) {
                    let i = g2.idx_of(q);
                    assert(g2.node(q) == g2.entries@[i]);
                    assert(g1.node(q) == g1.entries@[i]);
                    assert(has_str(g2.entries@[i].reads@, d) <==> has_str(
                        g1.entries@[i].reads@,
                        d,
                    ) && d != path@);
                    assert(g1.node(q) == g0.node(q));
                }
            }
            assert forall|q: Seq<char>, d: Seq<char>| #[trigger] g2.read_by_has(q, d) <==> (
            g0.read_by_has(q, d) && q != path@ && d != path@) by {
                if g2.registered(q) {
                    let i = g2.idx_of(q);
                    assert(g2.node(q) == g2.entries@[i]);
                    assert(g1.node(q) == g1.entries@[i]);
                    assert(has_str(g2.entries@[i].read_by@, d) <==> has_str(
                        g1.entries@[i].read_by@,
                        d,
                    ) && d != path@);
                    assert(g1.node(q) == g0.node(q));
                }
            }
            assert(g2.sets_nodup()) by {
                assert forall|i: int|
                    #![trigger g2.entries@[i]]
                    0 <= i < g2.entries@.len() implies nodup_str(g2.entries@[i].reads@)
                    && nodup_str(g2.entries@[i].read_by@) by {}
            }
            assert(g2.edges_closed()) by {
                assert forall|p2: Seq<char>, d: Seq<char>| #[trigger] g2.reads_has(p2, d) implies
                    g2.registered(d) by {
                    assert(g0.reads_has(p2, d));
                }
            }
            assert(g2.symmetric()) by {
                assert forall|p2: Seq<char>, d: Seq<char>|
                    #![trigger g2.reads_has(p2, d)]
                    #![trigger g2.read_by_has(d, p2)]
                    g2.reads_has(p2, d) <==> g2.read_by_has(d, p2) by {
                    assert(g0.reads_has(p2, d) <==> g0.read_by_has(d, p2));
                }
            }
        }
    }

    /// The dependents of a registered path: the paths whose loads read it.
    pub fn get_dependents(&self, path: &str) -> (r: Option<Vec<String>>)
        requires
            self.wf(),
        ensures
            match r {
                Some(v) => {
                    &&& self.registered(path@)
                    &&& nodup_str(v@)
                    &&& forall|y: Seq<char>|
                        #[trigger] has_str(v@, y) <==> self.read_by_has(path@, y)
                },
                None => !self.registered(path@),
            },
    {
        let found = self.find(path);
        match found {
            Some(i) => {
                proof {
                    self.lemma_at_idx(i as int);
                }
                let out = clone_string_vec(&self.entries[i].read_by);
                proof {
                    let rb = self.entries@[i as int].read_by@;
                    assert forall|y: Seq<char>| #[trigger] has_str(out@, y) <==> has_str(
                        rb,
                        y,
                    ) by {
                        if has_str(out@, y) {
                            let j = choose|j: int| 0 <= j < out@.len() && out@[j]@ == y;
                            assert(rb[j]@ == y);
                        }
                        if has_str(rb, y) {
                            let j = choose|j: int| 0 <= j < rb.len() && rb[j]@ == y;
                            assert(out@[j]@ == y);
                        }
                    }
                    assert(nodup_str(rb));
                    assert(nodup_str(out@)) by {
                        assert forall|a: int, b: int|
                            0 <= a < b < out@.len() implies out@[a]@ != out@[b]@ by {
                            assert(out@[a]@ == rb[a]@);
                            assert(out@[b]@ == rb[b]@);
                        }
                    }
                }
                Some(out)
            },
            None => None,
        }
    }

    /// Every node of the graph.
    pub fn dependencies(&self) -> (r: &Vec<Dependency>)
        ensures
            r@ == self.entries@,
    {
        &self.entries
    }
}

/// Decorates a byte source, recording the view of every path that was
/// successfully resolved through it since the recorder was last drained.
pub struct DependencyResolver<R> {
    pub inner: R,
    pub recorded: Vec<String>,
}

impl<R: AssetResolver> DependencyResolver<R> {
    pub fn new(inner: R) -> (r: Self)
        ensures
            r.inner == inner,
            r.recorded@ == Seq::<String>::empty(),
    {
        DependencyResolver { inner, recorded: Vec::new() }
    }

    /// Drains the recorder: hands out the recorded paths and leaves the
    /// recorder empty for the next load.
    pub fn collect(&mut self) -> (r: Vec<String>)
        ensures
            r == old(self).recorded,
            final(self).recorded@ == Seq::<String>::empty(),
            final(self).inner == old(self).inner,
    {
        let mut out: Vec<String> = Vec::new();
        core::mem::swap(&mut out, &mut self.recorded);
        out
    }

    /// Resolves through the wrapped source and records the path on success.
    pub fn record_resolve(&mut self, path: &str) -> (r: Result<Vec<u8>, CassetError>)
        ensures
            r is Ok ==> forall|y: Seq<char>|
                has_str(final(self).recorded@, y) <==> has_str(old(self).recorded@, y) || y
                    == path@,
            r is Err ==> final(self).recorded == old(self).recorded,
            nodup_str(old(self).recorded@) ==> nodup_str(final(self).recorded@),
    {
        match self.inner.resolve(path) {
            Ok(bytes) => {
                vec_insert_str(&mut self.recorded, path);
                Ok(bytes)
            },
            Err(e) => Err(e),
        }
    }
}

impl<R: AssetResolver> AssetResolver for DependencyResolver<R> {
    fn resolve(&mut self, path: &str) -> (r: Result<Vec<u8>, CassetError>)
        ensures
            r is Ok ==> forall|y: Seq<char>|
                has_str(final(self).recorded@, y) <==> has_str(old(self).recorded@, y) || y
                    == path@,
            r is Err ==> final(self).recorded == old(self).recorded,
            nodup_str(old(self).recorded@) ==> nodup_str(final(self).recorded@),
    {
        self.record_resolve(path)
    }

    fn hot_swap_path(&self) -> Option<String> {
        self.inner.hot_swap_path()
    }
}


/// The views of the first `k` strings of a vector of strings.
pub open spec fn strs_prefix(s: Seq<String>, k: int) -> Seq<Seq<char>> {
    s.subrange(0, k).map_values(|x: String| x@)
}

/// Extending the prefix by one string adds exactly its view.
proof fn lemma_prefix_step(s: Seq<String>, k: int)
    requires
        0 <= k < s.len(),
    ensures
        forall|x: Seq<char>|
            #[trigger] strs_prefix(s, k + 1).contains(x) <==> strs_prefix(s, k).contains(x) || x
                == s[k]@,
{
    let pre = strs_prefix(s, k);
    let pre1 = strs_prefix(s, k + 1);
    assert(pre1 =~= pre.push(s[k]@));
    assert forall|x: Seq<char>| #[trigger] pre1.contains(x) <==> pre.contains(x) || x
        == s[k]@ by {
        if pre1.contains(x) {
            let i = choose|i: int| 0 <= i < pre1.len() && pre1[i] == x;
            if i < pre.len() {
                assert(pre[i] == x);
            }
        }
        if pre.contains(x) {
            let i = choose|i: int| 0 <= i < pre.len() && pre[i] == x;
            assert(pre1[i] == x);
        }
        if x == s[k]@ {
            assert(pre1[pre.len() as int] == x);
        }
    }
}

impl Dependencies {
    /// Records what one load of `path` read: registers `path` and every
    /// path of `reads`, and adds one edge from `path` to each of them.
    /// The graph changes in no other way.
    pub fn record_load_edges(&mut self, path: &str, reads: &Vec<String>)
        requires
            old(self).wf(),
        ensures
            final(self).wf(),
            graph_after_load(*old(self), *final(self), path@, reads.deep_view()),
    {
        let ghost g0 = *self;
        self.register(path);
        proof {
            assert(strs_prefix(reads@, 0) =~= Seq::<Seq<char>>::empty());
            assert(graph_after_load(g0, *self, path@, strs_prefix(reads@, 0)));
        }
        let n = reads.len();
        let mut k: usize = 0;
        while k < n
            invariant
                n == reads@.len(),
                k <= n,
                self.wf(),
                graph_after_load(g0, *self, path@, strs_prefix(reads@, k as int)),
            decreases n - k,
        {
            let ghost gpre = *self;
            let d = reads[k].clone();
            self.register(d.as_str());
            let ghost gmid = *self;
            self.add(path, d.as_str());
            proof {
                lemma_prefix_step(reads@, k as int);
                let pre = strs_prefix(reads@, k as int);
                let pre1 = strs_prefix(reads@, k + 1 as int);
                assert(gmid.registered(path@));
                assert(gmid.registered(d@));
                assert forall|q: Seq<char>| #[trigger] self.registered(q) <==> (g0.registered(q)
                    || q == path@ || pre1.contains(q)) by {
                    assert(self.registered(q) == gmid.registered(q));
                    assert(gmid.registered(q) <==> gpre.registered(q) || q == d@);
                }
                assert forall|q: Seq<char>, x: Seq<char>| #[trigger] self.reads_has(q, x) <==> (
                g0.reads_has(q, x) || (q == path@ && pre1.contains(x))) by {
                    assert(gmid.reads_has(q, x) == gpre.reads_has(q, x));
                }
                assert forall|q: Seq<char>, x: Seq<char>| #[trigger] self.read_by_has(q, x) <==> (
                g0.read_by_has(q, x) || (pre1.contains(q) && x == path@)) by {
                    assert(gmid.read_by_has(q, x) == gpre.read_by_has(q, x));
                }
            }
            k += 1;
        }
        proof {
            assert(strs_prefix(reads@, n as int) =~= reads.deep_view());
        }
    }
}

} // verus!
